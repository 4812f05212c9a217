//! Data model for a bill-of-materials document: components, their
//! key/value properties, and the dependency edges between component
//! references.  All strings are held as byte vectors so that contracts
//! can speak of them as `Seq<u8>`.
use vstd::prelude::*;

verus! {

/// The deep view of a byte vector is its view.
pub broadcast proof fn lemma_bytes_deep_view(v: Vec<u8>)
    ensures
        #[trigger] v.deep_view() == v@,
{
    assert(v.deep_view() =~= v@);
}

/// One key/value entry in a component's ordered property list.
pub struct Property {
    pub name: Vec<u8>,
    pub value: Vec<u8>,
}

/// Mathematical image of a `Property`.
#[verifier::ext_equal]
pub struct SpecProperty {
    pub name: Seq<u8>,
    pub value: Seq<u8>,
}

impl DeepView for Property {
    type V = SpecProperty;

    open spec fn deep_view(&self) -> SpecProperty {
        SpecProperty { name: self.name@, value: self.value@ }
    }
}

/// A discovered software unit.  `bom_ref` is the document-unique
/// reference other parts of the document use to point at it; `purl` is
/// the optional package-identity string.
pub struct Component {
    pub bom_ref: Option<Vec<u8>>,
    pub purl: Option<Vec<u8>>,
    pub component_type: Vec<u8>,
    pub name: Vec<u8>,
    pub properties: Vec<Property>,
}

/// Mathematical image of a `Component`.
#[verifier::ext_equal]
pub struct SpecComponent {
    pub bom_ref: Option<Seq<u8>>,
    pub purl: Option<Seq<u8>>,
    pub component_type: Seq<u8>,
    pub name: Seq<u8>,
    pub properties: Seq<SpecProperty>,
}

impl DeepView for Component {
    type V = SpecComponent;

    open spec fn deep_view(&self) -> SpecComponent {
        SpecComponent {
            bom_ref: self.bom_ref.deep_view(),
            purl: self.purl.deep_view(),
            component_type: self.component_type@,
            name: self.name@,
            properties: self.properties.deep_view(),
        }
    }
}

/// A directed relationship edge: the component named by
/// `dependency_ref` depends on every component named in `dependencies`.
pub struct Dependency {
    pub dependency_ref: Vec<u8>,
    pub dependencies: Vec<Vec<u8>>,
}

/// Mathematical image of a `Dependency`.
#[verifier::ext_equal]
pub struct SpecDependency {
    pub dependency_ref: Seq<u8>,
    pub dependencies: Seq<Seq<u8>>,
}

impl DeepView for Dependency {
    type V = SpecDependency;

    open spec fn deep_view(&self) -> SpecDependency {
        SpecDependency {
            dependency_ref: self.dependency_ref@,
            dependencies: self.dependencies.deep_view(),
        }
    }
}

/// The document: an ordered component list and a relationship list.
pub struct Bom {
    pub components: Vec<Component>,
    pub dependencies: Vec<Dependency>,
}

/// Mathematical image of a `Bom`.
#[verifier::ext_equal]
pub struct SpecBom {
    pub components: Seq<SpecComponent>,
    pub dependencies: Seq<SpecDependency>,
}

impl View for Bom {
    type V = SpecBom;

    open spec fn view(&self) -> SpecBom {
        SpecBom {
            components: self.components.deep_view(),
            dependencies: self.dependencies.deep_view(),
        }
    }
}

/// Property name under which the discovering cataloger is recorded.
pub open spec fn found_by_key() -> Seq<u8> {
    seq![115u8, 121, 102, 116, 58, 112, 97, 99, 107, 97, 103, 101, 58, 102, 111, 117, 110, 100, 66, 121]
}

/// Property name under which the filesystem location is recorded.
pub open spec fn location_key() -> Seq<u8> {
    seq![115u8, 121, 102, 116, 58, 108, 111, 99, 97, 116, 105, 111, 110, 58, 48, 58, 112, 97, 116, 104]
}

/// Property name under which an archive's virtual path is recorded.
pub open spec fn virtual_path_key() -> Seq<u8> {
    seq![115u8, 121, 102, 116, 58, 109, 101, 116, 97, 100, 97, 116, 97, 58, 118, 105, 114, 116, 117, 97, 108, 80, 97, 116, 104]
}

/// Name of the archive-scanning provenance source.
pub open spec fn jar_source() -> Seq<u8> {
    seq![106u8, 97, 118, 97, 45, 97, 114, 99, 104, 105, 118, 101, 45, 99, 97, 116, 97, 108, 111, 103, 101, 114]
}

/// Name of the embedded-manifest (canonical) provenance source.
pub open spec fn sbom_source() -> Seq<u8> {
    seq![115u8, 98, 111, 109, 45, 99, 97, 116, 97, 108, 111, 103, 101, 114]
}

/// The operating-system type classification, `"operating-system"`.
pub open spec fn os_type() -> Seq<u8> {
    seq![111u8, 112, 101, 114, 97, 116, 105, 110, 103, 45, 115, 121, 115, 116, 101, 109]
}

/// The name `"rhel"`.
pub open spec fn rhel_name() -> Seq<u8> {
    seq![114u8, 104, 101, 108]
}

/// The name `"redhat"`.
pub open spec fn redhat_name() -> Seq<u8> {
    seq![114u8, 101, 100, 104, 97, 116]
}

/// Executable copy of `found_by_key`.
pub fn found_by_key_bytes() -> (r: Vec<u8>)
    ensures
        r@ == found_by_key(),
{
    let a: [u8; 20] = [115, 121, 102, 116, 58, 112, 97, 99, 107, 97, 103, 101, 58, 102, 111, 117, 110, 100, 66, 121];
    let r = vstd::slice::slice_to_vec(a.as_slice());
    proof {
        assert(r@ =~= found_by_key());
    }
    r
}

/// Executable copy of `location_key`.
pub fn location_key_bytes() -> (r: Vec<u8>)
    ensures
        r@ == location_key(),
{
    let a: [u8; 20] = [115, 121, 102, 116, 58, 108, 111, 99, 97, 116, 105, 111, 110, 58, 48, 58, 112, 97, 116, 104];
    let r = vstd::slice::slice_to_vec(a.as_slice());
    proof {
        assert(r@ =~= location_key());
    }
    r
}

/// Executable copy of `virtual_path_key`.
pub fn virtual_path_key_bytes() -> (r: Vec<u8>)
    ensures
        r@ == virtual_path_key(),
{
    let a: [u8; 25] = [115, 121, 102, 116, 58, 109, 101, 116, 97, 100, 97, 116, 97, 58, 118, 105, 114, 116, 117, 97, 108, 80, 97, 116, 104];
    let r = vstd::slice::slice_to_vec(a.as_slice());
    proof {
        assert(r@ =~= virtual_path_key());
    }
    r
}

/// Executable copy of `jar_source`.
pub fn jar_source_bytes() -> (r: Vec<u8>)
    ensures
        r@ == jar_source(),
{
    let a: [u8; 22] = [106, 97, 118, 97, 45, 97, 114, 99, 104, 105, 118, 101, 45, 99, 97, 116, 97, 108, 111, 103, 101, 114];
    let r = vstd::slice::slice_to_vec(a.as_slice());
    proof {
        assert(r@ =~= jar_source());
    }
    r
}

/// Executable copy of `sbom_source`.
pub fn sbom_source_bytes() -> (r: Vec<u8>)
    ensures
        r@ == sbom_source(),
{
    let a: [u8; 14] = [115, 98, 111, 109, 45, 99, 97, 116, 97, 108, 111, 103, 101, 114];
    let r = vstd::slice::slice_to_vec(a.as_slice());
    proof {
        assert(r@ =~= sbom_source());
    }
    r
}

/// Executable copy of `os_type`.
pub fn os_type_bytes() -> (r: Vec<u8>)
    ensures
        r@ == os_type(),
{
    let a: [u8; 16] = [111, 112, 101, 114, 97, 116, 105, 110, 103, 45, 115, 121, 115, 116, 101, 109];
    let r = vstd::slice::slice_to_vec(a.as_slice());
    proof {
        assert(r@ =~= os_type());
    }
    r
}

/// Executable copy of `rhel_name`.
pub fn rhel_name_bytes() -> (r: Vec<u8>)
    ensures
        r@ == rhel_name(),
{
    let a: [u8; 4] = [114, 104, 101, 108];
    let r = vstd::slice::slice_to_vec(a.as_slice());
    proof {
        assert(r@ =~= rhel_name());
    }
    r
}

/// Executable copy of `redhat_name`.
pub fn redhat_name_bytes() -> (r: Vec<u8>)
    ensures
        r@ == redhat_name(),
{
    let a: [u8; 6] = [114, 101, 100, 104, 97, 116];
    let r = vstd::slice::slice_to_vec(a.as_slice());
    proof {
        assert(r@ =~= redhat_name());
    }
    r
}

/// Byte-for-byte equality of two byte vectors.
pub fn bytes_eq(a: &Vec<u8>, b: &Vec<u8>) -> (r: bool)
    ensures
        r == (a@ == b@),
{
    if a.len() != b.len() {
        proof {
            assert(a@ != b@);
        }
        return false;
    }
    let mut i: usize = 0;
    while i < a.len()
        invariant
            i <= a.len(),
            a.len() == b.len(),
            forall|j: int| 0 <= j < i ==> a@[j] == b@[j],
        decreases a.len() - i,
    {
        if a[i] != b[i] {
            proof {
                assert(a@ != b@);
            }
            return false;
        }
        i = i + 1;
    }
    proof {
        assert(a@ =~= b@);
    }
    true
}

/// A fresh copy of a byte vector.
pub fn bytes_clone(v: &Vec<u8>) -> (r: Vec<u8>)
    ensures
        r@ == v@,
{
    let mut r: Vec<u8> = Vec::new();
    let mut i: usize = 0;
    while i < v.len()
        invariant
            i <= v.len(),
            r@ == v@.take(i as int),
        decreases v.len() - i,
    {
        r.push(v[i]);
        proof {
            assert(r@ =~= v@.take(i as int + 1));
        }
        i = i + 1;
    }
    proof {
        assert(r@ =~= v@);
    }
    r
}

/// A fresh copy of a property.
pub fn clone_property(p: &Property) -> (r: Property)
    ensures
        r.deep_view() == p.deep_view(),
{
    Property { name: bytes_clone(&p.name), value: bytes_clone(&p.value) }
}

/// A fresh copy of an optional byte vector.
pub fn clone_opt_bytes(o: &Option<Vec<u8>>) -> (r: Option<Vec<u8>>)
    ensures
        r.deep_view() == o.deep_view(),
{
    match o {
        Some(v) => Some(bytes_clone(v)),
        None => None,
    }
}

/// A fresh copy of a component.
pub fn clone_component(c: &Component) -> (r: Component)
    ensures
        r.deep_view() == c.deep_view(),
{
    let mut props: Vec<Property> = Vec::new();
    let mut i: usize = 0;
    while i < c.properties.len()
        invariant
            i <= c.properties.len(),
            props.deep_view() == c.properties.deep_view().take(i as int),
        decreases c.properties.len() - i,
    {
        let ghost pre = props.deep_view();
        let next = clone_property(&c.properties[i]);
        props.push(next);
        proof {
            assert(pre.len() == i as int);
            assert(props@.len() == i + 1);
            assert(props.deep_view().len() == props@.len());
            assert forall|j: int| 0 <= j <= i implies props.deep_view()[j]
                == c.properties.deep_view()[j] by {
                if j < i {
                    assert(props.deep_view()[j] == pre[j]);
                }
            }
            assert(props.deep_view() =~~= c.properties.deep_view().take(i as int + 1));
        }
        i = i + 1;
    }
    proof {
        assert(props.deep_view() =~~= c.properties.deep_view());
    }
    Component {
        bom_ref: clone_opt_bytes(&c.bom_ref),
        purl: clone_opt_bytes(&c.purl),
        component_type: bytes_clone(&c.component_type),
        name: bytes_clone(&c.name),
        properties: props,
    }
}

/// The value of the first property named `name`, if any.
pub open spec fn spec_find_property(props: Seq<SpecProperty>, name: Seq<u8>) -> Option<Seq<u8>>
    decreases props.len(),
{
    if props.len() == 0 {
        None
    } else if props[0].name == name {
        Some(props[0].value)
    } else {
        spec_find_property(props.drop_first(), name)
    }
}

/// The deep view of an optional byte vector.
pub open spec fn opt_bytes_view(o: Option<Vec<u8>>) -> Option<Seq<u8>> {
    match o {
        Some(v) => Some(v@),
        None => None,
    }
}

impl Component {
    /// The value of this component's first property named `name`, if any.
    pub fn get_property(&self, name: &Vec<u8>) -> (r: Option<Vec<u8>>)
        ensures
            opt_bytes_view(r) == spec_find_property(self.properties.deep_view(), name@),
    {
        let mut i: usize = 0;
        proof {
            assert(self.properties.deep_view().skip(0) =~= self.properties.deep_view());
        }
        while i < self.properties.len()
            invariant
                i <= self.properties.len(),
                spec_find_property(self.properties.deep_view(), name@)
                    == spec_find_property(self.properties.deep_view().skip(i as int), name@),
            decreases self.properties.len() - i,
        {
            proof {
                assert(self.properties.deep_view().skip(i as int).drop_first()
                    =~= self.properties.deep_view().skip(i as int + 1));
            }
            if bytes_eq(&self.properties[i].name, name) {
                return Some(bytes_clone(&self.properties[i].value));
            }
            i = i + 1;
        }
        None
    }
}

} // verus!
