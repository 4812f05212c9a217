//! Final normalization pass: operating-system components named
//! `"rhel"` are renamed to `"redhat"`; everything else is untouched.
use vstd::prelude::*;

use crate::model::{
    bytes_eq, clone_component, os_type, os_type_bytes, redhat_name, redhat_name_bytes, rhel_name,
    rhel_name_bytes, Bom, Component, SpecComponent,
};

verus! {

/// One component after the fix-up: the name becomes `"redhat"` when
/// the type is `"operating-system"` and the name is `"rhel"`.
pub open spec fn spec_fix_component(c: SpecComponent) -> SpecComponent {
    if c.component_type == os_type() && c.name == rhel_name() {
        SpecComponent { name: redhat_name(), ..c }
    } else {
        c
    }
}

/// The whole component list after the fix-up.
pub open spec fn spec_fix_os_names(cs: Seq<SpecComponent>) -> Seq<SpecComponent> {
    cs.map_values(|c: SpecComponent| spec_fix_component(c))
}

/// Renames every operating-system component called `"rhel"` to
/// `"redhat"`, leaving all other components and every relationship
/// edge unchanged.
pub fn fix_os_names(bom: &mut Bom)
    ensures
        final(bom)@.components == spec_fix_os_names(old(bom)@.components),
        final(bom)@.dependencies == old(bom)@.dependencies,
{
    let os_ty = os_type_bytes();
    let rhel = rhel_name_bytes();
    let mut out: Vec<Component> = Vec::new();
    let mut i: usize = 0;
    while i < bom.components.len()
        invariant
            i <= bom.components.len(),
            out.deep_view() == spec_fix_os_names(bom@.components.take(i as int)),
            os_ty@ == os_type(),
            rhel@ == rhel_name(),
        decreases bom.components.len() - i,
    {
        let ghost pre = out.deep_view();
        let c = &bom.components[i];
        let mut copy = clone_component(c);
        if bytes_eq(&copy.component_type, &os_ty) && bytes_eq(&copy.name, &rhel) {
            copy.name = redhat_name_bytes();
        }
        out.push(copy);
        proof {
            assert(pre.len() == i as int);
            assert(out@.len() == i + 1);
            assert(out.deep_view().len() == out@.len());
            assert forall|j: int| 0 <= j <= i implies out.deep_view()[j] == spec_fix_os_names(
                bom@.components.take(i as int + 1),
            )[j] by {
                if j < i {
                    assert(out.deep_view()[j] == pre[j]);
                    assert(bom@.components.take(i as int)[j] == bom@.components.take(
                        i as int + 1,
                    )[j]);
                }
            }
            assert(out.deep_view() =~~= spec_fix_os_names(bom@.components.take(i as int + 1)));
        }
        i = i + 1;
    }
    proof {
        assert(bom@.components.take(bom.components.len() as int) =~= bom@.components);
    }
    bom.components = out;
}

} // verus!
