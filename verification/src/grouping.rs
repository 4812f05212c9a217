//! Grouping of components by provenance: which cataloger found a
//! component and at which filesystem location.  The index is a flat
//! list of buckets keyed by the (source, path) pair, in order of first
//! appearance; within a bucket, components keep their encounter order.
use vstd::prelude::*;

use crate::model::{
    found_by_key, found_by_key_bytes, location_key, location_key_bytes, spec_find_property,
    clone_component, Bom, Component, SpecComponent,
};

verus! {

/// One bucket of the grouped index: every component that carries the
/// provenance pair (`found_by`, `path`), in encounter order.
pub struct Group {
    pub found_by: Vec<u8>,
    pub path: Vec<u8>,
    pub components: Vec<Component>,
}

/// Mathematical image of a `Group`.
#[verifier::ext_equal]
pub struct SpecGroup {
    pub found_by: Seq<u8>,
    pub path: Seq<u8>,
    pub components: Seq<SpecComponent>,
}

impl DeepView for Group {
    type V = SpecGroup;

    open spec fn deep_view(&self) -> SpecGroup {
        SpecGroup {
            found_by: self.found_by@,
            path: self.path@,
            components: self.components.deep_view(),
        }
    }
}

/// The cataloger recorded on a component, if any.
pub open spec fn comp_found_by(c: SpecComponent) -> Option<Seq<u8>> {
    spec_find_property(c.properties, found_by_key())
}

/// The filesystem location recorded on a component, if any.
pub open spec fn comp_location(c: SpecComponent) -> Option<Seq<u8>> {
    spec_find_property(c.properties, location_key())
}

/// Index of the bucket keyed by (`source`, `path`), or -1 if absent.
pub open spec fn group_index_of(gs: Seq<SpecGroup>, source: Seq<u8>, path: Seq<u8>) -> int
    decreases gs.len(),
{
    if gs.len() == 0 {
        -1
    } else if gs[0].found_by == source && gs[0].path == path {
        0
    } else {
        let t = group_index_of(gs.drop_first(), source, path);
        if t < 0 {
            -1
        } else {
            t + 1
        }
    }
}

/// `group_index_of` finds the first bucket with the given key, and -1
/// exactly when no bucket has it.
pub proof fn lemma_group_index_of(gs: Seq<SpecGroup>, source: Seq<u8>, path: Seq<u8>)
    ensures
        -1 <= group_index_of(gs, source, path) < gs.len(),
        group_index_of(gs, source, path) >= 0 ==> {
            let i = group_index_of(gs, source, path);
            &&& gs[i].found_by == source
            &&& gs[i].path == path
            &&& forall|j: int|
                0 <= j < i ==> !(gs[j].found_by == source && gs[j].path == path)
        },
        group_index_of(gs, source, path) == -1 ==> forall|j: int|
            0 <= j < gs.len() ==> !(gs[j].found_by == source && gs[j].path == path),
    decreases gs.len(),
{
    if gs.len() > 0 {
        if !(gs[0].found_by == source && gs[0].path == path) {
            lemma_group_index_of(gs.drop_first(), source, path);
            let t = group_index_of(gs.drop_first(), source, path);
            if t >= 0 {
                assert forall|j: int| 0 <= j < t + 1 implies !(gs[j].found_by == source
                    && gs[j].path == path) by {
                    if j > 0 {
                        assert(gs.drop_first()[j - 1] == gs[j]);
                    }
                }
            } else {
                assert forall|j: int| 0 <= j < gs.len() implies !(gs[j].found_by == source
                    && gs[j].path == path) by {
                    if j > 0 {
                        assert(gs.drop_first()[j - 1] == gs[j]);
                    }
                }
            }
        }
    }
}

/// The index after one more component has been taken in: a component
/// carrying both provenance properties joins its bucket (or opens a new
/// one at the end); any other component is left out.
pub open spec fn group_insert(gs: Seq<SpecGroup>, c: SpecComponent) -> Seq<SpecGroup> {
    match (comp_found_by(c), comp_location(c)) {
        (Some(source), Some(path)) => {
            let i = group_index_of(gs, source, path);
            if i >= 0 {
                gs.update(
                    i,
                    SpecGroup {
                        found_by: gs[i].found_by,
                        path: gs[i].path,
                        components: gs[i].components.push(c),
                    },
                )
            } else {
                gs.push(SpecGroup { found_by: source, path: path, components: seq![c] })
            }
        },
        _ => gs,
    }
}

/// The grouped index of a component list.
pub open spec fn spec_group(cs: Seq<SpecComponent>) -> Seq<SpecGroup>
    decreases cs.len(),
{
    if cs.len() == 0 {
        Seq::empty()
    } else {
        group_insert(spec_group(cs.drop_last()), cs.last())
    }
}

/// Every bucket holds only components whose provenance properties
/// match the bucket's key.
pub open spec fn buckets_consistent(gs: Seq<SpecGroup>) -> bool {
    forall|gi: int, ci: int|
        0 <= gi < gs.len() && 0 <= ci < gs[gi].components.len() ==> {
            &&& comp_found_by(#[trigger] gs[gi].components[ci]) == Some(gs[gi].found_by)
            &&& comp_location(gs[gi].components[ci]) == Some(gs[gi].path)
        }
}

/// The grouped index keeps provenance and bucket key in step.
pub proof fn lemma_buckets_consistent(cs: Seq<SpecComponent>)
    ensures
        buckets_consistent(spec_group(cs)),
    decreases cs.len(),
{
    if cs.len() > 0 {
        lemma_buckets_consistent(cs.drop_last());
        let gs0 = spec_group(cs.drop_last());
        let c = cs.last();
        let gs1 = spec_group(cs);
        assert forall|gi: int, ci: int|
            0 <= gi < gs1.len() && 0 <= ci < gs1[gi].components.len() implies {
            &&& comp_found_by(#[trigger] gs1[gi].components[ci]) == Some(gs1[gi].found_by)
            &&& comp_location(gs1[gi].components[ci]) == Some(gs1[gi].path)
        } by {
            match (comp_found_by(c), comp_location(c)) {
                (Some(s), Some(p)) => {
                    let bi = group_index_of(gs0, s, p);
                    lemma_group_index_of(gs0, s, p);
                    if bi >= 0 {
                        if gi == bi {
                            assert(gs1[gi].components == gs0[bi].components.push(c));
                            assert(gs1[gi].found_by == gs0[bi].found_by);
                            assert(gs1[gi].path == gs0[bi].path);
                            if ci < gs0[bi].components.len() {
                                assert(gs1[gi].components[ci] == gs0[bi].components[ci]);
                            } else {
                                assert(gs1[gi].components[ci] == c);
                            }
                        } else {
                            assert(gs1[gi] == gs0[gi]);
                        }
                    } else {
                        if gi == gs0.len() {
                            assert(gs1[gi].components == seq![c]);
                            assert(gs1[gi].components[ci] == c);
                        } else {
                            assert(gs1[gi] == gs0[gi]);
                        }
                    }
                },
                _ => {
                    assert(gs1[gi] == gs0[gi]);
                },
            }
        }
    }
}

/// Finds the bucket keyed by (`source`, `path`) in the index.
fn find_group(groups: &Vec<Group>, source: &Vec<u8>, path: &Vec<u8>) -> (r: Option<usize>)
    ensures
        match r {
            Some(i) => i < groups.len() && group_index_of(groups.deep_view(), source@, path@)
                == i as int,
            None => group_index_of(groups.deep_view(), source@, path@) == -1,
        },
{
    proof {
        lemma_group_index_of(groups.deep_view(), source@, path@);
    }
    let mut i: usize = 0;
    while i < groups.len()
        invariant
            i <= groups.len(),
            forall|j: int|
                0 <= j < i ==> !(groups.deep_view()[j].found_by == source@
                    && groups.deep_view()[j].path == path@),
        decreases groups.len() - i,
    {
        if crate::model::bytes_eq(&groups[i].found_by, source)
            && crate::model::bytes_eq(&groups[i].path, path) {
            proof {
                let gs = groups.deep_view();
                lemma_group_index_of(gs, source@, path@);
                let idx = group_index_of(gs, source@, path@);
                assert(gs[i as int].found_by == source@ && gs[i as int].path == path@);
                assert(idx == i as int) by {
                    if idx == -1 || idx > i as int {
                        assert(!(gs[i as int].found_by == source@ && gs[i as int].path == path@));
                    }
                    if -1 < idx < i as int {
                        assert(!(gs[idx].found_by == source@ && gs[idx].path == path@));
                    }
                }
            }
            return Some(i);
        }
        i = i + 1;
    }
    proof {
        let gs = groups.deep_view();
        lemma_group_index_of(gs, source@, path@);
        let idx = group_index_of(gs, source@, path@);
        if idx >= 0 {
            assert(!(gs[idx].found_by == source@ && gs[idx].path == path@));
        }
    }
    None
}

/// Builds the grouped index of the document's component list: each
/// component carrying both a cataloger and a location property is
/// appended, in encounter order, to the bucket keyed by those two
/// values; components lacking either property are excluded.
pub fn group_components(bom: &Bom) -> (groups: Vec<Group>)
    ensures
        groups.deep_view() == spec_group(bom@.components),
{
    let found_by_name = found_by_key_bytes();
    let location_name = location_key_bytes();
    let mut groups: Vec<Group> = Vec::new();
    let mut i: usize = 0;
    while i < bom.components.len()
        invariant
            i <= bom.components.len(),
            groups.deep_view() == spec_group(bom@.components.take(i as int)),
            found_by_name@ == found_by_key(),
            location_name@ == location_key(),
        decreases bom.components.len() - i,
    {
        let c = &bom.components[i];
        proof {
            assert(bom@.components.take(i as int + 1).drop_last() =~= bom@.components.take(
                i as int,
            ));
            assert(bom@.components.take(i as int + 1).last() == c.deep_view());
        }
        let ghost pre = groups.deep_view();
        if let Some(fb) = c.get_property(&found_by_name) {
            if let Some(path) = c.get_property(&location_name) {
                match find_group(&groups, &fb, &path) {
                    Some(gi) => {
                        let mut g = groups.remove(gi);
                        g.components.push(clone_component(c));
                        groups.insert(gi, g);
                        proof {
                            assert(groups.deep_view() =~~= group_insert(pre, c.deep_view()));
                        }
                    },
                    None => {
                        let mut members: Vec<Component> = Vec::new();
                        members.push(clone_component(c));
                        groups.push(Group { found_by: fb, path: path, components: members });
                        proof {
                            assert(groups.deep_view() =~~= group_insert(pre, c.deep_view()));
                        }
                    },
                }
            }
        }
        i = i + 1;
    }
    proof {
        assert(bom@.components.take(bom.components.len() as int) =~= bom@.components);
    }
    groups
}

} // verus!
