//! Dependency reconstruction for archive files: for every bucket of
//! the archive-scanning source, one containment edge is synthesized
//! from the archive's own self-entry to the components packaged inside
//! it.
use vstd::prelude::*;

use crate::grouping::Group;
use crate::model::{
    bytes_clone, bytes_eq, jar_source, jar_source_bytes, spec_find_property, virtual_path_key,
    virtual_path_key_bytes, Bom, Dependency, SpecComponent, SpecDependency,
};

verus! {

/// The archive virtual path recorded on a component, if any.
pub open spec fn comp_virtual_path(c: SpecComponent) -> Option<Seq<u8>> {
    spec_find_property(c.properties, virtual_path_key())
}

/// Whether a component is the archive's own self-entry for `path`:
/// its virtual-path property equals the bucket's path key.
pub open spec fn is_self_entry(c: SpecComponent, path: Seq<u8>) -> bool {
    comp_virtual_path(c) == Some(path)
}

/// Index of the first self-entry in a bucket, or -1 if there is none.
pub open spec fn first_parent_index(cs: Seq<SpecComponent>, path: Seq<u8>) -> int
    decreases cs.len(),
{
    if cs.len() == 0 {
        -1
    } else {
        let t = first_parent_index(cs.drop_last(), path);
        if t >= 0 {
            t
        } else if is_self_entry(cs.last(), path) {
            cs.len() - 1
        } else {
            -1
        }
    }
}

/// `first_parent_index` finds the first self-entry, and -1 exactly
/// when the bucket has none.
pub proof fn lemma_first_parent_index(cs: Seq<SpecComponent>, path: Seq<u8>)
    ensures
        -1 <= first_parent_index(cs, path) < cs.len(),
        first_parent_index(cs, path) >= 0 ==> {
            let i = first_parent_index(cs, path);
            &&& is_self_entry(cs[i], path)
            &&& forall|j: int| 0 <= j < i ==> !is_self_entry(cs[j], path)
        },
        first_parent_index(cs, path) == -1 ==> forall|j: int|
            0 <= j < cs.len() ==> !is_self_entry(cs[j], path),
    decreases cs.len(),
{
    if cs.len() > 0 {
        lemma_first_parent_index(cs.drop_last(), path);
        assert forall|j: int| 0 <= j < cs.len() - 1 implies cs.drop_last()[j] == cs[j] by {}
        let t = first_parent_index(cs.drop_last(), path);
        if t >= 0 {
            assert(is_self_entry(cs[t], path));
        } else if is_self_entry(cs.last(), path) {
            assert(is_self_entry(cs[cs.len() - 1], path));
        }
    }
}

/// Whether a bucket holds at least one component that is not the
/// archive's self-entry.
pub open spec fn has_child(cs: Seq<SpecComponent>, path: Seq<u8>) -> bool {
    exists|j: int| 0 <= j < cs.len() && !is_self_entry(cs[j], path)
}

/// References of the bucket's children, in index order: every
/// component that is not a self-entry and carries a reference.
pub open spec fn child_refs(cs: Seq<SpecComponent>, path: Seq<u8>) -> Seq<Seq<u8>>
    decreases cs.len(),
{
    if cs.len() == 0 {
        Seq::empty()
    } else {
        let rest = child_refs(cs.drop_last(), path);
        let c = cs.last();
        if !is_self_entry(c, path) && c.bom_ref is Some {
            rest.push(c.bom_ref.unwrap())
        } else {
            rest
        }
    }
}

/// Whether a bucket of the archive-scanning source emits an edge: it
/// has a self-entry and at least one other component.
pub open spec fn emits_edge(g: crate::grouping::SpecGroup) -> bool {
    &&& g.found_by == jar_source()
    &&& first_parent_index(g.components, g.path) >= 0
    &&& has_child(g.components, g.path)
}

/// The edges one bucket contributes: one edge from the first
/// self-entry's reference to the children's references, or nothing.
pub open spec fn group_edges(g: crate::grouping::SpecGroup) -> Seq<SpecDependency> {
    if emits_edge(g) {
        seq![
            SpecDependency {
                dependency_ref: g.components[first_parent_index(g.components, g.path)].bom_ref.unwrap(),
                dependencies: child_refs(g.components, g.path),
            },
        ]
    } else {
        Seq::empty()
    }
}

/// All edges the reconstruction appends, in bucket order.
pub open spec fn spec_jar_edges(gs: Seq<crate::grouping::SpecGroup>) -> Seq<SpecDependency>
    decreases gs.len(),
{
    if gs.len() == 0 {
        Seq::empty()
    } else {
        spec_jar_edges(gs.drop_last()) + group_edges(gs.last())
    }
}

/// Every bucket of the archive-scanning source that would emit an edge
/// has a reference on its first self-entry.
pub open spec fn parents_have_refs(gs: Seq<crate::grouping::SpecGroup>) -> bool {
    forall|gi: int|
        0 <= gi < gs.len() && emits_edge(#[trigger] gs[gi])
            ==> gs[gi].components[first_parent_index(gs[gi].components, gs[gi].path)].bom_ref
            is Some
}

/// Appends one containment edge per qualifying bucket of the
/// archive-scanning source to the document's relationship list.  The
/// component list is untouched; existing edges are kept, the new ones
/// follow them in bucket order.
pub fn process_jar_dependencies(bom: &mut Bom, groups: &Vec<Group>)
    requires
        parents_have_refs(groups.deep_view()),
    ensures
        final(bom)@.components == old(bom)@.components,
        final(bom)@.dependencies == old(bom)@.dependencies + spec_jar_edges(groups.deep_view()),
{
    let jar = jar_source_bytes();
    let vkey = virtual_path_key_bytes();
    let mut gi: usize = 0;
    proof {
        assert(bom@.dependencies =~= old(bom)@.dependencies + spec_jar_edges(
            groups.deep_view().take(0),
        ));
    }
    while gi < groups.len()
        invariant
            gi <= groups.len(),
            parents_have_refs(groups.deep_view()),
            bom@.components == old(bom)@.components,
            bom@.dependencies == old(bom)@.dependencies + spec_jar_edges(
                groups.deep_view().take(gi as int),
            ),
            jar@ == jar_source(),
            vkey@ == virtual_path_key(),
        decreases groups.len() - gi,
    {
        let ghost gv = groups.deep_view()[gi as int];
        let g = &groups[gi];
        proof {
            assert(g.deep_view() == gv);
            assert(groups.deep_view().take(gi as int + 1).drop_last() =~= groups.deep_view().take(
                gi as int,
            ));
            assert(groups.deep_view().take(gi as int + 1).last() == gv);
        }
        if bytes_eq(&g.found_by, &jar) {
            let mut parent: Option<usize> = None;
            let mut kid_refs: Vec<Vec<u8>> = Vec::new();
            let mut any_child: bool = false;
            let mut ci: usize = 0;
            proof {
                assert(gv.components.take(0) =~= Seq::<SpecComponent>::empty());
            }
            while ci < g.components.len()
                invariant
                    ci <= g.components.len(),
                    g.deep_view() == gv,
                    vkey@ == virtual_path_key(),
                    match parent {
                        Some(pi) => pi < ci && first_parent_index(
                            gv.components.take(ci as int),
                            gv.path,
                        ) == pi as int,
                        None => first_parent_index(gv.components.take(ci as int), gv.path) == -1,
                    },
                    kid_refs.deep_view() == child_refs(gv.components.take(ci as int), gv.path),
                    any_child == exists|j: int|
                        0 <= j < ci && !is_self_entry(gv.components[j], gv.path),
                decreases g.components.len() - ci,
            {
                let c = &g.components[ci];
                proof {
                    assert(c.deep_view() == gv.components[ci as int]);
                    assert(gv.components.take(ci as int + 1).drop_last() =~= gv.components.take(
                        ci as int,
                    ));
                    assert(gv.components.take(ci as int + 1).last() == gv.components[ci as int]);
                }
                let is_parent: bool = match c.get_property(&vkey) {
                    Some(vp) => bytes_eq(&vp, &g.path),
                    None => false,
                };
                proof {
                    assert(is_parent == is_self_entry(gv.components[ci as int], gv.path));
                }
                if is_parent {
                    if parent.is_none() {
                        parent = Some(ci);
                    }
                } else {
                    any_child = true;
                    if let Some(r) = &c.bom_ref {
                        let ghost pre = kid_refs.deep_view();
                        kid_refs.push(bytes_clone(r));
                        proof {
                            assert(pre.len() == child_refs(
                                gv.components.take(ci as int),
                                gv.path,
                            ).len());
                            assert(kid_refs@.len() == pre.len() + 1);
                            assert(kid_refs.deep_view().len() == kid_refs@.len());
                            assert forall|j: int| 0 <= j < pre.len() implies kid_refs.deep_view()[j]
                                == pre[j] by {}
                            assert(kid_refs.deep_view() =~~= child_refs(
                                gv.components.take(ci as int + 1),
                                gv.path,
                            ));
                        }
                    }
                }
                ci = ci + 1;
            }
            proof {
                assert(gv.components.take(g.components.len() as int) =~= gv.components);
            }
            if let Some(pi) = parent {
                if any_child {
                    proof {
                        lemma_first_parent_index(gv.components, gv.path);
                        assert(emits_edge(gv));
                        assert(gv.components[pi as int].bom_ref is Some);
                    }
                    let parent_ref: Vec<u8> = match &g.components[pi].bom_ref {
                        Some(r) => bytes_clone(r),
                        None => vstd::pervasive::unreached(),
                    };
                    let ghost pre_deps = bom@.dependencies;
                    let edge = Dependency { dependency_ref: parent_ref, dependencies: kid_refs };
                    bom.dependencies.push(edge);
                    proof {
                        assert(bom@.dependencies =~~= pre_deps + group_edges(gv));
                        assert(bom@.dependencies =~~= old(bom)@.dependencies + spec_jar_edges(
                            groups.deep_view().take(gi as int + 1),
                        ));
                    }
                } else {
                    proof {
                        assert(!has_child(gv.components, gv.path));
                        assert(bom@.dependencies =~= old(bom)@.dependencies + spec_jar_edges(
                            groups.deep_view().take(gi as int + 1),
                        ));
                    }
                }
            } else {
                proof {
                    assert(first_parent_index(gv.components, gv.path) == -1);
                    assert(bom@.dependencies =~= old(bom)@.dependencies + spec_jar_edges(
                        groups.deep_view().take(gi as int + 1),
                    ));
                }
            }
        } else {
            proof {
                assert(gv.found_by != jar_source());
                assert(bom@.dependencies =~= old(bom)@.dependencies + spec_jar_edges(
                    groups.deep_view().take(gi as int + 1),
                ));
            }
        }
        gi = gi + 1;
    }
    proof {
        assert(groups.deep_view().take(groups.len() as int) =~= groups.deep_view());
    }
}

} // verus!
