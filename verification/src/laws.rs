//! Global guarantees of the merge: uniqueness of identities,
//! preservation of input order, referential integrity of the rewritten
//! relationship graph, and preference for the canonical record.
use vstd::prelude::*;

use crate::grouping::{spec_group, SpecGroup};
use crate::jar_deps::{child_refs, emits_edge, first_parent_index, group_edges, parents_have_refs, spec_jar_edges};
use crate::merge::{
    bucket_elems_in, canon_ref, first_key_index, first_key_ref, has_keyed_ref, is_member, key_of,
    lemma_canon_is_doc_ref, lemma_canon_ref_none, lemma_first_key_index, lemma_group_elems,
    lemma_resolver_index, merge_prefix, purls_have_refs, refs_unique, resolver_index, resolves,
    retained_at, sbom_components, spec_merge_components, spec_merge_deps, subst_val, target_of,
};
use crate::model::{SpecBom, SpecComponent, SpecDependency};
use crate::os_fixup::spec_fix_os_names;
use crate::pipeline::spec_normalize;

verus! {

/// The input positions of the components the merge retains, among the
/// first `n`, in ascending order.
pub open spec fn retained_indices(cs: Seq<SpecComponent>, gs: Seq<SpecGroup>, n: int) -> Seq<int>
    decreases n,
{
    if n <= 0 {
        Seq::empty()
    } else {
        let rest = retained_indices(cs, gs, n - 1);
        if retained_at(cs, gs, n - 1) {
            rest.push(n - 1)
        } else {
            rest
        }
    }
}

/// The merge result reads off the retained positions: it has one
/// entry per retained position, in ascending input order.
pub proof fn lemma_retained_indices(cs: Seq<SpecComponent>, gs: Seq<SpecGroup>, n: int)
    requires
        0 <= n <= cs.len(),
    ensures
        retained_indices(cs, gs, n).len() == merge_prefix(cs, gs, n).len(),
        forall|m: int|
            0 <= m < retained_indices(cs, gs, n).len() ==> {
                let j = #[trigger] retained_indices(cs, gs, n)[m];
                &&& 0 <= j < n
                &&& retained_at(cs, gs, j)
                &&& merge_prefix(cs, gs, n)[m] == cs[j]
            },
        forall|a: int, b: int|
            0 <= a < b < retained_indices(cs, gs, n).len() ==> #[trigger] retained_indices(
                cs,
                gs,
                n,
            )[a] < #[trigger] retained_indices(cs, gs, n)[b],
        forall|j: int|
            0 <= j < n && retained_at(cs, gs, j) ==> exists|m: int|
                0 <= m < retained_indices(cs, gs, n).len() && #[trigger] retained_indices(
                    cs,
                    gs,
                    n,
                )[m] == j,
    decreases n,
{
    if n > 0 {
        lemma_retained_indices(cs, gs, n - 1);
        if retained_at(cs, gs, n - 1) {
            assert(retained_indices(cs, gs, n)[retained_indices(cs, gs, n).len() - 1] == n - 1);
        }
        assert forall|j: int| 0 <= j < n && retained_at(cs, gs, j) implies exists|m: int|
            0 <= m < retained_indices(cs, gs, n).len() && #[trigger] retained_indices(
                cs,
                gs,
                n,
            )[m] == j by {
            if j < n - 1 {
                let m = choose|m: int|
                    0 <= m < retained_indices(cs, gs, n - 1).len() && #[trigger] retained_indices(
                        cs,
                        gs,
                        n - 1,
                    )[m] == j;
                assert(retained_indices(cs, gs, n)[m] == j);
            } else {
                assert(retained_at(cs, gs, n - 1));
                assert(retained_indices(cs, gs, n)[retained_indices(cs, gs, n).len() - 1] == j);
            }
        }
    }
}

/// Order preservation: the merge output lists exactly the retained
/// input components, each exactly once, in their input order.
pub proof fn lemma_merge_preserves_order(cs: Seq<SpecComponent>, gs: Seq<SpecGroup>)
    ensures
        spec_merge_components(cs, gs).len() == retained_indices(cs, gs, cs.len() as int).len(),
        forall|m: int|
            0 <= m < spec_merge_components(cs, gs).len() ==> {
                let j = #[trigger] retained_indices(cs, gs, cs.len() as int)[m];
                &&& 0 <= j < cs.len()
                &&& retained_at(cs, gs, j)
                &&& spec_merge_components(cs, gs)[m] == cs[j]
            },
        forall|a: int, b: int|
            0 <= a < b < spec_merge_components(cs, gs).len() ==> #[trigger] retained_indices(
                cs,
                gs,
                cs.len() as int,
            )[a] < #[trigger] retained_indices(cs, gs, cs.len() as int)[b],
{
    lemma_retained_indices(cs, gs, cs.len() as int);
}

/// Every retained component appears in the merge output.
pub proof fn lemma_retained_member(cs: Seq<SpecComponent>, gs: Seq<SpecGroup>, j: int)
    requires
        0 <= j < cs.len(),
        retained_at(cs, gs, j),
    ensures
        is_member(spec_merge_components(cs, gs), cs[j]),
{
    lemma_retained_indices(cs, gs, cs.len() as int);
    let m = choose|m: int|
        0 <= m < retained_indices(cs, gs, cs.len() as int).len() && #[trigger] retained_indices(
            cs,
            gs,
            cs.len() as int,
        )[m] == j;
    assert(spec_merge_components(cs, gs)[m] == cs[j]);
}

/// No duplicate identities: two distinct retained components never
/// share an identity key.
pub proof fn lemma_no_duplicate_identities(cs: Seq<SpecComponent>, gs: Seq<SpecGroup>)
    requires
        refs_unique(cs),
        gs == spec_group(cs),
    ensures
        forall|a: int, b: int|
            0 <= a < b < spec_merge_components(cs, gs).len()
                && key_of(#[trigger] spec_merge_components(cs, gs)[a]) is Some && key_of(
                #[trigger] spec_merge_components(cs, gs)[b],
            ) is Some ==> key_of(spec_merge_components(cs, gs)[a]) != key_of(
                spec_merge_components(cs, gs)[b],
            ),
{
    let mc = spec_merge_components(cs, gs);
    lemma_merge_preserves_order(cs, gs);
    assert forall|a: int, b: int|
        0 <= a < b < mc.len() && key_of(#[trigger] mc[a]) is Some && key_of(#[trigger] mc[b])
            is Some implies key_of(mc[a]) != key_of(mc[b]) by {
        let ja = retained_indices(cs, gs, cs.len() as int)[a];
        let jb = retained_indices(cs, gs, cs.len() as int)[b];
        assert(ja < jb);
        assert(mc[a] == cs[ja] && mc[b] == cs[jb]);
        if key_of(cs[ja]) == key_of(cs[jb]) {
            let k = key_of(cs[ja]).unwrap();
            match canon_ref(sbom_components(gs), k) {
                Some(r) => {
                    assert(cs[ja].bom_ref == Some(r));
                    assert(cs[jb].bom_ref == Some(r));
                    assert(cs[ja].bom_ref != cs[jb].bom_ref);
                },
                None => {
                    assert(retained_at(cs, gs, jb));
                    assert(key_of(cs[ja]) != Some(k));
                },
            }
            assert(false);
        }
    }
}

/// Whether some component of the list carries reference `r`.
pub open spec fn ref_exists(cs: Seq<SpecComponent>, r: Seq<u8>) -> bool {
    exists|j: int| 0 <= j < cs.len() && (#[trigger] cs[j]).bom_ref == Some(r)
}

/// Whether every reference an edge names belongs to some component.
pub open spec fn edge_ok(cs: Seq<SpecComponent>, d: SpecDependency) -> bool {
    &&& ref_exists(cs, d.dependency_ref)
    &&& forall|e: int| 0 <= e < d.dependencies.len() ==> ref_exists(cs, #[trigger] d.dependencies[e])
}

/// Referential integrity of a document: every reference in the
/// relationship list names a component still present.
pub open spec fn referential_integrity(b: SpecBom) -> bool {
    forall|m: int| 0 <= m < b.dependencies.len() ==> edge_ok(b.components, #[trigger] b.dependencies[m])
}

/// Every entry of a bucket's child-reference list is a reference of
/// some component of that bucket.
proof fn lemma_child_refs_exist(cs: Seq<SpecComponent>, p: Seq<u8>)
    ensures
        forall|e: int|
            0 <= e < child_refs(cs, p).len() ==> ref_exists(cs, #[trigger] child_refs(cs, p)[e]),
    decreases cs.len(),
{
    if cs.len() > 0 {
        lemma_child_refs_exist(cs.drop_last(), p);
        let rest = child_refs(cs.drop_last(), p);
        assert forall|e: int| 0 <= e < child_refs(cs, p).len() implies ref_exists(
            cs,
            #[trigger] child_refs(cs, p)[e],
        ) by {
            if e < rest.len() {
                assert(child_refs(cs, p)[e] == rest[e]);
                assert(ref_exists(cs.drop_last(), rest[e]));
                let j = choose|j: int|
                    0 <= j < cs.drop_last().len() && (#[trigger] cs.drop_last()[j]).bom_ref
                        == Some(rest[e]);
                assert(cs[j].bom_ref == Some(rest[e]));
            } else {
                let w = cs.len() - 1;
                assert(cs[w] == cs.last());
                assert(cs[w].bom_ref == Some(child_refs(cs, p)[e]));
            }
        }
    }
}

/// Every edge the reconstruction emits only names references of
/// components of the underlying list.
proof fn lemma_jar_edges_ok(gs: Seq<SpecGroup>, cs: Seq<SpecComponent>)
    requires
        parents_have_refs(gs),
        bucket_elems_in(gs, cs),
    ensures
        forall|m: int|
            0 <= m < spec_jar_edges(gs).len() ==> edge_ok(cs, #[trigger] spec_jar_edges(gs)[m]),
    decreases gs.len(),
{
    if gs.len() > 0 {
        assert(parents_have_refs(gs.drop_last())) by {
            assert forall|gi: int|
                0 <= gi < gs.drop_last().len() && emits_edge(
                    #[trigger] gs.drop_last()[gi],
                ) implies gs.drop_last()[gi].components[first_parent_index(
                gs.drop_last()[gi].components,
                gs.drop_last()[gi].path,
            )].bom_ref is Some by {
                assert(gs.drop_last()[gi] == gs[gi]);
            }
        }
        assert(bucket_elems_in(gs.drop_last(), cs)) by {
            assert forall|gi: int, ci: int|
                0 <= gi < gs.drop_last().len() && 0 <= ci
                    < gs.drop_last()[gi].components.len() implies is_member(
                cs,
                #[trigger] gs.drop_last()[gi].components[ci],
            ) by {
                assert(gs.drop_last()[gi].components[ci] == gs[gi].components[ci]);
            }
        }
        lemma_jar_edges_ok(gs.drop_last(), cs);
        let rest = spec_jar_edges(gs.drop_last());
        assert forall|m: int| 0 <= m < spec_jar_edges(gs).len() implies edge_ok(
            cs,
            #[trigger] spec_jar_edges(gs)[m],
        ) by {
            if m < rest.len() {
                assert(spec_jar_edges(gs)[m] == rest[m]);
            } else {
                let g = gs.last();
                assert(gs[gs.len() - 1] == g);
                assert(emits_edge(g));
                let d = spec_jar_edges(gs)[m];
                assert(d == group_edges(g)[0]);
                let fpi = first_parent_index(g.components, g.path);
                crate::jar_deps::lemma_first_parent_index(g.components, g.path);
                assert(g.components[fpi].bom_ref is Some);
                assert(is_member(cs, g.components[fpi]));
                let j = choose|j: int| 0 <= j < cs.len() && #[trigger] cs[j] == g.components[fpi];
                assert(cs[j].bom_ref == Some(d.dependency_ref));
                assert(ref_exists(cs, d.dependency_ref));
                lemma_child_refs_exist(g.components, g.path);
                assert forall|e: int| 0 <= e < d.dependencies.len() implies ref_exists(
                    cs,
                    #[trigger] d.dependencies[e],
                ) by {
                    assert(d.dependencies[e] == child_refs(g.components, g.path)[e]);
                    assert(ref_exists(g.components, d.dependencies[e]));
                    let ci = choose|ci: int|
                        0 <= ci < g.components.len() && (#[trigger] g.components[ci]).bom_ref
                            == Some(d.dependencies[e]);
                    assert(is_member(cs, g.components[ci]));
                    let jc = choose|jc: int|
                        0 <= jc < cs.len() && #[trigger] cs[jc] == g.components[ci];
                    assert(cs[jc].bom_ref == Some(d.dependencies[e]));
                }
            }
        }
    }
}

/// A substituted reference always names a retained component.
pub proof fn lemma_subst_ref_exists(cs: Seq<SpecComponent>, gs: Seq<SpecGroup>, r: Seq<u8>)
    requires
        refs_unique(cs),
        purls_have_refs(cs),
        gs == spec_group(cs),
        ref_exists(cs, r),
    ensures
        ref_exists(spec_merge_components(cs, gs), subst_val(cs, gs, r)),
{
    let mc = spec_merge_components(cs, gs);
    let j0 = choose|j: int| 0 <= j < cs.len() && (#[trigger] cs[j]).bom_ref == Some(r);
    lemma_resolver_index(cs, r);
    let idx = resolver_index(cs, r);
    if idx == -1 {
        assert(!resolves(cs[j0], r));
        assert(cs[j0].purl is None);
        assert(retained_at(cs, gs, j0));
        lemma_retained_member(cs, gs, j0);
        let m = choose|m: int| 0 <= m < mc.len() && #[trigger] mc[m] == cs[j0];
        assert(mc[m].bom_ref == Some(r));
        assert(subst_val(cs, gs, r) == r);
    } else {
        let c0 = cs[idx];
        let k0 = key_of(c0).unwrap();
        assert(subst_val(cs, gs, r) == target_of(c0, cs, gs));
        match canon_ref(sbom_components(gs), k0) {
            Some(v) => {
                lemma_canon_is_doc_ref(cs, gs, k0);
                let jc = choose|j: int|
                    0 <= j < cs.len() && key_of(#[trigger] cs[j]) == Some(k0) && cs[j].bom_ref
                        == Some(v);
                assert(retained_at(cs, gs, jc));
                lemma_retained_member(cs, gs, jc);
                let m = choose|m: int| 0 <= m < mc.len() && #[trigger] mc[m] == cs[jc];
                assert(mc[m].bom_ref == Some(v));
            },
            None => {
                lemma_first_key_index(cs, k0);
                let f = first_key_index(cs, k0);
                assert(f >= 0) by {
                    if f == -1 {
                        assert(key_of(cs[idx]) != Some(k0));
                    }
                }
                assert(key_of(cs[f]) == Some(k0));
                assert(cs[f].purl is Some);
                assert(cs[f].bom_ref is Some);
                assert(cs[f].bom_ref == Some(first_key_ref(cs, k0)));
                assert(retained_at(cs, gs, f));
                lemma_retained_member(cs, gs, f);
                let m = choose|m: int| 0 <= m < mc.len() && #[trigger] mc[m] == cs[f];
                assert(mc[m].bom_ref == Some(first_key_ref(cs, k0)));
            },
        }
    }
}

/// The fix-up keeps every component's reference.
proof fn lemma_fix_keeps_refs(cs: Seq<SpecComponent>, r: Seq<u8>)
    requires
        ref_exists(cs, r),
    ensures
        ref_exists(spec_fix_os_names(cs), r),
{
    let j = choose|j: int| 0 <= j < cs.len() && (#[trigger] cs[j]).bom_ref == Some(r);
    assert(spec_fix_os_names(cs)[j].bom_ref == Some(r));
}

/// Referential integrity: if every edge of the input names existing
/// components, so does every edge of the normalized output.
pub proof fn lemma_referential_integrity(b: SpecBom)
    requires
        refs_unique(b.components),
        purls_have_refs(b.components),
        parents_have_refs(spec_group(b.components)),
        referential_integrity(b),
    ensures
        referential_integrity(spec_normalize(b)),
{
    let cs = b.components;
    let gs = spec_group(cs);
    let ds1 = b.dependencies + spec_jar_edges(gs);
    let out = spec_normalize(b);
    lemma_group_elems(cs);
    lemma_jar_edges_ok(gs, cs);
    assert forall|m: int| 0 <= m < out.dependencies.len() implies edge_ok(
        out.components,
        #[trigger] out.dependencies[m],
    ) by {
        let d1 = ds1[m];
        assert(edge_ok(cs, d1)) by {
            if m < b.dependencies.len() {
                assert(d1 == b.dependencies[m]);
                assert(edge_ok(cs, b.dependencies[m]));
            } else {
                assert(d1 == spec_jar_edges(gs)[m - b.dependencies.len()]);
            }
        }
        assert(out.dependencies[m] == crate::merge::subst_dep(d1, cs, gs));
        lemma_subst_ref_exists(cs, gs, d1.dependency_ref);
        lemma_fix_keeps_refs(spec_merge_components(cs, gs), subst_val(cs, gs, d1.dependency_ref));
        assert(ref_exists(out.components, out.dependencies[m].dependency_ref));
        assert forall|e: int| 0 <= e < out.dependencies[m].dependencies.len() implies ref_exists(
            out.components,
            #[trigger] out.dependencies[m].dependencies[e],
        ) by {
            assert(out.dependencies[m].dependencies[e] == subst_val(cs, gs, d1.dependencies[e]));
            assert(ref_exists(cs, d1.dependencies[e]));
            lemma_subst_ref_exists(cs, gs, d1.dependencies[e]);
            lemma_fix_keeps_refs(
                spec_merge_components(cs, gs),
                subst_val(cs, gs, d1.dependencies[e]),
            );
        }
    }
}

/// No substituted reference is the reference of a component that lost
/// to a canonical record.
proof fn lemma_subst_avoids_removed(
    cs: Seq<SpecComponent>,
    gs: Seq<SpecGroup>,
    d: int,
    v: Seq<u8>,
)
    requires
        refs_unique(cs),
        purls_have_refs(cs),
        gs == spec_group(cs),
        0 <= d < cs.len(),
        key_of(cs[d]) is Some,
        canon_ref(sbom_components(gs), key_of(cs[d]).unwrap()) is Some,
        cs[d].bom_ref != Some(canon_ref(sbom_components(gs), key_of(cs[d]).unwrap()).unwrap()),
    ensures
        subst_val(cs, gs, v) != cs[d].bom_ref.unwrap(),
{
    let k = key_of(cs[d]).unwrap();
    let r = canon_ref(sbom_components(gs), k).unwrap();
    let rd = cs[d].bom_ref.unwrap();
    assert(cs[d].purl is Some);
    assert(cs[d].bom_ref is Some);
    assert(cs[d].bom_ref == Some(rd));
    assert(rd != r);
    lemma_resolver_index(cs, v);
    let idx = resolver_index(cs, v);
    if idx == -1 {
        assert(subst_val(cs, gs, v) == v);
        if v == rd {
            assert(resolves(cs[d], v));
            assert(!resolves(cs[d], v));
        }
    } else {
        let c0 = cs[idx];
        let k0 = key_of(c0).unwrap();
        assert(subst_val(cs, gs, v) == target_of(c0, cs, gs));
        match canon_ref(sbom_components(gs), k0) {
            Some(t) => {
                if t == rd {
                    lemma_canon_is_doc_ref(cs, gs, k0);
                    let jc = choose|j: int|
                        0 <= j < cs.len() && key_of(#[trigger] cs[j]) == Some(k0) && cs[j].bom_ref
                            == Some(rd);
                    assert(jc == d) by {
                        if jc < d {
                            assert(cs[jc].bom_ref != cs[d].bom_ref);
                        }
                        if jc > d {
                            assert(cs[d].bom_ref != cs[jc].bom_ref);
                        }
                    }
                    assert(k0 == k);
                    assert(false);
                }
            },
            None => {
                lemma_first_key_index(cs, k0);
                let f = first_key_index(cs, k0);
                assert(f >= 0) by {
                    if f == -1 {
                        assert(key_of(cs[idx]) != Some(k0));
                    }
                }
                assert(key_of(cs[f]) == Some(k0));
                assert(cs[f].purl is Some);
                assert(cs[f].bom_ref is Some);
                if first_key_ref(cs, k0) == rd {
                    assert(cs[f].bom_ref == Some(rd));
                    assert(f == d) by {
                        if f < d {
                            assert(cs[f].bom_ref != cs[d].bom_ref);
                        }
                        if f > d {
                            assert(cs[d].bom_ref != cs[f].bom_ref);
                        }
                    }
                    assert(k0 == k);
                    assert(false);
                }
            },
        }
    }
}

/// Canonical preference: when a canonical record and a non-canonical
/// component share an identity key, the canonical record survives with
/// that key, the non-canonical component's reference is carried by no
/// retained component, and no rewritten edge still names it.
pub proof fn lemma_canonical_preference(
    cs: Seq<SpecComponent>,
    gs: Seq<SpecGroup>,
    ds: Seq<SpecDependency>,
    d: int,
)
    requires
        refs_unique(cs),
        purls_have_refs(cs),
        gs == spec_group(cs),
        0 <= d < cs.len(),
        key_of(cs[d]) is Some,
        canon_ref(sbom_components(gs), key_of(cs[d]).unwrap()) is Some,
        cs[d].bom_ref != Some(canon_ref(sbom_components(gs), key_of(cs[d]).unwrap()).unwrap()),
    ensures
        has_keyed_ref(
            spec_merge_components(cs, gs),
            key_of(cs[d]).unwrap(),
            canon_ref(sbom_components(gs), key_of(cs[d]).unwrap()).unwrap(),
        ),
        forall|m: int|
            0 <= m < spec_merge_components(cs, gs).len() ==> (#[trigger] spec_merge_components(
                cs,
                gs,
            )[m]).bom_ref != Some(cs[d].bom_ref.unwrap()),
        forall|m: int|
            0 <= m < spec_merge_deps(ds, cs, gs).len() ==> {
                let dd = #[trigger] spec_merge_deps(ds, cs, gs)[m];
                &&& dd.dependency_ref != cs[d].bom_ref.unwrap()
                &&& forall|e: int|
                    0 <= e < dd.dependencies.len() ==> #[trigger] dd.dependencies[e]
                        != cs[d].bom_ref.unwrap()
            },
{
    let mc = spec_merge_components(cs, gs);
    let k = key_of(cs[d]).unwrap();
    let r = canon_ref(sbom_components(gs), k).unwrap();
    let rd = cs[d].bom_ref.unwrap();
    assert(cs[d].purl is Some);
    assert(cs[d].bom_ref is Some);
    assert(rd != r);
    // The canonical record is retained, with its key and reference.
    lemma_canon_is_doc_ref(cs, gs, k);
    let jc = choose|j: int|
        0 <= j < cs.len() && key_of(#[trigger] cs[j]) == Some(k) && cs[j].bom_ref == Some(r);
    assert(retained_at(cs, gs, jc));
    lemma_retained_member(cs, gs, jc);
    let mm = choose|m: int| 0 <= m < mc.len() && #[trigger] mc[m] == cs[jc];
    assert(key_of(mc[mm]) == Some(k) && mc[mm].bom_ref == Some(r));
    // No retained component carries the removed reference.
    lemma_merge_preserves_order(cs, gs);
    assert forall|m: int| 0 <= m < mc.len() implies (#[trigger] mc[m]).bom_ref != Some(rd) by {
        let j = retained_indices(cs, gs, cs.len() as int)[m];
        assert(mc[m] == cs[j] && retained_at(cs, gs, j));
        if cs[j].bom_ref == Some(rd) {
            assert(j == d) by {
                if j < d {
                    assert(cs[j].bom_ref != cs[d].bom_ref);
                }
                if j > d {
                    assert(cs[d].bom_ref != cs[j].bom_ref);
                }
            }
            assert(!retained_at(cs, gs, d));
        }
    }
    // No rewritten edge still names the removed reference.
    assert forall|m: int| 0 <= m < spec_merge_deps(ds, cs, gs).len() implies {
        let dd = #[trigger] spec_merge_deps(ds, cs, gs)[m];
        &&& dd.dependency_ref != rd
        &&& forall|e: int| 0 <= e < dd.dependencies.len() ==> #[trigger] dd.dependencies[e] != rd
    } by {
        let dd = spec_merge_deps(ds, cs, gs)[m];
        assert(dd == crate::merge::subst_dep(ds[m], cs, gs));
        lemma_subst_avoids_removed(cs, gs, d, ds[m].dependency_ref);
        assert forall|e: int| 0 <= e < dd.dependencies.len() implies #[trigger] dd.dependencies[e]
            != rd by {
            assert(dd.dependencies[e] == subst_val(cs, gs, ds[m].dependencies[e]));
            lemma_subst_avoids_removed(cs, gs, d, ds[m].dependencies[e]);
        }
    }
}

/// First-seen deduplication: when two components share an identity key
/// that has no canonical record, and the earlier one is the first
/// carrier of that key, the earlier one is retained, the later one's
/// reference is carried by no retained component, and every edge
/// reference to the later one is rewritten to the first-seen one.
pub proof fn lemma_first_seen_dedup(
    cs: Seq<SpecComponent>,
    gs: Seq<SpecGroup>,
    d: int,
    e: int,
)
    requires
        refs_unique(cs),
        purls_have_refs(cs),
        gs == spec_group(cs),
        0 <= d < e < cs.len(),
        key_of(cs[d]) is Some,
        key_of(cs[e]) == key_of(cs[d]),
        canon_ref(sbom_components(gs), key_of(cs[d]).unwrap()) is None,
        forall|j: int| 0 <= j < d ==> key_of(#[trigger] cs[j]) != key_of(cs[d]),
    ensures
        is_member(spec_merge_components(cs, gs), cs[d]),
        forall|m: int|
            0 <= m < spec_merge_components(cs, gs).len() ==> (#[trigger] spec_merge_components(
                cs,
                gs,
            )[m]).bom_ref != Some(cs[e].bom_ref.unwrap()),
        subst_val(cs, gs, cs[e].bom_ref.unwrap()) == cs[d].bom_ref.unwrap(),
{
    let mc = spec_merge_components(cs, gs);
    let k = key_of(cs[d]).unwrap();
    let rd = cs[d].bom_ref.unwrap();
    let re = cs[e].bom_ref.unwrap();
    assert(cs[d].purl is Some && cs[d].bom_ref is Some);
    assert(cs[e].purl is Some && cs[e].bom_ref is Some);
    assert(retained_at(cs, gs, d));
    lemma_retained_member(cs, gs, d);
    // The later duplicate is dropped, and with it its reference.
    lemma_merge_preserves_order(cs, gs);
    assert forall|m: int| 0 <= m < mc.len() implies (#[trigger] mc[m]).bom_ref != Some(re) by {
        let j = retained_indices(cs, gs, cs.len() as int)[m];
        assert(mc[m] == cs[j] && retained_at(cs, gs, j));
        if cs[j].bom_ref == Some(re) {
            assert(j == e) by {
                if j < e {
                    assert(cs[j].bom_ref != cs[e].bom_ref);
                }
                if j > e {
                    assert(cs[e].bom_ref != cs[j].bom_ref);
                }
            }
            assert(retained_at(cs, gs, e));
            assert(key_of(cs[d]) != Some(k));
        }
    }
    // Its reference is substituted by the first-seen reference.
    lemma_resolver_index(cs, re);
    let idx = resolver_index(cs, re);
    assert(resolves(cs[e], re));
    assert(idx >= 0) by {
        if idx == -1 {
            assert(!resolves(cs[e], re));
        }
    }
    assert(cs[idx].bom_ref == Some(re));
    assert(idx == e) by {
        if idx < e {
            assert(cs[idx].bom_ref != cs[e].bom_ref);
        }
        if idx > e {
            assert(cs[e].bom_ref != cs[idx].bom_ref);
        }
    }
    lemma_first_key_index(cs, k);
    let f = first_key_index(cs, k);
    assert(f >= 0) by {
        if f == -1 {
            assert(key_of(cs[d]) != Some(k));
        }
    }
    assert(f == d) by {
        if f < d {
            assert(key_of(cs[f]) != key_of(cs[d]));
        }
        if f > d {
            assert(key_of(cs[d]) != Some(k));
        }
    }
    assert(subst_val(cs, gs, re) == target_of(cs[e], cs, gs));
    assert(first_key_ref(cs, k) == rd);
}

/// The merge result inherits the document invariants: references stay
/// unique and identity still implies a reference.
pub proof fn lemma_merge_keeps_invariants(cs: Seq<SpecComponent>, gs: Seq<SpecGroup>)
    requires
        refs_unique(cs),
        purls_have_refs(cs),
    ensures
        refs_unique(spec_merge_components(cs, gs)),
        purls_have_refs(spec_merge_components(cs, gs)),
{
    let mc = spec_merge_components(cs, gs);
    lemma_merge_preserves_order(cs, gs);
    assert forall|a: int, b: int|
        0 <= a < b < mc.len() && (#[trigger] mc[a]).bom_ref is Some && (#[trigger] mc[b]).bom_ref
            is Some implies mc[a].bom_ref != mc[b].bom_ref by {
        let ja = retained_indices(cs, gs, cs.len() as int)[a];
        let jb = retained_indices(cs, gs, cs.len() as int)[b];
        assert(mc[a] == cs[ja] && mc[b] == cs[jb]);
        assert(ja < jb);
        assert(cs[ja].bom_ref != cs[jb].bom_ref);
    }
    assert forall|m: int|
        0 <= m < mc.len() && (#[trigger] mc[m]).purl is Some implies mc[m].bom_ref is Some by {
        let j = retained_indices(cs, gs, cs.len() as int)[m];
        assert(mc[m] == cs[j]);
        assert(cs[j].purl is Some);
    }
}

/// The canonical reference of every key is unchanged by the merge:
/// re-grouping the retained components yields the same canonical map.
pub proof fn lemma_canon_preserved(cs: Seq<SpecComponent>, gs: Seq<SpecGroup>, k: Seq<u8>)
    requires
        refs_unique(cs),
        purls_have_refs(cs),
        gs == spec_group(cs),
    ensures
        ({
            let cs1 = spec_merge_components(cs, gs);
            canon_ref(sbom_components(spec_group(cs1)), k) == canon_ref(sbom_components(gs), k)
        }),
{
    let cs1 = spec_merge_components(cs, gs);
    let gs1 = spec_group(cs1);
    let sb = sbom_components(gs);
    let sb1 = sbom_components(gs1);
    lemma_merge_keeps_invariants(cs, gs);
    lemma_merge_preserves_order(cs, gs);
    crate::merge::lemma_sbom_purls(cs);
    crate::merge::lemma_sbom_purls(cs1);
    crate::grouping::lemma_buckets_consistent(cs);
    crate::grouping::lemma_buckets_consistent(cs1);
    crate::merge::lemma_sbom_elem_props(gs);
    crate::merge::lemma_sbom_elem_props(gs1);
    crate::merge::lemma_sbom_members(cs);
    crate::merge::lemma_sbom_members(cs1);
    match canon_ref(sb, k) {
        Some(r) => {
            // The canonical record is retained with the canonical
            // source's provenance, so the new index lists it again.
            crate::merge::lemma_canon_ref_member(sb, k);
            let m = choose|m: int|
                0 <= m < sb.len() && key_of(#[trigger] sb[m]) == Some(k) && sb[m].bom_ref == Some(
                    canon_ref(sb, k).unwrap(),
                );
            let y = sb[m];
            assert(is_member(cs, y));
            let jy = choose|j: int| 0 <= j < cs.len() && #[trigger] cs[j] == y;
            assert(retained_at(cs, gs, jy));
            lemma_retained_member(cs, gs, jy);
            let my = choose|mm: int| 0 <= mm < cs1.len() && #[trigger] cs1[mm] == y;
            assert(crate::grouping::comp_found_by(cs1[my]) == Some(
                crate::model::sbom_source(),
            ));
            crate::merge::lemma_sbom_complete(cs1, my);
            assert(canon_ref(sb1, k) is Some) by {
                if canon_ref(sb1, k) is None {
                    lemma_canon_ref_none(sb1, k);
                    let w = choose|j: int| 0 <= j < sb1.len() && #[trigger] sb1[j] == y;
                    assert(key_of(sb1[w]) != Some(k));
                }
            }
            crate::merge::lemma_canon_ref_member(sb1, k);
            let m1 = choose|mm: int|
                0 <= mm < sb1.len() && key_of(#[trigger] sb1[mm]) == Some(k) && sb1[mm].bom_ref
                    == Some(canon_ref(sb1, k).unwrap());
            let z = sb1[m1];
            assert(is_member(cs1, z));
            let mz = choose|j: int| 0 <= j < cs1.len() && #[trigger] cs1[j] == z;
            lemma_no_duplicate_identities(cs, gs);
            assert(mz == my) by {
                if mz != my {
                    assert(key_of(cs1[mz]) != key_of(cs1[my]));
                }
            }
            assert(z == y);
            assert(y.bom_ref == Some(canon_ref(sb1, k).unwrap()));
            assert(canon_ref(sb1, k) == canon_ref(sb, k));
        },
        None => {
            if canon_ref(sb1, k) is Some {
                crate::merge::lemma_canon_ref_member(sb1, k);
                let m1 = choose|mm: int|
                    0 <= mm < sb1.len() && key_of(#[trigger] sb1[mm]) == Some(k) && sb1[mm].bom_ref
                        == Some(canon_ref(sb1, k).unwrap());
                let z = sb1[m1];
                assert(crate::grouping::comp_found_by(z) == Some(crate::model::sbom_source()));
                assert(is_member(cs1, z));
                let mz = choose|j: int| 0 <= j < cs1.len() && #[trigger] cs1[j] == z;
                let jz = retained_indices(cs, gs, cs.len() as int)[mz];
                assert(cs[jz] == z);
                crate::merge::lemma_sbom_complete(cs, jz);
                lemma_canon_ref_none(sb, k);
                let w = choose|j: int| 0 <= j < sb.len() && #[trigger] sb[j] == z;
                assert(key_of(sb[w]) != Some(k));
                assert(false);
            }
        },
    }
}

/// After one merge, every component is retained by a second merge.
pub proof fn lemma_all_retained(cs: Seq<SpecComponent>, gs: Seq<SpecGroup>)
    requires
        refs_unique(cs),
        purls_have_refs(cs),
        gs == spec_group(cs),
    ensures
        forall|m: int|
            0 <= m < spec_merge_components(cs, gs).len() ==> retained_at(
                spec_merge_components(cs, gs),
                spec_group(spec_merge_components(cs, gs)),
                m,
            ),
{
    let cs1 = spec_merge_components(cs, gs);
    let gs1 = spec_group(cs1);
    lemma_merge_preserves_order(cs, gs);
    lemma_no_duplicate_identities(cs, gs);
    assert forall|m: int| 0 <= m < cs1.len() implies retained_at(cs1, gs1, m) by {
        let j = retained_indices(cs, gs, cs.len() as int)[m];
        assert(cs1[m] == cs[j] && retained_at(cs, gs, j));
        match key_of(cs1[m]) {
            None => {},
            Some(k) => {
                lemma_canon_preserved(cs, gs, k);
                match canon_ref(sbom_components(gs), k) {
                    Some(r) => {
                        assert(cs1[m].bom_ref == Some(r));
                    },
                    None => {
                        assert forall|j2: int| 0 <= j2 < m implies key_of(#[trigger] cs1[j2])
                            != Some(k) by {
                            if key_of(cs1[j2]) == Some(k) {
                                assert(key_of(cs1[j2]) != key_of(cs1[m]));
                            }
                        }
                    },
                }
            },
        }
    }
}

/// A merge over a list whose components are all retained returns the
/// list unchanged.
proof fn lemma_prefix_all_retained(cs: Seq<SpecComponent>, gs: Seq<SpecGroup>, n: int)
    requires
        0 <= n <= cs.len(),
        forall|m: int| 0 <= m < n ==> retained_at(cs, gs, m),
    ensures
        merge_prefix(cs, gs, n) == cs.take(n),
    decreases n,
{
    if n > 0 {
        lemma_prefix_all_retained(cs, gs, n - 1);
        assert(merge_prefix(cs, gs, n) =~= cs.take(n));
    } else {
        assert(merge_prefix(cs, gs, 0) =~= cs.take(0));
    }
}

/// A reference that has already been substituted is left unchanged by
/// a second merge.
proof fn lemma_subst_fixed(cs: Seq<SpecComponent>, gs: Seq<SpecGroup>, v: Seq<u8>)
    requires
        refs_unique(cs),
        purls_have_refs(cs),
        gs == spec_group(cs),
    ensures
        ({
            let cs1 = spec_merge_components(cs, gs);
            subst_val(cs1, spec_group(cs1), subst_val(cs, gs, v)) == subst_val(cs, gs, v)
        }),
{
    let cs1 = spec_merge_components(cs, gs);
    let gs1 = spec_group(cs1);
    let w = subst_val(cs, gs, v);
    lemma_merge_keeps_invariants(cs, gs);
    lemma_merge_preserves_order(cs, gs);
    lemma_no_duplicate_identities(cs, gs);
    lemma_resolver_index(cs, v);
    lemma_resolver_index(cs1, w);
    let idx = resolver_index(cs, v);
    if idx == -1 {
        assert(w == v);
        assert(resolver_index(cs1, v) == -1) by {
            let i1 = resolver_index(cs1, v);
            if i1 >= 0 {
                assert(resolves(cs1[i1], v));
                let j = retained_indices(cs, gs, cs.len() as int)[i1];
                assert(cs1[i1] == cs[j]);
                assert(!resolves(cs[j], v));
            }
        }
        assert(subst_val(cs1, gs1, v) == v);
    } else {
        let c0 = cs[idx];
        let k0 = key_of(c0).unwrap();
        assert(w == target_of(c0, cs, gs));
        lemma_canon_preserved(cs, gs, k0);
        match canon_ref(sbom_components(gs), k0) {
            Some(r) => {
                assert(w == r);
                // The canonical record resolves its own reference and
                // is sent back to itself.
                lemma_canon_is_doc_ref(cs, gs, k0);
                let jc = choose|j: int|
                    0 <= j < cs.len() && key_of(#[trigger] cs[j]) == Some(k0) && cs[j].bom_ref
                        == Some(r);
                assert(retained_at(cs, gs, jc));
                lemma_retained_member(cs, gs, jc);
                let mc = choose|m: int| 0 <= m < cs1.len() && #[trigger] cs1[m] == cs[jc];
                assert(resolves(cs1[mc], r));
                let i1 = resolver_index(cs1, r);
                assert(i1 >= 0) by {
                    if i1 == -1 {
                        assert(!resolves(cs1[mc], r));
                    }
                }
                assert(cs1[i1].bom_ref == Some(r));
                assert(i1 == mc) by {
                    if i1 < mc {
                        assert(cs1[i1].bom_ref != cs1[mc].bom_ref);
                    }
                    if i1 > mc {
                        assert(cs1[mc].bom_ref != cs1[i1].bom_ref);
                    }
                }
                assert(key_of(cs1[i1]) == Some(k0));
                assert(canon_ref(sbom_components(gs1), k0) == Some(r));
                assert(subst_val(cs1, gs1, r) == target_of(cs1[i1], cs1, gs1));
                assert(target_of(cs1[i1], cs1, gs1) == r);
            },
            None => {
                lemma_first_key_index(cs, k0);
                let f = first_key_index(cs, k0);
                assert(f >= 0) by {
                    if f == -1 {
                        assert(key_of(cs[idx]) != Some(k0));
                    }
                }
                assert(key_of(cs[f]) == Some(k0));
                assert(cs[f].purl is Some);
                assert(cs[f].bom_ref is Some);
                assert(w == cs[f].bom_ref.unwrap());
                assert(cs[f].bom_ref == Some(w));
                assert(retained_at(cs, gs, f));
                lemma_retained_member(cs, gs, f);
                let mf = choose|m: int| 0 <= m < cs1.len() && #[trigger] cs1[m] == cs[f];
                assert(resolves(cs1[mf], w));
                let i1 = resolver_index(cs1, w);
                assert(i1 >= 0) by {
                    if i1 == -1 {
                        assert(!resolves(cs1[mf], w));
                    }
                }
                assert(cs1[i1].bom_ref == Some(w));
                assert(i1 == mf) by {
                    if i1 < mf {
                        assert(cs1[i1].bom_ref != cs1[mf].bom_ref);
                    }
                    if i1 > mf {
                        assert(cs1[mf].bom_ref != cs1[i1].bom_ref);
                    }
                }
                assert(key_of(cs1[i1]) == Some(k0));
                assert(canon_ref(sbom_components(gs1), k0) is None);
                lemma_first_key_index(cs1, k0);
                let f1 = first_key_index(cs1, k0);
                assert(f1 >= 0) by {
                    if f1 == -1 {
                        assert(key_of(cs1[mf]) != Some(k0));
                    }
                }
                assert(key_of(cs1[f1]) == Some(k0));
                assert(f1 == mf) by {
                    if f1 != mf {
                        assert(key_of(cs1[f1]) != key_of(cs1[mf]));
                    }
                }
                assert(first_key_ref(cs1, k0) == w);
                assert(subst_val(cs1, gs1, w) == target_of(cs1[i1], cs1, gs1));
                assert(target_of(cs1[i1], cs1, gs1) == w);
            },
        }
    }
}

/// Idempotence of the merge: running it again on its own output, with
/// the output's own grouped index, changes neither the component list
/// nor the relationship list.
pub proof fn lemma_merge_idempotent(
    cs: Seq<SpecComponent>,
    gs: Seq<SpecGroup>,
    ds: Seq<SpecDependency>,
)
    requires
        refs_unique(cs),
        purls_have_refs(cs),
        gs == spec_group(cs),
    ensures
        ({
            let cs1 = spec_merge_components(cs, gs);
            let gs1 = spec_group(cs1);
            let ds1 = spec_merge_deps(ds, cs, gs);
            &&& spec_merge_components(cs1, gs1) == cs1
            &&& spec_merge_deps(ds1, cs1, gs1) == ds1
        }),
{
    let cs1 = spec_merge_components(cs, gs);
    let gs1 = spec_group(cs1);
    let ds1 = spec_merge_deps(ds, cs, gs);
    lemma_all_retained(cs, gs);
    lemma_prefix_all_retained(cs1, gs1, cs1.len() as int);
    assert(cs1.take(cs1.len() as int) =~= cs1);
    assert(spec_merge_components(cs1, gs1) == cs1);
    let ds2 = spec_merge_deps(ds1, cs1, gs1);
    assert(ds2.len() == ds.len());
    assert(ds1.len() == ds.len());
    assert forall|m: int| 0 <= m < ds.len() implies ds2[m] =~~= ds1[m] by {
        lemma_subst_fixed(cs, gs, ds[m].dependency_ref);
        assert(ds1[m].dependency_ref == subst_val(cs, gs, ds[m].dependency_ref));
        assert(ds2[m].dependency_ref == ds1[m].dependency_ref);
        assert(ds1[m].dependencies.len() == ds[m].dependencies.len());
        assert(ds2[m].dependencies.len() == ds[m].dependencies.len());
        assert forall|e: int| 0 <= e < ds[m].dependencies.len() implies ds2[m].dependencies[e]
            == ds1[m].dependencies[e] by {
            assert(ds1[m].dependencies[e] == subst_val(cs, gs, ds[m].dependencies[e]));
            lemma_subst_fixed(cs, gs, ds[m].dependencies[e]);
        }
        assert(ds2[m].dependencies =~~= ds1[m].dependencies);
    }
    assert(ds2 =~~= ds1);
}

} // verus!
