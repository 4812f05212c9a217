//! Duplicate-component merging.  Components of the embedded-manifest
//! source act as the canonical record for their package identity;
//! every other component with the same identity key is folded into it,
//! and every relationship edge that named a removed component is
//! rewritten to name the survivor.  Identities with no canonical
//! record fall back to first-seen-wins deduplication.
use vstd::prelude::*;

use crate::grouping::{spec_group, Group, SpecGroup};
use crate::model::{
    bytes_clone, bytes_eq, clone_component, opt_bytes_view, sbom_source, sbom_source_bytes, Bom,
    Component, Dependency, SpecComponent, SpecDependency,
};

verus! {

broadcast use crate::model::lemma_bytes_deep_view;

/// Position of the first `'?'` in a byte string, or its length.
pub open spec fn spec_query_pos(s: Seq<u8>) -> int
    decreases s.len(),
{
    if s.len() == 0 {
        0
    } else if s[0] == 63u8 {
        0
    } else {
        1 + spec_query_pos(s.drop_first())
    }
}

/// The identity key of a package-identity string: everything before
/// the first `'?'`, which starts the non-identity metadata suffix.
pub open spec fn spec_strip_query(s: Seq<u8>) -> Seq<u8> {
    s.take(spec_query_pos(s))
}

/// `spec_query_pos` is the first `'?'` position, or the length when
/// the string has none.
pub proof fn lemma_query_pos(s: Seq<u8>)
    ensures
        0 <= spec_query_pos(s) <= s.len(),
        spec_query_pos(s) < s.len() ==> s[spec_query_pos(s)] == 63u8,
        forall|j: int| 0 <= j < spec_query_pos(s) ==> s[j] != 63u8,
    decreases s.len(),
{
    if s.len() > 0 && s[0] != 63u8 {
        lemma_query_pos(s.drop_first());
        assert forall|j: int| 0 <= j < spec_query_pos(s) implies s[j] != 63u8 by {
            if j > 0 {
                assert(s.drop_first()[j - 1] == s[j]);
            }
        }
    }
}

/// The identity key of a component, if it has a package identity.
pub open spec fn key_of(c: SpecComponent) -> Option<Seq<u8>> {
    match c.purl {
        Some(p) => Some(spec_strip_query(p)),
        None => None,
    }
}

/// The identity key of a byte string, executable form.
pub fn strip_query(s: &Vec<u8>) -> (r: Vec<u8>)
    ensures
        r@ == spec_strip_query(s@),
{
    proof {
        lemma_query_pos(s@);
    }
    let mut r: Vec<u8> = Vec::new();
    let mut i: usize = 0;
    while i < s.len() && s[i] != 63u8
        invariant
            i <= s.len(),
            r@ == s@.take(i as int),
            forall|j: int| 0 <= j < i ==> s@[j] != 63u8,
        decreases s.len() - i,
    {
        r.push(s[i]);
        proof {
            assert(r@ =~= s@.take(i as int + 1));
        }
        i = i + 1;
    }
    proof {
        lemma_query_pos(s@);
        assert(spec_query_pos(s@) == i as int) by {
            if spec_query_pos(s@) < i as int {
                assert(s@[spec_query_pos(s@)] != 63u8);
            }
            if spec_query_pos(s@) > i as int {
                assert(i < s.len());
                assert(s@[i as int] != 63u8);
            }
        }
    }
    r
}

/// The canonical-source components of a grouped index, flattened in
/// bucket order.
pub open spec fn sbom_components(gs: Seq<SpecGroup>) -> Seq<SpecComponent>
    decreases gs.len(),
{
    if gs.len() == 0 {
        Seq::empty()
    } else {
        sbom_components(gs.drop_last()) + (if gs.last().found_by == sbom_source() {
            gs.last().components
        } else {
            Seq::empty()
        })
    }
}

/// The canonical reference for an identity key: the reference of the
/// last canonical-source component with that key (last write wins), if
/// any.
pub open spec fn canon_ref(sb: Seq<SpecComponent>, k: Seq<u8>) -> Option<Seq<u8>>
    decreases sb.len(),
{
    if sb.len() == 0 {
        None
    } else if key_of(sb.last()) == Some(k) {
        Some(sb.last().bom_ref.unwrap())
    } else {
        canon_ref(sb.drop_last(), k)
    }
}

/// A canonical reference always belongs to a canonical-source
/// component with that identity key.
pub proof fn lemma_canon_ref_member(sb: Seq<SpecComponent>, k: Seq<u8>)
    requires
        canon_ref(sb, k) is Some,
        purls_have_refs(sb),
    ensures
        exists|j: int|
            0 <= j < sb.len() && key_of(#[trigger] sb[j]) == Some(k) && sb[j].bom_ref
                == Some(canon_ref(sb, k).unwrap()),
    decreases sb.len(),
{
    if sb.len() > 0 {
        if key_of(sb.last()) == Some(k) {
            let w = sb.len() - 1;
            assert(sb[w] == sb.last());
            assert(sb[w].purl is Some);
            assert(sb[w].bom_ref is Some);
            assert(key_of(sb[w]) == Some(k) && sb[w].bom_ref == Some(canon_ref(sb, k).unwrap()));
        } else {
            assert(purls_have_refs(sb.drop_last())) by {
                assert forall|j: int|
                    0 <= j < sb.drop_last().len() && (#[trigger] sb.drop_last()[j]).purl
                        is Some implies sb.drop_last()[j].bom_ref is Some by {
                    assert(sb.drop_last()[j] == sb[j]);
                }
            }
            lemma_canon_ref_member(sb.drop_last(), k);
            let j = choose|j: int|
                0 <= j < sb.drop_last().len() && key_of(#[trigger] sb.drop_last()[j]) == Some(k)
                    && sb.drop_last()[j].bom_ref == Some(canon_ref(sb.drop_last(), k).unwrap());
            assert(sb.drop_last()[j] == sb[j]);
        }
    }
}

/// There is no canonical reference exactly when no canonical-source
/// component has the key.
pub proof fn lemma_canon_ref_none(sb: Seq<SpecComponent>, k: Seq<u8>)
    requires
        canon_ref(sb, k) is None,
    ensures
        forall|j: int| 0 <= j < sb.len() ==> key_of(#[trigger] sb[j]) != Some(k),
    decreases sb.len(),
{
    if sb.len() > 0 {
        lemma_canon_ref_none(sb.drop_last(), k);
        assert forall|j: int| 0 <= j < sb.len() implies key_of(#[trigger] sb[j]) != Some(k) by {
            if j < sb.len() - 1 {
                assert(sb.drop_last()[j] == sb[j]);
            } else {
                assert(sb[j] == sb.last());
            }
        }
    }
}

/// Index of the first component with identity key `k`, or -1.
pub open spec fn first_key_index(cs: Seq<SpecComponent>, k: Seq<u8>) -> int
    decreases cs.len(),
{
    if cs.len() == 0 {
        -1
    } else {
        let t = first_key_index(cs.drop_last(), k);
        if t >= 0 {
            t
        } else if key_of(cs.last()) == Some(k) {
            cs.len() - 1
        } else {
            -1
        }
    }
}

/// `first_key_index` finds the first component with the key, and -1
/// exactly when none has it.
pub proof fn lemma_first_key_index(cs: Seq<SpecComponent>, k: Seq<u8>)
    ensures
        -1 <= first_key_index(cs, k) < cs.len(),
        first_key_index(cs, k) >= 0 ==> {
            let i = first_key_index(cs, k);
            &&& key_of(cs[i]) == Some(k)
            &&& forall|j: int| 0 <= j < i ==> key_of(#[trigger] cs[j]) != Some(k)
        },
        first_key_index(cs, k) == -1 ==> forall|j: int|
            0 <= j < cs.len() ==> key_of(#[trigger] cs[j]) != Some(k),
    decreases cs.len(),
{
    if cs.len() > 0 {
        lemma_first_key_index(cs.drop_last(), k);
        assert forall|j: int| 0 <= j < cs.len() - 1 implies cs.drop_last()[j] == cs[j] by {}
        assert(cs[cs.len() - 1] == cs.last());
    }
}

/// The reference of the first component with identity key `k`.
pub open spec fn first_key_ref(cs: Seq<SpecComponent>, k: Seq<u8>) -> Seq<u8> {
    cs[first_key_index(cs, k)].bom_ref.unwrap()
}

/// Whether the component at position `i` survives the merge: it has
/// no identity, or it is the canonical component for its key, or its
/// key has no canonical record and no earlier component carries it.
pub open spec fn retained_at(cs: Seq<SpecComponent>, gs: Seq<SpecGroup>, i: int) -> bool {
    match key_of(cs[i]) {
        None => true,
        Some(k) => match canon_ref(sbom_components(gs), k) {
            Some(r) => cs[i].bom_ref == Some(r),
            None => forall|j: int| 0 <= j < i ==> key_of(#[trigger] cs[j]) != Some(k),
        },
    }
}

/// The retained components among the first `n`, in input order.
pub open spec fn merge_prefix(cs: Seq<SpecComponent>, gs: Seq<SpecGroup>, n: int) -> Seq<
    SpecComponent,
>
    decreases n,
{
    if n <= 0 {
        Seq::empty()
    } else {
        let rest = merge_prefix(cs, gs, n - 1);
        if retained_at(cs, gs, n - 1) {
            rest.push(cs[n - 1])
        } else {
            rest
        }
    }
}

/// The component list after the merge.
pub open spec fn spec_merge_components(cs: Seq<SpecComponent>, gs: Seq<SpecGroup>) -> Seq<
    SpecComponent,
> {
    merge_prefix(cs, gs, cs.len() as int)
}

/// Whether the component settles substitutions for reference `r`: it
/// has an identity and carries exactly that reference.
pub open spec fn resolves(c: SpecComponent, r: Seq<u8>) -> bool {
    c.purl is Some && c.bom_ref == Some(r)
}

/// Index of the first component that settles reference `r`, or -1.
pub open spec fn resolver_index(pre: Seq<SpecComponent>, r: Seq<u8>) -> int
    decreases pre.len(),
{
    if pre.len() == 0 {
        -1
    } else {
        let t = resolver_index(pre.drop_last(), r);
        if t >= 0 {
            t
        } else if resolves(pre.last(), r) {
            pre.len() - 1
        } else {
            -1
        }
    }
}

/// `resolver_index` finds the first component that settles the
/// reference, and -1 exactly when none does.
pub proof fn lemma_resolver_index(pre: Seq<SpecComponent>, r: Seq<u8>)
    ensures
        -1 <= resolver_index(pre, r) < pre.len(),
        resolver_index(pre, r) >= 0 ==> {
            let i = resolver_index(pre, r);
            &&& resolves(pre[i], r)
            &&& forall|j: int| 0 <= j < i ==> !resolves(#[trigger] pre[j], r)
        },
        resolver_index(pre, r) == -1 ==> forall|j: int|
            0 <= j < pre.len() ==> !resolves(#[trigger] pre[j], r),
    decreases pre.len(),
{
    if pre.len() > 0 {
        lemma_resolver_index(pre.drop_last(), r);
        assert forall|j: int| 0 <= j < pre.len() - 1 implies pre.drop_last()[j] == pre[j] by {}
        assert(pre[pre.len() - 1] == pre.last());
    }
}

/// The reference a removed component's references are rewritten to:
/// the canonical reference for its key, or the first-seen reference.
pub open spec fn target_of(c: SpecComponent, cs: Seq<SpecComponent>, gs: Seq<SpecGroup>) -> Seq<
    u8,
> {
    let k = key_of(c).unwrap();
    match canon_ref(sbom_components(gs), k) {
        Some(r) => r,
        None => first_key_ref(cs, k),
    }
}

/// What reference `r` has become once the components in `pre` have
/// been processed.
pub open spec fn subst_val_prefix(
    pre: Seq<SpecComponent>,
    cs: Seq<SpecComponent>,
    gs: Seq<SpecGroup>,
    r: Seq<u8>,
) -> Seq<u8> {
    let i = resolver_index(pre, r);
    if i < 0 {
        r
    } else {
        target_of(pre[i], cs, gs)
    }
}

/// What reference `r` has become after the whole merge.
pub open spec fn subst_val(cs: Seq<SpecComponent>, gs: Seq<SpecGroup>, r: Seq<u8>) -> Seq<u8> {
    subst_val_prefix(cs, cs, gs, r)
}

/// One edge after the whole merge: both its source and every entry of
/// its dependency list are substituted.
pub open spec fn subst_dep(d: SpecDependency, cs: Seq<SpecComponent>, gs: Seq<SpecGroup>) -> SpecDependency {
    SpecDependency {
        dependency_ref: subst_val(cs, gs, d.dependency_ref),
        dependencies: d.dependencies.map_values(|r: Seq<u8>| subst_val(cs, gs, r)),
    }
}

/// The relationship list after the merge.
pub open spec fn spec_merge_deps(
    ds: Seq<SpecDependency>,
    cs: Seq<SpecComponent>,
    gs: Seq<SpecGroup>,
) -> Seq<SpecDependency> {
    ds.map_values(|d: SpecDependency| subst_dep(d, cs, gs))
}

/// Lookup in an association list: the value of the first entry whose
/// key is `k`, if any.
pub open spec fn assoc_get(entries: Seq<(Seq<u8>, Seq<u8>)>, k: Seq<u8>) -> Option<Seq<u8>>
    decreases entries.len(),
{
    if entries.len() == 0 {
        None
    } else if entries[0].0 == k {
        Some(entries[0].1)
    } else {
        assoc_get(entries.drop_first(), k)
    }
}

/// Executable lookup in an association list.
fn assoc_find(entries: &Vec<(Vec<u8>, Vec<u8>)>, k: &Vec<u8>) -> (r: Option<Vec<u8>>)
    ensures
        opt_bytes_view(r) == assoc_get(entries.deep_view(), k@),
{
    proof {
        assert(entries.deep_view().skip(0) =~= entries.deep_view());
    }
    let mut i: usize = 0;
    while i < entries.len()
        invariant
            i <= entries.len(),
            assoc_get(entries.deep_view(), k@) == assoc_get(
                entries.deep_view().skip(i as int),
                k@,
            ),
        decreases entries.len() - i,
    {
        proof {
            assert(entries.deep_view().skip(i as int).drop_first() =~= entries.deep_view().skip(
                i as int + 1,
            ));
            assert(entries.deep_view().skip(i as int)[0] == entries.deep_view()[i as int]);
        }
        if bytes_eq(&entries[i].0, k) {
            return Some(bytes_clone(&entries[i].1));
        }
        i = i + 1;
    }
    None
}

/// Whether `c` is an element of the component list.
pub open spec fn is_member(cs: Seq<SpecComponent>, c: SpecComponent) -> bool {
    exists|j: int| 0 <= j < cs.len() && #[trigger] cs[j] == c
}

/// Whether some bucket of the grouped index holds `c`.
pub open spec fn in_some_bucket(gs: Seq<SpecGroup>, c: SpecComponent) -> bool {
    exists|gi: int, ci: int|
        0 <= gi < gs.len() && 0 <= ci < gs[gi].components.len() && #[trigger] gs[gi].components[ci]
            == c
}

/// Whether some component of the list carries identity key `k` and
/// reference `r`.
pub open spec fn has_keyed_ref(cs: Seq<SpecComponent>, k: Seq<u8>, r: Seq<u8>) -> bool {
    exists|j: int|
        0 <= j < cs.len() && key_of(#[trigger] cs[j]) == Some(k) && cs[j].bom_ref == Some(r)
}

/// Every component stored in any bucket of a grouped index is an
/// element of the component list the index was built from.
pub open spec fn bucket_elems_in(gs: Seq<SpecGroup>, cs: Seq<SpecComponent>) -> bool {
    forall|gi: int, ci: int|
        0 <= gi < gs.len() && 0 <= ci < gs[gi].components.len() ==> is_member(
            cs,
            #[trigger] gs[gi].components[ci],
        )
}

/// The grouped index only holds components of its input list.
pub proof fn lemma_group_elems(cs: Seq<SpecComponent>)
    ensures
        bucket_elems_in(spec_group(cs), cs),
    decreases cs.len(),
{
    if cs.len() > 0 {
        lemma_group_elems(cs.drop_last());
        let gs0 = spec_group(cs.drop_last());
        let c = cs.last();
        let gs1 = spec_group(cs);
        assert(gs1 == crate::grouping::group_insert(gs0, c));
        assert forall|gi: int, ci: int|
            0 <= gi < gs1.len() && 0 <= ci < gs1[gi].components.len() implies is_member(
            cs,
            #[trigger] gs1[gi].components[ci],
        ) by {
            let e = gs1[gi].components[ci];
            let from_old = gi < gs0.len() && ci < gs0[gi].components.len() && gs0[gi].components[ci]
                == e;
            match (crate::grouping::comp_found_by(c), crate::grouping::comp_location(c)) {
                (Some(s), Some(p)) => {
                    let bi = crate::grouping::group_index_of(gs0, s, p);
                    crate::grouping::lemma_group_index_of(gs0, s, p);
                    if bi >= 0 {
                        if gi == bi {
                            assert(gs1[gi].components == gs0[bi].components.push(c));
                            if ci < gs0[bi].components.len() {
                                assert(from_old);
                            } else {
                                assert(e == c);
                            }
                        } else {
                            assert(gs1[gi] == gs0[gi]);
                            assert(from_old);
                        }
                    } else {
                        if gi == gs0.len() {
                            assert(gs1[gi].components == seq![c]);
                            assert(e == c);
                        } else {
                            assert(gs1[gi] == gs0[gi]);
                            assert(from_old);
                        }
                    }
                },
                _ => {
                    assert(gs1[gi] == gs0[gi]);
                    assert(from_old);
                },
            }
            if from_old {
                assert(is_member(cs.drop_last(), gs0[gi].components[ci]));
                let j = choose|j: int|
                    0 <= j < cs.drop_last().len() && #[trigger] cs.drop_last()[j] == gs0[gi].components[ci];
                assert(cs[j] == e);
            } else {
                assert(e == c);
                assert(cs[cs.len() - 1] == c);
            }
        }
    }
}

/// Every flattened canonical-source component sits in some bucket.
pub proof fn lemma_sbom_elems(gs: Seq<SpecGroup>)
    ensures
        forall|m: int|
            0 <= m < sbom_components(gs).len() ==> in_some_bucket(
                gs,
                #[trigger] sbom_components(gs)[m],
            ),
    decreases gs.len(),
{
    if gs.len() == 0 {
        assert(sbom_components(gs).len() == 0);
    } else {
        lemma_sbom_elems(gs.drop_last());
        let sb0 = sbom_components(gs.drop_last());
        assert forall|m: int| 0 <= m < sbom_components(gs).len() implies in_some_bucket(
            gs,
            #[trigger] sbom_components(gs)[m],
        ) by {
            if m < sb0.len() {
                assert(sbom_components(gs)[m] == sb0[m]);
                assert(in_some_bucket(gs.drop_last(), sb0[m]));
                let (gi, ci) = choose|gi: int, ci: int|
                    0 <= gi < gs.drop_last().len() && 0 <= ci
                        < gs.drop_last()[gi].components.len()
                        && #[trigger] gs.drop_last()[gi].components[ci] == sb0[m];
                assert(gs[gi] == gs.drop_last()[gi]);
                assert(gs[gi].components[ci] == sbom_components(gs)[m]);
            } else {
                let ci = m - sb0.len();
                let gi = gs.len() - 1;
                assert(gs[gi] == gs.last());
                assert(gs[gi].components[ci] == sbom_components(gs)[m]);
            }
        }
    }
}

/// Every flattened canonical-source component is an element of the
/// component list the index was built from.
pub proof fn lemma_sbom_members(cs: Seq<SpecComponent>)
    ensures
        forall|m: int|
            0 <= m < sbom_components(spec_group(cs)).len() ==> is_member(
                cs,
                #[trigger] sbom_components(spec_group(cs))[m],
            ),
{
    let gs = spec_group(cs);
    lemma_group_elems(cs);
    lemma_sbom_elems(gs);
    let sb = sbom_components(gs);
    assert forall|m: int| 0 <= m < sb.len() implies is_member(cs, #[trigger] sb[m]) by {
        assert(in_some_bucket(gs, sb[m]));
        let (gi, ci) = choose|gi: int, ci: int|
            0 <= gi < gs.len() && 0 <= ci < gs[gi].components.len()
                && #[trigger] gs[gi].components[ci] == sb[m];
        assert(is_member(cs, gs[gi].components[ci]));
    }
}

/// A canonical reference names a component of the document that
/// carries the same identity key.
pub proof fn lemma_canon_is_doc_ref(cs: Seq<SpecComponent>, gs: Seq<SpecGroup>, k: Seq<u8>)
    requires
        gs == spec_group(cs),
        purls_have_refs(cs),
        canon_ref(sbom_components(gs), k) is Some,
    ensures
        has_keyed_ref(cs, k, canon_ref(sbom_components(gs), k).unwrap()),
{
    let sb = sbom_components(gs);
    lemma_sbom_members(cs);
    assert(purls_have_refs(sb)) by {
        assert forall|m: int|
            0 <= m < sb.len() && (#[trigger] sb[m]).purl is Some implies sb[m].bom_ref
            is Some by {
            assert(is_member(cs, sb[m]));
            let j = choose|j: int| 0 <= j < cs.len() && #[trigger] cs[j] == sb[m];
            assert(cs[j].purl is Some);
        }
    }
    lemma_canon_ref_member(sb, k);
    let m = choose|m: int|
        0 <= m < sb.len() && key_of(#[trigger] sb[m]) == Some(k) && sb[m].bom_ref == Some(
            canon_ref(sb, k).unwrap(),
        );
    assert(is_member(cs, sb[m]));
    let j = choose|j: int| 0 <= j < cs.len() && #[trigger] cs[j] == sb[m];
    assert(key_of(cs[j]) == Some(k) && cs[j].bom_ref == Some(canon_ref(sb, k).unwrap()));
}

/// One edge once the components in `pre` have been processed.
pub open spec fn subst_dep_prefix(
    d: SpecDependency,
    pre: Seq<SpecComponent>,
    cs: Seq<SpecComponent>,
    gs: Seq<SpecGroup>,
) -> SpecDependency {
    SpecDependency {
        dependency_ref: subst_val_prefix(pre, cs, gs, d.dependency_ref),
        dependencies: d.dependencies.map_values(|r: Seq<u8>| subst_val_prefix(pre, cs, gs, r)),
    }
}

/// The relationship list once the first `i` components have been
/// processed.
pub open spec fn merge_deps_prefix(
    ds: Seq<SpecDependency>,
    cs: Seq<SpecComponent>,
    gs: Seq<SpecGroup>,
    i: int,
) -> Seq<SpecDependency> {
    ds.map_values(|d: SpecDependency| subst_dep_prefix(d, cs.take(i), cs, gs))
}

/// Processing one more component changes the relationship list exactly
/// by that component's rewrite.
pub proof fn lemma_deps_step(
    ds: Seq<SpecDependency>,
    cs: Seq<SpecComponent>,
    gs: Seq<SpecGroup>,
    i: int,
)
    requires
        refs_unique(cs),
        purls_have_refs(cs),
        gs == spec_group(cs),
        0 <= i < cs.len(),
    ensures
        merge_deps_prefix(ds, cs, gs, i + 1) == match step_rewrite(cs, gs, i) {
            None => merge_deps_prefix(ds, cs, gs, i),
            Some((o, n)) => spec_rewrite_deps(merge_deps_prefix(ds, cs, gs, i), o, n),
        },
{
    let step = step_rewrite(cs, gs, i);
    let prev = merge_deps_prefix(ds, cs, gs, i);
    let next = merge_deps_prefix(ds, cs, gs, i + 1);
    let want = match step {
        None => prev,
        Some((o, n)) => spec_rewrite_deps(prev, o, n),
    };
    assert(prev.len() == ds.len());
    assert(next.len() == ds.len());
    assert(want.len() == ds.len());
    assert forall|m: int| 0 <= m < ds.len() implies next[m] =~~= want[m] by {
        lemma_subst_step(cs, gs, i, ds[m].dependency_ref);
        assert(next[m].dependency_ref == want[m].dependency_ref);
        assert(next[m].dependencies.len() == ds[m].dependencies.len());
        assert(want[m].dependencies.len() == ds[m].dependencies.len());
        assert forall|e: int| 0 <= e < ds[m].dependencies.len() implies next[m].dependencies[e]
            == want[m].dependencies[e] by {
            lemma_subst_step(cs, gs, i, ds[m].dependencies[e]);
        }
        assert(next[m].dependencies =~~= want[m].dependencies);
    }
    assert(next =~~= want);
}

/// Every component with a package identity has been assigned a
/// reference.
pub open spec fn purls_have_refs(cs: Seq<SpecComponent>) -> bool {
    forall|i: int|
        0 <= i < cs.len() && (#[trigger] cs[i]).purl is Some ==> cs[i].bom_ref is Some
}

/// No two distinct components carry the same reference.
pub open spec fn refs_unique(cs: Seq<SpecComponent>) -> bool {
    forall|i: int, j: int|
        0 <= i < j < cs.len() && (#[trigger] cs[i]).bom_ref is Some && (#[trigger] cs[j]).bom_ref
            is Some ==> cs[i].bom_ref != cs[j].bom_ref
}

/// The rewrite the merge performs when it reaches position `i`: the
/// component's reference goes to its canonical reference on a
/// canonical match, to the first-seen reference on a repeated
/// uncovered key, and nowhere otherwise.
pub open spec fn step_rewrite(cs: Seq<SpecComponent>, gs: Seq<SpecGroup>, i: int) -> Option<
    (Seq<u8>, Seq<u8>),
> {
    let c = cs[i];
    match key_of(c) {
        None => None,
        Some(k) => match canon_ref(sbom_components(gs), k) {
            Some(r) => Some((c.bom_ref.unwrap(), r)),
            None => if exists|j: int| 0 <= j < i && key_of(#[trigger] cs[j]) == Some(k) {
                Some((c.bom_ref.unwrap(), first_key_ref(cs, k)))
            } else {
                None
            },
        },
    }
}

/// A reference value after one optional rewrite.
pub open spec fn apply_step(v: Seq<u8>, step: Option<(Seq<u8>, Seq<u8>)>) -> Seq<u8> {
    match step {
        None => v,
        Some((o, n)) => rewrite_entry(v, o, n),
    }
}

/// Processing one more component changes a reference value exactly by
/// that component's rewrite: rewrite targets are never rewritten
/// again, so substitutions do not chain.
pub proof fn lemma_subst_step(
    cs: Seq<SpecComponent>,
    gs: Seq<SpecGroup>,
    i: int,
    r: Seq<u8>,
)
    requires
        refs_unique(cs),
        purls_have_refs(cs),
        gs == spec_group(cs),
        0 <= i < cs.len(),
    ensures
        subst_val_prefix(cs.take(i + 1), cs, gs, r) == apply_step(
            subst_val_prefix(cs.take(i), cs, gs, r),
            step_rewrite(cs, gs, i),
        ),
{
    let pre = cs.take(i);
    let pre1 = cs.take(i + 1);
    lemma_resolver_index(pre, r);
    lemma_resolver_index(pre1, r);
    assert forall|j: int| 0 <= j < i implies pre[j] == cs[j] && pre1[j] == cs[j] by {}
    assert(pre1[i] == cs[i]);
    let idx0 = resolver_index(pre, r);
    let idx1 = resolver_index(pre1, r);
    let step = step_rewrite(cs, gs, i);
    if idx0 >= 0 {
        // The reference was settled earlier; its value is a final
        // survivor's reference and the step leaves it alone.
        assert(resolves(pre1[idx0], r));
        assert(idx1 == idx0) by {
            if idx1 == -1 || idx1 > idx0 {
                assert(!resolves(pre1[idx0], r));
            }
            if 0 <= idx1 < idx0 {
                assert(resolves(pre1[idx1], r));
                assert(!resolves(pre[idx1], r));
            }
        }
        let c0 = cs[idx0];
        let k0 = key_of(c0).unwrap();
        let v = target_of(c0, cs, gs);
        assert(subst_val_prefix(pre, cs, gs, r) == v);
        assert(subst_val_prefix(pre1, cs, gs, r) == v);
        if step is Some {
            let o = step.unwrap().0;
            let n = step.unwrap().1;
            let ki = key_of(cs[i]).unwrap();
            assert(cs[i].purl is Some);
            assert(cs[i].bom_ref is Some);
            assert(cs[i].bom_ref == Some(o));
            if v == o {
                match canon_ref(sbom_components(gs), k0) {
                    Some(cr) => {
                        assert(v == cr);
                        lemma_canon_is_doc_ref(cs, gs, k0);
                        let j = choose|j: int|
                            0 <= j < cs.len() && key_of(#[trigger] cs[j]) == Some(k0)
                                && cs[j].bom_ref == Some(v);
                        assert(j == i) by {
                            if j < i {
                                assert(cs[j].bom_ref != cs[i].bom_ref);
                            }
                            if j > i {
                                assert(cs[i].bom_ref != cs[j].bom_ref);
                            }
                        }
                        assert(ki == k0);
                        assert(n == v);
                    },
                    None => {
                        lemma_first_key_index(cs, k0);
                        let f = first_key_index(cs, k0);
                        assert(key_of(c0) == Some(k0));
                        assert(f >= 0) by {
                            if f == -1 {
                                assert(key_of(cs[idx0]) != Some(k0));
                            }
                        }
                        assert(v == cs[f].bom_ref.unwrap());
                        assert(cs[f].purl is Some);
                        assert(cs[f].bom_ref is Some);
                        assert(cs[f].bom_ref == Some(v));
                        assert(f == i) by {
                            if f < i {
                                assert(cs[f].bom_ref != cs[i].bom_ref);
                            }
                            if f > i {
                                assert(cs[i].bom_ref != cs[f].bom_ref);
                            }
                        }
                        assert(ki == k0);
                        // The first holder of an uncovered key performs
                        // no rewrite, so this case cannot arise.
                        assert(forall|j: int| 0 <= j < i ==> key_of(#[trigger] cs[j]) != Some(k0));
                        assert(step is None);
                        assert(false);
                    },
                }
            }
        }
    } else if resolves(cs[i], r) {
        // The reference is settled right here: the step rewrites it to
        // its final target.
        assert(idx1 == i) by {
            if idx1 == -1 {
                assert(!resolves(pre1[i], r));
            }
            if 0 <= idx1 < i {
                assert(resolves(pre1[idx1], r));
                assert(!resolves(pre[idx1], r));
            }
        }
        assert(subst_val_prefix(pre, cs, gs, r) == r);
        assert(subst_val_prefix(pre1, cs, gs, r) == target_of(cs[i], cs, gs));
        let ki = key_of(cs[i]).unwrap();
        assert(cs[i].bom_ref == Some(r));
        assert(cs[i].bom_ref.unwrap() == r);
        match canon_ref(sbom_components(gs), ki) {
            Some(cr) => {
                assert(step == Some((r, cr)));
                assert(apply_step(r, step) == cr);
            },
            None => {
                if exists|j: int| 0 <= j < i && key_of(#[trigger] cs[j]) == Some(ki) {
                    assert(step == Some((r, first_key_ref(cs, ki))));
                } else {
                    assert(step is None);
                    lemma_first_key_index(cs, ki);
                    let f = first_key_index(cs, ki);
                    assert(key_of(cs[i]) == Some(ki));
                    assert(f >= 0) by {
                        if f == -1 {
                            assert(key_of(cs[i]) != Some(ki));
                        }
                    }
                    assert(f == i) by {
                        if f < i {
                            assert(key_of(cs[f]) != Some(ki));
                        }
                        if f > i {
                            assert(key_of(cs[i]) != Some(ki));
                        }
                    }
                    assert(first_key_ref(cs, ki) == r);
                }
            },
        }
    } else {
        // The reference is not settled by any processed component and
        // the step does not touch it.
        assert(idx1 == -1) by {
            if idx1 >= 0 {
                assert(resolves(pre1[idx1], r));
                if idx1 < i {
                    assert(!resolves(pre[idx1], r));
                }
            }
        }
        assert(subst_val_prefix(pre, cs, gs, r) == r);
        assert(subst_val_prefix(pre1, cs, gs, r) == r);
        if step is Some {
            let o = step.unwrap().0;
            assert(cs[i].purl is Some);
            assert(cs[i].bom_ref is Some);
            assert(cs[i].bom_ref == Some(o));
            if r == o {
                assert(resolves(cs[i], r));
                assert(false);
            }
        }
    }
}

/// One reference with one substitution applied.
pub open spec fn rewrite_entry(r: Seq<u8>, o: Seq<u8>, n: Seq<u8>) -> Seq<u8> {
    if r == o {
        n
    } else {
        r
    }
}

/// One edge with one reference substitution applied.
pub open spec fn spec_rewrite_dep(d: SpecDependency, o: Seq<u8>, n: Seq<u8>) -> SpecDependency {
    SpecDependency {
        dependency_ref: rewrite_entry(d.dependency_ref, o, n),
        dependencies: d.dependencies.map_values(|r: Seq<u8>| rewrite_entry(r, o, n)),
    }
}

/// The relationship list with one reference substitution applied.
pub open spec fn spec_rewrite_deps(ds: Seq<SpecDependency>, o: Seq<u8>, n: Seq<u8>) -> Seq<
    SpecDependency,
> {
    ds.map_values(|d: SpecDependency| spec_rewrite_dep(d, o, n))
}

/// Every flattened canonical-source component carries the canonical
/// source's provenance properties.
pub proof fn lemma_sbom_elem_props(gs: Seq<SpecGroup>)
    requires
        crate::grouping::buckets_consistent(gs),
    ensures
        forall|m: int|
            0 <= m < sbom_components(gs).len() ==> {
                &&& crate::grouping::comp_found_by(#[trigger] sbom_components(gs)[m]) == Some(
                    sbom_source(),
                )
                &&& crate::grouping::comp_location(sbom_components(gs)[m]) is Some
            },
    decreases gs.len(),
{
    if gs.len() > 0 {
        assert(crate::grouping::buckets_consistent(gs.drop_last())) by {
            assert forall|gi: int, ci: int|
                0 <= gi < gs.drop_last().len() && 0 <= ci
                    < gs.drop_last()[gi].components.len() implies {
                &&& crate::grouping::comp_found_by(#[trigger] gs.drop_last()[gi].components[ci])
                    == Some(gs.drop_last()[gi].found_by)
                &&& crate::grouping::comp_location(gs.drop_last()[gi].components[ci]) == Some(
                    gs.drop_last()[gi].path,
                )
            } by {
                assert(gs.drop_last()[gi] == gs[gi]);
            }
        }
        lemma_sbom_elem_props(gs.drop_last());
        let sb0 = sbom_components(gs.drop_last());
        assert forall|m: int| 0 <= m < sbom_components(gs).len() implies {
            &&& crate::grouping::comp_found_by(#[trigger] sbom_components(gs)[m]) == Some(
                sbom_source(),
            )
            &&& crate::grouping::comp_location(sbom_components(gs)[m]) is Some
        } by {
            if m < sb0.len() {
                assert(sbom_components(gs)[m] == sb0[m]);
            } else {
                let ci = m - sb0.len();
                let gi = gs.len() - 1;
                assert(gs[gi] == gs.last());
                assert(sbom_components(gs)[m] == gs[gi].components[ci]);
                assert(gs[gi].found_by == sbom_source());
            }
        }
    }
}

/// Pushing one more component onto a bucket keeps every flattened
/// canonical-source component, and adds the pushed one when the
/// bucket belongs to the canonical source.
pub proof fn lemma_flatten_bucket_push(gs: Seq<SpecGroup>, bi: int, c: SpecComponent)
    requires
        0 <= bi < gs.len(),
    ensures
        ({
            let gs2 = gs.update(
                bi,
                SpecGroup {
                    found_by: gs[bi].found_by,
                    path: gs[bi].path,
                    components: gs[bi].components.push(c),
                },
            );
            &&& forall|m: int|
                0 <= m < sbom_components(gs).len() ==> is_member(
                    sbom_components(gs2),
                    #[trigger] sbom_components(gs)[m],
                )
            &&& (gs[bi].found_by == sbom_source() ==> is_member(sbom_components(gs2), c))
        }),
    decreases gs.len(),
{
    let gs2 = gs.update(
        bi,
        SpecGroup {
            found_by: gs[bi].found_by,
            path: gs[bi].path,
            components: gs[bi].components.push(c),
        },
    );
    if bi == gs.len() - 1 {
        assert(gs2.drop_last() =~~= gs.drop_last());
        let pre = sbom_components(gs.drop_last());
        assert(sbom_components(gs2.drop_last()) == pre);
        assert(gs2.last() == gs2[bi]);
        if gs[bi].found_by == sbom_source() {
            assert(sbom_components(gs2) == pre + gs[bi].components.push(c));
            assert forall|m: int| 0 <= m < sbom_components(gs).len() implies is_member(
                sbom_components(gs2),
                #[trigger] sbom_components(gs)[m],
            ) by {
                assert(sbom_components(gs)[m] == (pre + gs[bi].components)[m]);
                assert(sbom_components(gs2)[m] == sbom_components(gs)[m]);
            }
            let last = sbom_components(gs2).len() - 1;
            assert(sbom_components(gs2)[last] == c);
            assert(is_member(sbom_components(gs2), c));
        } else {
            assert(sbom_components(gs2) =~~= sbom_components(gs));
            assert forall|m: int| 0 <= m < sbom_components(gs).len() implies is_member(
                sbom_components(gs2),
                #[trigger] sbom_components(gs)[m],
            ) by {
                assert(sbom_components(gs2)[m] == sbom_components(gs)[m]);
            }
        }
    } else {
        let inner = gs.drop_last().update(
            bi,
            SpecGroup {
                found_by: gs.drop_last()[bi].found_by,
                path: gs.drop_last()[bi].path,
                components: gs.drop_last()[bi].components.push(c),
            },
        );
        assert(gs.drop_last()[bi] == gs[bi]);
        assert(gs2.drop_last() =~~= inner);
        assert(gs2.last() == gs.last());
        lemma_flatten_bucket_push(gs.drop_last(), bi, c);
        let pre_old = sbom_components(gs.drop_last());
        let pre_new = sbom_components(inner);
        assert(sbom_components(gs2.drop_last()) == pre_new);
        let tail = if gs.last().found_by == sbom_source() {
            gs.last().components
        } else {
            Seq::<SpecComponent>::empty()
        };
        assert(sbom_components(gs) == pre_old + tail);
        assert(sbom_components(gs2) == pre_new + tail);
        assert forall|m: int| 0 <= m < sbom_components(gs).len() implies is_member(
            sbom_components(gs2),
            #[trigger] sbom_components(gs)[m],
        ) by {
            if m < pre_old.len() {
                assert(sbom_components(gs)[m] == pre_old[m]);
                assert(is_member(pre_new, pre_old[m]));
                let w = choose|j: int| 0 <= j < pre_new.len() && #[trigger] pre_new[j] == pre_old[m];
                assert(sbom_components(gs2)[w] == pre_old[m]);
            } else {
                let t = m - pre_old.len();
                assert(sbom_components(gs)[m] == tail[t]);
                assert(sbom_components(gs2)[pre_new.len() + t] == tail[t]);
            }
        }
        if gs[bi].found_by == sbom_source() {
            assert(is_member(pre_new, c));
            let w = choose|j: int| 0 <= j < pre_new.len() && #[trigger] pre_new[j] == c;
            assert(sbom_components(gs2)[w] == c);
        }
    }
}

/// A component carrying the canonical source's provenance is among
/// the flattened canonical-source components of the grouped index.
pub proof fn lemma_sbom_complete(cs: Seq<SpecComponent>, j: int)
    requires
        0 <= j < cs.len(),
        crate::grouping::comp_found_by(cs[j]) == Some(sbom_source()),
        crate::grouping::comp_location(cs[j]) is Some,
    ensures
        is_member(sbom_components(spec_group(cs)), cs[j]),
    decreases cs.len(),
{
    let gs0 = spec_group(cs.drop_last());
    let c = cs.last();
    let gs1 = spec_group(cs);
    if j == cs.len() - 1 {
        assert(c == cs[j]);
        let s = sbom_source();
        let p = crate::grouping::comp_location(c).unwrap();
        assert(crate::grouping::comp_found_by(c) == Some(s));
        assert(crate::grouping::comp_location(c) == Some(p));
        let bi = crate::grouping::group_index_of(gs0, s, p);
        crate::grouping::lemma_group_index_of(gs0, s, p);
        if bi >= 0 {
            assert(gs0[bi].found_by == s);
            lemma_flatten_bucket_push(gs0, bi, c);
            assert(gs1 == gs0.update(
                bi,
                SpecGroup {
                    found_by: gs0[bi].found_by,
                    path: gs0[bi].path,
                    components: gs0[bi].components.push(c),
                },
            ));
        } else {
            assert(gs1 == gs0.push(SpecGroup { found_by: s, path: p, components: seq![c] }));
            assert(gs1.drop_last() =~~= gs0);
            assert(gs1.last().found_by == sbom_source());
            assert(sbom_components(gs1) == sbom_components(gs0) + seq![c]);
            let w = sbom_components(gs1).len() - 1;
            assert(sbom_components(gs1)[w] == c);
        }
    } else {
        assert(cs.drop_last()[j] == cs[j]);
        lemma_sbom_complete(cs.drop_last(), j);
        let w0 = choose|m: int|
            0 <= m < sbom_components(gs0).len() && #[trigger] sbom_components(gs0)[m] == cs[j];
        match (crate::grouping::comp_found_by(c), crate::grouping::comp_location(c)) {
            (Some(s), Some(p)) => {
                let bi = crate::grouping::group_index_of(gs0, s, p);
                crate::grouping::lemma_group_index_of(gs0, s, p);
                if bi >= 0 {
                    lemma_flatten_bucket_push(gs0, bi, c);
                    assert(gs1 == gs0.update(
                        bi,
                        SpecGroup {
                            found_by: gs0[bi].found_by,
                            path: gs0[bi].path,
                            components: gs0[bi].components.push(c),
                        },
                    ));
                    assert(is_member(sbom_components(gs1), sbom_components(gs0)[w0]));
                } else {
                    assert(gs1 == gs0.push(SpecGroup { found_by: s, path: p, components: seq![c] }));
                    assert(gs1.drop_last() =~~= gs0);
                    assert(sbom_components(gs1) == sbom_components(gs0) + (
                    if s == sbom_source() {
                        seq![c]
                    } else {
                        Seq::<SpecComponent>::empty()
                    }));
                    assert(sbom_components(gs1)[w0] == cs[j]);
                }
            },
            _ => {
                assert(gs1 == gs0);
            },
        }
    }
}

/// The first-seen map mirrors the processed prefix: for every key
/// without a canonical record, it holds the first-seen reference
/// exactly when some processed component carries the key.
pub open spec fn merged_map_ok(
    m: Seq<(Seq<u8>, Seq<u8>)>,
    cs: Seq<SpecComponent>,
    gs: Seq<SpecGroup>,
    i: int,
) -> bool {
    forall|k: Seq<u8>|
        canon_ref(sbom_components(gs), k) is None ==> #[trigger] assoc_get(m, k) == (
        if exists|j: int| 0 <= j < i && key_of(#[trigger] cs[j]) == Some(k) {
            Some(first_key_ref(cs, k))
        } else {
            Option::<Seq<u8>>::None
        })
}

/// Whether a key occurs among the first `i` components is unchanged
/// by a component that does not carry it.
pub proof fn lemma_exists_key_step(cs: Seq<SpecComponent>, i: int, k: Seq<u8>)
    requires
        0 <= i < cs.len(),
        key_of(cs[i]) != Some(k),
    ensures
        (exists|j: int| 0 <= j < i + 1 && key_of(#[trigger] cs[j]) == Some(k)) == (exists|j: int|
            0 <= j < i && key_of(#[trigger] cs[j]) == Some(k)),
{
    if exists|j: int| 0 <= j < i + 1 && key_of(#[trigger] cs[j]) == Some(k) {
        let w = choose|j: int| 0 <= j < i + 1 && key_of(#[trigger] cs[j]) == Some(k);
        assert(w != i);
        assert(0 <= w < i && key_of(cs[w]) == Some(k));
    }
    if exists|j: int| 0 <= j < i && key_of(#[trigger] cs[j]) == Some(k) {
        let w = choose|j: int| 0 <= j < i && key_of(#[trigger] cs[j]) == Some(k);
        assert(0 <= w < i + 1 && key_of(cs[w]) == Some(k));
    }
}

/// Identity implies a reference also on the flattened
/// canonical-source components.
pub proof fn lemma_sbom_purls(cs: Seq<SpecComponent>)
    requires
        purls_have_refs(cs),
    ensures
        purls_have_refs(sbom_components(spec_group(cs))),
{
    lemma_sbom_members(cs);
    let sb = sbom_components(spec_group(cs));
    assert forall|m: int|
        0 <= m < sb.len() && (#[trigger] sb[m]).purl is Some implies sb[m].bom_ref is Some by {
        assert(is_member(cs, sb[m]));
        let j = choose|j: int| 0 <= j < cs.len() && #[trigger] cs[j] == sb[m];
        assert(cs[j].purl is Some);
    }
}

/// Replaces every edge reference equal to `old_ref` — as an edge's
/// source or inside its dependency list — with `new_ref`.
pub fn update_dependencies(deps: &mut Vec<Dependency>, old_ref: &Vec<u8>, new_ref: &Vec<u8>)
    ensures
        final(deps).deep_view() == spec_rewrite_deps(old(deps).deep_view(), old_ref@, new_ref@),
{
    let mut out: Vec<Dependency> = Vec::new();
    let mut i: usize = 0;
    while i < deps.len()
        invariant
            i <= deps.len(),
            deps == old(deps),
            out@.len() == i,
            out.deep_view().len() == i,
            forall|m: int|
                0 <= m < i ==> out.deep_view()[m] == spec_rewrite_dep(
                    #[trigger] deps.deep_view()[m],
                    old_ref@,
                    new_ref@,
                ),
        decreases deps.len() - i,
    {
        let ghost pre = out.deep_view();
        let d = &deps[i];
        let src: Vec<u8> = if bytes_eq(&d.dependency_ref, old_ref) {
            bytes_clone(new_ref)
        } else {
            bytes_clone(&d.dependency_ref)
        };
        let mut entries: Vec<Vec<u8>> = Vec::new();
        let mut j: usize = 0;
        while j < d.dependencies.len()
            invariant
                j <= d.dependencies.len(),
                entries@.len() == j,
                entries.deep_view().len() == j,
                forall|m: int|
                    0 <= m < j ==> entries.deep_view()[m] == rewrite_entry(
                        #[trigger] d.deep_view().dependencies[m],
                        old_ref@,
                        new_ref@,
                    ),
            decreases d.dependencies.len() - j,
        {
            let ghost epre = entries.deep_view();
            if bytes_eq(&d.dependencies[j], old_ref) {
                entries.push(bytes_clone(new_ref));
            } else {
                entries.push(bytes_clone(&d.dependencies[j]));
            }
            proof {
                assert(entries@.len() == j + 1);
                assert(entries.deep_view().len() == entries@.len());
                assert forall|m: int| 0 <= m < j implies entries.deep_view()[m] == epre[m] by {}
                assert(entries.deep_view()[j as int] == rewrite_entry(
                    d.deep_view().dependencies[j as int],
                    old_ref@,
                    new_ref@,
                ));
            }
            j = j + 1;
        }
        proof {
            assert(entries.deep_view() =~~= d.deep_view().dependencies.map_values(
                |r: Seq<u8>| rewrite_entry(r, old_ref@, new_ref@),
            ));
        }
        out.push(Dependency { dependency_ref: src, dependencies: entries });
        proof {
            assert(out@.len() == i + 1);
            assert(out.deep_view().len() == out@.len());
            assert forall|m: int| 0 <= m < i implies out.deep_view()[m] == pre[m] by {}
            assert(out.deep_view()[i as int] =~~= spec_rewrite_dep(
                deps.deep_view()[i as int],
                old_ref@,
                new_ref@,
            ));
        }
        i = i + 1;
    }
    proof {
        assert(out.deep_view() =~~= spec_rewrite_deps(deps.deep_view(), old_ref@, new_ref@));
    }
    *deps = out;
}

/// Collapses components that share an identity key, preferring the
/// canonical source's record, and rewrites every edge reference from
/// a removed component to its survivor.  Components without an
/// identity are always retained; retained components keep their input
/// order.
pub fn merge_duplicate_components(bom: &mut Bom, groups: &Vec<Group>)
    requires
        refs_unique(old(bom)@.components),
        purls_have_refs(old(bom)@.components),
        groups.deep_view() == spec_group(old(bom)@.components),
    ensures
        final(bom)@.components == spec_merge_components(
            old(bom)@.components,
            groups.deep_view(),
        ),
        final(bom)@.dependencies == spec_merge_deps(
            old(bom)@.dependencies,
            old(bom)@.components,
            groups.deep_view(),
        ),
{
    let ghost cs = old(bom)@.components;
    let ghost gs = groups.deep_view();
    let ghost ds0 = old(bom)@.dependencies;
    let sbom_name = sbom_source_bytes();

    // Flatten the canonical-source buckets, in bucket order.
    let mut flat: Vec<Component> = Vec::new();
    let mut gi: usize = 0;
    proof {
        assert(sbom_components(gs.take(0)) =~= Seq::<SpecComponent>::empty());
        assert(flat.deep_view() =~= sbom_components(gs.take(0)));
    }
    while gi < groups.len()
        invariant
            gi <= groups.len(),
            gs == groups.deep_view(),
            flat.deep_view() == sbom_components(gs.take(gi as int)),
            sbom_name@ == sbom_source(),
        decreases groups.len() - gi,
    {
        let ghost gv = gs[gi as int];
        let g = &groups[gi];
        proof {
            assert(g.deep_view() == gv);
            assert(gs.take(gi as int + 1).drop_last() =~= gs.take(gi as int));
            assert(gs.take(gi as int + 1).last() == gv);
        }
        if bytes_eq(&g.found_by, &sbom_name) {
            let mut ci: usize = 0;
            proof {
                assert(flat.deep_view() =~= sbom_components(gs.take(gi as int))
                    + gv.components.take(0));
            }
            while ci < g.components.len()
                invariant
                    ci <= g.components.len(),
                    g.deep_view() == gv,
                    flat.deep_view() == sbom_components(gs.take(gi as int))
                        + gv.components.take(ci as int),
                decreases g.components.len() - ci,
            {
                let ghost pre = flat.deep_view();
                flat.push(clone_component(&g.components[ci]));
                proof {
                    assert(gv.components.len() == g.components@.len());
                    assert(pre.len() == sbom_components(gs.take(gi as int)).len() + ci);
                    assert(flat@.len() == pre.len() + 1);
                    assert(flat.deep_view().len() == flat@.len());
                    assert(flat.deep_view()[pre.len() as int] == gv.components[ci as int]);
                    let sb = sbom_components(gs.take(gi as int));
                    assert forall|m: int| 0 <= m < flat.deep_view().len() implies flat.deep_view()[m]
                        == (sb + gv.components.take(ci as int + 1))[m] by {
                        if m < pre.len() {
                            assert(flat.deep_view()[m] == pre[m]);
                            assert(pre[m] == (sb + gv.components.take(ci as int))[m]);
                        }
                    }
                    assert(flat.deep_view() =~~= sb + gv.components.take(ci as int + 1));
                }
                ci = ci + 1;
            }
            proof {
                assert(gv.components.take(g.components.len() as int) =~= gv.components);
                assert(flat.deep_view() =~~= sbom_components(gs.take(gi as int + 1)));
            }
        } else {
            proof {
                assert(gv.found_by != sbom_source());
                assert(flat.deep_view() =~= sbom_components(gs.take(gi as int + 1)));
            }
        }
        gi = gi + 1;
    }
    proof {
        assert(gs.take(groups.len() as int) =~= gs);
        lemma_sbom_purls(cs);
    }

    // Build the canonical map; a later entry overwrites an earlier one.
    let mut canon: Vec<(Vec<u8>, Vec<u8>)> = Vec::new();
    let mut fi: usize = 0;
    proof {
        assert(flat.deep_view().take(0) =~= Seq::<SpecComponent>::empty());
    }
    while fi < flat.len()
        invariant
            fi <= flat.len(),
            flat.deep_view() == sbom_components(gs),
            purls_have_refs(flat.deep_view()),
            forall|k: Seq<u8>|
                #[trigger] assoc_get(canon.deep_view(), k) == canon_ref(
                    flat.deep_view().take(fi as int),
                    k,
                ),
        decreases flat.len() - fi,
    {
        let ghost fv = flat.deep_view()[fi as int];
        let ghost pre_canon = canon.deep_view();
        let c = &flat[fi];
        proof {
            assert(c.deep_view() == fv);
            assert(flat.deep_view().take(fi as int + 1).drop_last() =~= flat.deep_view().take(
                fi as int,
            ));
            assert(flat.deep_view().take(fi as int + 1).last() == fv);
        }
        if let Some(p) = &c.purl {
            let k = strip_query(p);
            let refv: Vec<u8> = match &c.bom_ref {
                Some(r) => bytes_clone(r),
                None => vstd::pervasive::unreached(),
            };
            canon.insert(0, (k, refv));
            proof {
                assert(canon@.len() == pre_canon.len() + 1);
                assert(canon.deep_view().len() == canon@.len());
                assert(canon.deep_view()[0].0 == spec_strip_query(p@));
                assert(canon.deep_view()[0].1 == fv.bom_ref.unwrap());
                assert forall|m: int| 1 <= m < canon.deep_view().len() implies canon.deep_view()[m]
                    == pre_canon[m - 1] by {}
                assert(canon.deep_view().drop_first() =~~= pre_canon);
                assert(key_of(fv) == Some(spec_strip_query(p@)));
                assert forall|k2: Seq<u8>| #[trigger] assoc_get(canon.deep_view(), k2)
                    == canon_ref(flat.deep_view().take(fi as int + 1), k2) by {
                    if k2 == spec_strip_query(p@) {
                        assert(assoc_get(canon.deep_view(), k2) == Some(fv.bom_ref.unwrap()));
                    } else {
                        assert(assoc_get(canon.deep_view(), k2) == assoc_get(
                            canon.deep_view().drop_first(),
                            k2,
                        ));
                    }
                }
            }
        } else {
            proof {
                assert(key_of(fv) is None);
                assert forall|k2: Seq<u8>| #[trigger] assoc_get(canon.deep_view(), k2)
                    == canon_ref(flat.deep_view().take(fi as int + 1), k2) by {
                    assert(key_of(flat.deep_view().take(fi as int + 1).last()) != Some(k2));
                }
            }
        }
        fi = fi + 1;
    }
    proof {
        assert(flat.deep_view().take(flat.len() as int) =~= flat.deep_view());
    }

    // Walk the component list, deciding retain-or-remove and rewriting
    // edge references as merges are decided.
    let mut out: Vec<Component> = Vec::new();
    let mut merged: Vec<(Vec<u8>, Vec<u8>)> = Vec::new();
    let mut i: usize = 0;
    proof {
        assert(cs.take(0) =~= Seq::<SpecComponent>::empty());
        assert(bom@.dependencies =~~= merge_deps_prefix(ds0, cs, gs, 0)) by {
            assert forall|m: int| 0 <= m < ds0.len() implies merge_deps_prefix(ds0, cs, gs, 0)[m]
                =~~= ds0[m] by {
                lemma_resolver_index(cs.take(0), ds0[m].dependency_ref);
                assert forall|e: int| 0 <= e < ds0[m].dependencies.len() implies subst_val_prefix(
                    cs.take(0),
                    cs,
                    gs,
                    ds0[m].dependencies[e],
                ) == ds0[m].dependencies[e] by {
                    lemma_resolver_index(cs.take(0), ds0[m].dependencies[e]);
                }
            }
        }
    }
    while i < bom.components.len()
        invariant
            i <= bom.components.len(),
            bom@.components == cs,
            gs == groups.deep_view(),
            refs_unique(cs),
            purls_have_refs(cs),
            gs == spec_group(cs),
            forall|k: Seq<u8>|
                #[trigger] assoc_get(canon.deep_view(), k) == canon_ref(sbom_components(gs), k),
            out.deep_view() == merge_prefix(cs, gs, i as int),
            bom@.dependencies == merge_deps_prefix(ds0, cs, gs, i as int),
            merged_map_ok(merged.deep_view(), cs, gs, i as int),
        decreases bom.components.len() - i,
    {
        let ghost c_v = cs[i as int];
        let ghost pre_out = out.deep_view();
        let ghost pre_merged = merged.deep_view();
        let c = &bom.components[i];
        proof {
            assert(c.deep_view() == c_v);
        }
        let retained: bool;
        let ghost step = step_rewrite(cs, gs, i as int);
        match &c.purl {
            None => {
                out.push(clone_component(c));
                retained = true;
                proof {
                    assert(key_of(c_v) is None);
                    assert(retained_at(cs, gs, i as int));
                    assert(step is None);
                    assert(merged_map_ok(merged.deep_view(), cs, gs, i as int + 1)) by {
                        assert forall|k2: Seq<u8>|
                            canon_ref(sbom_components(gs), k2) is None implies #[trigger] assoc_get(
                            merged.deep_view(),
                            k2,
                        ) == (if exists|j: int|
                            0 <= j < i + 1 && key_of(#[trigger] cs[j]) == Some(k2) {
                            Some(first_key_ref(cs, k2))
                        } else {
                            Option::<Seq<u8>>::None
                        }) by {
                            lemma_exists_key_step(cs, i as int, k2);
                        }
                    }
                }
            },
            Some(p) => {
                let k = strip_query(p);
                let cref: Vec<u8> = match &c.bom_ref {
                    Some(r) => bytes_clone(r),
                    None => vstd::pervasive::unreached(),
                };
                proof {
                    assert(key_of(c_v) == Some(k@));
                    assert(c_v.bom_ref == Some(cref@));
                }
                match assoc_find(&canon, &k) {
                    Some(sref) => {
                        proof {
                            assert(canon_ref(sbom_components(gs), k@) == Some(sref@));
                            assert(step == Some((cref@, sref@)));
                            assert(merged_map_ok(merged.deep_view(), cs, gs, i as int + 1)) by {
                                assert forall|k2: Seq<u8>|
                                    canon_ref(sbom_components(gs), k2)
                                        is None implies #[trigger] assoc_get(
                                    merged.deep_view(),
                                    k2,
                                ) == (if exists|j: int|
                                    0 <= j < i + 1 && key_of(#[trigger] cs[j]) == Some(k2) {
                                    Some(first_key_ref(cs, k2))
                                } else {
                                    Option::<Seq<u8>>::None
                                }) by {
                                    assert(k2 != k@);
                                    lemma_exists_key_step(cs, i as int, k2);
                                }
                            }
                        }
                        update_dependencies(&mut bom.dependencies, &cref, &sref);
                        if bytes_eq(&cref, &sref) {
                            out.push(clone_component(c));
                            retained = true;
                            proof {
                                assert(retained_at(cs, gs, i as int));
                            }
                        } else {
                            retained = false;
                            proof {
                                assert(!retained_at(cs, gs, i as int));
                            }
                        }
                    },
                    None => {
                        proof {
                            assert(canon_ref(sbom_components(gs), k@) is None);
                        }
                        match assoc_find(&merged, &k) {
                            Some(firstr) => {
                                proof {
                                    assert(assoc_get(merged.deep_view(), k@) == Some(firstr@));
                                    assert(exists|j: int|
                                        0 <= j < i && key_of(#[trigger] cs[j]) == Some(k@));
                                    assert(firstr@ == first_key_ref(cs, k@));
                                    assert(step == Some((cref@, firstr@)));
                                    let w = choose|j: int|
                                        0 <= j < i && key_of(#[trigger] cs[j]) == Some(k@);
                                    assert(!retained_at(cs, gs, i as int));
                                    assert(merged_map_ok(merged.deep_view(), cs, gs, i as int + 1))
                                        by {
                                        assert forall|k2: Seq<u8>|
                                            canon_ref(sbom_components(gs), k2)
                                                is None implies #[trigger] assoc_get(
                                            merged.deep_view(),
                                            k2,
                                        ) == (if exists|j: int|
                                            0 <= j < i + 1 && key_of(#[trigger] cs[j]) == Some(
                                                k2,
                                            ) {
                                            Some(first_key_ref(cs, k2))
                                        } else {
                                            Option::<Seq<u8>>::None
                                        }) by {
                                            if k2 == k@ {
                                                assert(0 <= w < i + 1 && key_of(cs[w]) == Some(
                                                    k2,
                                                ));
                                            } else {
                                                lemma_exists_key_step(cs, i as int, k2);
                                            }
                                        }
                                    }
                                }
                                update_dependencies(&mut bom.dependencies, &cref, &firstr);
                                retained = false;
                            },
                            None => {
                                proof {
                                    assert(assoc_get(merged.deep_view(), k@) is None);
                                    assert(!exists|j: int|
                                        0 <= j < i && key_of(#[trigger] cs[j]) == Some(k@));
                                    assert(retained_at(cs, gs, i as int));
                                    assert(step is None);
                                }
                                merged.insert(0, (k, bytes_clone(&cref)));
                                out.push(clone_component(c));
                                retained = true;
                                proof {
                                    lemma_first_key_index(cs, k@);
                                    assert(first_key_index(cs, k@) == i as int) by {
                                        let f = first_key_index(cs, k@);
                                        if f == -1 {
                                            assert(key_of(cs[i as int]) != Some(k@));
                                        }
                                        if 0 <= f < i as int {
                                            assert(exists|j: int|
                                                0 <= j < i && key_of(#[trigger] cs[j]) == Some(
                                                    k@,
                                                ));
                                        }
                                        if f > i as int {
                                            assert(key_of(cs[i as int]) != Some(k@));
                                        }
                                    }
                                    assert(first_key_ref(cs, k@) == cref@);
                                    assert(merged@.len() == pre_merged.len() + 1);
                                    assert(merged.deep_view().len() == merged@.len());
                                    assert(merged.deep_view()[0].0 == k@);
                                    assert(merged.deep_view()[0].1 == cref@);
                                    assert forall|m: int|
                                        1 <= m < merged.deep_view().len() implies merged.deep_view()[m]
                                        == pre_merged[m - 1] by {}
                                    assert(merged.deep_view().drop_first() =~~= pre_merged);
                                    assert(merged_map_ok(merged.deep_view(), cs, gs, i as int + 1))
                                        by {
                                        assert forall|k2: Seq<u8>|
                                            canon_ref(sbom_components(gs), k2)
                                                is None implies #[trigger] assoc_get(
                                            merged.deep_view(),
                                            k2,
                                        ) == (if exists|j: int|
                                            0 <= j < i + 1 && key_of(#[trigger] cs[j]) == Some(
                                                k2,
                                            ) {
                                            Some(first_key_ref(cs, k2))
                                        } else {
                                            Option::<Seq<u8>>::None
                                        }) by {
                                            if k2 == k@ {
                                                assert(assoc_get(merged.deep_view(), k2) == Some(
                                                    cref@,
                                                ));
                                                assert(0 <= i < i + 1 && key_of(cs[i as int])
                                                    == Some(k2));
                                            } else {
                                                assert(assoc_get(merged.deep_view(), k2)
                                                    == assoc_get(pre_merged, k2));
                                                lemma_exists_key_step(cs, i as int, k2);
                                            }
                                        }
                                    }
                                }
                            },
                        }
                    },
                }
            },
        }
        proof {
            // The retained prefix extends by one component or none.
            if retained {
                assert(out@.len() == pre_out.len() + 1);
                assert(out.deep_view().len() == out@.len());
                assert forall|m: int| 0 <= m < pre_out.len() implies out.deep_view()[m]
                    == pre_out[m] by {}
                assert(out.deep_view()[pre_out.len() as int] == c_v);
                assert(out.deep_view() =~~= merge_prefix(cs, gs, i as int + 1));
            } else {
                assert(out.deep_view() =~~= merge_prefix(cs, gs, i as int + 1));
            }
            // The relationship list advances by this component's rewrite.
            lemma_deps_step(ds0, cs, gs, i as int);
            assert(bom@.dependencies == merge_deps_prefix(ds0, cs, gs, i as int + 1));
            assert(merged_map_ok(merged.deep_view(), cs, gs, i as int + 1));
        }
        i = i + 1;
    }
    proof {
        assert(cs.take(cs.len() as int) =~= cs);
        assert(out.deep_view() == spec_merge_components(cs, gs));
        assert(bom@.dependencies =~~= spec_merge_deps(ds0, cs, gs)) by {
            let lhs = merge_deps_prefix(ds0, cs, gs, cs.len() as int);
            let rhs = spec_merge_deps(ds0, cs, gs);
            assert(lhs.len() == ds0.len());
            assert(rhs.len() == ds0.len());
            assert forall|m: int| 0 <= m < ds0.len() implies lhs[m] =~~= rhs[m] by {
                assert(lhs[m].dependency_ref == rhs[m].dependency_ref);
                assert forall|e: int| 0 <= e < ds0[m].dependencies.len() implies lhs[m].dependencies[e]
                    == rhs[m].dependencies[e] by {}
                assert(lhs[m].dependencies =~~= rhs[m].dependencies);
            }
        }
    }
    bom.components = out;
}

} // verus!
