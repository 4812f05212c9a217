//! The whole normalization pass over one document: group, reconstruct
//! containment edges, merge duplicates, fix operating-system names.
use vstd::prelude::*;

use crate::grouping::{group_components, spec_group};
use crate::jar_deps::{parents_have_refs, process_jar_dependencies, spec_jar_edges};
use crate::merge::{
    merge_duplicate_components, purls_have_refs, refs_unique, spec_merge_components,
    spec_merge_deps,
};
use crate::model::{Bom, SpecBom};
use crate::os_fixup::{fix_os_names, spec_fix_os_names};

verus! {

/// The document after the whole pass: containment edges are appended,
/// duplicates are merged with every edge reference rewritten, and
/// operating-system names are fixed up.
pub open spec fn spec_normalize(b: SpecBom) -> SpecBom {
    let gs = spec_group(b.components);
    let with_edges = b.dependencies + spec_jar_edges(gs);
    SpecBom {
        components: spec_fix_os_names(spec_merge_components(b.components, gs)),
        dependencies: spec_merge_deps(with_edges, b.components, gs),
    }
}

/// Runs the three passes in order on one document.
pub fn normalize_bom(bom: &mut Bom)
    requires
        refs_unique(old(bom)@.components),
        purls_have_refs(old(bom)@.components),
        parents_have_refs(spec_group(old(bom)@.components)),
    ensures
        final(bom)@ == spec_normalize(old(bom)@),
{
    let ghost cs = old(bom)@.components;
    let ghost gs = spec_group(cs);
    let groups = group_components(bom);
    process_jar_dependencies(bom, &groups);
    proof {
        assert(bom@.components == cs);
        assert(bom@.dependencies == old(bom)@.dependencies + spec_jar_edges(gs));
    }
    merge_duplicate_components(bom, &groups);
    fix_os_names(bom);
    proof {
        assert(bom@ =~= spec_normalize(old(bom)@));
    }
}

} // verus!
