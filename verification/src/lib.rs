//! Normalization of a software bill of materials produced by several
//! overlapping scanners: components are indexed by provenance,
//! containment edges are reconstructed between archives and their
//! contents, duplicate component entries are collapsed with every
//! relationship reference rewritten to the survivor, and one
//! operating-system name is fixed up.  Every pass carries a contract
//! that pins its result down, and the global guarantees — referential
//! integrity, uniqueness of identities, order preservation, canonical
//! preference and idempotence of the merge — are proved in `laws`.
pub mod model;
pub mod grouping;
pub mod os_fixup;
pub mod jar_deps;
pub mod merge;
pub mod pipeline;
pub mod laws;
