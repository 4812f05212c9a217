use bom_normalize::grouping::group_components;
use bom_normalize::jar_deps::process_jar_dependencies;
use bom_normalize::merge::{merge_duplicate_components, update_dependencies};
use bom_normalize::model::{Bom, Component, Dependency, Property};
use bom_normalize::os_fixup::fix_os_names;
use bom_normalize::pipeline::normalize_bom;

fn comp(
    bom_ref: Option<&str>,
    purl: Option<&str>,
    ctype: &str,
    name: &str,
    props: &[(&str, &str)],
) -> Component {
    Component {
        bom_ref: bom_ref.map(|s| s.as_bytes().to_vec()),
        purl: purl.map(|s| s.as_bytes().to_vec()),
        component_type: ctype.as_bytes().to_vec(),
        name: name.as_bytes().to_vec(),
        properties: props
            .iter()
            .map(|(n, v)| Property { name: n.as_bytes().to_vec(), value: v.as_bytes().to_vec() })
            .collect(),
    }
}

fn edge(source: &str, targets: &[&str]) -> Dependency {
    Dependency {
        dependency_ref: source.as_bytes().to_vec(),
        dependencies: targets.iter().map(|t| t.as_bytes().to_vec()).collect(),
    }
}

fn refs(bom: &Bom) -> Vec<Option<String>> {
    bom.components
        .iter()
        .map(|c| c.bom_ref.as_ref().map(|r| String::from_utf8(r.clone()).unwrap()))
        .collect()
}

#[test]
fn containment_reconstruction() {
    let mut bom = Bom {
        components: vec![
            comp(
                Some("a"),
                None,
                "file",
                "lib.jar",
                &[
                    ("syft:package:foundBy", "java-archive-cataloger"),
                    ("syft:location:0:path", "lib.jar"),
                    ("syft:metadata:virtualPath", "lib.jar"),
                ],
            ),
            comp(
                Some("b"),
                None,
                "library",
                "inner-one",
                &[
                    ("syft:package:foundBy", "java-archive-cataloger"),
                    ("syft:location:0:path", "lib.jar"),
                ],
            ),
            comp(
                Some("c"),
                None,
                "library",
                "inner-two",
                &[
                    ("syft:package:foundBy", "java-archive-cataloger"),
                    ("syft:location:0:path", "lib.jar"),
                ],
            ),
        ],
        dependencies: vec![],
    };
    let groups = group_components(&bom);
    process_jar_dependencies(&mut bom, &groups);
    assert_eq!(bom.dependencies.len(), 1);
    assert_eq!(bom.dependencies[0].dependency_ref, "a".as_bytes().to_vec());
    assert_eq!(
        bom.dependencies[0].dependencies,
        vec!["b".as_bytes().to_vec(), "c".as_bytes().to_vec()]
    );
}

#[test]
fn bucket_without_children_emits_nothing() {
    let mut bom = Bom {
        components: vec![comp(
            Some("a"),
            None,
            "file",
            "only.jar",
            &[
                ("syft:package:foundBy", "java-archive-cataloger"),
                ("syft:location:0:path", "only.jar"),
                ("syft:metadata:virtualPath", "only.jar"),
            ],
        )],
        dependencies: vec![],
    };
    let groups = group_components(&bom);
    process_jar_dependencies(&mut bom, &groups);
    assert_eq!(bom.dependencies.len(), 0);
}

#[test]
fn bucket_without_parent_emits_nothing() {
    let mut bom = Bom {
        components: vec![
            comp(
                Some("b"),
                None,
                "library",
                "inner",
                &[
                    ("syft:package:foundBy", "java-archive-cataloger"),
                    ("syft:location:0:path", "lib.jar"),
                ],
            ),
        ],
        dependencies: vec![],
    };
    let groups = group_components(&bom);
    process_jar_dependencies(&mut bom, &groups);
    assert_eq!(bom.dependencies.len(), 0);
}

#[test]
fn component_missing_location_is_not_grouped() {
    let mut bom = Bom {
        components: vec![
            comp(
                Some("a"),
                None,
                "file",
                "lib.jar",
                &[
                    ("syft:package:foundBy", "java-archive-cataloger"),
                    ("syft:metadata:virtualPath", "lib.jar"),
                ],
            ),
            comp(
                Some("b"),
                None,
                "library",
                "inner",
                &[
                    ("syft:package:foundBy", "java-archive-cataloger"),
                    ("syft:location:0:path", "lib.jar"),
                ],
            ),
        ],
        dependencies: vec![],
    };
    let groups = group_components(&bom);
    process_jar_dependencies(&mut bom, &groups);
    // The would-be parent lacks a location, so its bucket never forms.
    assert_eq!(bom.dependencies.len(), 0);
}

#[test]
fn dedup_without_canonical_source() {
    let mut bom = Bom {
        components: vec![
            comp(Some("d"), Some("pkg:generic/x@1"), "library", "x", &[]),
            comp(Some("e"), Some("pkg:generic/x@1"), "library", "x", &[]),
        ],
        dependencies: vec![edge("root", &["e"]), edge("e", &["d"])],
    };
    let groups = group_components(&bom);
    merge_duplicate_components(&mut bom, &groups);
    assert_eq!(refs(&bom), vec![Some("d".to_string())]);
    assert_eq!(bom.dependencies[0].dependencies, vec!["d".as_bytes().to_vec()]);
    assert_eq!(bom.dependencies[1].dependency_ref, "d".as_bytes().to_vec());
}

#[test]
fn canonical_preference() {
    let mut bom = Bom {
        components: vec![
            comp(Some("x"), Some("pkg:rpm/openssl@3"), "library", "openssl", &[]),
            comp(
                Some("s"),
                Some("pkg:rpm/openssl@3"),
                "library",
                "openssl",
                &[
                    ("syft:package:foundBy", "sbom-cataloger"),
                    ("syft:location:0:path", "/manifest"),
                ],
            ),
        ],
        dependencies: vec![edge("x", &["x", "other"])],
    };
    let groups = group_components(&bom);
    merge_duplicate_components(&mut bom, &groups);
    // The canonical record survives, the other copy is gone from the
    // component list and from every edge.
    assert_eq!(refs(&bom), vec![Some("s".to_string())]);
    assert_eq!(bom.dependencies[0].dependency_ref, "s".as_bytes().to_vec());
    assert_eq!(
        bom.dependencies[0].dependencies,
        vec!["s".as_bytes().to_vec(), "other".as_bytes().to_vec()]
    );
}

#[test]
fn canonical_collision_keeps_last() {
    let mut bom = Bom {
        components: vec![
            comp(
                Some("s1"),
                Some("pkg:rpm/zlib@1"),
                "library",
                "zlib",
                &[
                    ("syft:package:foundBy", "sbom-cataloger"),
                    ("syft:location:0:path", "/manifest"),
                ],
            ),
            comp(
                Some("s2"),
                Some("pkg:rpm/zlib@1"),
                "library",
                "zlib",
                &[
                    ("syft:package:foundBy", "sbom-cataloger"),
                    ("syft:location:0:path", "/manifest"),
                ],
            ),
        ],
        dependencies: vec![edge("s1", &["s2"])],
    };
    let groups = group_components(&bom);
    merge_duplicate_components(&mut bom, &groups);
    // The later canonical record wins; edges follow it.
    assert_eq!(refs(&bom), vec![Some("s2".to_string())]);
    assert_eq!(bom.dependencies[0].dependency_ref, "s2".as_bytes().to_vec());
    assert_eq!(bom.dependencies[0].dependencies, vec!["s2".as_bytes().to_vec()]);
}

#[test]
fn purl_query_suffix_is_not_identity() {
    let mut bom = Bom {
        components: vec![
            comp(Some("d"), Some("pkg:maven/g/a@1?type=jar"), "library", "a", &[]),
            comp(Some("e"), Some("pkg:maven/g/a@1?classifier=tests"), "library", "a", &[]),
            comp(Some("f"), Some("pkg:maven/g/a@2"), "library", "a", &[]),
        ],
        dependencies: vec![],
    };
    let groups = group_components(&bom);
    merge_duplicate_components(&mut bom, &groups);
    // The two purls differ only in the query suffix: same identity.
    assert_eq!(refs(&bom), vec![Some("d".to_string()), Some("f".to_string())]);
}

#[test]
fn components_without_identity_are_kept() {
    let mut bom = Bom {
        components: vec![
            comp(Some("n1"), None, "library", "anon-one", &[]),
            comp(None, None, "library", "anon-two", &[]),
            comp(Some("n1b"), None, "library", "anon-one", &[]),
        ],
        dependencies: vec![],
    };
    let groups = group_components(&bom);
    merge_duplicate_components(&mut bom, &groups);
    assert_eq!(bom.components.len(), 3);
}

#[test]
fn order_of_retained_components_is_kept() {
    let mut bom = Bom {
        components: vec![
            comp(Some("n1"), None, "library", "first", &[]),
            comp(Some("d"), Some("pkg:generic/x@1"), "library", "x", &[]),
            comp(Some("n2"), None, "library", "middle", &[]),
            comp(Some("e"), Some("pkg:generic/x@1"), "library", "x", &[]),
            comp(Some("n3"), None, "library", "last", &[]),
        ],
        dependencies: vec![],
    };
    let groups = group_components(&bom);
    merge_duplicate_components(&mut bom, &groups);
    assert_eq!(
        refs(&bom),
        vec![
            Some("n1".to_string()),
            Some("d".to_string()),
            Some("n2".to_string()),
            Some("n3".to_string())
        ]
    );
}

#[test]
fn merge_twice_changes_nothing() {
    let mut bom = Bom {
        components: vec![
            comp(Some("d"), Some("pkg:generic/x@1"), "library", "x", &[]),
            comp(Some("e"), Some("pkg:generic/x@1"), "library", "x", &[]),
            comp(
                Some("s"),
                Some("pkg:rpm/openssl@3"),
                "library",
                "openssl",
                &[
                    ("syft:package:foundBy", "sbom-cataloger"),
                    ("syft:location:0:path", "/manifest"),
                ],
            ),
            comp(Some("y"), Some("pkg:rpm/openssl@3"), "library", "openssl", &[]),
        ],
        dependencies: vec![edge("e", &["y"])],
    };
    let groups = group_components(&bom);
    merge_duplicate_components(&mut bom, &groups);
    let refs_once = refs(&bom);
    let deps_once: Vec<(Vec<u8>, Vec<Vec<u8>>)> = bom
        .dependencies
        .iter()
        .map(|d| (d.dependency_ref.clone(), d.dependencies.clone()))
        .collect();
    let groups2 = group_components(&bom);
    merge_duplicate_components(&mut bom, &groups2);
    assert_eq!(refs(&bom), refs_once);
    let deps_twice: Vec<(Vec<u8>, Vec<Vec<u8>>)> = bom
        .dependencies
        .iter()
        .map(|d| (d.dependency_ref.clone(), d.dependencies.clone()))
        .collect();
    assert_eq!(deps_twice, deps_once);
}

#[test]
fn os_name_fixup() {
    let mut bom = Bom {
        components: vec![
            comp(Some("o1"), None, "operating-system", "rhel", &[]),
            comp(Some("o2"), None, "operating-system", "ubuntu", &[]),
            comp(Some("l1"), None, "library", "rhel", &[]),
        ],
        dependencies: vec![],
    };
    fix_os_names(&mut bom);
    assert_eq!(bom.components[0].name, "redhat".as_bytes().to_vec());
    assert_eq!(bom.components[1].name, "ubuntu".as_bytes().to_vec());
    assert_eq!(bom.components[2].name, "rhel".as_bytes().to_vec());
}

#[test]
fn update_dependencies_rewrites_sources_and_entries() {
    let mut deps = vec![edge("old", &["keep", "old"]), edge("keep", &["old"])];
    update_dependencies(
        &mut deps,
        &"old".as_bytes().to_vec(),
        &"new".as_bytes().to_vec(),
    );
    assert_eq!(deps[0].dependency_ref, "new".as_bytes().to_vec());
    assert_eq!(
        deps[0].dependencies,
        vec!["keep".as_bytes().to_vec(), "new".as_bytes().to_vec()]
    );
    assert_eq!(deps[1].dependency_ref, "keep".as_bytes().to_vec());
    assert_eq!(deps[1].dependencies, vec!["new".as_bytes().to_vec()]);
}

#[test]
fn get_property_returns_first_match() {
    let c = comp(
        Some("a"),
        None,
        "library",
        "x",
        &[("k", "first"), ("k", "second"), ("other", "v")],
    );
    assert_eq!(
        c.get_property(&"k".as_bytes().to_vec()),
        Some("first".as_bytes().to_vec())
    );
    assert_eq!(c.get_property(&"missing".as_bytes().to_vec()), None);
}

#[test]
fn empty_document_stays_empty() {
    let mut bom = Bom { components: vec![], dependencies: vec![] };
    normalize_bom(&mut bom);
    assert_eq!(bom.components.len(), 0);
    assert_eq!(bom.dependencies.len(), 0);
}

#[test]
fn whole_pass_keeps_referential_integrity() {
    let mut bom = Bom {
        components: vec![
            comp(
                Some("jar"),
                None,
                "file",
                "app.jar",
                &[
                    ("syft:package:foundBy", "java-archive-cataloger"),
                    ("syft:location:0:path", "app.jar"),
                    ("syft:metadata:virtualPath", "app.jar"),
                ],
            ),
            comp(
                Some("inner"),
                Some("pkg:maven/g/a@1"),
                "library",
                "a",
                &[
                    ("syft:package:foundBy", "java-archive-cataloger"),
                    ("syft:location:0:path", "app.jar"),
                ],
            ),
            comp(
                Some("manifest"),
                Some("pkg:maven/g/a@1"),
                "library",
                "a",
                &[
                    ("syft:package:foundBy", "sbom-cataloger"),
                    ("syft:location:0:path", "/manifest"),
                ],
            ),
            comp(Some("os"), None, "operating-system", "rhel", &[]),
        ],
        dependencies: vec![edge("os", &["inner"])],
    };
    normalize_bom(&mut bom);
    // "inner" was folded into "manifest"; the archive edge and the
    // input edge both follow the survivor.
    assert_eq!(
        refs(&bom),
        vec![
            Some("jar".to_string()),
            Some("manifest".to_string()),
            Some("os".to_string())
        ]
    );
    assert_eq!(bom.components[2].name, "redhat".as_bytes().to_vec());
    assert_eq!(bom.dependencies.len(), 2);
    assert_eq!(bom.dependencies[0].dependency_ref, "os".as_bytes().to_vec());
    assert_eq!(bom.dependencies[0].dependencies, vec!["manifest".as_bytes().to_vec()]);
    assert_eq!(bom.dependencies[1].dependency_ref, "jar".as_bytes().to_vec());
    assert_eq!(bom.dependencies[1].dependencies, vec!["manifest".as_bytes().to_vec()]);
    // Every reference in every edge names a retained component.
    for d in &bom.dependencies {
        assert!(bom.components.iter().any(|c| c.bom_ref.as_ref() == Some(&d.dependency_ref)));
        for t in &d.dependencies {
            assert!(bom.components.iter().any(|c| c.bom_ref.as_ref() == Some(t)));
        }
    }
}

#[test]
fn purl_that_is_all_query_has_empty_key() {
    // A '?' in the first position leaves an empty identity key; two
    // such purls are therefore the same identity.
    let mut bom = Bom {
        components: vec![
            comp(Some("d"), Some("?type=jar"), "library", "x", &[]),
            comp(Some("e"), Some("?classifier=y"), "library", "y", &[]),
        ],
        dependencies: vec![],
    };
    let groups = group_components(&bom);
    merge_duplicate_components(&mut bom, &groups);
    assert_eq!(refs(&bom), vec![Some("d".to_string())]);
}

#[test]
fn children_keep_index_order_and_refless_children_are_skipped() {
    let mut bom = Bom {
        components: vec![
            comp(
                Some("b"),
                None,
                "library",
                "first-child",
                &[
                    ("syft:package:foundBy", "java-archive-cataloger"),
                    ("syft:location:0:path", "lib.jar"),
                ],
            ),
            comp(
                Some("a"),
                None,
                "file",
                "lib.jar",
                &[
                    ("syft:package:foundBy", "java-archive-cataloger"),
                    ("syft:location:0:path", "lib.jar"),
                    ("syft:metadata:virtualPath", "lib.jar"),
                ],
            ),
            comp(
                None,
                None,
                "library",
                "anonymous-child",
                &[
                    ("syft:package:foundBy", "java-archive-cataloger"),
                    ("syft:location:0:path", "lib.jar"),
                ],
            ),
            comp(
                Some("c"),
                None,
                "library",
                "last-child",
                &[
                    ("syft:package:foundBy", "java-archive-cataloger"),
                    ("syft:location:0:path", "lib.jar"),
                ],
            ),
        ],
        dependencies: vec![],
    };
    let groups = group_components(&bom);
    process_jar_dependencies(&mut bom, &groups);
    // The child without a reference is silently left out of the list.
    assert_eq!(bom.dependencies.len(), 1);
    assert_eq!(bom.dependencies[0].dependency_ref, "a".as_bytes().to_vec());
    assert_eq!(
        bom.dependencies[0].dependencies,
        vec!["b".as_bytes().to_vec(), "c".as_bytes().to_vec()]
    );
}
