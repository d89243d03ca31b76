use pnpm_extra::Dependency;
use pnpm_extra::DependencyGraph;
use pnpm_extra::Error;
use pnpm_extra::Importer;
use pnpm_extra::Lockfile;
use pnpm_extra::NodeId;
use pnpm_extra::Snapshot;
use pnpm_extra::join_path;
use pnpm_extra::render::render_tree;
use pnpm_extra::split_snapshot_key;

fn dep(specifier: &str, version: &str) -> Dependency {
    Dependency { specifier: specifier.to_string(), version: version.to_string() }
}

fn importer(
    dependencies: Vec<(&str, Dependency)>,
    dev_dependencies: Vec<(&str, Dependency)>,
) -> Importer {
    Importer {
        dependencies: dependencies.into_iter().map(|(n, d)| (n.to_string(), d)).collect(),
        dev_dependencies: dev_dependencies.into_iter().map(|(n, d)| (n.to_string(), d)).collect(),
    }
}

fn snapshot(dependencies: Vec<(&str, &str)>) -> Snapshot {
    Snapshot {
        optional: false,
        dependencies: dependencies
            .into_iter()
            .map(|(n, v)| (n.to_string(), v.to_string()))
            .collect(),
        optional_dependencies: Vec::new(),
        transitive_peer_dependencies: Vec::new(),
    }
}

fn lockfile(
    importers: Vec<(&str, Importer)>,
    snapshots: Vec<(&str, Snapshot)>,
) -> Lockfile {
    Lockfile::V9 {
        importers: importers.into_iter().map(|(p, i)| (p.to_string(), i)).collect(),
        snapshots: snapshots.into_iter().map(|(k, s)| (k.to_string(), s)).collect(),
    }
}

fn lines(g: &DependencyGraph, name: &str) -> Vec<String> {
    render_tree(g, name)
}

#[test]
fn split_scoped_key() {
    let (name, version) = split_snapshot_key("@scope/pkg@1.2.3").unwrap();
    assert_eq!(name, "@scope/pkg");
    assert_eq!(version, "1.2.3");
}

#[test]
fn split_peer_annotated_key() {
    let (name, version) = split_snapshot_key("pkg@1.2.3(peer@4.0.0)").unwrap();
    assert_eq!(name, "pkg");
    assert_eq!(version, "1.2.3(peer@4.0.0)");
}

#[test]
fn split_takes_first_delimiter_after_index_zero() {
    let (name, version) = split_snapshot_key("a@b@c").unwrap();
    assert_eq!(name, "a");
    assert_eq!(version, "b@c");
}

#[test]
fn split_missing_delimiter_is_rejected() {
    let r = split_snapshot_key("onlyname");
    assert!(matches!(r, Err(Error::MalformedSnapshotKey { .. })));
    let e = r.unwrap_err();
    assert_eq!(e.message(), "no name/version delimiter in snapshot key: onlyname");
}

#[test]
fn split_scope_only_key_is_rejected() {
    let r = split_snapshot_key("@scope/only");
    assert!(matches!(r, Err(Error::MalformedSnapshotKey { .. })));
}

#[test]
fn split_empty_key_is_rejected() {
    assert!(matches!(split_snapshot_key(""), Err(Error::MalformedSnapshotKey { .. })));
}

#[test]
fn from_parts_accepts_the_supported_version() {
    let lf = Lockfile::from_parts("9.0", Vec::new(), Vec::new());
    assert!(matches!(lf, Ok(Lockfile::V9 { .. })));
}

#[test]
fn from_parts_rejects_other_versions() {
    let lf = Lockfile::from_parts("6.0", Vec::new(), Vec::new());
    assert!(matches!(lf, Err(Error::UnsupportedVersion { .. })));
    let e = lf.unwrap_err();
    assert_eq!(e.message(), "unsupported lockfile version: 6.0");
}

#[test]
fn error_messages_name_what_failed() {
    let read = Error::ReadLockfile { message: "missing".to_string() };
    assert_eq!(read.message(), "could not read pnpm-lock.yaml: missing");
    let parse = Error::ParseLockfile { message: "bad yaml".to_string() };
    assert_eq!(parse.message(), "could not parse lockfile structure: bad yaml");
}

#[test]
fn join_path_inserts_separator() {
    assert_eq!(join_path("/ws", "packages/a"), "/ws/packages/a");
    assert_eq!(join_path("/ws/", "packages/a"), "/ws/packages/a");
    assert_eq!(join_path("", "."), ".");
    assert_eq!(join_path("base", "/abs"), "/abs");
}

#[test]
fn malformed_snapshot_key_fails_the_build() {
    let lf = lockfile(
        vec![],
        vec![("good@1.0.0", snapshot(vec![])), ("bad", snapshot(vec![]))],
    );
    let r = DependencyGraph::from_lockfile(&lf, "");
    match r {
        Err(Error::MalformedSnapshotKey { key }) => assert_eq!(key, "bad"),
        _ => panic!("expected a malformed snapshot key error"),
    }
}

#[test]
fn end_to_end_example() {
    let lf = lockfile(
        vec![(".", importer(vec![("foo", dep("^1.0.0", "1.2.3"))], vec![]))],
        vec![("foo@1.2.3", snapshot(vec![]))],
    );
    let g = DependencyGraph::from_lockfile(&lf, "").unwrap();
    assert_eq!(lines(&g, "foo"), vec!["foo@1.2.3:".to_string(), "  .".to_string()]);
}

#[test]
fn cycle_terminates_with_repetition_marker() {
    let lf = lockfile(
        vec![],
        vec![
            ("a@1.0.0", snapshot(vec![("b", "2.0.0")])),
            ("b@2.0.0", snapshot(vec![("a", "1.0.0")])),
        ],
    );
    let g = DependencyGraph::from_lockfile(&lf, "").unwrap();
    assert_eq!(
        lines(&g, "a"),
        vec![
            "a@1.0.0:".to_string(),
            "  b@2.0.0:".to_string(),
            "    a@1.0.0 (*)".to_string(),
        ],
    );
}

#[test]
fn no_match_renders_nothing() {
    let lf = lockfile(
        vec![(".", importer(vec![("foo", dep("^1.0.0", "1.2.3"))], vec![]))],
        vec![("foo@1.2.3", snapshot(vec![]))],
    );
    let g = DependencyGraph::from_lockfile(&lf, "").unwrap();
    assert!(lines(&g, "absent").is_empty());
}

#[test]
fn link_version_resolves_to_an_importer_node() {
    let lf = lockfile(
        vec![(
            "packages/foo",
            importer(vec![("bar", dep("workspace:^", "link:../bar"))], vec![]),
        )],
        vec![],
    );
    let g = DependencyGraph::from_lockfile(&lf, "").unwrap();
    let from = NodeId::Importer { path: "packages/foo".to_string() };
    let to = NodeId::Importer { path: "packages/foo/../bar".to_string() };
    let entry = g.forward.iter().find(|(k, _)| *k == from).expect("importer node present");
    assert!(entry.1.iter().any(|n| *n == to));
    let no_package_nodes = g
        .forward
        .iter()
        .all(|(k, vs)| {
            !matches!(k, NodeId::Package { .. })
                && vs.iter().all(|n| !matches!(n, NodeId::Package { .. }))
        });
    assert!(no_package_nodes);
}

#[test]
fn dependencies_and_dev_dependencies_are_equivalent() {
    let as_dep = lockfile(
        vec![(".", importer(vec![("foo", dep("^1.0.0", "1.2.3"))], vec![]))],
        vec![("foo@1.2.3", snapshot(vec![]))],
    );
    let as_dev = lockfile(
        vec![(".", importer(vec![], vec![("foo", dep("^1.0.0", "1.2.3"))]))],
        vec![("foo@1.2.3", snapshot(vec![]))],
    );
    let g1 = DependencyGraph::from_lockfile(&as_dep, "").unwrap();
    let g2 = DependencyGraph::from_lockfile(&as_dev, "").unwrap();
    assert_eq!(lines(&g1, "foo"), lines(&g2, "foo"));
    assert!(g1.forward == g2.forward);
    assert!(g1.inverse == g2.inverse);
}

#[test]
fn forward_and_inverse_are_symmetric() {
    let lf = lockfile(
        vec![(
            ".",
            importer(
                vec![("foo", dep("^1.0.0", "1.2.3"))],
                vec![("bar", dep("^2.0.0", "2.0.0"))],
            ),
        )],
        vec![
            ("foo@1.2.3", snapshot(vec![("bar", "2.0.0")])),
            ("bar@2.0.0", snapshot(vec![])),
        ],
    );
    let g = DependencyGraph::from_lockfile(&lf, "/ws").unwrap();
    for (a, targets) in &g.forward {
        for b in targets {
            let entry = g.inverse.iter().find(|(k, _)| *k == *b).expect("inverse entry");
            assert!(entry.1.iter().any(|n| *n == *a));
        }
    }
    for (b, sources) in &g.inverse {
        for a in sources {
            let entry = g.forward.iter().find(|(k, _)| *k == *a).expect("forward entry");
            assert!(entry.1.iter().any(|n| *n == *b));
        }
    }
}

#[test]
fn workspace_dir_prefixes_importer_paths() {
    let lf = lockfile(
        vec![("packages/a", importer(vec![("foo", dep("^1.0.0", "1.2.3"))], vec![]))],
        vec![("foo@1.2.3", snapshot(vec![]))],
    );
    let g = DependencyGraph::from_lockfile(&lf, "/ws").unwrap();
    assert_eq!(
        lines(&g, "foo"),
        vec!["foo@1.2.3:".to_string(), "  /ws/packages/a".to_string()],
    );
}

#[test]
fn shared_subtrees_render_once() {
    let lf = lockfile(
        vec![],
        vec![
            ("shared@1.0.0", snapshot(vec![])),
            ("a@1.0.0", snapshot(vec![("shared", "1.0.0")])),
            ("b@1.0.0", snapshot(vec![("shared", "1.0.0")])),
        ],
    );
    let g = DependencyGraph::from_lockfile(&lf, "").unwrap();
    let out = lines(&g, "shared");
    assert_eq!(
        out,
        vec![
            "shared@1.0.0:".to_string(),
            "  a@1.0.0".to_string(),
            "  b@1.0.0".to_string(),
        ],
    );
}

#[test]
fn dependency_node_distinguishes_links_from_packages() {
    let linked = pnpm_extra::graph::dependency_node(
        "packages/foo",
        &"bar".to_string(),
        &"link:../bar".to_string(),
    );
    assert!(linked == NodeId::Importer { path: "packages/foo/../bar".to_string() });
    let resolved = pnpm_extra::graph::dependency_node(
        "packages/foo",
        &"baz".to_string(),
        &"1.2.0(peer@4.5.6)".to_string(),
    );
    assert!(
        resolved
            == NodeId::Package {
                name: "baz".to_string(),
                version: "1.2.0(peer@4.5.6)".to_string(),
            }
    );
}

#[test]
fn scoped_snapshot_keys_build_scoped_nodes() {
    let lf = lockfile(
        vec![(
            ".",
            importer(vec![("@scope/pkg", dep("^1.0.0", "1.2.3(peer@4.0.0)"))], vec![]),
        )],
        vec![("@scope/pkg@1.2.3(peer@4.0.0)", snapshot(vec![]))],
    );
    let g = DependencyGraph::from_lockfile(&lf, "").unwrap();
    assert_eq!(
        lines(&g, "@scope/pkg"),
        vec!["@scope/pkg@1.2.3(peer@4.0.0):".to_string(), "  .".to_string()],
    );
}

#[test]
fn duplicate_edges_collapse() {
    let lf = lockfile(
        vec![(
            ".",
            importer(
                vec![("foo", dep("^1.0.0", "1.2.3"))],
                vec![("foo", dep("^1.0.0", "1.2.3"))],
            ),
        )],
        vec![("foo@1.2.3", snapshot(vec![]))],
    );
    let g = DependencyGraph::from_lockfile(&lf, "").unwrap();
    assert_eq!(lines(&g, "foo"), vec!["foo@1.2.3:".to_string(), "  .".to_string()]);
}

#[test]
fn default_graph_is_empty() {
    let g = DependencyGraph::default();
    assert!(g.forward.is_empty());
    assert!(g.inverse.is_empty());
    assert!(render_tree(&g, "anything").is_empty());
}

#[test]
fn display_form_of_nodes() {
    let importer_node = NodeId::Importer { path: "packages/a".to_string() };
    assert_eq!(importer_node.display_string(), "packages/a");
    let package_node = NodeId::Package {
        name: "@scope/pkg".to_string(),
        version: "1.2.3(peer@4.0.0)".to_string(),
    };
    assert_eq!(package_node.display_string(), "@scope/pkg@1.2.3(peer@4.0.0)");
}
