use rgine::graph::{Crate, DependencyKind, Graph, NamedDependency};
use rgine::metadata::{into_graph, Dependency, Metadata, Package};

fn dependency(name: &str, kind: DependencyKind) -> NamedDependency {
    NamedDependency {
        name: name.to_string(),
        kind,
        target: None,
    }
}

fn krate(name: &str, path: &str, dependencies: &[NamedDependency]) -> Crate {
    Crate {
        name: name.to_string(),
        manifest_path: path.to_string(),
        dependencies: dependencies.to_vec(),
    }
}

#[test]
fn metadata_kinds_map_to_tables() {
    assert_eq!(DependencyKind::from_metadata(None), DependencyKind::Normal);
    assert_eq!(DependencyKind::from_metadata(Some("dev")), DependencyKind::Development);
    assert_eq!(DependencyKind::from_metadata(Some("build")), DependencyKind::Build);
    assert_eq!(DependencyKind::from_metadata(Some("normal")), DependencyKind::Normal);
    assert!(DependencyKind::Normal.is_runtime());
    assert!(!DependencyKind::Development.is_runtime());
    assert!(!DependencyKind::Build.is_runtime());
}

#[test]
fn tables_are_named_as_in_a_manifest() {
    assert_eq!(dependency("a", DependencyKind::Normal).table(), "[dependencies]");
    assert_eq!(dependency("a", DependencyKind::Development).table(), "[dev-dependencies]");
    assert_eq!(dependency("a", DependencyKind::Build).table(), "[build-dependencies]");
    let targeted = NamedDependency {
        name: "a".to_string(),
        kind: DependencyKind::Build,
        target: Some("x86_64-pc-windows-msvc".to_string()),
    };
    assert_eq!(targeted.table(), "[target.'x86_64-pc-windows-msvc'.build-dependencies]");
}

#[test]
fn apps_live_under_apps() {
    assert!(krate("e", "apps/editor/Cargo.toml", &[]).is_app());
    assert!(!krate("e", "crates/apps/Cargo.toml", &[]).is_app());
    assert!(!krate("e", "apps", &[]).is_app());
}

#[test]
fn names_finds_the_first_entry_in_any_table() {
    let c = krate(
        "c",
        "crates/c/Cargo.toml",
        &[
            dependency("x", DependencyKind::Development),
            dependency("x", DependencyKind::Normal),
        ],
    );
    assert_eq!(c.names("x").unwrap().kind, DependencyKind::Development);
    assert!(c.names("y").is_none());
}

#[test]
fn get_finds_the_last_member_of_a_name() {
    let graph = Graph::new(vec![
        krate("a", "first", &[]),
        krate("b", "b", &[]),
        krate("a", "second", &[]),
    ]);
    assert_eq!(graph.get("a").unwrap().manifest_path, "second");
    assert_eq!(graph.get("b").unwrap().manifest_path, "b");
    assert!(graph.get("c").is_none());
    assert_eq!(graph.members().len(), 3);
}

#[test]
fn runtime_edges_skip_other_tables_and_unknown_crates() {
    let graph = Graph::new(vec![
        krate("a", "a", &[]),
        krate("b", "b", &[]),
        krate(
            "c",
            "c",
            &[
                dependency("b", DependencyKind::Normal),
                dependency("serde", DependencyKind::Normal),
                dependency("a", DependencyKind::Development),
                dependency("a", DependencyKind::Normal),
            ],
        ),
    ]);
    let from = graph.get("c").unwrap();
    let names: Vec<&str> = graph
        .runtime_edges(from)
        .iter()
        .map(|c| c.name.as_str())
        .collect();
    assert_eq!(names, vec!["b", "a"]);
}

#[test]
fn the_shortest_path_is_found() {
    let graph = Graph::new(vec![
        krate("a", "a", &[dependency("b", DependencyKind::Normal), dependency("t", DependencyKind::Build)]),
        krate("b", "b", &[dependency("c", DependencyKind::Normal)]),
        krate("c", "c", &[dependency("t", DependencyKind::Normal)]),
        krate("d", "d", &[dependency("t", DependencyKind::Normal)]),
        krate("t", "t", &[]),
    ]);
    assert_eq!(
        graph.shortest_runtime_path("a", &["t"]),
        Some(vec!["a".to_string(), "b".to_string(), "c".to_string(), "t".to_string()])
    );
    assert_eq!(
        graph.shortest_runtime_path("d", &["t", "c"]),
        Some(vec!["d".to_string(), "t".to_string()])
    );
    assert_eq!(graph.shortest_runtime_path("t", &["a"]), None);
    assert_eq!(graph.shortest_runtime_path("zz", &["t"]), None);
    // The start itself never counts as reached.
    assert_eq!(graph.shortest_runtime_path("t", &["t"]), None);
}

#[test]
fn the_start_is_reached_again_only_through_a_cycle_it_is_not_reported_for() {
    let graph = Graph::new(vec![
        krate("a", "a", &[dependency("b", DependencyKind::Normal)]),
        krate("b", "b", &[dependency("a", DependencyKind::Normal)]),
    ]);
    assert_eq!(graph.shortest_runtime_path("a", &["a"]), None);
    assert_eq!(
        graph.shortest_runtime_path("a", &["b"]),
        Some(vec!["a".to_string(), "b".to_string()])
    );
}

fn package(name: &str, path: &str, deps: Vec<Dependency>) -> Package {
    Package {
        name: name.to_string(),
        manifest_path: path.to_string(),
        dependencies: deps,
    }
}

#[test]
fn metadata_becomes_a_graph_with_relative_paths() {
    let metadata = Metadata {
        workspace_root: "C:\\work\\rgine".to_string(),
        packages: vec![
            package(
                "engine-core",
                "C:\\work\\rgine\\crates\\core\\Cargo.toml",
                vec![Dependency {
                    name: "glam".to_string(),
                    kind: Some("dev".to_string()),
                    target: Some("cfg(windows)".to_string()),
                }],
            ),
            package("outside", "/elsewhere/Cargo.toml", vec![]),
            package("rooted", "/ws//apps/x/Cargo.toml", vec![]),
        ],
    };
    let graph = into_graph(metadata);
    let members = graph.members();
    assert_eq!(members.len(), 3);
    assert_eq!(members[0].name, "engine-core");
    assert_eq!(members[0].manifest_path, "crates/core/Cargo.toml");
    assert_eq!(members[0].dependencies[0].name, "glam");
    assert_eq!(members[0].dependencies[0].kind, DependencyKind::Development);
    assert_eq!(members[0].dependencies[0].target.as_deref(), Some("cfg(windows)"));
    assert_eq!(members[1].manifest_path, "elsewhere/Cargo.toml");
    assert_eq!(members[2].manifest_path, "ws//apps/x/Cargo.toml");

    let metadata = Metadata {
        workspace_root: "/ws".to_string(),
        packages: vec![package("x", "/ws//apps/x/Cargo.toml", vec![])],
    };
    let graph = into_graph(metadata);
    assert_eq!(graph.members()[0].manifest_path, "apps/x/Cargo.toml");
    assert!(graph.members()[0].is_app());
}
