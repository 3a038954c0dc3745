use rgine::graph::{Crate, DependencyKind, Graph, NamedDependency};
use rgine::rules::check;

fn dependency(name: &str, kind: DependencyKind) -> NamedDependency {
    NamedDependency {
        name: name.to_string(),
        kind,
        target: None,
    }
}

fn krate(name: &str, path: &str, dependencies: &[NamedDependency]) -> Crate {
    Crate {
        name: name.to_string(),
        manifest_path: path.to_string(),
        dependencies: dependencies.to_vec(),
    }
}

/// The shape the workspace is meant to have: apps on top, `platform` alone
/// naming the windowing backend.
fn clean_workspace() -> Graph {
    Graph::new(vec![
        krate("engine-core", "crates/core/Cargo.toml", &[]),
        krate(
            "engine-platform",
            "crates/platform/Cargo.toml",
            &[dependency("winit", DependencyKind::Normal)],
        ),
        krate(
            "engine-app",
            "crates/app/Cargo.toml",
            &[
                dependency("engine-core", DependencyKind::Normal),
                dependency("engine-platform", DependencyKind::Normal),
            ],
        ),
        krate("engine-devtools", "crates/devtools/Cargo.toml", &[]),
        krate(
            "engine-editor",
            "apps/editor/Cargo.toml",
            &[
                dependency("engine-app", DependencyKind::Normal),
                dependency("engine-devtools", DependencyKind::Normal),
            ],
        ),
    ])
}

fn with_extra(name: &str, extra: NamedDependency) -> Graph {
    let mut members = clean_workspace().members().to_vec();
    let member = members
        .iter_mut()
        .find(|member| member.name == name)
        .expect("crate under test is in the fixture");
    member.dependencies.push(extra);
    Graph::new(members)
}

#[test]
fn the_intended_shape_passes() {
    assert_eq!(check(&clean_workspace()), Vec::new());
}

#[test]
fn a_runtime_crate_reaching_devtools_is_reported_with_the_path() {
    let graph = with_extra(
        "engine-platform",
        dependency("engine-devtools", DependencyKind::Normal),
    );

    let violations = check(&graph);
    let reported: Vec<&str> = violations
        .iter()
        .map(|violation| violation.detail.as_str())
        .collect();

    assert!(
        reported
            .iter()
            .any(|detail| detail.contains("engine-app -> engine-platform -> engine-devtools")),
        "expected the full path, got {reported:?}"
    );
    assert!(
        reported
            .iter()
            .any(|detail| detail.starts_with("`engine-platform` reaches"))
    );
}

#[test]
fn a_dev_dependency_on_devtools_is_allowed() {
    let graph = with_extra(
        "engine-platform",
        dependency("engine-devtools", DependencyKind::Development),
    );

    assert_eq!(check(&graph), Vec::new());
}

#[test]
fn a_domain_crate_depending_on_an_app_is_reported() {
    let graph = with_extra(
        "engine-app",
        dependency("engine-editor", DependencyKind::Normal),
    );

    let violations = check(&graph);

    assert!(violations.iter().any(|violation| {
        violation.rule == "domain crates do not depend on apps"
            && violation
                .detail
                .contains("`engine-app` names the application `engine-editor`")
    }));
}

#[test]
fn a_second_crate_naming_the_backend_is_reported() {
    let graph = with_extra("engine-app", dependency("winit", DependencyKind::Normal));

    let violations = check(&graph);

    assert_eq!(violations.len(), 1);
    assert_eq!(
        violations[0].rule,
        "backends are named only by the crate that owns them"
    );
    assert!(
        violations[0]
            .detail
            .contains("`engine-app` names the backend `winit` in [dependencies]")
    );
}

#[test]
fn a_backend_named_only_for_one_target_is_still_reported() {
    let graph = with_extra(
        "engine-app",
        NamedDependency {
            name: "winit".to_string(),
            kind: DependencyKind::Normal,
            target: Some("cfg(target_os = \"android\")".to_string()),
        },
    );

    let violations = check(&graph);

    assert_eq!(violations.len(), 1);
    assert!(
        violations[0]
            .detail
            .contains("[target.'cfg(target_os = \"android\")'.dependencies]")
    );
}

#[test]
fn a_backend_named_in_dev_dependencies_is_still_reported() {
    let graph = with_extra(
        "engine-app",
        dependency("winit", DependencyKind::Development),
    );

    let violations = check(&graph);

    assert_eq!(violations.len(), 1);
    assert!(violations[0].detail.contains("[dev-dependencies]"));
}

#[test]
fn an_owner_that_no_longer_uses_its_backend_is_reported_as_a_stale_table() {
    let members: Vec<Crate> = clean_workspace()
        .members()
        .iter()
        .map(|member| {
            let mut member = member.clone();
            member
                .dependencies
                .retain(|dependency| dependency.name != "winit");
            member
        })
        .collect();

    let violations = check(&Graph::new(members));

    assert_eq!(violations.len(), 1);
    assert_eq!(violations[0].rule, "the backend ownership table is current");
}

#[test]
fn an_owner_that_is_not_a_workspace_crate_is_reported_as_a_stale_table() {
    let graph = Graph::new(vec![krate("engine-core", "crates/core/Cargo.toml", &[])]);

    let violations = check(&graph);

    assert_eq!(violations.len(), 1);
    assert_eq!(violations[0].rule, "the backend ownership table is current");
    assert!(violations[0].detail.contains("not a workspace crate"));
}

// Exact reports, one per rule.

#[test]
fn the_editor_report_is_exact() {
    let graph = with_extra(
        "engine-platform",
        dependency("engine-devtools", DependencyKind::Normal),
    );
    let violations = check(&graph);
    assert_eq!(violations.len(), 2);
    assert_eq!(
        violations[0].rule,
        "editor-side crates are unreachable from runtime crates"
    );
    assert_eq!(
        violations[0].detail,
        "`engine-platform` reaches `engine-devtools` at runtime: engine-platform -> engine-devtools"
    );
    assert_eq!(
        violations[0].remedy,
        "cut the edge into `engine-devtools`, or move the shared code below it"
    );
    assert_eq!(
        violations[1].detail,
        "`engine-app` reaches `engine-devtools` at runtime: engine-app -> engine-platform -> engine-devtools"
    );
}

#[test]
fn the_domain_report_is_exact() {
    let graph = with_extra(
        "engine-core",
        dependency("engine-editor", DependencyKind::Build),
    );
    let violations = check(&graph);
    assert_eq!(violations.len(), 1);
    assert_eq!(violations[0].rule, "domain crates do not depend on apps");
    assert_eq!(
        violations[0].detail,
        "`engine-core` names the application `engine-editor` in [build-dependencies] (crates/core/Cargo.toml)"
    );
    assert_eq!(
        violations[0].remedy,
        "dependencies run `apps -> app -> domain crates`; move what `engine-core` needs out of `engine-editor`"
    );
}

#[test]
fn the_stale_table_reports_are_exact() {
    let violations = check(&Graph::new(Vec::new()));
    assert_eq!(violations.len(), 1);
    assert_eq!(
        violations[0].detail,
        "`winit` is recorded as owned by `engine-platform`, which is not a workspace crate"
    );
    assert_eq!(
        violations[0].remedy,
        "update the owner of `winit` in xtask, or drop the entry"
    );

    let graph = Graph::new(vec![krate("engine-platform", "crates/platform/Cargo.toml", &[])]);
    let violations = check(&graph);
    assert_eq!(violations.len(), 1);
    assert_eq!(
        violations[0].detail,
        "`engine-platform` is recorded as the owner of `winit` but no longer depends on it"
    );
    assert_eq!(
        violations[0].remedy,
        "drop the entry for `winit` in xtask, or point it at the crate that owns it now"
    );
}

#[test]
fn the_foreign_backend_report_is_exact() {
    let graph = with_extra("engine-core", dependency("winit", DependencyKind::Normal));
    let violations = check(&graph);
    assert_eq!(violations.len(), 1);
    assert_eq!(
        violations[0].detail,
        "`engine-core` names the backend `winit` in [dependencies] (crates/core/Cargo.toml)"
    );
    assert_eq!(
        violations[0].remedy,
        "`engine-platform` owns `winit`; expose what `engine-core` needs from `engine-platform` instead"
    );
}

#[test]
fn reports_come_editor_first_then_domain_then_backend() {
    let mut members = clean_workspace().members().to_vec();
    members[0]
        .dependencies
        .push(dependency("engine-editor", DependencyKind::Normal));
    members[0]
        .dependencies
        .push(dependency("winit", DependencyKind::Development));
    let violations = check(&Graph::new(members));
    let rules: Vec<&str> = violations.iter().map(|v| v.rule).collect();
    assert_eq!(
        rules,
        vec![
            "editor-side crates are unreachable from runtime crates",
            "editor-side crates are unreachable from runtime crates",
            "domain crates do not depend on apps",
            "backends are named only by the crate that owns them",
        ]
    );
}
