//! The workspace as a metadata reader reports it, and its translation into
//! the graph the rules run over.
//!
//! Only the handful of fields the checks need are modelled: every rule is
//! about what a workspace manifest names.
use vstd::prelude::*;
use vstd::string::*;
use crate::graph::{
    kind_from_metadata, Crate, CrateView, DependencyKind, DependencyView, Graph, NamedDependency,
};
use crate::text::{
    forward_slashes, replace_char, starts_with, suffix_from, trim_leading_slashes, trim_start,
};

verus! {

/// One dependency entry of a package.
pub struct Dependency {
    pub name: String,
    /// `dev`, `build`, or absent for a normal dependency.
    pub kind: Option<String>,
    /// `cfg(...)` or a target triple for a target-specific entry, absent for
    /// an unconditional one.
    pub target: Option<String>,
}

/// One workspace package.
pub struct Package {
    pub name: String,
    pub manifest_path: String,
    pub dependencies: Vec<Dependency>,
}

/// The packages of a workspace and where its root is.
pub struct Metadata {
    pub packages: Vec<Package>,
    pub workspace_root: String,
}

pub open spec fn string_opt(s: Option<String>) -> Option<Seq<char>> {
    match s {
        Some(t) => Some(t@),
        None => None,
    }
}

/// The graph's view of one dependency entry.
pub open spec fn dependency_view(d: Dependency) -> DependencyView {
    DependencyView {
        name: d.name@,
        kind: kind_from_metadata(string_opt(d.kind)),
        target: string_opt(d.target),
    }
}

/// A manifest path relative to the workspace root, with forward slashes and no
/// leading slash. A path outside the root is kept whole.
pub open spec fn relative_manifest_path(root: Seq<char>, manifest: Seq<char>) -> Seq<char> {
    let r = replace_char(root, '\\', '/');
    let m = replace_char(manifest, '\\', '/');
    let stripped = if r.is_prefix_of(m) {
        m.subrange(r.len() as int, m.len() as int)
    } else {
        m
    };
    trim_start(stripped, '/')
}

/// The graph's view of one package.
pub open spec fn crate_view(root: Seq<char>, p: Package) -> CrateView {
    CrateView {
        name: p.name@,
        manifest_path: relative_manifest_path(root, p.manifest_path@),
        dependencies: p.dependencies@.map_values(|d: Dependency| dependency_view(d)),
    }
}

fn clone_opt(s: &Option<String>) -> (r: Option<String>)
    ensures
        string_opt(r) == string_opt(*s),
{
    match s {
        Some(t) => Some(t.clone()),
        None => None,
    }
}

fn relative_path(root: &str, manifest_path: &str) -> (r: String)
    ensures
        r@ == relative_manifest_path(root@, manifest_path@),
{
    let root = forward_slashes(root);
    let manifest = forward_slashes(manifest_path);
    if starts_with(manifest.as_str(), root.as_str()) {
        let stripped = suffix_from(manifest.as_str(), root.as_str().unicode_len());
        trim_leading_slashes(stripped.as_str())
    } else {
        trim_leading_slashes(manifest.as_str())
    }
}

fn dependency_of(d: &Dependency) -> (r: NamedDependency)
    ensures
        r@ == dependency_view(*d),
{
    let kind = match &d.kind {
        Some(k) => DependencyKind::from_metadata(Some(k.as_str())),
        None => DependencyKind::from_metadata(None),
    };
    NamedDependency { name: d.name.clone(), kind, target: clone_opt(&d.target) }
}

/// Builds the graph of the workspace's packages, with manifest paths made
/// relative to the workspace root.
pub fn into_graph(metadata: Metadata) -> (g: Graph)
    ensures
        g@ == metadata.packages@.map_values(
            |p: Package| crate_view(metadata.workspace_root@, p),
        ),
{
    let ghost root = metadata.workspace_root@;
    let ghost want = metadata.packages@.map_values(|p: Package| crate_view(root, p));
    let mut members: Vec<Crate> = Vec::new();
    let mut i: usize = 0;
    while i < metadata.packages.len()
        invariant
            root == metadata.workspace_root@,
            want == metadata.packages@.map_values(|p: Package| crate_view(root, p)),
            i <= metadata.packages@.len(),
            members@.map_values(|c: Crate| c@) == want.take(i as int),
        decreases metadata.packages@.len() - i,
    {
        let package = &metadata.packages[i];
        let mut dependencies: Vec<NamedDependency> = Vec::new();
        let mut k: usize = 0;
        while k < package.dependencies.len()
            invariant
                k <= package.dependencies@.len(),
                dependencies@.map_values(|d: NamedDependency| d@)
                    == package.dependencies@.map_values(|d: Dependency| dependency_view(d)).take(
                    k as int,
                ),
            decreases package.dependencies@.len() - k,
        {
            let ghost before = dependencies@;
            assert(before.map_values(|d: NamedDependency| d@).len() == before.len());
            assert(before.len() == k);
            let d = dependency_of(&package.dependencies[k]);
            dependencies.push(d);
            assert forall|j: int| 0 <= j < k implies #[trigger] dependencies@[j]@ == dependency_view(
                package.dependencies@[j],
            ) by {
                assert(dependencies@[j] == before[j]);
                assert(before.map_values(|d: NamedDependency| d@)[j] == before[j]@);
            }
            assert(dependencies@.map_values(|d: NamedDependency| d@) =~= package.dependencies@.map_values(
                |d: Dependency| dependency_view(d),
            ).take(k + 1));
            k = k + 1;
        }
        assert(package.dependencies@.map_values(|d: Dependency| dependency_view(d)).take(
            package.dependencies@.len() as int,
        ) =~= package.dependencies@.map_values(|d: Dependency| dependency_view(d)));
        let manifest_path = relative_path(
            metadata.workspace_root.as_str(),
            package.manifest_path.as_str(),
        );
        let member = Crate { name: package.name.clone(), manifest_path, dependencies };
        assert(member@ == crate_view(root, *package));
        let ghost before = members@;
        assert(before.map_values(|c: Crate| c@).len() == before.len());
        assert(before.len() == i);
        members.push(member);
        assert forall|j: int| 0 <= j < i implies #[trigger] members@[j]@ == want[j] by {
            assert(members@[j] == before[j]);
            assert(before.map_values(|c: Crate| c@)[j] == before[j]@);
        }
        assert(members@.map_values(|c: Crate| c@) =~= want.take(i + 1));
        i = i + 1;
    }
    assert(want.take(metadata.packages@.len() as int) =~= want);
    Graph::new(members)
}

} // verus!
