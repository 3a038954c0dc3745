//! The workspace graph the boundary rules are asserted over.
//!
//! Kept free of metadata-reader types so the rules can be checked against
//! hand-built graphs.
use vstd::prelude::*;
use vstd::string::*;
use crate::text::{contains_str, starts_with, str_eq};

verus! {

/// Which dependency table an entry came from.
#[derive(Debug, Clone, Copy, PartialEq, Eq, Structural)]
pub enum DependencyKind {
    /// `[dependencies]`: links into the built artifact.
    Normal,
    /// `[dev-dependencies]`: tests, examples and benches only.
    Development,
    /// `[build-dependencies]`: build scripts only.
    Build,
}

/// The kind that a metadata `kind` field names: `dev`, `build`, or anything
/// else (a missing field included) for a normal dependency.
pub open spec fn kind_from_metadata(kind: Option<Seq<char>>) -> DependencyKind {
    match kind {
        Some(k) => if k == "dev"@ {
            DependencyKind::Development
        } else if k == "build"@ {
            DependencyKind::Build
        } else {
            DependencyKind::Normal
        },
        None => DependencyKind::Normal,
    }
}

/// The view of an optional string.
pub open spec fn opt_view(s: Option<&str>) -> Option<Seq<char>> {
    match s {
        Some(t) => Some(t@),
        None => None,
    }
}

impl DependencyKind {
    /// A metadata reader reports a normal dependency without a kind.
    pub fn from_metadata(kind: Option<&str>) -> (r: Self)
        ensures
            r == kind_from_metadata(opt_view(kind)),
    {
        match kind {
            Some(k) => {
                if str_eq(k, "dev") {
                    DependencyKind::Development
                } else if str_eq(k, "build") {
                    DependencyKind::Build
                } else {
                    DependencyKind::Normal
                }
            },
            None => DependencyKind::Normal,
        }
    }

    /// Whether this kind reaches a shipped binary. Build dependencies do not:
    /// they run on the host at build time.
    pub fn is_runtime(self) -> (r: bool)
        ensures
            r == (self == DependencyKind::Normal),
    {
        match self {
            DependencyKind::Normal => true,
            _ => false,
        }
    }

    /// The name of the manifest table of this kind.
    pub open spec fn table_name(self) -> Seq<char> {
        match self {
            DependencyKind::Normal => "dependencies"@,
            DependencyKind::Development => "dev-dependencies"@,
            DependencyKind::Build => "build-dependencies"@,
        }
    }
}

/// What the rules see of one dependency.
pub struct DependencyView {
    pub name: Seq<char>,
    pub kind: DependencyKind,
    pub target: Option<Seq<char>>,
}

/// One dependency as named by a manifest.
#[derive(Debug, Clone)]
pub struct NamedDependency {
    pub name: String,
    pub kind: DependencyKind,
    /// The `cfg(...)` or triple of a target-specific table, if the entry came
    /// from one.
    pub target: Option<String>,
}

impl View for NamedDependency {
    type V = DependencyView;

    open spec fn view(&self) -> DependencyView {
        DependencyView {
            name: self.name@,
            kind: self.kind,
            target: match self.target {
                Some(t) => Some(t@),
                None => None,
            },
        }
    }
}

impl DependencyView {
    /// How a diagnostic refers to the table of this entry.
    pub open spec fn table(self) -> Seq<char> {
        match self.target {
            Some(t) => "[target.'"@ + t + "'."@ + self.kind.table_name() + "]"@,
            None => "["@ + self.kind.table_name() + "]"@,
        }
    }
}

impl NamedDependency {
    /// How to refer to this entry in a diagnostic.
    pub fn table(&self) -> (r: String)
        ensures
            r@ == self@.table(),
    {
        let table = match self.kind {
            DependencyKind::Normal => "dependencies",
            DependencyKind::Development => "dev-dependencies",
            DependencyKind::Build => "build-dependencies",
        };
        match &self.target {
            Some(target) => {
                let mut r = String::from_str("[target.'");
                r.append(target.as_str());
                r.append("'.");
                r.append(table);
                r.append("]");
                r
            },
            None => {
                let mut r = String::from_str("[");
                r.append(table);
                r.append("]");
                r
            },
        }
    }
}

/// What the rules see of one workspace member.
pub struct CrateView {
    pub name: Seq<char>,
    pub manifest_path: Seq<char>,
    pub dependencies: Seq<DependencyView>,
}

/// One workspace member.
#[derive(Debug, Clone)]
pub struct Crate {
    pub name: String,
    /// Manifest path relative to the workspace root, with forward slashes.
    pub manifest_path: String,
    pub dependencies: Vec<NamedDependency>,
}

impl View for Crate {
    type V = CrateView;

    open spec fn view(&self) -> CrateView {
        CrateView {
            name: self.name@,
            manifest_path: self.manifest_path@,
            dependencies: self.dependencies@.map_values(|d: NamedDependency| d@),
        }
    }
}

/// The position of the first dependency named `name`.
pub open spec fn first_named(deps: Seq<DependencyView>, name: Seq<char>) -> Option<int>
    decreases deps.len(),
{
    if deps.len() == 0 {
        None
    } else if deps[0].name == name {
        Some(0)
    } else {
        match first_named(deps.drop_first(), name) {
            Some(k) => Some(k + 1),
            None => None,
        }
    }
}

pub proof fn lemma_first_named(deps: Seq<DependencyView>, name: Seq<char>)
    ensures
        first_named(deps, name) matches Some(k) ==> 0 <= k < deps.len() && deps[k].name == name
            && forall|j: int| 0 <= j < k ==> deps[j].name != name,
        first_named(deps, name) is None ==> forall|j: int|
            0 <= j < deps.len() ==> deps[j].name != name,
    decreases deps.len(),
{
    if deps.len() > 0 && deps[0].name != name {
        lemma_first_named(deps.drop_first(), name);
        assert forall|j: int| 1 <= j < deps.len() implies deps[j] == deps.drop_first()[j - 1] by {}
    }
}

impl CrateView {
    /// Whether this crate lives under `apps/`.
    pub open spec fn is_app(self) -> bool {
        "apps/"@.is_prefix_of(self.manifest_path)
    }
}

impl Crate {
    /// Whether this crate lives under `apps/`.
    pub fn is_app(&self) -> (r: bool)
        ensures
            r == self@.is_app(),
    {
        starts_with(self.manifest_path.as_str(), "apps/")
    }

    /// The first entry of any dependency table that names `dependency`.
    pub fn names(&self, dependency: &str) -> (r: Option<&NamedDependency>)
        ensures
            match first_named(self@.dependencies, dependency@) {
                Some(k) => r matches Some(d) && *d == self.dependencies@[k],
                None => r is None,
            },
    {
        proof {
            lemma_first_named(self@.dependencies, dependency@);
        }
        let mut k: usize = 0;
        while k < self.dependencies.len()
            invariant
                k <= self.dependencies@.len(),
                forall|j: int| 0 <= j < k ==> self@.dependencies[j].name != dependency@,
            decreases self.dependencies@.len() - k,
        {
            assert(self@.dependencies[k as int] == self.dependencies@[k as int]@);
            if str_eq(self.dependencies[k].name.as_str(), dependency) {
                proof {
                    let deps = self@.dependencies;
                    lemma_first_named(deps, dependency@);
                    if let Some(kk) = first_named(deps, dependency@) {
                        if kk < k {
                            assert(deps[kk].name != dependency@);
                        }
                        if kk > k {
                            assert(deps[k as int].name != dependency@);
                        }
                    }
                }
                return Some(&self.dependencies[k]);
            }
            k = k + 1;
        }
        None
    }
}

/// The position of the last member named `name`: a later member of the same
/// name shadows an earlier one.
pub open spec fn position(ms: Seq<CrateView>, name: Seq<char>) -> Option<int>
    decreases ms.len(),
{
    if ms.len() == 0 {
        None
    } else if ms.last().name == name {
        Some(ms.len() - 1)
    } else {
        position(ms.drop_last(), name)
    }
}

pub proof fn lemma_position(ms: Seq<CrateView>, name: Seq<char>)
    ensures
        position(ms, name) matches Some(i) ==> 0 <= i < ms.len() && ms[i].name == name
            && forall|j: int| i < j < ms.len() ==> ms[j].name != name,
        position(ms, name) is None ==> forall|j: int| 0 <= j < ms.len() ==> ms[j].name != name,
    decreases ms.len(),
{
    if ms.len() > 0 && ms.last().name != name {
        lemma_position(ms.drop_last(), name);
        assert forall|j: int| 0 <= j < ms.len() - 1 implies ms.drop_last()[j] == ms[j] by {}
    }
}

/// The positions of the members that the runtime entries of `deps` name, in
/// the order of the entries; entries that name no member are skipped.
pub open spec fn edge_targets(ms: Seq<CrateView>, deps: Seq<DependencyView>) -> Seq<int>
    decreases deps.len(),
{
    if deps.len() == 0 {
        Seq::empty()
    } else {
        let rest = edge_targets(ms, deps.drop_last());
        let d = deps.last();
        match position(ms, d.name) {
            Some(j) => if d.kind == DependencyKind::Normal {
                rest.push(j)
            } else {
                rest
            },
            None => rest,
        }
    }
}

proof fn lemma_edge_targets(ms: Seq<CrateView>, deps: Seq<DependencyView>)
    ensures
        forall|x: int|
            edge_targets(ms, deps).contains(x) <==> exists|k: int|
                0 <= k < deps.len() && deps[k].kind == DependencyKind::Normal && position(
                    ms,
                    #[trigger] deps[k].name,
                ) == Some(x),
    decreases deps.len(),
{
    if deps.len() > 0 {
        let rest = deps.drop_last();
        lemma_edge_targets(ms, rest);
        let e = edge_targets(ms, deps);
        let er = edge_targets(ms, rest);
        assert forall|x: int| e.contains(x) implies exists|k: int|
            0 <= k < deps.len() && deps[k].kind == DependencyKind::Normal && position(
                ms,
                #[trigger] deps[k].name,
            ) == Some(x) by {
            if er.contains(x) {
                let k = choose|k: int|
                    0 <= k < rest.len() && rest[k].kind == DependencyKind::Normal && position(
                        ms,
                        #[trigger] rest[k].name,
                    ) == Some(x);
                assert(rest[k] == deps[k]);
            } else {
                assert(e == er.push(x));
                assert(deps[deps.len() - 1] == deps.last());
            }
        }
        assert forall|x: int|
            (exists|k: int|
                0 <= k < deps.len() && deps[k].kind == DependencyKind::Normal && position(
                    ms,
                    #[trigger] deps[k].name,
                ) == Some(x)) implies e.contains(x) by {
            let k = choose|k: int|
                0 <= k < deps.len() && deps[k].kind == DependencyKind::Normal && position(
                    ms,
                    #[trigger] deps[k].name,
                ) == Some(x);
            if k < deps.len() - 1 {
                assert(rest[k] == deps[k]);
                assert(er.contains(x));
                let t = choose|t: int| 0 <= t < er.len() && er[t] == x;
                if position(ms, deps.last().name) is Some && deps.last().kind
                    == DependencyKind::Normal {
                    assert(e[t] == x);
                } else {
                    assert(e[t] == x);
                }
            } else {
                assert(deps[k] == deps.last());
                assert(e.last() == x);
                assert(e[e.len() - 1] == x);
            }
        }
    }
}

/// Whether the member named `a` has a runtime dependency on the member named
/// `b`.
pub open spec fn runtime_edge(ms: Seq<CrateView>, a: Seq<char>, b: Seq<char>) -> bool {
    match position(ms, a) {
        Some(i) => exists|k: int|
            0 <= k < ms[i].dependencies.len() && ms[i].dependencies[k].kind
                == DependencyKind::Normal && #[trigger] ms[i].dependencies[k].name == b
                && position(ms, b) is Some,
        None => false,
    }
}

/// Step `j` of `p` follows a runtime edge.
pub open spec fn path_step(ms: Seq<CrateView>, p: Seq<Seq<char>>, j: int) -> bool {
    runtime_edge(ms, p[j], p[j + 1])
}

/// `p` names members, each with a runtime dependency on the next.
pub open spec fn is_runtime_path(ms: Seq<CrateView>, p: Seq<Seq<char>>) -> bool {
    &&& p.len() >= 1
    &&& position(ms, p[0]) is Some
    &&& forall|j: int| 0 <= j < p.len() - 1 ==> #[trigger] path_step(ms, p, j)
}

/// The names of `targets`.
pub open spec fn target_names(targets: Seq<&str>) -> Seq<Seq<char>> {
    targets.map_values(|t: &str| t@)
}

/// `p` is a runtime path from `from` to a member named in `targets` other
/// than `from` itself.
pub open spec fn reaches_goal(
    ms: Seq<CrateView>,
    from: Seq<char>,
    targets: Seq<Seq<char>>,
    p: Seq<Seq<char>>,
) -> bool {
    &&& is_runtime_path(ms, p)
    &&& p[0] == from
    &&& p.last() != from
    &&& targets.contains(p.last())
}

/// The names reachable from `from` over at most `k` runtime edges.
spec fn within(ms: Seq<CrateView>, from: Seq<char>, k: nat) -> Set<Seq<char>>
    decreases k,
{
    if k == 0 {
        set![from]
    } else {
        let prev = within(ms, from, (k - 1) as nat);
        prev.union(
            Set::new(|b: Seq<char>| exists|a: Seq<char>| prev.contains(a) && #[trigger] runtime_edge(ms, a, b)),
        )
    }
}

proof fn lemma_within_step(ms: Seq<CrateView>, from: Seq<char>, k: nat, a: Seq<char>, b: Seq<char>)
    requires
        within(ms, from, k).contains(a),
        runtime_edge(ms, a, b),
    ensures
        within(ms, from, k + 1).contains(b),
{
}

proof fn lemma_within_grows(ms: Seq<CrateView>, from: Seq<char>, i: nat, k: nat)
    requires
        i <= k,
    ensures
        within(ms, from, i).subset_of(within(ms, from, k)),
    decreases k,
{
    if i < k {
        lemma_within_grows(ms, from, i, (k - 1) as nat);
    }
}

proof fn lemma_within_members(ms: Seq<CrateView>, from: Seq<char>, k: nat, b: Seq<char>)
    requires
        position(ms, from) is Some,
        within(ms, from, k).contains(b),
    ensures
        position(ms, b) is Some,
    decreases k,
{
    if k > 0 && !within(ms, from, (k - 1) as nat).contains(b) {
        let prev = within(ms, from, (k - 1) as nat);
        let a = choose|a: Seq<char>| prev.contains(a) && #[trigger] runtime_edge(ms, a, b);
        let i = position(ms, a).unwrap();
        let kk = choose|kk: int|
            0 <= kk < ms[i].dependencies.len() && ms[i].dependencies[kk].kind
                == DependencyKind::Normal && #[trigger] ms[i].dependencies[kk].name == b
                && position(ms, b) is Some;
    } else if k > 0 {
        lemma_within_members(ms, from, (k - 1) as nat, b);
    }
}

proof fn lemma_path_within(ms: Seq<CrateView>, from: Seq<char>, p: Seq<Seq<char>>)
    requires
        is_runtime_path(ms, p),
        p[0] == from,
    ensures
        within(ms, from, (p.len() - 1) as nat).contains(p.last()),
    decreases p.len(),
{
    if p.len() > 1 {
        let q = p.drop_last();
        assert forall|j: int| 0 <= j < q.len() - 1 implies #[trigger] path_step(ms, q, j) by {
            assert(path_step(ms, p, j));
        }
        lemma_path_within(ms, from, q);
        assert(path_step(ms, p, p.len() - 2));
        lemma_within_step(ms, from, (q.len() - 1) as nat, q.last(), p.last());
    }
}

proof fn lemma_within_settles(ms: Seq<CrateView>, from: Seq<char>, k: nat, m: nat)
    requires
        within(ms, from, k + 1) =~= within(ms, from, k),
        k <= m,
    ensures
        within(ms, from, m) =~= within(ms, from, k),
    decreases m,
{
    if m > k + 1 {
        lemma_within_settles(ms, from, k, (m - 1) as nat);
        let prev = within(ms, from, (m - 1) as nat);
        let pk = within(ms, from, k);
        assert(prev =~= pk);
        assert forall|b: Seq<char>| within(ms, from, m).contains(b) implies pk.contains(b) by {
            if !prev.contains(b) {
                let a = choose|a: Seq<char>| prev.contains(a) && #[trigger] runtime_edge(ms, a, b);
                lemma_within_step(ms, from, k, a, b);
            }
        }
        lemma_within_grows(ms, from, k, m);
    }
}

/// Whether `j` is the position `get` finds for the name of member `j`.
spec fn canonical(ms: Seq<CrateView>, j: int) -> bool {
    0 <= j < ms.len() && position(ms, ms[j].name) == Some(j)
}

/// What the search knows of a discovered member `j`.
spec fn discovered(
    ms: Seq<CrateView>,
    from: Seq<char>,
    start: int,
    visited: Seq<bool>,
    parent: Seq<usize>,
    paths: Map<int, Seq<Seq<char>>>,
    j: int,
) -> bool {
    visited[j] ==> {
        &&& canonical(ms, j)
        &&& paths.dom().contains(j)
        &&& is_runtime_path(ms, paths[j])
        &&& paths[j][0] == from
        &&& paths[j].last() == ms[j].name
        &&& within(ms, from, (paths[j].len() - 1) as nat).contains(ms[j].name)
        &&& (paths[j].len() >= 2 ==> !within(ms, from, (paths[j].len() - 2) as nat).contains(
            ms[j].name,
        ))
        &&& (j == start ==> paths[j] == seq![from])
        &&& (j != start ==> {
            &&& parent[j] < ms.len()
            &&& visited[parent[j] as int]
            &&& paths.dom().contains(parent[j] as int)
            &&& paths[j].len() >= 2
            &&& paths[j] == paths[parent[j] as int].push(ms[j].name)
        })
    }
}

proof fn lemma_distinct_bound(s: Seq<usize>, n: nat)
    requires
        s.no_duplicates(),
        forall|t: int| 0 <= t < s.len() ==> s[t] < n,
    ensures
        s.len() <= n,
{
    let si = s.map_values(|x: usize| x as int);
    assert(si.no_duplicates()) by {
        assert forall|a: int, b: int| 0 <= a < si.len() && 0 <= b < si.len() && a != b implies si[a]
            != si[b] by {
            assert(s[a] != s[b]);
        }
    }
    si.unique_seq_to_set();
    vstd::set_lib::lemma_int_range(0, n as int);
    assert(si.to_set().subset_of(vstd::set_lib::set_int_range(0, n as int))) by {
        assert forall|x: int| si.to_set().contains(x) implies vstd::set_lib::set_int_range(
            0,
            n as int,
        ).contains(x) by {
            assert(si.contains(x));
            let t = choose|t: int| 0 <= t < si.len() && si[t] == x;
            assert(s[t] < n);
        }
    }
    vstd::set_lib::lemma_len_subset(si.to_set(), vstd::set_lib::set_int_range(0, n as int));
}

/// The members and the edges between them.
#[derive(Debug, Clone)]
pub struct Graph {
    members: Vec<Crate>,
}

impl View for Graph {
    type V = Seq<CrateView>;

    closed spec fn view(&self) -> Seq<CrateView> {
        self.members@.map_values(|c: Crate| c@)
    }
}

impl Graph {
    pub fn new(members: Vec<Crate>) -> (g: Graph)
        ensures
            g@ == members@.map_values(|c: Crate| c@),
    {
        Graph { members }
    }

    pub fn members(&self) -> (r: &[Crate])
        ensures
            r@.map_values(|c: Crate| c@) == self@,
    {
        self.members.as_slice()
    }

    /// The position of the member `get` finds.
    fn position_of(&self, name: &str) -> (r: Option<usize>)
        ensures
            match position(self@, name@) {
                Some(i) => r matches Some(j) && j as int == i,
                None => r is None,
            },
    {
        proof {
            lemma_position(self@, name@);
        }
        let mut k: usize = self.members.len();
        while k > 0
            invariant
                k <= self@.len(),
                self@.len() == self.members@.len(),
                forall|j: int| k <= j < self@.len() ==> self@[j].name != name@,
            decreases k,
        {
            assert(self@[k - 1] == self.members@[k - 1]@);
            if str_eq(self.members[k - 1].name.as_str(), name) {
                proof {
                    lemma_position(self@, name@);
                    if let Some(i) = position(self@, name@) {
                        if i > k - 1 {
                            assert(self@[i].name != name@);
                        }
                        if i < k - 1 {
                            assert(self@[k - 1].name != name@);
                        }
                    }
                }
                return Some(k - 1);
            }
            k = k - 1;
        }
        None
    }

    /// The member named `name`; the last one where several share it.
    pub fn get(&self, name: &str) -> (r: Option<&Crate>)
        ensures
            match position(self@, name@) {
                Some(i) => r matches Some(c) && c@ == self@[i],
                None => r is None,
            },
    {
        match self.position_of(name) {
            Some(i) => {
                proof {
                    lemma_position(self@, name@);
                }
                assert(self@[i as int] == self.members@[i as int]@);
                let c = &self.members[i];
                assert(c@ == self@[i as int]);
                Some(c)
            },
            None => None,
        }
    }
}

impl Graph {
    /// The positions of the members the runtime entries of `deps` name.
    fn targets_of(&self, deps: &Vec<NamedDependency>) -> (r: Vec<usize>)
        ensures
            r@.map_values(|x: usize| x as int) == edge_targets(
                self@,
                deps@.map_values(|d: NamedDependency| d@),
            ),
    {
        let ghost dv = deps@.map_values(|d: NamedDependency| d@);
        let mut r: Vec<usize> = Vec::new();
        let mut k: usize = 0;
        while k < deps.len()
            invariant
                k <= deps@.len(),
                dv == deps@.map_values(|d: NamedDependency| d@),
                r@.map_values(|x: usize| x as int) == edge_targets(self@, dv.take(k as int)),
            decreases deps@.len() - k,
        {
            let ghost before = r@;
            assert(dv.take(k + 1).drop_last() =~= dv.take(k as int));
            assert(dv.take(k + 1).last() == deps@[k as int]@);
            if deps[k].kind.is_runtime() {
                match self.position_of(deps[k].name.as_str()) {
                    Some(j) => {
                        r.push(j);
                        assert(r@.map_values(|x: usize| x as int) =~= before.map_values(
                            |x: usize| x as int,
                        ).push(j as int));
                    },
                    None => {},
                }
            } else {
                proof {
                    lemma_position(self@, deps@[k as int].name@);
                }
            }
            k = k + 1;
        }
        assert(dv.take(deps@.len() as int) =~= dv);
        r
    }

    /// Members `from` depends on directly, restricted to kinds that reach a
    /// shipped artifact, in the order its entries name them.
    pub fn runtime_edges<'a>(&'a self, from: &'a Crate) -> (r: Vec<&'a Crate>)
        ensures
            r@.len() == edge_targets(self@, from@.dependencies).len(),
            forall|t: int|
                0 <= t < r@.len() ==> (#[trigger] r@[t])@ == self@[edge_targets(
                    self@,
                    from@.dependencies,
                )[t]],
    {
        let targets = self.targets_of(&from.dependencies);
        let ghost e = edge_targets(self@, from@.dependencies);
        proof {
            lemma_edge_targets(self@, from@.dependencies);
            assert forall|x: int| e.contains(x) implies 0 <= x < self@.len() by {
                let ds = from@.dependencies;
                let k = choose|k: int|
                    0 <= k < ds.len() && ds[k].kind == DependencyKind::Normal && position(
                        self@,
                        #[trigger] ds[k].name,
                    ) == Some(x);
                lemma_position(self@, ds[k].name);
            }
        }
        let mut r: Vec<&'a Crate> = Vec::new();
        let mut t: usize = 0;
        while t < targets.len()
            invariant
                t <= targets@.len(),
                targets@.map_values(|x: usize| x as int) == e,
                e == edge_targets(self@, from@.dependencies),
                forall|x: int| e.contains(x) ==> 0 <= x < self@.len(),
                r@.len() == t,
                self@.len() == self.members@.len(),
                forall|u: int| 0 <= u < t ==> (#[trigger] r@[u])@ == self@[e[u]],
            decreases targets@.len() - t,
        {
            let j = targets[t];
            assert(e[t as int] == j as int);
            assert(e.contains(j as int));
            assert(self@[j as int] == self.members@[j as int]@);
            r.push(&self.members[j]);
            t = t + 1;
        }
        r
    }
}

impl Graph {
    /// The names along the discovered path to `goal`, from the start of the
    /// search on.
    fn trace(
        &self,
        parent: &Vec<usize>,
        visited: &Vec<bool>,
        start: usize,
        goal: usize,
        Ghost(from): Ghost<Seq<char>>,
        Ghost(paths): Ghost<Map<int, Seq<Seq<char>>>>,
    ) -> (r: Vec<String>)
        requires
            visited@.len() == self@.len(),
            parent@.len() == self@.len(),
            goal < self@.len(),
            start < self@.len(),
            visited@[goal as int],
            visited@[start as int],
            forall|j: int|
                0 <= j < self@.len() ==> #[trigger] discovered(
                    self@,
                    from,
                    start as int,
                    visited@,
                    parent@,
                    paths,
                    j,
                ),
        ensures
            r@.map_values(|s: String| s@) == paths[goal as int],
    {
        let ghost ms = self@;
        let mut rev: Vec<String> = Vec::new();
        let mut cur = goal;
        assert(rev@.map_values(|s: String| s@).reverse() =~= Seq::<Seq<char>>::empty());
        assert(paths[cur as int] + Seq::<Seq<char>>::empty() =~= paths[goal as int]);
        while cur != start
            invariant
                ms == self@,
                ms.len() == self.members@.len(),
                visited@.len() == ms.len(),
                parent@.len() == ms.len(),
                cur < ms.len(),
                visited@[cur as int],
                forall|j: int|
                    0 <= j < ms.len() ==> #[trigger] discovered(
                        ms,
                        from,
                        start as int,
                        visited@,
                        parent@,
                        paths,
                        j,
                    ),
                paths[cur as int] + rev@.map_values(|s: String| s@).reverse() == paths[goal as int],
            decreases paths[cur as int].len(),
        {
            assert(discovered(ms, from, start as int, visited@, parent@, paths, cur as int));
            let ghost before = rev@.map_values(|s: String| s@);
            assert(ms[cur as int] == self.members@[cur as int]@);
            let name = self.members[cur].name.clone();
            rev.push(name);
            assert(rev@.map_values(|s: String| s@) =~= before.push(ms[cur as int].name));
            assert(before.push(ms[cur as int].name).reverse() =~= seq![ms[cur as int].name]
                + before.reverse());
            let p = parent[cur];
            assert(paths[cur as int] =~= paths[p as int].push(ms[cur as int].name));
            assert(paths[p as int] + rev@.map_values(|s: String| s@).reverse() =~= paths[cur as int]
                + before.reverse());
            cur = p;
        }
        assert(discovered(ms, from, start as int, visited@, parent@, paths, start as int));
        let ghost before = rev@.map_values(|s: String| s@);
        assert(ms[start as int] == self.members@[start as int]@);
        let name = self.members[start].name.clone();
        rev.push(name);
        let ghost rv = rev@.map_values(|s: String| s@);
        assert(rv =~= before.push(ms[start as int].name));
        assert(rv.reverse() =~= seq![ms[start as int].name] + before.reverse());
        assert(rv.reverse() =~= paths[goal as int]);
        let mut out: Vec<String> = Vec::new();
        let mut i = rev.len();
        while i > 0
            invariant
                i <= rev@.len(),
                rv == rev@.map_values(|s: String| s@),
                out@.len() == rev@.len() - i,
                forall|t: int| 0 <= t < out@.len() ==> #[trigger] out@[t]@ == rv[rv.len() - 1 - t],
            decreases i,
        {
            i = i - 1;
            let s = rev[i].clone();
            out.push(s);
        }
        assert(out@.map_values(|s: String| s@) =~= rv.reverse());
        out
    }

    /// The shortest runtime dependency path from the member named `from` to
    /// any member named in `targets` other than `from` itself, or `None` if
    /// none is reachable. The path is returned so a diagnostic can name the
    /// edge that has to be cut.
    pub fn shortest_runtime_path(&self, from: &str, targets: &[&str]) -> (r: Option<Vec<String>>)
        ensures
            r is None <==> !exists|p: Seq<Seq<char>>|
                #[trigger] reaches_goal(self@, from@, target_names(targets@), p),
            r matches Some(v) ==> reaches_goal(
                self@,
                from@,
                target_names(targets@),
                v@.map_values(|s: String| s@),
            ),
            r matches Some(v) ==> forall|q: Seq<Seq<char>>|
                #[trigger] reaches_goal(self@, from@, target_names(targets@), q)
                    ==> v@.len() <= q.len(),
    {
        let ghost ms = self@;
        let ghost tv = target_names(targets@);
        let start = match self.position_of(from) {
            Some(s) => s,
            None => {
                assert forall|q: Seq<Seq<char>>| !#[trigger] reaches_goal(
                    self@,
                    from@,
                    target_names(targets@),
                    q,
                ) by {}
                return None;
            },
        };
        proof {
            lemma_position(ms, from@);
        }
        let n = self.members.len();
        let mut visited: Vec<bool> = Vec::new();
        let mut parent: Vec<usize> = Vec::new();
        let mut z: usize = 0;
        while z < n
            invariant
                z <= n,
                visited@.len() == z,
                parent@.len() == z,
                forall|j: int| 0 <= j < z ==> !visited@[j],
            decreases n - z,
        {
            visited.push(false);
            parent.push(0);
            z = z + 1;
        }
        visited.set(start, true);
        let mut order: Vec<usize> = Vec::new();
        order.push(start);
        let ghost mut paths: Map<int, Seq<Seq<char>>> = Map::empty().insert(
            start as int,
            seq![from@],
        );
        let ghost mut k: nat = 0;
        let mut lo: usize = 0;
        let mut hi: usize = 1;
        assert(within(ms, from@, 0) == set![from@]);
        assert(discovered(ms, from@, start as int, visited@, parent@, paths, start as int)) by {
            assert(seq![from@].last() == from@);
            assert(seq![from@][0] == from@);
        }
        assert forall|j: int|
            0 <= j < ms.len() && canonical(ms, j) && within(ms, from@, k).contains(
                ms[j].name,
            ) implies visited@[j] by {
            assert(ms[j].name == from@);
        }
        assert(order@.no_duplicates());
        assert forall|j: int| 0 <= j < n && visited@[j] implies order@.contains(j as usize) by {
            assert(j == start);
            assert(order@[0] == start);
        }
        loop
            invariant
                ms == self@,
                ms.len() == self.members@.len(),
                n == ms.len(),
                tv == target_names(targets@),
                start < n,
                position(ms, from@) == Some(start as int),
                visited@.len() == n,
                parent@.len() == n,
                visited@[start as int],
                forall|j: int|
                    0 <= j < n ==> #[trigger] discovered(
                        ms,
                        from@,
                        start as int,
                        visited@,
                        parent@,
                        paths,
                        j,
                    ),
                lo < hi,
                hi == order@.len(),
                order@.no_duplicates(),
                forall|t: int|
                    0 <= t < order@.len() ==> order@[t] < n && visited@[#[trigger] order@[t] as int],
                forall|j: int| 0 <= j < n && visited@[j] ==> order@.contains(j as usize),
                forall|t: int| 0 <= t < lo ==> paths[#[trigger] order@[t] as int].len() <= k,
                forall|t: int| lo <= t < hi ==> paths[#[trigger] order@[t] as int].len() == k + 1,
                forall|j: int|
                    0 <= j < n && canonical(ms, j) && within(ms, from@, k).contains(
                        #[trigger] ms[j].name,
                    ) ==> visited@[j],
                forall|j: int| 0 <= j < n && #[trigger] visited@[j] ==> paths[j].len() <= k + 1,
                k > 0 ==> forall|b: Seq<char>|
                    #[trigger] within(ms, from@, (k - 1) as nat).contains(b) && b != from@
                        ==> !tv.contains(b),
            decreases n - lo,
        {
            // Look for a target among the members first reached at this depth.
            let mut t = lo;
            while t < hi
                invariant
                    ms == self@,
                    ms.len() == self.members@.len(),
                    n == ms.len(),
                    tv == target_names(targets@),
                    start < n,
                    position(ms, from@) == Some(start as int),
                    visited@.len() == n,
                    parent@.len() == n,
                    visited@[start as int],
                    forall|j: int|
                        0 <= j < n ==> #[trigger] discovered(
                            ms,
                            from@,
                            start as int,
                            visited@,
                            parent@,
                            paths,
                            j,
                        ),
                    lo <= t <= hi,
                    hi == order@.len(),
                    forall|u: int|
                        0 <= u < order@.len() ==> order@[u] < n && visited@[#[trigger] order@[u] as int],
                    forall|u: int| lo <= u < hi ==> paths[#[trigger] order@[u] as int].len() == k + 1,
                    k > 0 ==> forall|b: Seq<char>|
                        #[trigger] within(ms, from@, (k - 1) as nat).contains(b) && b != from@
                            ==> !tv.contains(b),
                    forall|u: int|
                        lo <= u < t ==> #[trigger] order@[u] == start || !tv.contains(
                            ms[order@[u] as int].name,
                        ),
                decreases hi - t,
            {
                let c = order[t];
                assert(ms[c as int] == self.members@[c as int]@);
                let is_target = contains_str(targets, self.members[c].name.as_str());
                assert(is_target == tv.contains(ms[c as int].name)) by {
                    if is_target {
                        let kk = choose|kk: int|
                            0 <= kk < targets@.len() && targets@[kk]@ == ms[c as int].name;
                        assert(tv[kk] == ms[c as int].name);
                    }
                    if tv.contains(ms[c as int].name) {
                        let kk = choose|kk: int| 0 <= kk < tv.len() && tv[kk] == ms[c as int].name;
                        assert(targets@[kk]@ == ms[c as int].name);
                    }
                }
                if c != start && is_target {
                    let path = self.trace(&parent, &visited, start, c, Ghost(from@), Ghost(paths));
                    assert(path@.map_values(|s: String| s@) == paths[c as int]);
                    proof {
                        let p = paths[c as int];
                        assert(discovered(ms, from@, start as int, visited@, parent@, paths, c as int));
                        lemma_position(ms, ms[c as int].name);
                        assert(p.last() != from@);
                        assert(reaches_goal(ms, from@, tv, p));
                        assert forall|q: Seq<Seq<char>>| #[trigger]
                            reaches_goal(ms, from@, tv, q) implies p.len() <= q.len() by {
                            lemma_path_within(ms, from@, q);
                            if q.len() < k + 1 {
                                lemma_within_grows(
                                    ms,
                                    from@,
                                    (q.len() - 1) as nat,
                                    (k - 1) as nat,
                                );
                                assert(within(ms, from@, (k - 1) as nat).contains(q.last()));
                            }
                        }
                    }
                    assert(reaches_goal(
                        self@,
                        from@,
                        target_names(targets@),
                        path@.map_values(|s: String| s@),
                    ));
                    return Some(path);
                }
                t = t + 1;
            }
            // No target is reachable within `k` edges.
            assert forall|b: Seq<char>|
                #[trigger] within(ms, from@, k).contains(b) && b != from@ implies !tv.contains(b) by {
                if k > 0 && within(ms, from@, (k - 1) as nat).contains(b) {
                } else {
                    lemma_within_members(ms, from@, k, b);
                    let j = position(ms, b).unwrap();
                    lemma_position(ms, b);
                    assert(canonical(ms, j));
                    assert(visited@[j]);
                    assert(order@.contains(j as usize));
                    let u = choose|u: int| 0 <= u < order@.len() && order@[u] == j as usize;
                    assert(discovered(ms, from@, start as int, visited@, parent@, paths, j));
                    if paths[j].len() <= k {
                        lemma_within_grows(
                            ms,
                            from@,
                            (paths[j].len() - 1) as nat,
                            (k - 1) as nat,
                        );
                    }
                    assert(lo <= u < hi);
                    assert(order@[u] == start || !tv.contains(ms[order@[u] as int].name));
                }
            }
            // Reach one edge further from every member first reached at this
            // depth.
            let mut t = lo;
            while t < hi
                invariant
                    ms == self@,
                    ms.len() == self.members@.len(),
                    n == ms.len(),
                    start < n,
                    position(ms, from@) == Some(start as int),
                    visited@.len() == n,
                    parent@.len() == n,
                    visited@[start as int],
                    forall|j: int|
                        0 <= j < n ==> #[trigger] discovered(
                            ms,
                            from@,
                            start as int,
                            visited@,
                            parent@,
                            paths,
                            j,
                        ),
                    lo <= t <= hi,
                    hi <= order@.len(),
                    order@.no_duplicates(),
                    forall|u: int|
                        0 <= u < order@.len() ==> order@[u] < n && visited@[#[trigger] order@[u] as int],
                    forall|j: int| 0 <= j < n && visited@[j] ==> order@.contains(j as usize),
                    forall|u: int| 0 <= u < lo ==> paths[#[trigger] order@[u] as int].len() <= k,
                    forall|u: int| lo <= u < hi ==> paths[#[trigger] order@[u] as int].len() == k + 1,
                    forall|u: int|
                        hi <= u < order@.len() ==> paths[#[trigger] order@[u] as int].len() == k + 2,
                    forall|j: int|
                        0 <= j < n && canonical(ms, j) && within(ms, from@, k).contains(
                            #[trigger] ms[j].name,
                        ) ==> visited@[j],
                    forall|j: int| 0 <= j < n && #[trigger] visited@[j] ==> paths[j].len() <= k + 2,
                    forall|u: int, b: Seq<char>|
                        lo <= u < t && #[trigger] runtime_edge(ms, ms[order@[u] as int].name, b)
                            ==> (position(ms, b) matches Some(j) && visited@[j]),
                decreases hi - t,
            {
                let c = order[t];
                assert(ms[c as int] == self.members@[c as int]@);
                let outs = self.targets_of(&self.members[c].dependencies);
                let ghost e = edge_targets(ms, ms[c as int].dependencies);
                assert(discovered(ms, from@, start as int, visited@, parent@, paths, c as int));
                proof {
                    lemma_edge_targets(ms, ms[c as int].dependencies);
                    lemma_within_grows(ms, from@, (paths[c as int].len() - 1) as nat, k);
                    assert forall|y: int| 0 <= y < outs@.len() implies (#[trigger] outs@[y] as int)
                        < n by {
                        assert(e[y] == outs@[y] as int);
                        assert(e.contains(e[y]));
                        let ds = ms[c as int].dependencies;
                        let kk = choose|kk: int|
                            0 <= kk < ds.len() && ds[kk].kind == DependencyKind::Normal && position(
                                ms,
                                #[trigger] ds[kk].name,
                            ) == Some(e[y]);
                        lemma_position(ms, ds[kk].name);
                    }
                }
                let mut x: usize = 0;
                while x < outs.len()
                    invariant
                        ms == self@,
                        ms.len() == self.members@.len(),
                        n == ms.len(),
                        start < n,
                        c < n,
                        position(ms, from@) == Some(start as int),
                        visited@.len() == n,
                        parent@.len() == n,
                        visited@[start as int],
                        visited@[c as int],
                        canonical(ms, c as int),
                        within(ms, from@, k).contains(ms[c as int].name),
                        paths.dom().contains(c as int),
                        paths[c as int].len() == k + 1,
                        is_runtime_path(ms, paths[c as int]),
                        paths[c as int][0] == from@,
                        paths[c as int].last() == ms[c as int].name,
                        outs@.map_values(|y: usize| y as int) == e,
                        forall|y: int|
                            e.contains(y) <==> exists|kk: int|
                                0 <= kk < ms[c as int].dependencies.len()
                                    && ms[c as int].dependencies[kk].kind == DependencyKind::Normal
                                    && position(ms, #[trigger] ms[c as int].dependencies[kk].name)
                                    == Some(y),
                        forall|j: int|
                            0 <= j < n ==> #[trigger] discovered(
                                ms,
                                from@,
                                start as int,
                                visited@,
                                parent@,
                                paths,
                                j,
                            ),
                        x <= outs@.len(),
                        lo <= t < hi,
                        hi <= order@.len(),
                        order@[t as int] == c,
                        order@.no_duplicates(),
                        forall|u: int|
                            0 <= u < order@.len() ==> order@[u] < n && visited@[#[trigger] order@[u] as int],
                        forall|j: int| 0 <= j < n && visited@[j] ==> order@.contains(j as usize),
                        forall|u: int| 0 <= u < lo ==> paths[#[trigger] order@[u] as int].len() <= k,
                        forall|u: int|
                            lo <= u < hi ==> paths[#[trigger] order@[u] as int].len() == k + 1,
                        forall|u: int|
                            hi <= u < order@.len() ==> paths[#[trigger] order@[u] as int].len() == k
                                + 2,
                        forall|j: int|
                            0 <= j < n && canonical(ms, j) && within(ms, from@, k).contains(
                                #[trigger] ms[j].name,
                            ) ==> visited@[j],
                        forall|j: int| 0 <= j < n && #[trigger] visited@[j] ==> paths[j].len() <= k + 2,
                        forall|y: int| 0 <= y < x ==> visited@[#[trigger] outs@[y] as int],
                        forall|y: int| 0 <= y < outs@.len() ==> (#[trigger] outs@[y] as int) < n,
                        forall|u: int, b: Seq<char>|
                            lo <= u < t && #[trigger] runtime_edge(ms, ms[order@[u] as int].name, b)
                                ==> (position(ms, b) matches Some(j) && visited@[j]),
                    decreases outs@.len() - x,
                {
                    let j = outs[x];
                    assert(e[x as int] == j as int);
                    assert(e.contains(j as int));
                    let ghost kk = choose|kk: int|
                        0 <= kk < ms[c as int].dependencies.len()
                            && ms[c as int].dependencies[kk].kind == DependencyKind::Normal
                            && position(ms, #[trigger] ms[c as int].dependencies[kk].name) == Some(
                            j as int,
                        );
                    proof {
                        lemma_position(ms, ms[c as int].dependencies[kk].name);
                    }
                    if !visited[j] {
                        let ghost old_visited = visited@;
                        let ghost old_parent = parent@;
                        let ghost old_paths = paths;
                        let ghost old_order = order@;
                        let ghost name = ms[j as int].name;
                        assert(canonical(ms, j as int));
                        assert(runtime_edge(ms, ms[c as int].name, name));
                        proof {
                            lemma_within_step(ms, from@, k, ms[c as int].name, name);
                        }
                        assert(!within(ms, from@, k).contains(name));
                        visited.set(j, true);
                        parent.set(j, c);
                        order.push(j);
                        proof {
                            paths = paths.insert(j as int, paths[c as int].push(name));
                            let p = paths[j as int];
                            assert forall|i: int| 0 <= i < p.len() - 1 implies #[trigger] path_step(
                                ms,
                                p,
                                i,
                            ) by {
                                if i < p.len() - 2 {
                                    assert(path_step(ms, old_paths[c as int], i));
                                }
                            }
                            assert forall|i: int| 0 <= i < n implies #[trigger] discovered(
                                ms,
                                from@,
                                start as int,
                                visited@,
                                parent@,
                                paths,
                                i,
                            ) by {
                                if i != j {
                                    assert(discovered(
                                        ms,
                                        from@,
                                        start as int,
                                        old_visited,
                                        old_parent,
                                        old_paths,
                                        i,
                                    ));
                                }
                            }
                            assert forall|u: int|
                                0 <= u < order@.len() implies order@[u] < n && visited@[#[trigger] order@[u] as int] by {
                                if u < old_order.len() {
                                    assert(order@[u] == old_order[u]);
                                }
                            }
                            assert forall|i: int| 0 <= i < n && visited@[i] implies order@.contains(
                                i as usize,
                            ) by {
                                if i != j {
                                    assert(old_order.contains(i as usize));
                                    let u = choose|u: int|
                                        0 <= u < old_order.len() && old_order[u] == i as usize;
                                    assert(order@[u] == i as usize);
                                } else {
                                    assert(order@[order@.len() - 1] == j);
                                }
                            }
                            assert(order@.no_duplicates()) by {
                                assert(!old_order.contains(j)) by {
                                    if old_order.contains(j) {
                                        let u = choose|u: int|
                                            0 <= u < old_order.len() && old_order[u] == j;
                                        assert(old_visited[old_order[u] as int]);
                                    }
                                }
                                assert forall|a: int, b: int|
                                    0 <= a < order@.len() && 0 <= b < order@.len() && a
                                        != b implies order@[a] != order@[b] by {
                                    if a < old_order.len() && b < old_order.len() {
                                        assert(old_order[a] != old_order[b]);
                                    } else if a < old_order.len() {
                                        assert(order@[a] == old_order[a]);
                                    } else if b < old_order.len() {
                                        assert(order@[b] == old_order[b]);
                                    }
                                }
                            }
                            assert forall|u: int| 0 <= u < order@.len() - 1 implies order@[u]
                                == old_order[u] by {}
                            assert forall|u: int, b: Seq<char>|
                                lo <= u < t && #[trigger] runtime_edge(
                                    ms,
                                    ms[order@[u] as int].name,
                                    b,
                                ) implies (position(ms, b) matches Some(i) && visited@[i]) by {
                                assert(order@[u] == old_order[u]);
                                assert(runtime_edge(ms, ms[old_order[u] as int].name, b));
                                let i = position(ms, b).unwrap();
                                lemma_position(ms, b);
                                assert(old_visited[i]);
                                assert(visited@ == old_visited.update(j as int, true));
                                assert(visited@[i]);
                            }
                            assert forall|y: int| 0 <= y <= x implies visited@[#[trigger] outs@[y] as int] by {
                                assert(visited@ == old_visited.update(j as int, true));
                                if y < x {
                                    assert(old_visited[outs@[y] as int]);
                                }
                            }
                        }
                    }
                    x = x + 1;
                }
                proof {
                    assert forall|u: int, b: Seq<char>|
                        lo <= u < t + 1 && #[trigger] runtime_edge(
                            ms,
                            ms[order@[u] as int].name,
                            b,
                        ) implies (position(ms, b) matches Some(i) && visited@[i]) by {
                        if u == t {
                            assert(order@[u] == c);
                            let kk = choose|kk: int|
                                0 <= kk < ms[c as int].dependencies.len()
                                    && ms[c as int].dependencies[kk].kind
                                    == DependencyKind::Normal
                                    && #[trigger] ms[c as int].dependencies[kk].name == b
                                    && position(ms, b) is Some;
                            let i = position(ms, b).unwrap();
                            assert(e.contains(i));
                            let y = choose|y: int| 0 <= y < e.len() && e[y] == i;
                            assert(outs@[y] as int == i);
                        }
                    }
                }
                t = t + 1;
            }
            if order.len() == hi {
                // Nothing new was reached: no target is reachable at all.
                proof {
                    assert(within(ms, from@, k + 1) =~= within(ms, from@, k)) by {
                        assert forall|b: Seq<char>|
                            within(ms, from@, k + 1).contains(b) implies within(ms, from@, k).contains(
                                b,
                            ) by {
                            if !within(ms, from@, k).contains(b) {
                                let a = choose|a: Seq<char>|
                                    within(ms, from@, k).contains(a) && #[trigger] runtime_edge(
                                        ms,
                                        a,
                                        b,
                                    );
                                lemma_within_members(ms, from@, k, a);
                                let i = position(ms, a).unwrap();
                                lemma_position(ms, a);
                                assert(canonical(ms, i));
                                assert(visited@[i]);
                                let u = choose|u: int| 0 <= u < order@.len() && order@[u] == i as usize;
                                assert(discovered(ms, from@, start as int, visited@, parent@, paths, i));
                                if paths[i].len() <= k {
                                    lemma_within_grows(
                                        ms,
                                        from@,
                                        (paths[i].len() - 1) as nat,
                                        (k - 1) as nat,
                                    );
                                    lemma_within_step(ms, from@, (k - 1) as nat, a, b);
                                } else {
                                    assert(lo <= u < hi);
                                    assert(runtime_edge(ms, ms[order@[u] as int].name, b));
                                    let jb = position(ms, b).unwrap();
                                    assert(visited@[jb]);
                                    lemma_position(ms, b);
                                    assert(order@.contains(jb as usize));
                                    let w = choose|w: int|
                                        0 <= w < order@.len() && order@[w] == jb as usize;
                                    assert(discovered(
                                        ms,
                                        from@,
                                        start as int,
                                        visited@,
                                        parent@,
                                        paths,
                                        jb,
                                    ));
                                    lemma_within_grows(
                                        ms,
                                        from@,
                                        (paths[jb].len() - 1) as nat,
                                        k,
                                    );
                                }
                            }
                        }
                    }
                    assert forall|q: Seq<Seq<char>>| !#[trigger] reaches_goal(ms, from@, tv, q) by {
                        if reaches_goal(ms, from@, tv, q) {
                            lemma_path_within(ms, from@, q);
                            let m = (q.len() - 1) as nat;
                            if m <= k {
                                lemma_within_grows(ms, from@, m, k);
                            } else {
                                lemma_within_settles(ms, from@, k, m);
                            }
                            assert(within(ms, from@, k).contains(q.last()));
                        }
                    }
                    assert forall|q: Seq<Seq<char>>| !#[trigger] reaches_goal(
                        self@,
                        from@,
                        target_names(targets@),
                        q,
                    ) by {
                        assert(!reaches_goal(ms, from@, tv, q));
                    }
                }
                return None;
            }
            proof {
                lemma_distinct_bound(order@, n as nat);
                assert forall|j: int|
                    0 <= j < n && canonical(ms, j) && within(ms, from@, k + 1).contains(
                        #[trigger] ms[j].name,
                    ) implies visited@[j] by {
                    let b = ms[j].name;
                    if !within(ms, from@, k).contains(b) {
                        let a = choose|a: Seq<char>|
                            within(ms, from@, k).contains(a) && #[trigger] runtime_edge(ms, a, b);
                        lemma_within_members(ms, from@, k, a);
                        let i = position(ms, a).unwrap();
                        lemma_position(ms, a);
                        assert(canonical(ms, i));
                        assert(visited@[i]);
                        let u = choose|u: int| 0 <= u < order@.len() && order@[u] == i as usize;
                        assert(discovered(ms, from@, start as int, visited@, parent@, paths, i));
                        if paths[i].len() <= k {
                            lemma_within_grows(
                                ms,
                                from@,
                                (paths[i].len() - 1) as nat,
                                (k - 1) as nat,
                            );
                            lemma_within_step(ms, from@, (k - 1) as nat, a, b);
                        } else {
                            assert(lo <= u < hi);
                            assert(runtime_edge(ms, ms[order@[u] as int].name, b));
                        }
                    }
                }
            }
            lo = hi;
            hi = order.len();
            proof {
                k = k + 1;
            }
        }
    }
}

} // verus!
