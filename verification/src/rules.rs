//! The crate boundaries the workspace is held to.
//!
//! Each rule is stated here once, in data, so the architecture document and
//! the check cannot drift apart silently.
use vstd::prelude::*;
use vstd::string::*;
use crate::graph::{
    position, reaches_goal, target_names, Crate, CrateView, DependencyView,
    Graph, NamedDependency,
};
use crate::text::{contains_str, join, join_strings, str_eq};

verus! {

/// Crates that exist to serve authoring. Nothing a shipped game links may reach
/// them.
pub open spec fn editor_side() -> Seq<Seq<char>> {
    seq!["engine-editor"@, "engine-devtools"@]
}

/// The editor-side crate names.
pub fn editor_side_names() -> (r: Vec<&'static str>)
    ensures
        target_names(r@) == editor_side(),
{
    let r = vec!["engine-editor", "engine-devtools"];
    assert(target_names(r@) =~= editor_side());
    r
}

/// Backend crates, and the single workspace crate allowed to name each: a
/// caller that names a backend type has lost the ability to replace it.
pub open spec fn backend_owners() -> Seq<(Seq<char>, Seq<char>)> {
    seq![("winit"@, "engine-platform"@)]
}

/// The (backend, owner) table.
pub fn backend_owner_table() -> (r: Vec<(&'static str, &'static str)>)
    ensures
        r@.map_values(|e: (&str, &str)| (e.0@, e.1@)) == backend_owners(),
{
    let r = vec![("winit", "engine-platform")];
    assert(r@.map_values(|e: (&str, &str)| (e.0@, e.1@)) =~= backend_owners());
    r
}

/// What the rules report of one broken boundary.
pub struct ViolationView {
    pub rule: Seq<char>,
    pub detail: Seq<char>,
    pub remedy: Seq<char>,
}

/// One broken boundary.
#[derive(Debug, Clone, PartialEq, Eq)]
pub struct Violation {
    /// Which rule was broken.
    pub rule: &'static str,
    /// What is wrong, and where.
    pub detail: String,
    /// What to do about it.
    pub remedy: String,
}

impl View for Violation {
    type V = ViolationView;

    open spec fn view(&self) -> ViolationView {
        ViolationView { rule: self.rule@, detail: self.detail@, remedy: self.remedy@ }
    }
}

pub open spec fn views(vs: Seq<Violation>) -> Seq<ViolationView> {
    vs.map_values(|v: Violation| v@)
}

// ---------------------------------------------------------------------------
// Editor-side crates are unreachable at runtime.

/// The report for `name` reaching an editor-side crate along `path`.
pub open spec fn editor_report(name: Seq<char>, path: Seq<Seq<char>>) -> ViolationView {
    ViolationView {
        rule: "editor-side crates are unreachable from runtime crates"@,
        detail: "`"@ + name + "` reaches `"@ + path.last() + "` at runtime: "@ + join(
            path,
            " -> "@,
        ),
        remedy: "cut the edge into `"@ + path.last() + "`, or move the shared code below it"@,
    }
}

/// `v` reports `name` reaching an editor-side crate along a shortest runtime
/// path.
pub open spec fn is_editor_report(ms: Seq<CrateView>, name: Seq<char>, v: ViolationView) -> bool {
    exists|p: Seq<Seq<char>>|
        #[trigger] reaches_goal(ms, name, editor_side(), p) && (forall|q: Seq<Seq<char>>|
            #[trigger] reaches_goal(ms, name, editor_side(), q) ==> p.len() <= q.len()) && v
            == editor_report(name, p)
}

/// Whether member `m` breaks the rule: it is not editor-side itself, and some
/// editor-side crate is reachable from it at runtime.
pub open spec fn reaches_editor_side(ms: Seq<CrateView>, m: CrateView) -> bool {
    !editor_side().contains(m.name) && exists|p: Seq<Seq<char>>|
        #[trigger] reaches_goal(ms, m.name, editor_side(), p)
}

/// The positions, in order, of the first `n` members that break the rule.
pub open spec fn editor_offenders(ms: Seq<CrateView>, n: nat) -> Seq<int>
    decreases n,
{
    if n == 0 {
        Seq::empty()
    } else {
        let rest = editor_offenders(ms, (n - 1) as nat);
        if reaches_editor_side(ms, ms[n - 1]) {
            rest.push(n - 1)
        } else {
            rest
        }
    }
}

/// Law: the members reported for reaching an editor-side crate are exactly
/// those that are not editor-side themselves and from which some editor-side
/// crate is reachable over runtime edges, apps under `apps/` included; each is
/// reported once, in member order.
pub proof fn law_editor_offenders_are_exactly_the_reaching_members(
    ms: Seq<CrateView>,
    n: nat,
    i: int,
)
    requires
        n <= ms.len(),
    ensures
        editor_offenders(ms, n).contains(i) <==> (0 <= i < n && !editor_side().contains(ms[i].name)
            && exists|p: Seq<Seq<char>>| #[trigger] reaches_goal(ms, ms[i].name, editor_side(), p)),
        forall|a: int, b: int|
            0 <= a < b < editor_offenders(ms, n).len() ==> editor_offenders(ms, n)[a]
                < editor_offenders(ms, n)[b],
        forall|a: int|
            0 <= a < editor_offenders(ms, n).len() ==> 0 <= #[trigger] editor_offenders(ms, n)[a] < n,
    decreases n,
{
    if n > 0 {
        law_editor_offenders_are_exactly_the_reaching_members(ms, (n - 1) as nat, i);
        let rest = editor_offenders(ms, (n - 1) as nat);
        assert forall|a: int|
            0 <= a < rest.len() implies 0 <= #[trigger] rest[a] < n - 1 by {
            law_editor_offenders_are_exactly_the_reaching_members(ms, (n - 1) as nat, rest[a]);
        }
        if reaches_editor_side(ms, ms[n - 1]) {
            let o = rest.push(n - 1);
            assert(o.contains(i) <==> (rest.contains(i) || i == n - 1)) by {
                if o.contains(i) && i != n - 1 {
                    let t = choose|t: int| 0 <= t < o.len() && o[t] == i;
                    assert(t < rest.len());
                    assert(rest[t] == i);
                }
                if rest.contains(i) {
                    let t = choose|t: int| 0 <= t < rest.len() && rest[t] == i;
                    assert(o[t] == i);
                }
                if i == n - 1 {
                    assert(o[rest.len() as int] == i);
                }
            }
        }
    }
}

/// `out` reports exactly the offending members, in order, one each.
pub open spec fn editor_reports(ms: Seq<CrateView>, out: Seq<ViolationView>) -> bool {
    let offenders = editor_offenders(ms, ms.len());
    &&& out.len() == offenders.len()
    &&& forall|t: int|
        0 <= t < out.len() ==> is_editor_report(ms, ms[offenders[t]].name, #[trigger] out[t])
}

fn editor_violation(name: &str, path: &Vec<String>) -> (r: Violation)
    requires
        path@.len() >= 1,
    ensures
        r@ == editor_report(name@, path@.map_values(|s: String| s@)),
{
    let ghost pv = path@.map_values(|s: String| s@);
    let reached = path[path.len() - 1].as_str();
    assert(reached@ == pv.last());
    let mut detail = String::from_str("`");
    detail.append(name);
    detail.append("` reaches `");
    detail.append(reached);
    detail.append("` at runtime: ");
    let joined = join_strings(path, " -> ");
    detail.append(joined.as_str());
    let mut remedy = String::from_str("cut the edge into `");
    remedy.append(reached);
    remedy.append("`, or move the shared code below it");
    Violation { rule: "editor-side crates are unreachable from runtime crates", detail, remedy }
}

/// `editor` and `devtools` are not reachable from the dependency graph of any
/// runtime crate. Only runtime edges count, and one path is reported per
/// offending crate: the shortest.
fn editor_side_is_unreachable(graph: &Graph, violations: &mut Vec<Violation>)
    ensures
        final(violations)@.len() >= old(violations)@.len(),
        final(violations)@.subrange(0, old(violations)@.len() as int) == old(violations)@,
        editor_reports(
            graph@,
            views(final(violations)@.subrange(
                old(violations)@.len() as int,
                final(violations)@.len() as int,
            )),
        ),
{
    let ghost ms = graph@;
    let ghost start = violations@;
    let editor = editor_side_names();
    let members = graph.members();
    let mut i: usize = 0;
    while i < members.len()
        invariant
            ms == graph@,
            members@.map_values(|c: Crate| c@) == ms,
            target_names(editor@) == editor_side(),
            i <= members@.len(),
            violations@.len() >= start.len(),
            violations@.subrange(0, start.len() as int) == start,
            ({
                let out = views(violations@.subrange(start.len() as int, violations@.len() as int));
                let offenders = editor_offenders(ms, i as nat);
                &&& out.len() == offenders.len()
                &&& forall|t: int|
                    0 <= t < out.len() ==> is_editor_report(
                        ms,
                        ms[offenders[t]].name,
                        #[trigger] out[t],
                    )
            }),
        decreases members@.len() - i,
    {
        let ghost before = violations@;
        let member = &members[i];
        assert(ms[i as int] == member@);
        let name = member.name.as_str();
        let is_editor = contains_str(editor.as_slice(), name);
        assert(is_editor == editor_side().contains(name@)) by {
            if is_editor {
                let k = choose|k: int| 0 <= k < editor@.len() && editor@[k]@ == name@;
                assert(editor_side()[k] == name@);
            }
            if editor_side().contains(name@) {
                let k = choose|k: int| 0 <= k < editor_side().len() && editor_side()[k] == name@;
                assert(editor@[k]@ == name@);
            }
        }
        if !is_editor {
            match graph.shortest_runtime_path(name, editor.as_slice()) {
                Some(path) => {
                    let ghost pv = path@.map_values(|s: String| s@);
                    let v = editor_violation(name, &path);
                    violations.push(v);
                    proof {
                        assert(reaches_goal(ms, name@, editor_side(), pv));
                        assert(is_editor_report(ms, name@, v@));
                        assert(violations@.subrange(0, start.len() as int) =~= start) by {
                            assert(before.subrange(0, start.len() as int) == start);
                            assert forall|t: int| 0 <= t < start.len() implies violations@[t]
                                == before[t] by {}
                        }
                        let out0 = views(before.subrange(start.len() as int, before.len() as int));
                        let out = views(
                            violations@.subrange(start.len() as int, violations@.len() as int),
                        );
                        assert(out =~= out0.push(v@));
                    }
                },
                None => {},
            }
        }
        i = i + 1;
    }
    assert(members@.len() == ms.len());
}

// ---------------------------------------------------------------------------
// Domain crates do not depend on apps.

/// The report for member `m` naming the application `app` in entry `d`.
pub open spec fn domain_report(m: CrateView, app: Seq<char>, d: DependencyView) -> ViolationView {
    ViolationView {
        rule: "domain crates do not depend on apps"@,
        detail: "`"@ + m.name + "` names the application `"@ + app + "` in "@ + d.table() + " ("@
            + m.manifest_path + ")"@,
        remedy: "dependencies run `apps -> app -> domain crates`; move what `"@ + m.name
            + "` needs out of `"@ + app + "`"@,
    }
}

/// The reports for the first `k` entries of member `m`: one for each entry that
/// names a member under `apps/`, when `m` itself is not one.
pub open spec fn domain_member_reports(ms: Seq<CrateView>, m: CrateView, k: nat) -> Seq<
    ViolationView,
>
    decreases k,
{
    if k == 0 || k > m.dependencies.len() {
        Seq::empty()
    } else {
        let rest = domain_member_reports(ms, m, (k - 1) as nat);
        let d = m.dependencies[k - 1];
        if m.is_app() {
            rest
        } else {
            match position(ms, d.name) {
                Some(j) => if ms[j].is_app() {
                    rest.push(domain_report(m, ms[j].name, d))
                } else {
                    rest
                },
                None => rest,
            }
        }
    }
}

/// The reports for the first `n` members.
pub open spec fn domain_reports(ms: Seq<CrateView>, n: nat) -> Seq<ViolationView>
    decreases n,
{
    if n == 0 || n > ms.len() {
        Seq::empty()
    } else {
        domain_reports(ms, (n - 1) as nat) + domain_member_reports(
            ms,
            ms[n - 1],
            ms[n - 1].dependencies.len(),
        )
    }
}

fn domain_violation(member: &Crate, app: &Crate, dependency: &NamedDependency) -> (r: Violation)
    ensures
        r@ == domain_report(member@, app@.name, dependency@),
{
    let mut detail = String::from_str("`");
    detail.append(member.name.as_str());
    detail.append("` names the application `");
    detail.append(app.name.as_str());
    detail.append("` in ");
    let table = dependency.table();
    detail.append(table.as_str());
    detail.append(" (");
    detail.append(member.manifest_path.as_str());
    detail.append(")");
    let mut remedy = String::from_str("dependencies run `apps -> app -> domain crates`; move what `");
    remedy.append(member.name.as_str());
    remedy.append("` needs out of `");
    remedy.append(app.name.as_str());
    remedy.append("`");
    Violation { rule: "domain crates do not depend on apps", detail, remedy }
}

/// Domain crates do not depend on apps, in any dependency table.
fn domain_crates_do_not_depend_on_apps(graph: &Graph, violations: &mut Vec<Violation>)
    ensures
        views(final(violations)@) == views(old(violations)@) + domain_reports(
            graph@,
            graph@.len(),
        ),
{
    let ghost ms = graph@;
    let members = graph.members();
    let mut i: usize = 0;
    while i < members.len()
        invariant
            ms == graph@,
            members@.map_values(|c: Crate| c@) == ms,
            i <= members@.len(),
            views(violations@) == views(old(violations)@) + domain_reports(ms, i as nat),
        decreases members@.len() - i,
    {
        let member = &members[i];
        assert(ms[i as int] == member@);
        let ghost m = member@;
        let ghost base = views(violations@);
        let app = member.is_app();
        let mut k: usize = 0;
        while k < member.dependencies.len()
            invariant
                ms == graph@,
                m == member@,
                app == m.is_app(),
                k <= member.dependencies@.len(),
                views(violations@) == base + domain_member_reports(ms, m, k as nat),
            decreases member.dependencies@.len() - k,
        {
            let dependency = &member.dependencies[k];
            assert(m.dependencies[k as int] == dependency@);
            let ghost vs0 = violations@;
            if !app {
                match graph.get(dependency.name.as_str()) {
                    Some(depended_on) => {
                        if depended_on.is_app() {
                            let v = domain_violation(member, depended_on, dependency);
                            violations.push(v);
                            assert(views(violations@) =~= views(vs0).push(v@));
                        }
                    },
                    None => {},
                }
            }
            k = k + 1;
        }
        assert(domain_reports(ms, (i + 1) as nat) == domain_reports(ms, i as nat)
            + domain_member_reports(ms, m, m.dependencies.len()));
        i = i + 1;
    }
}

// ---------------------------------------------------------------------------
// A backend crate is named only by the crate that owns it.

/// The report for an owner that is not a workspace crate.
pub open spec fn missing_owner_report(backend: Seq<char>, owner: Seq<char>) -> ViolationView {
    ViolationView {
        rule: "the backend ownership table is current"@,
        detail: "`"@ + backend + "` is recorded as owned by `"@ + owner
            + "`, which is not a workspace crate"@,
        remedy: "update the owner of `"@ + backend + "` in xtask, or drop the entry"@,
    }
}

/// The report for an owner that no longer depends on its backend.
pub open spec fn unused_backend_report(backend: Seq<char>, owner: Seq<char>) -> ViolationView {
    ViolationView {
        rule: "the backend ownership table is current"@,
        detail: "`"@ + owner + "` is recorded as the owner of `"@ + backend
            + "` but no longer depends on it"@,
        remedy: "drop the entry for `"@ + backend
            + "` in xtask, or point it at the crate that owns it now"@,
    }
}

/// The report for a crate other than the owner naming the backend.
pub open spec fn foreign_backend_report(
    m: CrateView,
    backend: Seq<char>,
    owner: Seq<char>,
    d: DependencyView,
) -> ViolationView {
    ViolationView {
        rule: "backends are named only by the crate that owns them"@,
        detail: "`"@ + m.name + "` names the backend `"@ + backend + "` in "@ + d.table() + " ("@
            + m.manifest_path + ")"@,
        remedy: "`"@ + owner + "` owns `"@ + backend + "`; expose what `"@ + m.name
            + "` needs from `"@ + owner + "` instead"@,
    }
}

/// The report on the ownership table entry itself.
pub open spec fn owner_reports(ms: Seq<CrateView>, backend: Seq<char>, owner: Seq<char>) -> Seq<
    ViolationView,
> {
    match position(ms, owner) {
        None => seq![missing_owner_report(backend, owner)],
        Some(i) => if crate::graph::first_named(ms[i].dependencies, backend) is None {
            seq![unused_backend_report(backend, owner)]
        } else {
            Seq::empty()
        },
    }
}

/// The reports for the first `n` members naming `backend` without owning it.
pub open spec fn foreign_reports(
    ms: Seq<CrateView>,
    backend: Seq<char>,
    owner: Seq<char>,
    n: nat,
) -> Seq<ViolationView>
    decreases n,
{
    if n == 0 || n > ms.len() {
        Seq::empty()
    } else {
        let rest = foreign_reports(ms, backend, owner, (n - 1) as nat);
        let m = ms[n - 1];
        if m.name == owner {
            rest
        } else {
            match crate::graph::first_named(m.dependencies, backend) {
                Some(k) => rest.push(foreign_backend_report(m, backend, owner, m.dependencies[k])),
                None => rest,
            }
        }
    }
}

/// The reports for the first `e` entries of the ownership table.
pub open spec fn backend_reports(ms: Seq<CrateView>, e: nat) -> Seq<ViolationView>
    decreases e,
{
    if e == 0 || e > backend_owners().len() {
        Seq::empty()
    } else {
        let (backend, owner) = backend_owners()[e - 1];
        backend_reports(ms, (e - 1) as nat) + owner_reports(ms, backend, owner) + foreign_reports(
            ms,
            backend,
            owner,
            ms.len(),
        )
    }
}

fn missing_owner_violation(backend: &str, owner: &str) -> (r: Violation)
    ensures
        r@ == missing_owner_report(backend@, owner@),
{
    let mut detail = String::from_str("`");
    detail.append(backend);
    detail.append("` is recorded as owned by `");
    detail.append(owner);
    detail.append("`, which is not a workspace crate");
    let mut remedy = String::from_str("update the owner of `");
    remedy.append(backend);
    remedy.append("` in xtask, or drop the entry");
    Violation { rule: "the backend ownership table is current", detail, remedy }
}

fn unused_backend_violation(backend: &str, owner: &str) -> (r: Violation)
    ensures
        r@ == unused_backend_report(backend@, owner@),
{
    let mut detail = String::from_str("`");
    detail.append(owner);
    detail.append("` is recorded as the owner of `");
    detail.append(backend);
    detail.append("` but no longer depends on it");
    let mut remedy = String::from_str("drop the entry for `");
    remedy.append(backend);
    remedy.append("` in xtask, or point it at the crate that owns it now");
    Violation { rule: "the backend ownership table is current", detail, remedy }
}

fn foreign_backend_violation(
    member: &Crate,
    backend: &str,
    owner: &str,
    dependency: &NamedDependency,
) -> (r: Violation)
    ensures
        r@ == foreign_backend_report(member@, backend@, owner@, dependency@),
{
    let mut detail = String::from_str("`");
    detail.append(member.name.as_str());
    detail.append("` names the backend `");
    detail.append(backend);
    detail.append("` in ");
    let table = dependency.table();
    detail.append(table.as_str());
    detail.append(" (");
    detail.append(member.manifest_path.as_str());
    detail.append(")");
    let mut remedy = String::from_str("`");
    remedy.append(owner);
    remedy.append("` owns `");
    remedy.append(backend);
    remedy.append("`; expose what `");
    remedy.append(member.name.as_str());
    remedy.append("` needs from `");
    remedy.append(owner);
    remedy.append("` instead");
    Violation { rule: "backends are named only by the crate that owns them", detail, remedy }
}

/// A backend crate is named only by the crate that owns it. Every dependency
/// table counts, target-specific ones included; and the ownership table is
/// checked against the workspace before it is enforced.
fn backends_are_named_only_by_their_owner(graph: &Graph, violations: &mut Vec<Violation>)
    ensures
        views(final(violations)@) == views(old(violations)@) + backend_reports(
            graph@,
            backend_owners().len(),
        ),
{
    let ghost ms = graph@;
    let table = backend_owner_table();
    let ghost tv = table@.map_values(|e: (&str, &str)| (e.0@, e.1@));
    let members = graph.members();
    let mut e: usize = 0;
    while e < table.len()
        invariant
            ms == graph@,
            members@.map_values(|c: Crate| c@) == ms,
            tv == table@.map_values(|e: (&str, &str)| (e.0@, e.1@)),
            tv == backend_owners(),
            e <= table@.len(),
            views(violations@) == views(old(violations)@) + backend_reports(ms, e as nat),
        decreases table@.len() - e,
    {
        let (backend, owner) = table[e];
        assert(tv[e as int] == (backend@, owner@));
        let ghost base = views(violations@);
        let ghost vs0 = violations@;
        match graph.get(owner) {
            None => {
                let v = missing_owner_violation(backend, owner);
                violations.push(v);
                assert(views(violations@) =~= views(vs0).push(v@));
            },
            Some(owner_crate) => {
                if owner_crate.names(backend).is_none() {
                    let v = unused_backend_violation(backend, owner);
                    violations.push(v);
                    assert(views(violations@) =~= views(vs0).push(v@));
                }
            },
        }
        assert(views(violations@) =~= base + owner_reports(ms, backend@, owner@));
        let ghost base2 = views(violations@);
        let mut i: usize = 0;
        while i < members.len()
            invariant
                ms == graph@,
                members@.map_values(|c: Crate| c@) == ms,
                i <= members@.len(),
                views(violations@) == base2 + foreign_reports(ms, backend@, owner@, i as nat),
            decreases members@.len() - i,
        {
            let member = &members[i];
            assert(ms[i as int] == member@);
            let ghost vs1 = violations@;
            if !str_eq(member.name.as_str(), owner) {
                match member.names(backend) {
                    Some(dependency) => {
                        proof {
                            crate::graph::lemma_first_named(member@.dependencies, backend@);
                            let k = crate::graph::first_named(member@.dependencies, backend@).unwrap();
                            assert(member@.dependencies[k] == member.dependencies@[k]@);
                        }
                        let v = foreign_backend_violation(member, backend, owner, dependency);
                        violations.push(v);
                        assert(views(violations@) =~= views(vs1).push(v@));
                    },
                    None => {},
                }
            }
            i = i + 1;
        }
        assert(members@.len() == ms.len());
        assert(backend_reports(ms, (e + 1) as nat) == backend_reports(ms, e as nat)
            + owner_reports(ms, backend@, owner@) + foreign_reports(
            ms,
            backend@,
            owner@,
            ms.len(),
        ));
        e = e + 1;
    }
}

/// What `check` reports: the editor-side reports first, then the domain
/// reports, then the backend reports.
pub open spec fn is_check_report(ms: Seq<CrateView>, out: Seq<ViolationView>) -> bool {
    let d = domain_reports(ms, ms.len());
    let b = backend_reports(ms, backend_owners().len());
    &&& out.len() >= d.len() + b.len()
    &&& editor_reports(ms, out.subrange(0, out.len() - d.len() - b.len()))
    &&& out.subrange(out.len() - d.len() - b.len(), out.len() - b.len()) == d
    &&& out.subrange(out.len() - b.len(), out.len() as int) == b
}

/// Runs every rule and returns everything that is broken, rather than stopping
/// at the first failure.
pub fn check(graph: &Graph) -> (r: Vec<Violation>)
    ensures
        is_check_report(graph@, views(r@)),
{
    let mut violations: Vec<Violation> = Vec::new();
    editor_side_is_unreachable(graph, &mut violations);
    let ghost a = violations@;
    domain_crates_do_not_depend_on_apps(graph, &mut violations);
    let ghost b = violations@;
    backends_are_named_only_by_their_owner(graph, &mut violations);
    proof {
        let ms = graph@;
        let d = domain_reports(ms, ms.len());
        let bk = backend_reports(ms, backend_owners().len());
        let out = views(violations@);
        assert(a.subrange(0, 0) =~= Seq::<Violation>::empty());
        assert(a.subrange(0, a.len() as int) =~= a);
        assert(views(b) == views(a) + d);
        assert(out == views(b) + bk);
        assert(out.len() == a.len() + d.len() + bk.len());
        assert(out.subrange(0, a.len() as int) =~= views(a));
        assert(out.subrange(a.len() as int, (a.len() + d.len()) as int) =~= d);
        assert(out.subrange((a.len() + d.len()) as int, out.len() as int) =~= bk);
    }
    violations
}

} // verus!
