//! What each change to a table keeps: unique keys, and references to rows that
//! are there.
use vstd::prelude::*;

use crate::model;
use crate::model::{Link, Member, Project, Workspace};
use crate::text::Text;

verus! {

/// A key occurs exactly where some row has it, and leads where that row leads.
pub proof fn lemma_target(t: Seq<Link>, key: Text)
    ensures
        model::has(t, key) <==> exists|i: int| 0 <= i < t.len() && (#[trigger] t[i]).key == key,
        model::target(t, key) matches Some(to) ==> exists|i: int|
            0 <= i < t.len() && (#[trigger] t[i]).key == key && t[i].target == to,
    decreases t.len(),
{
    if t.len() > 0 {
        let rest = t.drop_first();
        lemma_target(rest, key);
        if t[0].key != key {
            assert(model::target(t, key) == model::target(rest, key));
            if model::has(rest, key) {
                let to = model::target(rest, key).unwrap();
                let i = choose|i: int|
                    0 <= i < rest.len() && (#[trigger] rest[i]).key == key && rest[i].target == to;
                assert(t[i + 1].key == key && t[i + 1].target == to);
            }
            if exists|i: int| 0 <= i < t.len() && (#[trigger] t[i]).key == key {
                let i = choose|i: int| 0 <= i < t.len() && (#[trigger] t[i]).key == key;
                assert(rest[i - 1].key == key);
            }
        }
    }
}

/// Where keys are unique, a row's key leads where the row leads.
pub proof fn lemma_target_of_row(t: Seq<Link>, i: int)
    requires
        model::unique_links(t),
        0 <= i < t.len(),
    ensures
        model::target(t, t[i].key) == Some(t[i].target),
{
    lemma_target(t, t[i].key);
    assert(t[i].key == t[i].key);
    let to = model::target(t, t[i].key).unwrap();
    let j = choose|j: int|
        0 <= j < t.len() && (#[trigger] t[j]).key == t[i].key && t[j].target == to;
    if i < j {
        assert(t[i].key != t[j].key);
    }
    if j < i {
        assert(t[j].key != t[i].key);
    }
}

/// A project is registered exactly where some row has its id.
pub proof fn lemma_live(t: Seq<Project>, id: Text)
    ensures
        model::live(t, id) <==> exists|i: int|
            0 <= i < t.len() && (#[trigger] t[i]).project_id == id,
        model::project(t, id) matches Some(p) ==> p.project_id == id,
    decreases t.len(),
{
    if t.len() > 0 {
        let rest = t.drop_first();
        lemma_live(rest, id);
        if t[0].project_id != id {
            if model::live(rest, id) {
                let i = choose|i: int| 0 <= i < rest.len() && (#[trigger] rest[i]).project_id == id;
                assert(t[i + 1].project_id == id);
            }
            if exists|i: int| 0 <= i < t.len() && (#[trigger] t[i]).project_id == id {
                let i = choose|i: int| 0 <= i < t.len() && (#[trigger] t[i]).project_id == id;
                assert(rest[i - 1].project_id == id);
            }
        }
    }
}

/// A workspace is known exactly where some row has its id.
pub proof fn lemma_known(t: Seq<Workspace>, id: Text)
    ensures
        model::known(t, id) <==> exists|i: int|
            0 <= i < t.len() && (#[trigger] t[i]).workspace_id == id,
        model::workspace(t, id) matches Some(w) ==> w.workspace_id == id,
    decreases t.len(),
{
    if t.len() > 0 {
        let rest = t.drop_first();
        lemma_known(rest, id);
        if t[0].workspace_id != id {
            if model::known(rest, id) {
                let i = choose|i: int|
                    0 <= i < rest.len() && (#[trigger] rest[i]).workspace_id == id;
                assert(t[i + 1].workspace_id == id);
            }
            if exists|i: int| 0 <= i < t.len() && (#[trigger] t[i]).workspace_id == id {
                let i = choose|i: int| 0 <= i < t.len() && (#[trigger] t[i]).workspace_id == id;
                assert(rest[i - 1].workspace_id == id);
            }
        }
    }
}

/// What a filter keeps, and that it keeps the order: later rows come from later
/// rows.
pub proof fn lemma_filter<T>(s: Seq<T>, keep: spec_fn(T) -> bool)
    ensures
        forall|i: int| 0 <= i < s.filter(keep).len() ==> keep(#[trigger] s.filter(keep)[i]),
        forall|i: int| 0 <= i < s.filter(keep).len() ==> s.contains(#[trigger] s.filter(keep)[i]),
        forall|i: int|
            0 <= i < s.len() && keep(#[trigger] s[i]) ==> s.filter(keep).contains(s[i]),
        forall|i: int, j: int|
            #![trigger s.filter(keep)[i], s.filter(keep)[j]]
            0 <= i < j < s.filter(keep).len() ==> exists|a: int, b: int|
                #![trigger s[a], s[b]]
                0 <= a < b < s.len() && s[a] == s.filter(keep)[i] && s[b] == s.filter(keep)[j],
    decreases s.len(),
{
    reveal(Seq::filter);
    if s.len() > 0 {
        let head = s.drop_last();
        lemma_filter(head, keep);
        let f = s.filter(keep);
        let g = head.filter(keep);
        assert forall|i: int| 0 <= i < f.len() implies s.contains(#[trigger] f[i]) by {
            if i < g.len() {
                assert(head.contains(g[i]));
                let a = choose|a: int| 0 <= a < head.len() && head[a] == g[i];
                assert(s[a] == f[i]);
            } else {
                assert(s[s.len() - 1] == f[i]);
            }
        }
        assert forall|i: int| 0 <= i < f.len() implies keep(#[trigger] f[i]) by {
            if i < g.len() {
                assert(keep(g[i]));
            }
        }
        assert forall|i: int| 0 <= i < s.len() && keep(#[trigger] s[i]) implies f.contains(
            s[i],
        ) by {
            if i < head.len() {
                assert(head[i] == s[i]);
                assert(g.contains(head[i]));
                let a = choose|a: int| 0 <= a < g.len() && g[a] == s[i];
                assert(f[a] == s[i]);
            } else {
                assert(f[f.len() - 1] == s[i]);
            }
        }
        assert forall|i: int, j: int|
            #![trigger f[i], f[j]]
            0 <= i < j < f.len() implies exists|a: int, b: int|
            #![trigger s[a], s[b]]
            0 <= a < b < s.len() && s[a] == f[i] && s[b] == f[j] by {
            assert(f[i] == g[i]);
            if j < g.len() {
                assert(f[j] == g[j]);
                let (a, b) = choose|a: int, b: int|
                    #![trigger head[a], head[b]]
                    0 <= a < b < head.len() && head[a] == g[i] && head[b] == g[j];
                assert(s[a] == f[i] && s[b] == f[j]);
            } else {
                assert(head.contains(g[i]));
                let a = choose|a: int| 0 <= a < head.len() && head[a] == g[i];
                assert(s[a] == f[i] && s[s.len() - 1] == f[j]);
            }
        }
    }
}

/// Filtering keeps keys unique, and keeps the rows that pass.
pub proof fn lemma_filter_links(t: Seq<Link>, keep: spec_fn(Link) -> bool, key: Text)
    requires
        model::unique_links(t),
    ensures
        model::unique_links(t.filter(keep)),
        model::has(t.filter(keep), key) ==> model::has(t, key) && model::target(t, key)
            == model::target(t.filter(keep), key),
        forall|i: int|
            0 <= i < t.len() && keep(#[trigger] t[i]) && t[i].key == key ==> model::target(
                t.filter(keep),
                key,
            ) == Some(t[i].target),
{
    lemma_filter(t, keep);
    let f = t.filter(keep);
    assert forall|i: int, j: int| 0 <= i < j < f.len() implies (#[trigger] f[i]).key != (
    #[trigger] f[j]).key by {
        let (a, b) = choose|a: int, b: int|
            #![trigger t[a], t[b]]
            0 <= a < b < t.len() && t[a] == f[i] && t[b] == f[j];
        assert(t[a].key != t[b].key);
    }
    lemma_target(f, key);
    if model::has(f, key) {
        let i = choose|i: int|
            0 <= i < f.len() && (#[trigger] f[i]).key == key && f[i].target == model::target(
                f,
                key,
            ).unwrap();
        assert(t.contains(f[i]));
        let a = choose|a: int| 0 <= a < t.len() && t[a] == f[i];
        lemma_target_of_row(t, a);
    }
    assert forall|i: int| 0 <= i < t.len() && keep(#[trigger] t[i]) && t[i].key == key implies model::target(
        f,
        key,
    ) == Some(t[i].target) by {
        assert(f.contains(t[i]));
        let a = choose|a: int| 0 <= a < f.len() && f[a] == t[i];
        lemma_target_of_row(f, a);
    }
}

/// Adding a row keeps keys unique and other keys as they were.
pub proof fn lemma_push_link(t: Seq<Link>, row: Link, key: Text)
    requires
        model::unique_links(t),
        !model::has(t, row.key),
    ensures
        model::unique_links(t.push(row)),
        model::target(t.push(row), key) == (if key == row.key {
            Some(row.target)
        } else {
            model::target(t, key)
        }),
{
    let u = t.push(row);
    lemma_target(t, row.key);
    assert forall|i: int, j: int| 0 <= i < j < u.len() implies (#[trigger] u[i]).key != (
    #[trigger] u[j]).key by {
        if j < t.len() {
            assert(t[i].key != t[j].key);
        } else {
            assert(t[i].key != row.key);
        }
    }
    if key == row.key {
        lemma_target_of_row(u, t.len() as int);
    } else if model::has(t, key) {
        lemma_target(t, key);
        let i = choose|i: int|
            0 <= i < t.len() && (#[trigger] t[i]).key == key && t[i].target == model::target(
                t,
                key,
            ).unwrap();
        assert(u[i] == t[i]);
        lemma_target_of_row(u, i);
    } else {
        lemma_target(t, key);
        lemma_target(u, key);
        if model::has(u, key) {
            let i = choose|i: int| 0 <= i < u.len() && (#[trigger] u[i]).key == key;
            assert(t[i].key == key);
        }
    }
}

/// [`model::add_link`] keeps keys unique, and only its own key can change.
pub proof fn lemma_add_link(t: Seq<Link>, row: Link, key: Text)
    requires
        model::unique_links(t),
    ensures
        model::unique_links(model::add_link(t, row)),
        model::target(model::add_link(t, row), key) == (if key == row.key && !model::has(t, key) {
            Some(row.target)
        } else {
            model::target(t, key)
        }),
{
    if !model::has(t, row.key) {
        lemma_push_link(t, row, key);
    }
}

/// [`model::drop_key`] removes a key and keeps the others.
pub proof fn lemma_drop_key(t: Seq<Link>, gone: Text, key: Text)
    requires
        model::unique_links(t),
    ensures
        model::unique_links(model::drop_key(t, gone)),
        model::target(model::drop_key(t, gone), key) == (if key == gone {
            None
        } else {
            model::target(t, key)
        }),
{
    let keep = |l: Link| l.key != gone;
    let f = model::drop_key(t, gone);
    lemma_filter_links(t, keep, key);
    lemma_filter(t, keep);
    lemma_target(f, key);
    lemma_target(t, key);
    if key == gone && model::has(f, key) {
        let i = choose|i: int| 0 <= i < f.len() && (#[trigger] f[i]).key == key;
        assert(keep(f[i]));
    }
    if key != gone && model::has(t, key) {
        let i = choose|i: int|
            0 <= i < t.len() && (#[trigger] t[i]).key == key && t[i].target == model::target(
                t,
                key,
            ).unwrap();
        assert(keep(t[i]));
    }
}

/// [`model::put_link`] sets its key and keeps the others.
pub proof fn lemma_put_link(t: Seq<Link>, row: Link, key: Text)
    requires
        model::unique_links(t),
    ensures
        model::unique_links(model::put_link(t, row)),
        model::target(model::put_link(t, row), key) == (if key == row.key {
            Some(row.target)
        } else {
            model::target(t, key)
        }),
{
    lemma_drop_key(t, row.key, row.key);
    lemma_drop_key(t, row.key, key);
    lemma_push_link(model::drop_key(t, row.key), row, key);
}

/// [`model::drop_target`] removes the keys that lead to a target.
pub proof fn lemma_drop_target(t: Seq<Link>, to: Text, key: Text)
    requires
        model::unique_links(t),
    ensures
        model::unique_links(model::drop_target(t, to)),
        model::target(model::drop_target(t, to), key) == (if model::target(t, key) == Some(to) {
            None
        } else {
            model::target(t, key)
        }),
{
    let keep = |l: Link| l.target != to;
    let f = model::drop_target(t, to);
    lemma_filter_links(t, keep, key);
    lemma_filter(t, keep);
    lemma_target(f, key);
    lemma_target(t, key);
    if model::has(f, key) {
        let i = choose|i: int|
            0 <= i < f.len() && (#[trigger] f[i]).key == key && f[i].target == model::target(
                f,
                key,
            ).unwrap();
        assert(keep(f[i]));
    }
    if model::has(t, key) && model::target(t, key) != Some(to) {
        let i = choose|i: int|
            0 <= i < t.len() && (#[trigger] t[i]).key == key && t[i].target == model::target(
                t,
                key,
            ).unwrap();
        assert(keep(t[i]));
    }
}

/// [`model::retarget`] keeps the keys and leads them elsewhere.
pub proof fn lemma_retarget(t: Seq<Link>, from: Text, to: Text, key: Text)
    requires
        model::unique_links(t),
    ensures
        model::unique_links(model::retarget(t, from, to)),
        model::target(model::retarget(t, from, to), key) == (if model::target(t, key) == Some(
            from,
        ) {
            Some(to)
        } else {
            model::target(t, key)
        }),
{
    let u = model::retarget(t, from, to);
    assert forall|i: int, j: int| 0 <= i < j < u.len() implies (#[trigger] u[i]).key != (
    #[trigger] u[j]).key by {
        assert(t[i].key != t[j].key);
    }
    lemma_target(t, key);
    lemma_target(u, key);
    if model::has(t, key) {
        let i = choose|i: int|
            0 <= i < t.len() && (#[trigger] t[i]).key == key && t[i].target == model::target(
                t,
                key,
            ).unwrap();
        assert(u[i].key == key);
        lemma_target_of_row(u, i);
    } else if model::has(u, key) {
        let i = choose|i: int| 0 <= i < u.len() && (#[trigger] u[i]).key == key;
        assert(t[i].key == key);
    }
}

/// Every key that leads somewhere leads to a registered project.
pub open spec fn targets_live(t: Seq<Link>, projects: Seq<Project>) -> bool {
    forall|key: Text|
        model::has(t, key) ==> model::live(projects, (#[trigger] model::target(t, key)).unwrap())
}

/// With unique keys, rows lead to projects exactly where keys do.
pub proof fn lemma_leads(t: Seq<Link>, projects: Seq<Project>)
    requires
        model::unique_links(t),
    ensures
        model::lead_to_projects(t, projects) <==> targets_live(t, projects),
{
    if model::lead_to_projects(t, projects) {
        assert forall|key: Text| model::has(t, key) implies model::live(
            projects,
            (#[trigger] model::target(t, key)).unwrap(),
        ) by {
            lemma_target(t, key);
            let i = choose|i: int|
                0 <= i < t.len() && (#[trigger] t[i]).key == key && t[i].target == model::target(
                    t,
                    key,
                ).unwrap();
            assert(model::live(projects, t[i].target));
        }
    }
    if targets_live(t, projects) {
        assert forall|i: int| 0 <= i < t.len() implies model::live(
            projects,
            (#[trigger] t[i]).target,
        ) by {
            lemma_target_of_row(t, i);
            assert(model::has(t, t[i].key));
        }
    }
}

/// [`model::add_project`] keeps ids unique and registers one id.
pub proof fn lemma_add_project(t: Seq<Project>, row: Project, id: Text)
    requires
        model::unique_projects(t),
    ensures
        model::unique_projects(model::add_project(t, row)),
        model::project(model::add_project(t, row), id) == (if id == row.project_id && !model::live(
            t,
            id,
        ) {
            Some(row)
        } else {
            model::project(t, id)
        }),
{
    if !model::live(t, row.project_id) {
        let u = t.push(row);
        lemma_live(t, row.project_id);
        assert forall|i: int, j: int| 0 <= i < j < u.len() implies (#[trigger] u[i]).project_id
            != (#[trigger] u[j]).project_id by {
            if j < t.len() {
                assert(t[i].project_id != t[j].project_id);
            } else {
                assert(t[i].project_id != row.project_id);
            }
        }
        lemma_project_push(t, row, id);
    }
}

proof fn lemma_project_push(t: Seq<Project>, row: Project, id: Text)
    ensures
        model::project(t.push(row), id) == (if model::live(t, id) {
            model::project(t, id)
        } else if row.project_id == id {
            Some(row)
        } else {
            None
        }),
    decreases t.len(),
{
    if t.len() > 0 {
        lemma_project_push(t.drop_first(), row, id);
        assert(t.push(row).drop_first() =~= t.drop_first().push(row));
    } else {
        reveal_with_fuel(model::project, 2);
        assert(t.push(row).drop_first() =~= Seq::empty());
    }
}

/// [`model::rename_project`] keeps ids unique, and renames one project.
pub proof fn lemma_rename_project(t: Seq<Project>, at: Text, name: Text, now: i64, id: Text)
    ensures
        model::unique_projects(t) ==> model::unique_projects(
            model::rename_project(t, at, name, now),
        ),
        model::project(model::rename_project(t, at, name, now), id) == (match model::project(
            t,
            id,
        ) {
            Some(p) => Some(model::renamed(p, at, name, now)),
            None => None,
        }),
    decreases t.len(),
{
    let u = model::rename_project(t, at, name, now);
    if model::unique_projects(t) {
        assert forall|i: int, j: int| 0 <= i < j < u.len() implies (#[trigger] u[i]).project_id
            != (#[trigger] u[j]).project_id by {
            assert(t[i].project_id != t[j].project_id);
        }
    }
    if t.len() > 0 {
        lemma_rename_project(t.drop_first(), at, name, now, id);
        assert(u.drop_first() =~= model::rename_project(t.drop_first(), at, name, now));
    }
}

/// [`model::drop_project`] keeps ids unique and removes one.
pub proof fn lemma_drop_project(t: Seq<Project>, gone: Text, id: Text)
    requires
        model::unique_projects(t),
    ensures
        model::unique_projects(model::drop_project(t, gone)),
        model::live(model::drop_project(t, gone), id) <==> model::live(t, id) && id != gone,
{
    let keep = |p: Project| p.project_id != gone;
    let f = model::drop_project(t, gone);
    lemma_filter(t, keep);
    assert forall|i: int, j: int| 0 <= i < j < f.len() implies (#[trigger] f[i]).project_id != (
    #[trigger] f[j]).project_id by {
        let (a, b) = choose|a: int, b: int|
            #![trigger t[a], t[b]]
            0 <= a < b < t.len() && t[a] == f[i] && t[b] == f[j];
        assert(t[a].project_id != t[b].project_id);
    }
    lemma_live(t, id);
    lemma_live(f, id);
    if model::live(f, id) {
        let i = choose|i: int| 0 <= i < f.len() && (#[trigger] f[i]).project_id == id;
        assert(keep(f[i]));
        assert(t.contains(f[i]));
        let a = choose|a: int| 0 <= a < t.len() && t[a] == f[i];
        assert(t[a].project_id == id);
    }
    if model::live(t, id) && id != gone {
        let i = choose|i: int| 0 <= i < t.len() && (#[trigger] t[i]).project_id == id;
        assert(keep(t[i]));
        assert(f.contains(t[i]));
        let a = choose|a: int| 0 <= a < f.len() && f[a] == t[i];
        assert(f[a].project_id == id);
    }
}

/// [`model::add_workspace`] keeps ids unique and makes one id known.
pub proof fn lemma_add_workspace(t: Seq<Workspace>, row: Workspace, id: Text)
    requires
        model::unique_workspaces(t),
    ensures
        model::unique_workspaces(model::add_workspace(t, row)),
        model::workspace(model::add_workspace(t, row), id) == (if id == row.workspace_id
            && !model::known(t, id) {
            Some(row)
        } else {
            model::workspace(t, id)
        }),
{
    if !model::known(t, row.workspace_id) {
        let u = t.push(row);
        lemma_known(t, row.workspace_id);
        assert forall|i: int, j: int| 0 <= i < j < u.len() implies (#[trigger] u[i]).workspace_id
            != (#[trigger] u[j]).workspace_id by {
            if j < t.len() {
                assert(t[i].workspace_id != t[j].workspace_id);
            } else {
                assert(t[i].workspace_id != row.workspace_id);
            }
        }
        lemma_workspace_push(t, row, id);
    }
}

proof fn lemma_workspace_push(t: Seq<Workspace>, row: Workspace, id: Text)
    ensures
        model::workspace(t.push(row), id) == (if model::known(t, id) {
            model::workspace(t, id)
        } else if row.workspace_id == id {
            Some(row)
        } else {
            None
        }),
    decreases t.len(),
{
    if t.len() > 0 {
        lemma_workspace_push(t.drop_first(), row, id);
        assert(t.push(row).drop_first() =~= t.drop_first().push(row));
    } else {
        reveal_with_fuel(model::workspace, 2);
        assert(t.push(row).drop_first() =~= Seq::empty());
    }
}

/// [`model::rename_workspace`] keeps ids unique, and renames one workspace.
pub proof fn lemma_rename_workspace(t: Seq<Workspace>, at: Text, name: Text, now: i64, id: Text)
    ensures
        model::unique_workspaces(t) ==> model::unique_workspaces(
            model::rename_workspace(t, at, name, now),
        ),
        model::workspace(model::rename_workspace(t, at, name, now), id) == (match model::workspace(
            t,
            id,
        ) {
            Some(w) => Some(model::retitled(w, at, name, now)),
            None => None,
        }),
    decreases t.len(),
{
    let u = model::rename_workspace(t, at, name, now);
    if model::unique_workspaces(t) {
        assert forall|i: int, j: int| 0 <= i < j < u.len() implies (#[trigger] u[i]).workspace_id
            != (#[trigger] u[j]).workspace_id by {
            assert(t[i].workspace_id != t[j].workspace_id);
        }
    }
    if t.len() > 0 {
        lemma_rename_workspace(t.drop_first(), at, name, now, id);
        assert(u.drop_first() =~= model::rename_workspace(t.drop_first(), at, name, now));
    }
}

/// [`model::drop_workspace`] keeps ids unique and removes one.
pub proof fn lemma_drop_workspace(t: Seq<Workspace>, gone: Text, id: Text)
    requires
        model::unique_workspaces(t),
    ensures
        model::unique_workspaces(model::drop_workspace(t, gone)),
        model::known(model::drop_workspace(t, gone), id) <==> model::known(t, id) && id != gone,
{
    let keep = |w: Workspace| w.workspace_id != gone;
    let f = model::drop_workspace(t, gone);
    lemma_filter(t, keep);
    assert forall|i: int, j: int| 0 <= i < j < f.len() implies (#[trigger] f[i]).workspace_id != (
    #[trigger] f[j]).workspace_id by {
        let (a, b) = choose|a: int, b: int|
            #![trigger t[a], t[b]]
            0 <= a < b < t.len() && t[a] == f[i] && t[b] == f[j];
        assert(t[a].workspace_id != t[b].workspace_id);
    }
    lemma_known(t, id);
    lemma_known(f, id);
    if model::known(f, id) {
        let i = choose|i: int| 0 <= i < f.len() && (#[trigger] f[i]).workspace_id == id;
        assert(keep(f[i]));
        assert(t.contains(f[i]));
        let a = choose|a: int| 0 <= a < t.len() && t[a] == f[i];
        assert(t[a].workspace_id == id);
    }
    if model::known(t, id) && id != gone {
        let i = choose|i: int| 0 <= i < t.len() && (#[trigger] t[i]).workspace_id == id;
        assert(keep(t[i]));
        assert(f.contains(t[i]));
        let a = choose|a: int| 0 <= a < f.len() && f[a] == t[i];
        assert(f[a].workspace_id == id);
    }
}

/// Adding a sound reference keeps the references sound.
pub proof fn lemma_add_member(t: Seq<Member>, m: Member)
    requires
        model::sound_members(t),
        m.remote == (m.device.len() > 0),
    ensures
        model::sound_members(model::add_member(t, m)),
{
    if !model::referenced(t, m) {
        let u = t.push(m);
        assert forall|i: int, j: int| 0 <= i < j < u.len() implies !model::same_reference(
            #[trigger] u[i],
            #[trigger] u[j],
        ) by {
            if j < t.len() {
                assert(!model::same_reference(t[i], t[j]));
            } else {
                assert(!model::same_reference(t[i], m));
            }
        }
        assert forall|i: int| 0 <= i < u.len() implies (#[trigger] u[i]).remote == (
        u[i].device.len() > 0) by {
            if i < t.len() {
                assert(t[i].remote == (t[i].device.len() > 0));
            }
        }
    }
}

/// Filtering keeps the references sound.
pub proof fn lemma_filter_members(t: Seq<Member>, keep: spec_fn(Member) -> bool)
    requires
        model::sound_members(t),
    ensures
        model::sound_members(t.filter(keep)),
{
    lemma_filter(t, keep);
    let f = t.filter(keep);
    assert forall|i: int, j: int| 0 <= i < j < f.len() implies !model::same_reference(
        #[trigger] f[i],
        #[trigger] f[j],
    ) by {
        let (a, b) = choose|a: int, b: int|
            #![trigger t[a], t[b]]
            0 <= a < b < t.len() && t[a] == f[i] && t[b] == f[j];
        assert(!model::same_reference(t[a], t[b]));
    }
    assert forall|i: int| 0 <= i < f.len() implies (#[trigger] f[i]).remote == (f[i].device.len()
        > 0) by {
        assert(t.contains(f[i]));
        let a = choose|a: int| 0 <= a < t.len() && t[a] == f[i];
        assert(t[a].remote == (t[a].device.len() > 0));
    }
}

} // verus!
