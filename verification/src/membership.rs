//! Which rows a table holds after a change, row by row.
use vstd::prelude::*;

use crate::effects;
use crate::model;
use crate::model::{Link, Member, Project, Workspace};
use crate::text::Text;
use crate::upkeep;

verus! {

/// Whether some row has the key.
pub open spec fn taken(t: Seq<Link>, key: Text) -> bool {
    exists|i: int| 0 <= i < t.len() && (#[trigger] t[i]).key == key
}

/// Whether some row leads from the key to the target.
pub open spec fn leads(t: Seq<Link>, key: Text, to: Text) -> bool {
    exists|i: int| 0 <= i < t.len() && (#[trigger] t[i]).key == key && t[i].target == to
}

/// Whether some row is of the project.
pub open spec fn entered(t: Seq<Project>, id: Text) -> bool {
    exists|i: int| 0 <= i < t.len() && (#[trigger] t[i]).project_id == id
}

/// Whether some row is of the workspace.
pub open spec fn opened(t: Seq<Workspace>, id: Text) -> bool {
    exists|i: int| 0 <= i < t.len() && (#[trigger] t[i]).workspace_id == id
}

/// Whether some row refers to the project on this device.
pub open spec fn referred(t: Seq<Member>, id: Text) -> bool {
    exists|i: int|
        0 <= i < t.len() && !(#[trigger] t[i]).remote && t[i].device.len() == 0 && t[i].project_id
            == id
}

/// Looking up a key finds the row that has it.
pub proof fn lemma_lookup(t: Seq<Link>, key: Text, to: Text)
    requires
        model::unique_links(t),
    ensures
        model::has(t, key) <==> taken(t, key),
        model::target(t, key) == Some(to) <==> leads(t, key, to),
{
    upkeep::lemma_target(t, key);
    if leads(t, key, to) {
        let i = choose|i: int|
            0 <= i < t.len() && (#[trigger] t[i]).key == key && t[i].target == to;
        upkeep::lemma_target_of_row(t, i);
    }
}

/// Looking up a project finds its row.
pub proof fn lemma_project(t: Seq<Project>, id: Text, p: Project)
    requires
        model::unique_projects(t),
    ensures
        model::live(t, id) <==> entered(t, id),
        model::project(t, id) == Some(p) <==> t.contains(p) && p.project_id == id,
    decreases t.len(),
{
    upkeep::lemma_live(t, id);
    if t.len() > 0 {
        let rest = t.drop_first();
        assert forall|i: int, j: int| 0 <= i < j < rest.len() implies (
        #[trigger] rest[i]).project_id != (#[trigger] rest[j]).project_id by {
            assert(t[i + 1].project_id != t[j + 1].project_id);
        }
        lemma_project(rest, id, p);
        if rest.contains(p) {
            let i = choose|i: int| 0 <= i < rest.len() && rest[i] == p;
            assert(t[i + 1] == p);
            assert(t[0].project_id != t[i + 1].project_id);
        }
        if t.contains(p) && p != t[0] {
            let i = choose|i: int| 0 <= i < t.len() && t[i] == p;
            assert(rest[i - 1] == p);
        }
        if t[0].project_id == id {
            assert(t.contains(t[0]));
            if t.contains(p) && p.project_id == id {
                let i = choose|i: int| 0 <= i < t.len() && t[i] == p;
                if i > 0 {
                    assert(t[0].project_id != t[i].project_id);
                }
            }
        }
    }
}

/// Looking up a workspace finds its row.
pub proof fn lemma_workspace(t: Seq<Workspace>, id: Text, w: Workspace)
    requires
        model::unique_workspaces(t),
    ensures
        model::known(t, id) <==> opened(t, id),
        model::workspace(t, id) == Some(w) <==> t.contains(w) && w.workspace_id == id,
    decreases t.len(),
{
    upkeep::lemma_known(t, id);
    if t.len() > 0 {
        let rest = t.drop_first();
        assert forall|i: int, j: int| 0 <= i < j < rest.len() implies (
        #[trigger] rest[i]).workspace_id != (#[trigger] rest[j]).workspace_id by {
            assert(t[i + 1].workspace_id != t[j + 1].workspace_id);
        }
        lemma_workspace(rest, id, w);
        if rest.contains(w) {
            let i = choose|i: int| 0 <= i < rest.len() && rest[i] == w;
            assert(t[i + 1] == w);
            assert(t[0].workspace_id != t[i + 1].workspace_id);
        }
        if t.contains(w) && w != t[0] {
            let i = choose|i: int| 0 <= i < t.len() && t[i] == w;
            assert(rest[i - 1] == w);
        }
        if t[0].workspace_id == id {
            assert(t.contains(t[0]));
            if t.contains(w) && w.workspace_id == id {
                let i = choose|i: int| 0 <= i < t.len() && t[i] == w;
                if i > 0 {
                    assert(t[0].workspace_id != t[i].workspace_id);
                }
            }
        }
    }
}

/// A filter keeps the elements it is for, and no others.
pub proof fn lemma_kept<T>(s: Seq<T>, keep: spec_fn(T) -> bool, x: T)
    ensures
        s.filter(keep).contains(x) <==> s.contains(x) && keep(x),
{
    upkeep::lemma_filter(s, keep);
    if s.filter(keep).contains(x) {
        let i = choose|i: int| 0 <= i < s.filter(keep).len() && s.filter(keep)[i] == x;
        assert(keep(s.filter(keep)[i]));
        assert(s.contains(s.filter(keep)[i]));
    }
    if s.contains(x) && keep(x) {
        let i = choose|i: int| 0 <= i < s.len() && s[i] == x;
        assert(keep(s[i]));
    }
}

/// A pushed element is there, and the others are.
pub proof fn lemma_pushed<T>(s: Seq<T>, row: T, x: T)
    ensures
        s.push(row).contains(x) <==> s.contains(x) || x == row,
{
    let u = s.push(row);
    if u.contains(x) {
        let i = choose|i: int| 0 <= i < u.len() && u[i] == x;
        if i < s.len() {
            assert(s[i] == x);
        }
    }
    if s.contains(x) {
        let i = choose|i: int| 0 <= i < s.len() && s[i] == x;
        assert(u[i] == x);
    }
    assert(u[s.len() as int] == row);
}

/// Adding a row adds it where its key is free.
pub proof fn lemma_added(t: Seq<Link>, row: Link, l: Link)
    ensures
        model::add_link(t, row).contains(l) <==> t.contains(l) || l == row && !taken(t, row.key),
{
    upkeep::lemma_target(t, row.key);
    lemma_pushed(t, row, l);
}

/// Adding rows for keys adds one for each key that was free.
pub proof fn lemma_all_added(t: Seq<Link>, keys: Seq<Text>, to: Text, at: i64, l: Link)
    ensures
        effects::add_links(t, keys, to, at).contains(l) <==> t.contains(l) || (l == Link {
            key: l.key,
            target: to,
            at,
        } && keys.contains(l.key) && !taken(t, l.key)),
        forall|key: Text|
            taken(effects::add_links(t, keys, to, at), key) <==> taken(t, key) || keys.contains(
                key,
            ),
    decreases keys.len(),
{
    let u = effects::add_links(t, keys, to, at);
    if keys.len() > 0 {
        let head = keys.drop_last();
        let mid = effects::add_links(t, head, to, at);
        let row = Link { key: keys.last(), target: to, at };
        lemma_all_added(t, head, to, at, l);
        lemma_added(mid, row, l);
        assert forall|key: Text| keys.contains(key) <==> head.contains(key) || key
            == keys.last() by {
            lemma_pushed(head, keys.last(), key);
            assert(head.push(keys.last()) =~= keys);
        }
        assert forall|key: Text| taken(u, key) <==> taken(t, key) || keys.contains(key) by {
            upkeep::lemma_target(mid, row.key);
            assert(taken(mid, key) <==> taken(t, key) || head.contains(key));
            if taken(mid, key) {
                let i = choose|i: int| 0 <= i < mid.len() && (#[trigger] mid[i]).key == key;
                assert(u[i].key == key);
            }
            if taken(u, key) {
                let i = choose|i: int| 0 <= i < u.len() && (#[trigger] u[i]).key == key;
                if i < mid.len() {
                    assert(mid[i].key == key);
                }
            }
            if key == row.key && !taken(mid, key) {
                assert(u[mid.len() as int].key == key);
            }
        }
        if l == row && !taken(mid, row.key) {
            assert(!taken(t, row.key));
        }
    }
}

/// Leading rows elsewhere changes where they lead, and nothing else.
pub proof fn lemma_retargeted(t: Seq<Link>, from: Text, to: Text, l: Link)
    ensures
        model::retarget(t, from, to).contains(l) <==> t.contains(l) && l.target != from || l.target
            == to && t.contains(Link { target: from, ..l }),
        forall|key: Text| taken(model::retarget(t, from, to), key) <==> taken(t, key),
{
    let u = model::retarget(t, from, to);
    if u.contains(l) {
        let i = choose|i: int| 0 <= i < u.len() && u[i] == l;
        assert(u[i] == model::led(t[i], from, to));
        assert(t.contains(t[i]));
        if t[i].target == from {
            assert(t[i] == Link { target: from, ..l });
        }
    }
    if t.contains(l) && l.target != from {
        let i = choose|i: int| 0 <= i < t.len() && t[i] == l;
        assert(u[i] == l);
    }
    if l.target == to && t.contains(Link { target: from, ..l }) {
        let i = choose|i: int| 0 <= i < t.len() && t[i] == (Link { target: from, ..l });
        assert(u[i] == l);
    }
    assert forall|key: Text| taken(u, key) <==> taken(t, key) by {
        if taken(u, key) {
            let i = choose|i: int| 0 <= i < u.len() && (#[trigger] u[i]).key == key;
            assert(t[i].key == key);
        }
        if taken(t, key) {
            let i = choose|i: int| 0 <= i < t.len() && (#[trigger] t[i]).key == key;
            assert(u[i].key == key);
        }
    }
}

/// Setting a row sets it, and drops any other of its key.
pub proof fn lemma_put(t: Seq<Link>, row: Link, l: Link)
    ensures
        model::put_link(t, row).contains(l) <==> t.contains(l) && l.key != row.key || l == row,
{
    lemma_kept(t, |m: Link| m.key != row.key, l);
    lemma_pushed(model::drop_key(t, row.key), row, l);
}

/// Adding a project adds it where its id is free.
pub proof fn lemma_project_added(t: Seq<Project>, row: Project, p: Project)
    ensures
        model::add_project(t, row).contains(p) <==> t.contains(p) || p == row && !entered(
            t,
            row.project_id,
        ),
{
    upkeep::lemma_live(t, row.project_id);
    lemma_pushed(t, row, p);
}

/// Renaming a project changes its name and the time of the change.
pub proof fn lemma_project_renamed(t: Seq<Project>, id: Text, name: Text, now: i64, p: Project)
    ensures
        model::rename_project(t, id, name, now).contains(p) <==> t.contains(p) && p.project_id != id
            || p.project_id == id && p.name == name && p.updated_at == now && exists|q: Project|
            #[trigger] t.contains(q) && p == (Project { name, updated_at: now, ..q }),
{
    let u = model::rename_project(t, id, name, now);
    if u.contains(p) {
        let i = choose|i: int| 0 <= i < u.len() && u[i] == p;
        assert(u[i] == model::renamed(t[i], id, name, now));
        assert(t.contains(t[i]));
    }
    if t.contains(p) && p.project_id != id {
        let i = choose|i: int| 0 <= i < t.len() && t[i] == p;
        assert(u[i] == p);
    }
    if p.project_id == id {
        if exists|q: Project| #[trigger]
            t.contains(q) && p == (Project { name, updated_at: now, ..q }) {
            let q = choose|q: Project| #[trigger]
                t.contains(q) && p == (Project { name, updated_at: now, ..q });
            let i = choose|i: int| 0 <= i < t.len() && t[i] == q;
            assert(u[i] == p);
        }
    }
}

/// Adding a workspace adds it where its id is free.
pub proof fn lemma_workspace_added(t: Seq<Workspace>, row: Workspace, w: Workspace)
    ensures
        model::add_workspace(t, row).contains(w) <==> t.contains(w) || w == row && !opened(
            t,
            row.workspace_id,
        ),
{
    upkeep::lemma_known(t, row.workspace_id);
    lemma_pushed(t, row, w);
}

/// Adding a local reference adds it where the project has none.
pub proof fn lemma_member_added(t: Seq<Member>, w: Text, id: Text, m: Member)
    ensures
        model::add_member(t, model::local_member(w, id)).contains(m) <==> t.contains(m) || m
            == model::local_member(w, id) && !referred(t, id),
{
    let row = model::local_member(w, id);
    lemma_pushed(t, row, m);
    if model::referenced(t, row) {
        let i = choose|i: int| 0 <= i < t.len() && model::same_reference(#[trigger] t[i], row);
        assert(!t[i].remote && t[i].device.len() == 0 && t[i].project_id == id);
    }
    if referred(t, id) {
        let i = choose|i: int|
            0 <= i < t.len() && !(#[trigger] t[i]).remote && t[i].device.len() == 0
                && t[i].project_id == id;
        assert(t[i].device =~= row.device);
        assert(model::same_reference(t[i], row));
    }
}

} // verus!
