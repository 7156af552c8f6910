//! The changes that operations make to the tables. Each keeps the tables sound.
use vstd::prelude::*;
use vstd::string::*;

use crate::ids::implicit_project_id;
use crate::model::{Link, Member, Project, Tables, Workspace};
use crate::rows::{
    has_key, insert_link, insert_member, insert_project, insert_workspace, is_known, is_live,
    is_referenced, lead_links, local_row, remove_key, remove_local, remove_members_of,
    remove_project, remove_target, remove_workspace, replace_link, LinkRow, ProjectRow,
    WorkspaceRow,
};
use crate::store::TableRows;
use crate::text::{clone_opt, Text};
use crate::{ids, model, rows, text, upkeep};

verus! {

/// The table with a row for each key, in order, unless the key is taken.
pub open spec fn add_links(t: Seq<Link>, keys: Seq<Text>, to: Text, at: i64) -> Seq<Link>
    decreases keys.len(),
{
    if keys.len() == 0 {
        t
    } else {
        model::add_link(
            add_links(t, keys.drop_last(), to, at),
            Link { key: keys.last(), target: to, at },
        )
    }
}

/// The implicit ids of paths.
pub open spec fn implicit_ids(paths: Seq<Text>) -> Seq<Text> {
    paths.map_values(|p: Text| ids::implicit_id(p))
}

/// A project registered by name at `now`.
pub open spec fn new_project(id: Text, name: Text, seed_identity: Option<Text>, now: i64) -> Project {
    Project {
        project_id: id,
        name,
        implicit: false,
        seed_identity,
        created_at: now,
        updated_at: now,
    }
}

impl Tables {
    /// A project added, unless its id is taken.
    pub open spec fn enter(
        self,
        id: Text,
        name: Text,
        seed_identity: Option<Text>,
        now: i64,
    ) -> Tables {
        Tables {
            projects: model::add_project(self.projects, new_project(id, name, seed_identity, now)),
            ..self
        }
    }

    /// A project renamed.
    pub open spec fn rename(self, id: Text, name: Text, now: i64) -> Tables {
        Tables { projects: model::rename_project(self.projects, id, name, now), ..self }
    }

    /// Roots given to a project, and their implicit ids made aliases of it, so
    /// far as roots and aliases are free.
    pub open spec fn claim_roots(self, roots: Seq<Text>, id: Text, now: i64) -> Tables {
        Tables {
            roots: add_links(self.roots, roots, id, now),
            aliases: add_links(self.aliases, implicit_ids(roots), id, now),
            ..self
        }
    }

    /// Parents given to a project, so far as they are free.
    pub open spec fn claim_parents(self, parents: Seq<Text>, id: Text) -> Tables {
        Tables { parents: add_links(self.parents, parents, id, 0), ..self }
    }

    /// An alias set, whatever it stood for.
    pub open spec fn point(self, alias: Text, id: Text, now: i64) -> Tables {
        Tables {
            aliases: model::put_link(self.aliases, Link { key: alias, target: id, at: now }),
            ..self
        }
    }

    /// A workspace added, unless its id is taken.
    pub open spec fn open_workspace(self, workspace_id: Text, name: Text, now: i64) -> Tables {
        Tables {
            workspaces: model::add_workspace(
                self.workspaces,
                Workspace { workspace_id, name, created_at: now, updated_at: now },
            ),
            ..self
        }
    }

    /// A workspace renamed.
    pub open spec fn retitle(self, workspace_id: Text, name: Text, now: i64) -> Tables {
        Tables {
            workspaces: model::rename_workspace(self.workspaces, workspace_id, name, now),
            ..self
        }
    }

    /// Whether the rows that place a project in a workspace refer to rows that
    /// are there, or are there already themselves.
    pub open spec fn placeable(self, id: Text, workspace_id: Text) -> bool {
        &&& model::has(self.placements, id) || model::live(self.projects, id) && model::known(
            self.workspaces,
            workspace_id,
        )
        &&& model::referenced(self.members, model::local_member(workspace_id, id)) || model::known(
            self.workspaces,
            workspace_id,
        )
    }

    /// A project placed in a workspace, unless it is placed or referenced.
    pub open spec fn place(self, id: Text, workspace_id: Text) -> Tables {
        Tables {
            placements: model::add_link(
                self.placements,
                Link { key: id, target: workspace_id, at: 0 },
            ),
            members: model::add_member(self.members, model::local_member(workspace_id, id)),
            ..self
        }
    }

    /// A workspace removed, with everything that is in it.
    pub open spec fn dissolve(self, workspace_id: Text) -> Tables {
        Tables {
            placements: model::drop_target(self.placements, workspace_id),
            members: model::drop_members_of(self.members, workspace_id),
            workspaces: model::drop_workspace(self.workspaces, workspace_id),
            ..self
        }
    }

    /// A project removed. What led to it leads to the successor, where there is
    /// one, and its id becomes an alias; else all of that goes.
    pub open spec fn withdraw(self, id: Text, successor: Option<Text>, now: i64) -> Tables {
        Tables {
            roots: match successor {
                Some(s) => model::retarget(self.roots, id, s),
                None => model::drop_target(self.roots, id),
            },
            parents: match successor {
                Some(s) => model::retarget(self.parents, id, s),
                None => model::drop_target(self.parents, id),
            },
            aliases: match successor {
                Some(s) => model::put_link(
                    model::retarget(self.aliases, id, s),
                    Link { key: id, target: s, at: now },
                ),
                None => model::drop_key(model::drop_target(self.aliases, id), id),
            },
            placements: model::drop_key(self.placements, id),
            members: model::drop_local(self.members, id),
            projects: model::drop_project(self.projects, id),
            ..self
        }
    }
}

/// Adding rows keeps keys unique; a key that was free is taken by the target.
pub proof fn lemma_add_links(t: Seq<Link>, keys: Seq<Text>, to: Text, at: i64, key: Text)
    requires
        model::unique_links(t),
    ensures
        model::unique_links(add_links(t, keys, to, at)),
        model::target(add_links(t, keys, to, at), key) == (if !model::has(t, key) && keys.contains(
            key,
        ) {
            Some(to)
        } else {
            model::target(t, key)
        }),
    decreases keys.len(),
{
    if keys.len() > 0 {
        let head = keys.drop_last();
        let before = add_links(t, head, to, at);
        lemma_add_links(t, head, to, at, key);
        upkeep::lemma_add_link(before, Link { key: keys.last(), target: to, at }, key);
        if keys.contains(key) {
            let i = choose|i: int| 0 <= i < keys.len() && keys[i] == key;
            if i < head.len() {
                assert(head[i] == key);
            }
        }
        if head.contains(key) {
            let i = choose|i: int| 0 <= i < head.len() && head[i] == key;
            assert(keys[i] == key);
        }
        if keys.last() == key {
            assert(keys[keys.len() - 1] == key);
        }
    }
}

/// Rows added for a registered project lead to registered projects.
pub proof fn lemma_add_links_lead(
    t: Seq<Link>,
    keys: Seq<Text>,
    to: Text,
    at: i64,
    projects: Seq<Project>,
)
    requires
        model::unique_links(t),
        model::lead_to_projects(t, projects),
        model::live(projects, to),
    ensures
        model::unique_links(add_links(t, keys, to, at)),
        model::lead_to_projects(add_links(t, keys, to, at), projects),
{
    let u = add_links(t, keys, to, at);
    lemma_add_links(t, keys, to, at, to);
    upkeep::lemma_leads(t, projects);
    assert forall|key: Text| model::has(u, key) implies model::live(
        projects,
        (#[trigger] model::target(u, key)).unwrap(),
    ) by {
        lemma_add_links(t, keys, to, at, key);
    }
    upkeep::lemma_leads(u, projects);
}

/// References stay good where no project is lost.
proof fn lemma_more_projects(t: Seq<Link>, before: Seq<Project>, after: Seq<Project>)
    requires
        model::lead_to_projects(t, before),
        forall|id: Text| model::live(before, id) ==> #[trigger] model::live(after, id),
    ensures
        model::lead_to_projects(t, after),
{
    assert forall|i: int| 0 <= i < t.len() implies model::live(
        after,
        (#[trigger] t[i]).target,
    ) by {
        assert(model::live(before, t[i].target));
    }
}

/// More projects keep the tables sound.
pub proof fn lemma_projects_change(t: Tables, after: Seq<Project>)
    requires
        t.sound(),
        model::unique_projects(after),
        forall|id: Text| model::live(t.projects, id) ==> #[trigger] model::live(after, id),
    ensures
        (Tables { projects: after, ..t }).sound(),
{
    lemma_more_projects(t.roots, t.projects, after);
    lemma_more_projects(t.parents, t.projects, after);
    lemma_more_projects(t.aliases, t.projects, after);
    let u = Tables { projects: after, ..t };
    assert forall|i: int| 0 <= i < u.placements.len() implies model::live(
        u.projects,
        (#[trigger] u.placements[i]).key,
    ) && model::known(u.workspaces, u.placements[i].target) by {
        assert(model::live(t.projects, t.placements[i].key));
    }
    assert forall|i: int| 0 <= i < u.members.len() implies model::known(
        u.workspaces,
        (#[trigger] u.members[i]).workspace_id,
    ) by {
        assert(model::known(t.workspaces, t.members[i].workspace_id));
    }
}

/// [`Tables::enter`] keeps the tables sound, and registers the project.
pub proof fn lemma_enter(t: Tables, id: Text, name: Text, seed_identity: Option<Text>, now: i64)
    requires
        t.sound(),
    ensures
        t.enter(id, name, seed_identity, now).sound(),
        forall|other: Text|
            #[trigger] model::live(t.enter(id, name, seed_identity, now).projects, other)
                <==> other == id || model::live(t.projects, other),
{
    let row = new_project(id, name, seed_identity, now);
    upkeep::lemma_add_project(t.projects, row, id);
    assert forall|other: Text|
        #[trigger] model::live(t.enter(id, name, seed_identity, now).projects, other) <==> other
            == id || model::live(t.projects, other) by {
        upkeep::lemma_add_project(t.projects, row, other);
    }
    lemma_projects_change(t, t.enter(id, name, seed_identity, now).projects);
}

/// [`Tables::rename`] keeps the tables sound, and who is registered.
pub proof fn lemma_rename(t: Tables, id: Text, name: Text, now: i64)
    requires
        t.sound(),
    ensures
        t.rename(id, name, now).sound(),
        forall|other: Text|
            #[trigger] model::live(t.rename(id, name, now).projects, other) <==> model::live(
                t.projects,
                other,
            ),
{
    upkeep::lemma_rename_project(t.projects, id, name, now, id);
    assert forall|other: Text|
        #[trigger] model::live(t.rename(id, name, now).projects, other) <==> model::live(
            t.projects,
            other,
        ) by {
        upkeep::lemma_rename_project(t.projects, id, name, now, other);
    }
    lemma_projects_change(t, t.rename(id, name, now).projects);
}

proof fn lemma_rest(t: Tables, u: Tables)
    requires
        t.sound(),
        u.projects == t.projects,
        u.workspaces == t.workspaces,
        u.placements == t.placements,
        u.members == t.members,
    ensures
        forall|i: int|
            0 <= i < u.placements.len() ==> model::live(
                u.projects,
                (#[trigger] u.placements[i]).key,
            ) && model::known(u.workspaces, u.placements[i].target),
        forall|i: int|
            0 <= i < u.members.len() ==> model::known(
                u.workspaces,
                (#[trigger] u.members[i]).workspace_id,
            ),
{
    assert forall|i: int| 0 <= i < u.placements.len() implies model::live(
        u.projects,
        (#[trigger] u.placements[i]).key,
    ) && model::known(u.workspaces, u.placements[i].target) by {
        assert(model::live(t.projects, t.placements[i].key));
    }
    assert forall|i: int| 0 <= i < u.members.len() implies model::known(
        u.workspaces,
        (#[trigger] u.members[i]).workspace_id,
    ) by {
        assert(model::known(t.workspaces, t.members[i].workspace_id));
    }
}

/// [`Tables::claim_roots`] for a registered project keeps the tables sound.
pub proof fn lemma_claim_roots(t: Tables, roots: Seq<Text>, id: Text, now: i64)
    requires
        t.sound(),
        model::live(t.projects, id),
    ensures
        t.claim_roots(roots, id, now).sound(),
{
    lemma_add_links_lead(t.roots, roots, id, now, t.projects);
    lemma_add_links_lead(t.aliases, implicit_ids(roots), id, now, t.projects);
    lemma_rest(t, t.claim_roots(roots, id, now));
}

/// [`Tables::claim_parents`] for a registered project keeps the tables sound.
pub proof fn lemma_claim_parents(t: Tables, parents: Seq<Text>, id: Text)
    requires
        t.sound(),
        model::live(t.projects, id),
    ensures
        t.claim_parents(parents, id).sound(),
{
    lemma_add_links_lead(t.parents, parents, id, 0, t.projects);
    lemma_rest(t, t.claim_parents(parents, id));
}

/// [`Tables::point`] at a registered project keeps the tables sound.
pub proof fn lemma_point(t: Tables, alias: Text, id: Text, now: i64)
    requires
        t.sound(),
        model::live(t.projects, id),
    ensures
        t.point(alias, id, now).sound(),
{
    let row = Link { key: alias, target: id, at: now };
    let u = model::put_link(t.aliases, row);
    upkeep::lemma_put_link(t.aliases, row, alias);
    upkeep::lemma_leads(t.aliases, t.projects);
    assert forall|key: Text| model::has(u, key) implies model::live(
        t.projects,
        (#[trigger] model::target(u, key)).unwrap(),
    ) by {
        upkeep::lemma_put_link(t.aliases, row, key);
    }
    upkeep::lemma_leads(u, t.projects);
    lemma_rest(t, t.point(alias, id, now));
}

/// More workspaces keep the tables sound.
pub proof fn lemma_workspaces_change(t: Tables, after: Seq<Workspace>)
    requires
        t.sound(),
        model::unique_workspaces(after),
        forall|id: Text| model::known(t.workspaces, id) ==> #[trigger] model::known(after, id),
    ensures
        (Tables { workspaces: after, ..t }).sound(),
{
    let u = Tables { workspaces: after, ..t };
    assert forall|i: int| 0 <= i < u.placements.len() implies model::live(
        u.projects,
        (#[trigger] u.placements[i]).key,
    ) && model::known(u.workspaces, u.placements[i].target) by {
        assert(model::known(t.workspaces, t.placements[i].target));
    }
    assert forall|i: int| 0 <= i < u.members.len() implies model::known(
        u.workspaces,
        (#[trigger] u.members[i]).workspace_id,
    ) by {
        assert(model::known(t.workspaces, t.members[i].workspace_id));
    }
}

/// [`Tables::open_workspace`] keeps the tables sound, and makes the workspace
/// known.
pub proof fn lemma_open_workspace(t: Tables, workspace_id: Text, name: Text, now: i64)
    requires
        t.sound(),
    ensures
        t.open_workspace(workspace_id, name, now).sound(),
        forall|other: Text|
            #[trigger] model::known(t.open_workspace(workspace_id, name, now).workspaces, other)
                <==> other == workspace_id || model::known(t.workspaces, other),
{
    let row = Workspace { workspace_id, name, created_at: now, updated_at: now };
    upkeep::lemma_add_workspace(t.workspaces, row, workspace_id);
    assert forall|other: Text|
        #[trigger] model::known(t.open_workspace(workspace_id, name, now).workspaces, other)
            <==> other == workspace_id || model::known(t.workspaces, other) by {
        upkeep::lemma_add_workspace(t.workspaces, row, other);
    }
    lemma_workspaces_change(t, t.open_workspace(workspace_id, name, now).workspaces);
}

/// [`Tables::retitle`] keeps the tables sound, and which workspaces are known.
pub proof fn lemma_retitle(t: Tables, workspace_id: Text, name: Text, now: i64)
    requires
        t.sound(),
    ensures
        t.retitle(workspace_id, name, now).sound(),
        forall|other: Text|
            #[trigger] model::known(t.retitle(workspace_id, name, now).workspaces, other)
                <==> model::known(t.workspaces, other),
{
    upkeep::lemma_rename_workspace(t.workspaces, workspace_id, name, now, workspace_id);
    assert forall|other: Text|
        #[trigger] model::known(t.retitle(workspace_id, name, now).workspaces, other)
            <==> model::known(t.workspaces, other) by {
        upkeep::lemma_rename_workspace(t.workspaces, workspace_id, name, now, other);
    }
    lemma_workspaces_change(t, t.retitle(workspace_id, name, now).workspaces);
}

/// [`Tables::place`] keeps the tables sound where the placement can be made.
pub proof fn lemma_place(t: Tables, id: Text, workspace_id: Text)
    requires
        t.sound(),
        t.placeable(id, workspace_id),
    ensures
        t.place(id, workspace_id).sound(),
{
    let u = t.place(id, workspace_id);
    let row = Link { key: id, target: workspace_id, at: 0 };
    let m = model::local_member(workspace_id, id);
    upkeep::lemma_add_link(t.placements, row, id);
    upkeep::lemma_add_member(t.members, m);
    assert forall|i: int| 0 <= i < u.placements.len() implies model::live(
        u.projects,
        (#[trigger] u.placements[i]).key,
    ) && model::known(u.workspaces, u.placements[i].target) by {
        if i < t.placements.len() {
            assert(u.placements[i] == t.placements[i]);
            assert(model::live(t.projects, t.placements[i].key));
        }
    }
    assert forall|i: int| 0 <= i < u.members.len() implies model::known(
        u.workspaces,
        (#[trigger] u.members[i]).workspace_id,
    ) by {
        if i < t.members.len() {
            assert(u.members[i] == t.members[i]);
            assert(model::known(t.workspaces, t.members[i].workspace_id));
        }
    }
}

/// [`Tables::dissolve`] keeps the tables sound.
pub proof fn lemma_dissolve(t: Tables, workspace_id: Text)
    requires
        t.sound(),
    ensures
        t.dissolve(workspace_id).sound(),
{
    let u = t.dissolve(workspace_id);
    let keep_link = |l: Link| l.target != workspace_id;
    let keep_member = |m: Member| m.workspace_id != workspace_id;
    upkeep::lemma_drop_target(t.placements, workspace_id, workspace_id);
    upkeep::lemma_filter(t.placements, keep_link);
    upkeep::lemma_filter_members(t.members, keep_member);
    upkeep::lemma_filter(t.members, keep_member);
    upkeep::lemma_drop_workspace(t.workspaces, workspace_id, workspace_id);
    assert forall|i: int| 0 <= i < u.placements.len() implies model::live(
        u.projects,
        (#[trigger] u.placements[i]).key,
    ) && model::known(u.workspaces, u.placements[i].target) by {
        assert(keep_link(u.placements[i]));
        assert(t.placements.contains(u.placements[i]));
        let a = choose|a: int| 0 <= a < t.placements.len() && t.placements[a] == u.placements[i];
        assert(model::known(t.workspaces, t.placements[a].target));
        upkeep::lemma_drop_workspace(t.workspaces, workspace_id, u.placements[i].target);
    }
    assert forall|i: int| 0 <= i < u.members.len() implies model::known(
        u.workspaces,
        (#[trigger] u.members[i]).workspace_id,
    ) by {
        assert(keep_member(u.members[i]));
        assert(t.members.contains(u.members[i]));
        let a = choose|a: int| 0 <= a < t.members.len() && t.members[a] == u.members[i];
        assert(model::known(t.workspaces, t.members[a].workspace_id));
        upkeep::lemma_drop_workspace(t.workspaces, workspace_id, u.members[i].workspace_id);
    }
}

proof fn lemma_withdraw_links(t: Tables, links: Seq<Link>, id: Text, successor: Option<Text>)
    requires
        t.sound(),
        model::unique_links(links),
        model::lead_to_projects(links, t.projects),
        successor matches Some(s) ==> s != id && model::live(t.projects, s),
    ensures
        ({
            let after = match successor {
                Some(s) => model::retarget(links, id, s),
                None => model::drop_target(links, id),
            };
            model::unique_links(after) && model::lead_to_projects(
                after,
                model::drop_project(t.projects, id),
            )
        }),
{
    let after = match successor {
        Some(s) => model::retarget(links, id, s),
        None => model::drop_target(links, id),
    };
    let left = model::drop_project(t.projects, id);
    match successor {
        Some(s) => {
            upkeep::lemma_retarget(links, id, s, id);
            upkeep::lemma_drop_project(t.projects, id, s);
        },
        None => {
            upkeep::lemma_drop_target(links, id, id);
        },
    }
    upkeep::lemma_leads(links, t.projects);
    assert forall|key: Text| model::has(after, key) implies model::live(
        left,
        (#[trigger] model::target(after, key)).unwrap(),
    ) by {
        match successor {
            Some(s) => {
                upkeep::lemma_retarget(links, id, s, key);
            },
            None => {
                upkeep::lemma_drop_target(links, id, key);
            },
        }
        assert(model::has(links, key));
        assert(model::live(t.projects, model::target(links, key).unwrap()));
        upkeep::lemma_drop_project(t.projects, id, model::target(after, key).unwrap());
    }
    upkeep::lemma_leads(after, left);
}

/// [`Tables::withdraw`] keeps the tables sound, where the successor is another
/// registered project.
pub proof fn lemma_withdraw(t: Tables, id: Text, successor: Option<Text>, now: i64)
    requires
        t.sound(),
        successor matches Some(s) ==> s != id && model::live(t.projects, s),
    ensures
        t.withdraw(id, successor, now).sound(),
        forall|other: Text|
            #[trigger] model::live(t.withdraw(id, successor, now).projects, other) <==> model::live(
                t.projects,
                other,
            ) && other != id,
{
    let u = t.withdraw(id, successor, now);
    lemma_withdraw_links(t, t.roots, id, successor);
    lemma_withdraw_links(t, t.parents, id, successor);
    lemma_withdraw_links(t, t.aliases, id, successor);
    match successor {
        Some(s) => {
            let mid = model::retarget(t.aliases, id, s);
            let row = Link { key: id, target: s, at: now };
            upkeep::lemma_put_link(mid, row, id);
            upkeep::lemma_leads(mid, u.projects);
            upkeep::lemma_drop_project(t.projects, id, s);
            assert forall|key: Text| model::has(u.aliases, key) implies model::live(
                u.projects,
                (#[trigger] model::target(u.aliases, key)).unwrap(),
            ) by {
                upkeep::lemma_put_link(mid, row, key);
            }
            upkeep::lemma_leads(u.aliases, u.projects);
        },
        None => {
            let mid = model::drop_target(t.aliases, id);
            upkeep::lemma_drop_key(mid, id, id);
            upkeep::lemma_leads(mid, u.projects);
            assert forall|key: Text| model::has(u.aliases, key) implies model::live(
                u.projects,
                (#[trigger] model::target(u.aliases, key)).unwrap(),
            ) by {
                upkeep::lemma_drop_key(mid, id, key);
            }
            upkeep::lemma_leads(u.aliases, u.projects);
        },
    }
    let keep_link = |l: Link| l.key != id;
    let keep_member = |m: Member| m.remote || m.project_id != id;
    upkeep::lemma_drop_key(t.placements, id, id);
    upkeep::lemma_filter(t.placements, keep_link);
    upkeep::lemma_filter_members(t.members, keep_member);
    upkeep::lemma_filter(t.members, keep_member);
    upkeep::lemma_drop_project(t.projects, id, id);
    assert forall|i: int| 0 <= i < u.placements.len() implies model::live(
        u.projects,
        (#[trigger] u.placements[i]).key,
    ) && model::known(u.workspaces, u.placements[i].target) by {
        assert(keep_link(u.placements[i]));
        assert(t.placements.contains(u.placements[i]));
        let a = choose|a: int| 0 <= a < t.placements.len() && t.placements[a] == u.placements[i];
        assert(model::live(t.projects, t.placements[a].key));
        upkeep::lemma_drop_project(t.projects, id, u.placements[i].key);
    }
    assert forall|i: int| 0 <= i < u.members.len() implies model::known(
        u.workspaces,
        (#[trigger] u.members[i]).workspace_id,
    ) by {
        assert(t.members.contains(u.members[i]));
        let a = choose|a: int| 0 <= a < t.members.len() && t.members[a] == u.members[i];
        assert(model::known(t.workspaces, t.members[a].workspace_id));
    }
    assert forall|other: Text|
        #[trigger] model::live(u.projects, other) <==> model::live(t.projects, other) && other
            != id by {
        upkeep::lemma_drop_project(t.projects, id, other);
    }
}

/// Adds a row for each key, in order, unless the key is taken.
fn insert_links(t: &mut Vec<LinkRow>, keys: &Vec<String>, to: &str, at: i64)
    ensures
        rows::links(final(t)@) == add_links(rows::links(old(t)@), text::texts(keys@), to@, at),
{
    let ghost before = rows::links(t@);
    let ghost all = text::texts(keys@);
    let mut i: usize = 0;
    assert(all.take(0) =~= Seq::empty());
    while i < keys.len()
        invariant
            all == text::texts(keys@),
            i <= keys@.len(),
            rows::links(t@) == add_links(before, all.take(i as int), to@, at),
        decreases keys@.len() - i,
    {
        assert(all.take(i + 1).drop_last() =~= all.take(i as int));
        assert(all.take(i + 1).last() == keys@[i as int]@);
        insert_link(t, LinkRow { key: keys[i].clone(), target: to.to_owned(), at });
        i = i + 1;
    }
    assert(all.take(i as int) =~= all);
}

/// The implicit ids of paths.
pub fn implicit_project_ids(paths: &Vec<String>) -> (r: Vec<String>)
    ensures
        text::texts(r@) == implicit_ids(text::texts(paths@)),
{
    let mut out: Vec<String> = Vec::new();
    let mut i: usize = 0;
    while i < paths.len()
        invariant
            i <= paths@.len(),
            out@.len() == i,
            forall|j: int| 0 <= j < i ==> (#[trigger] out@[j])@ == ids::implicit_id(paths@[j]@),
        decreases paths@.len() - i,
    {
        out.push(implicit_project_id(paths[i].as_str()));
        i = i + 1;
    }
    assert(text::texts(out@) =~= implicit_ids(text::texts(paths@)));
    out
}

impl TableRows {
    /// Adds a project, unless its id is taken.
    pub fn enter(&mut self, id: &str, name: &str, seed_identity: &Option<String>, now: i64)
        ensures
            final(self)@ == old(self)@.enter(id@, name@, text::opt_text(*seed_identity), now),
    {
        insert_project(
            &mut self.projects,
            ProjectRow {
                project_id: id.to_owned(),
                name: name.to_owned(),
                implicit: false,
                seed_identity: clone_opt(seed_identity),
                created_at: now,
                updated_at: now,
            },
        );
    }

    /// Renames a project.
    pub fn rename(&mut self, id: &str, name: &str, now: i64)
        ensures
            final(self)@ == old(self)@.rename(id@, name@, now),
    {
        rows::rename_project(&mut self.projects, id, name, now);
    }

    /// Gives roots to a project, and makes their implicit ids aliases of it, so
    /// far as roots and aliases are free.
    pub fn claim_roots(&mut self, roots: &Vec<String>, id: &str, now: i64)
        ensures
            final(self)@ == old(self)@.claim_roots(text::texts(roots@), id@, now),
    {
        insert_links(&mut self.roots, roots, id, now);
        insert_links(&mut self.aliases, &implicit_project_ids(roots), id, now);
    }

    /// Gives parents to a project, so far as they are free.
    pub fn claim_parents(&mut self, parents: &Vec<String>, id: &str)
        ensures
            final(self)@ == old(self)@.claim_parents(text::texts(parents@), id@),
    {
        insert_links(&mut self.parents, parents, id, 0);
    }

    /// Sets an alias, whatever it stood for.
    pub fn point(&mut self, alias: &str, id: &str, now: i64)
        ensures
            final(self)@ == old(self)@.point(alias@, id@, now),
    {
        replace_link(
            &mut self.aliases,
            LinkRow { key: alias.to_owned(), target: id.to_owned(), at: now },
        );
    }

    /// Adds a workspace, unless its id is taken.
    pub fn open_workspace(&mut self, workspace_id: &str, name: &str, now: i64)
        ensures
            final(self)@ == old(self)@.open_workspace(workspace_id@, name@, now),
    {
        insert_workspace(
            &mut self.workspaces,
            WorkspaceRow {
                workspace_id: workspace_id.to_owned(),
                name: name.to_owned(),
                created_at: now,
                updated_at: now,
            },
        );
    }

    /// Renames a workspace.
    pub fn retitle(&mut self, workspace_id: &str, name: &str, now: i64)
        ensures
            final(self)@ == old(self)@.retitle(workspace_id@, name@, now),
    {
        rows::rename_workspace(&mut self.workspaces, workspace_id, name, now);
    }

    /// Whether a project can be placed in a workspace.
    pub fn can_place(&self, id: &str, workspace_id: &str) -> (r: bool)
        ensures
            r == self@.placeable(id@, workspace_id@),
    {
        let known = is_known(&self.workspaces, workspace_id);
        (has_key(&self.placements, id) || is_live(&self.projects, id) && known) && (is_referenced(
            &self.members,
            &local_row(workspace_id, id),
        ) || known)
    }

    /// Places a project in a workspace, unless it is placed or referenced.
    pub fn place(&mut self, id: &str, workspace_id: &str)
        ensures
            final(self)@ == old(self)@.place(id@, workspace_id@),
    {
        insert_link(
            &mut self.placements,
            LinkRow { key: id.to_owned(), target: workspace_id.to_owned(), at: 0 },
        );
        insert_member(&mut self.members, local_row(workspace_id, id));
    }

    /// Removes a workspace, with everything that is in it.
    pub fn dissolve(&mut self, workspace_id: &str)
        ensures
            final(self)@ == old(self)@.dissolve(workspace_id@),
    {
        remove_target(&mut self.placements, workspace_id);
        remove_members_of(&mut self.members, workspace_id);
        remove_workspace(&mut self.workspaces, workspace_id);
    }

    /// Removes a project, in favour of a successor where there is one.
    pub fn withdraw(&mut self, id: &str, successor: &Option<String>, now: i64)
        ensures
            final(self)@ == old(self)@.withdraw(id@, text::opt_text(*successor), now),
    {
        match successor {
            Some(s) => {
                lead_links(&mut self.roots, id, s.as_str());
                lead_links(&mut self.parents, id, s.as_str());
                lead_links(&mut self.aliases, id, s.as_str());
                replace_link(
                    &mut self.aliases,
                    LinkRow { key: id.to_owned(), target: s.clone(), at: now },
                );
            },
            None => {
                remove_target(&mut self.roots, id);
                remove_target(&mut self.parents, id);
                remove_target(&mut self.aliases, id);
                remove_key(&mut self.aliases, id);
            },
        }
        remove_key(&mut self.placements, id);
        remove_local(&mut self.members, id);
        remove_project(&mut self.projects, id);
    }
}

} // verus!
