//! What the registry holds, as mathematics: the projection tables, each in the
//! order in which its rows were added, and the journal behind them.
use vstd::prelude::*;

use crate::text::Text;

verus! {

/// A row that maps a text to a text: a root to its project, an alias to the
/// project it stands for, a project to its workspace. `at` is when the row was
/// added, where the table records that, and 0 elsewhere.
pub struct Link {
    pub key: Text,
    pub target: Text,
    pub at: i64,
}

/// A registered project.
pub struct Project {
    pub project_id: Text,
    pub name: Text,
    pub implicit: bool,
    pub seed_identity: Option<Text>,
    pub created_at: i64,
    pub updated_at: i64,
}

/// A workspace.
pub struct Workspace {
    pub workspace_id: Text,
    pub name: Text,
    pub created_at: i64,
    pub updated_at: i64,
}

/// A reference from a workspace to a project, here or on another device.
pub struct Member {
    pub workspace_id: Text,
    pub remote: bool,
    pub device: Text,
    pub project_id: Text,
}

/// A request to register a project.
pub struct Register {
    pub project_id: Option<Text>,
    pub name: Text,
    pub workspace_id: Option<Text>,
    pub roots: Seq<Text>,
    pub parents: Seq<Text>,
    pub request_key: Option<Text>,
    pub actor: Option<Text>,
}

/// A request to place a project in a workspace.
pub struct Assign {
    pub project_id: Text,
    pub workspace_id: Text,
    pub workspace_name: Option<Text>,
    pub request_key: Option<Text>,
    pub actor: Option<Text>,
}

/// A request to register a project that had an implicit id.
pub struct Upgrade {
    pub implicit_id: Text,
    pub project_id: Option<Text>,
    pub name: Text,
    pub workspace_id: Option<Text>,
    pub root: Option<Text>,
    pub roots: Seq<Text>,
    pub request_key: Option<Text>,
    pub actor: Option<Text>,
}

/// A request to remove a workspace or a project.
pub struct Remove {
    pub project_id: Option<Text>,
    pub successor: Option<Text>,
    pub workspace_id: Option<Text>,
    pub request_key: Option<Text>,
    pub actor: Option<Text>,
}

/// One imported observation of a root under an identity.
pub struct Pair {
    pub root: Text,
    pub identity: Text,
    pub class: Option<Text>,
    pub cooldown: bool,
    pub name: Option<Text>,
}

/// An imported claim that an identity belongs to a workspace.
pub struct Claim {
    pub identity: Text,
    pub workspace_id: Text,
}

/// A request to import registrations.
pub struct Seed {
    pub source: Text,
    pub request_key: Option<Text>,
    pub pairs: Seq<Pair>,
    pub workspaces: Seq<(Text, Text)>,
    pub claims: Seq<Claim>,
    pub names: Seq<(Text, Text)>,
    pub actor: Option<Text>,
}

/// What a journal entry asks for when it is replayed.
pub enum Record {
    Register(Register),
    Assign(Assign),
    Upgrade(Upgrade),
    Seed(Seed),
    Remove(Remove),
    /// An entry that changes nothing when replayed.
    Other,
    /// An entry whose request cannot be read; the reason is given.
    Unreadable(Text),
}

/// A journal entry.
pub struct Entry {
    pub seq: i64,
    pub op: Text,
    pub payload: Text,
    pub actor: Text,
    pub request_key: Option<Text>,
    pub created_at: i64,
    pub response: Option<Text>,
    pub record: Record,
}

/// The projection tables.
#[verifier::ext_equal]
pub struct Tables {
    pub workspaces: Seq<Workspace>,
    pub members: Seq<Member>,
    pub projects: Seq<Project>,
    pub placements: Seq<Link>,
    pub roots: Seq<Link>,
    pub parents: Seq<Link>,
    pub aliases: Seq<Link>,
}

/// The whole registry.
#[verifier::ext_equal]
pub struct Registry {
    pub tables: Tables,
    pub journal: Seq<Entry>,
}

/// What a key maps to.
pub open spec fn target(t: Seq<Link>, key: Text) -> Option<Text>
    decreases t.len(),
{
    if t.len() == 0 {
        None
    } else if t[0].key == key {
        Some(t[0].target)
    } else {
        target(t.drop_first(), key)
    }
}

/// Whether a key occurs.
pub open spec fn has(t: Seq<Link>, key: Text) -> bool {
    target(t, key) is Some
}

/// The table with a row added, unless its key is taken.
pub open spec fn add_link(t: Seq<Link>, row: Link) -> Seq<Link> {
    if has(t, row.key) {
        t
    } else {
        t.push(row)
    }
}

/// The table without a key.
pub open spec fn drop_key(t: Seq<Link>, key: Text) -> Seq<Link> {
    t.filter(|l: Link| l.key != key)
}

/// The table without the rows that lead to a target.
pub open spec fn drop_target(t: Seq<Link>, to: Text) -> Seq<Link> {
    t.filter(|l: Link| l.target != to)
}

/// The table with a row that replaces any other of its key.
pub open spec fn put_link(t: Seq<Link>, row: Link) -> Seq<Link> {
    drop_key(t, row.key).push(row)
}

/// The row, led elsewhere if it led to `from`.
pub open spec fn led(l: Link, from: Text, to: Text) -> Link {
    if l.target == from {
        Link { target: to, ..l }
    } else {
        l
    }
}

/// The table with every row that led to `from` leading to `to`.
pub open spec fn retarget(t: Seq<Link>, from: Text, to: Text) -> Seq<Link> {
    t.map_values(|l: Link| led(l, from, to))
}

/// The project with an id.
pub open spec fn project(t: Seq<Project>, id: Text) -> Option<Project>
    decreases t.len(),
{
    if t.len() == 0 {
        None
    } else if t[0].project_id == id {
        Some(t[0])
    } else {
        project(t.drop_first(), id)
    }
}

/// Whether a project is registered.
pub open spec fn live(t: Seq<Project>, id: Text) -> bool {
    project(t, id) is Some
}

/// The projects with one added, unless its id is taken.
pub open spec fn add_project(t: Seq<Project>, row: Project) -> Seq<Project> {
    if live(t, row.project_id) {
        t
    } else {
        t.push(row)
    }
}

/// The row, renamed if it has the id.
pub open spec fn renamed(p: Project, id: Text, name: Text, now: i64) -> Project {
    if p.project_id == id {
        Project { name, updated_at: now, ..p }
    } else {
        p
    }
}

/// The projects with one renamed.
pub open spec fn rename_project(t: Seq<Project>, id: Text, name: Text, now: i64) -> Seq<Project> {
    t.map_values(|p: Project| renamed(p, id, name, now))
}

/// The projects without one.
pub open spec fn drop_project(t: Seq<Project>, id: Text) -> Seq<Project> {
    t.filter(|p: Project| p.project_id != id)
}

/// The workspace with an id.
pub open spec fn workspace(t: Seq<Workspace>, id: Text) -> Option<Workspace>
    decreases t.len(),
{
    if t.len() == 0 {
        None
    } else if t[0].workspace_id == id {
        Some(t[0])
    } else {
        workspace(t.drop_first(), id)
    }
}

/// Whether a workspace is known.
pub open spec fn known(t: Seq<Workspace>, id: Text) -> bool {
    workspace(t, id) is Some
}

/// The workspaces with one added, unless its id is taken.
pub open spec fn add_workspace(t: Seq<Workspace>, row: Workspace) -> Seq<Workspace> {
    if known(t, row.workspace_id) {
        t
    } else {
        t.push(row)
    }
}

/// The row, retitled if it has the id.
pub open spec fn retitled(w: Workspace, id: Text, name: Text, now: i64) -> Workspace {
    if w.workspace_id == id {
        Workspace { name, updated_at: now, ..w }
    } else {
        w
    }
}

/// The workspaces with one retitled.
pub open spec fn rename_workspace(t: Seq<Workspace>, id: Text, name: Text, now: i64) -> Seq<
    Workspace,
> {
    t.map_values(|w: Workspace| retitled(w, id, name, now))
}

/// The workspaces without one.
pub open spec fn drop_workspace(t: Seq<Workspace>, id: Text) -> Seq<Workspace> {
    t.filter(|w: Workspace| w.workspace_id != id)
}

/// Whether two references are to one project: a project is referenced once,
/// whatever the workspace.
pub open spec fn same_reference(a: Member, b: Member) -> bool {
    a.remote == b.remote && a.device == b.device && a.project_id == b.project_id
}

/// Whether the project is referenced.
pub open spec fn referenced(t: Seq<Member>, m: Member) -> bool {
    exists|i: int| 0 <= i < t.len() && same_reference(#[trigger] t[i], m)
}

/// A reference to a project on this device.
pub open spec fn local_member(workspace_id: Text, project_id: Text) -> Member {
    Member { workspace_id, remote: false, device: Seq::empty(), project_id }
}

/// The references with one added, unless its project is referenced.
pub open spec fn add_member(t: Seq<Member>, m: Member) -> Seq<Member> {
    if referenced(t, m) {
        t
    } else {
        t.push(m)
    }
}

/// The references without those of a workspace.
pub open spec fn drop_members_of(t: Seq<Member>, workspace_id: Text) -> Seq<Member> {
    t.filter(|m: Member| m.workspace_id != workspace_id)
}

/// The references without the local one to a project.
pub open spec fn drop_local(t: Seq<Member>, project_id: Text) -> Seq<Member> {
    t.filter(|m: Member| m.remote || m.project_id != project_id)
}

/// Each key at most once.
pub open spec fn unique_links(t: Seq<Link>) -> bool {
    forall|i: int, j: int| 0 <= i < j < t.len() ==> (#[trigger] t[i]).key != (#[trigger] t[j]).key
}

/// Each project at most once.
pub open spec fn unique_projects(t: Seq<Project>) -> bool {
    forall|i: int, j: int|
        0 <= i < j < t.len() ==> (#[trigger] t[i]).project_id != (#[trigger] t[j]).project_id
}

/// Each workspace at most once.
pub open spec fn unique_workspaces(t: Seq<Workspace>) -> bool {
    forall|i: int, j: int|
        0 <= i < j < t.len() ==> (#[trigger] t[i]).workspace_id != (#[trigger] t[j]).workspace_id
}

/// Each project referenced at most once; a reference names a device exactly
/// where it is remote.
pub open spec fn sound_members(t: Seq<Member>) -> bool {
    &&& forall|i: int, j: int|
        0 <= i < j < t.len() ==> !same_reference(#[trigger] t[i], #[trigger] t[j])
    &&& forall|i: int| 0 <= i < t.len() ==> (#[trigger] t[i]).remote == (t[i].device.len() > 0)
}

/// Every row leads to a registered project.
pub open spec fn lead_to_projects(t: Seq<Link>, projects: Seq<Project>) -> bool {
    forall|i: int| 0 <= i < t.len() ==> live(projects, (#[trigger] t[i]).target)
}

/// The head of the journal.
pub open spec fn generation(journal: Seq<Entry>) -> i64 {
    if journal.len() == 0 {
        0
    } else {
        journal.last().seq
    }
}

/// Sequence numbers ascend from 1 on, and a request key occurs once.
pub open spec fn sound_journal(journal: Seq<Entry>) -> bool {
    &&& forall|i: int| 0 <= i < journal.len() ==> (#[trigger] journal[i]).seq >= 1
    &&& forall|i: int, j: int|
        0 <= i < j < journal.len() ==> (#[trigger] journal[i]).seq < (#[trigger] journal[j]).seq
    &&& forall|i: int, j: int|
        0 <= i < j < journal.len() && (#[trigger] journal[i]).request_key is Some ==> journal[i].request_key
            != (#[trigger] journal[j]).request_key
}

impl Tables {
    /// The tables hold what the schema lets them hold: keys are unique, and
    /// every row refers to rows that are there.
    pub open spec fn sound(self) -> bool {
        &&& unique_workspaces(self.workspaces)
        &&& sound_members(self.members)
        &&& unique_projects(self.projects)
        &&& unique_links(self.placements)
        &&& unique_links(self.roots)
        &&& unique_links(self.parents)
        &&& unique_links(self.aliases)
        &&& lead_to_projects(self.roots, self.projects)
        &&& lead_to_projects(self.parents, self.projects)
        &&& lead_to_projects(self.aliases, self.projects)
        &&& forall|i: int|
            0 <= i < self.placements.len() ==> live(
                self.projects,
                (#[trigger] self.placements[i]).key,
            ) && known(self.workspaces, self.placements[i].target)
        &&& forall|i: int|
            0 <= i < self.members.len() ==> known(
                self.workspaces,
                (#[trigger] self.members[i]).workspace_id,
            )
    }

    /// Tables with no rows.
    pub open spec fn empty() -> Tables {
        Tables {
            workspaces: Seq::empty(),
            members: Seq::empty(),
            projects: Seq::empty(),
            placements: Seq::empty(),
            roots: Seq::empty(),
            parents: Seq::empty(),
            aliases: Seq::empty(),
        }
    }
}

impl Registry {
    /// The tables and the journal are both sound.
    pub open spec fn sound(self) -> bool {
        self.tables.sound() && sound_journal(self.journal)
    }

    /// The head of the journal.
    pub open spec fn generation(self) -> i64 {
        generation(self.journal)
    }
}

} // verus!
