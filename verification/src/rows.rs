//! The rows of the projection tables and of the journal.
use vstd::prelude::*;
use vstd::string::*;

use crate::request::JournalRecord;
use crate::text::{clone_opt, str_eq};
use crate::{model, text};

verus! {

/// A row that maps a text to a text. `at` is when the row was added, where the
/// table records that, and 0 elsewhere.
#[derive(Debug, Clone)]
pub struct LinkRow {
    pub key: String,
    pub target: String,
    pub at: i64,
}

/// A row of the table of projects.
#[derive(Debug, Clone)]
pub struct ProjectRow {
    pub project_id: String,
    pub name: String,
    pub implicit: bool,
    pub seed_identity: Option<String>,
    pub created_at: i64,
    pub updated_at: i64,
}

/// A row of the table of workspaces.
#[derive(Debug, Clone)]
pub struct WorkspaceRow {
    pub workspace_id: String,
    pub name: String,
    pub created_at: i64,
    pub updated_at: i64,
}

/// A row of the table of workspace members.
#[derive(Debug, Clone)]
pub struct MemberRow {
    pub workspace_id: String,
    pub remote: bool,
    pub device_fingerprint: String,
    pub project_id: String,
}

/// A row of the journal.
#[derive(Debug, Clone)]
pub struct JournalRow {
    pub seq: i64,
    pub op: String,
    pub payload_json: String,
    pub actor: String,
    pub request_key: Option<String>,
    pub created_at: i64,
    pub response_json: Option<String>,
    pub record: JournalRecord,
}

impl View for LinkRow {
    type V = model::Link;

    open spec fn view(&self) -> model::Link {
        model::Link { key: self.key@, target: self.target@, at: self.at }
    }
}

impl View for ProjectRow {
    type V = model::Project;

    open spec fn view(&self) -> model::Project {
        model::Project {
            project_id: self.project_id@,
            name: self.name@,
            implicit: self.implicit,
            seed_identity: text::opt_text(self.seed_identity),
            created_at: self.created_at,
            updated_at: self.updated_at,
        }
    }
}

impl View for WorkspaceRow {
    type V = model::Workspace;

    open spec fn view(&self) -> model::Workspace {
        model::Workspace {
            workspace_id: self.workspace_id@,
            name: self.name@,
            created_at: self.created_at,
            updated_at: self.updated_at,
        }
    }
}

impl View for MemberRow {
    type V = model::Member;

    open spec fn view(&self) -> model::Member {
        model::Member {
            workspace_id: self.workspace_id@,
            remote: self.remote,
            device: self.device_fingerprint@,
            project_id: self.project_id@,
        }
    }
}

impl View for JournalRow {
    type V = model::Entry;

    open spec fn view(&self) -> model::Entry {
        model::Entry {
            seq: self.seq,
            op: self.op@,
            payload: self.payload_json@,
            actor: self.actor@,
            request_key: text::opt_text(self.request_key),
            created_at: self.created_at,
            response: text::opt_text(self.response_json),
            record: self.record@,
        }
    }
}

impl LinkRow {
    /// A copy of the row.
    pub fn copy(&self) -> (r: Self)
        ensures
            r@ == self@,
    {
        LinkRow { key: self.key.clone(), target: self.target.clone(), at: self.at }
    }
}

impl ProjectRow {
    /// A copy of the row.
    pub fn copy(&self) -> (r: Self)
        ensures
            r@ == self@,
    {
        ProjectRow {
            project_id: self.project_id.clone(),
            name: self.name.clone(),
            implicit: self.implicit,
            seed_identity: clone_opt(&self.seed_identity),
            created_at: self.created_at,
            updated_at: self.updated_at,
        }
    }
}

impl WorkspaceRow {
    /// A copy of the row.
    pub fn copy(&self) -> (r: Self)
        ensures
            r@ == self@,
    {
        WorkspaceRow {
            workspace_id: self.workspace_id.clone(),
            name: self.name.clone(),
            created_at: self.created_at,
            updated_at: self.updated_at,
        }
    }
}

impl MemberRow {
    /// A copy of the row.
    pub fn copy(&self) -> (r: Self)
        ensures
            r@ == self@,
    {
        MemberRow {
            workspace_id: self.workspace_id.clone(),
            remote: self.remote,
            device_fingerprint: self.device_fingerprint.clone(),
            project_id: self.project_id.clone(),
        }
    }
}

/// The rows in a vector.
pub open spec fn links(v: Seq<LinkRow>) -> Seq<model::Link> {
    v.map_values(|r: LinkRow| r@)
}

/// The rows in a vector.
pub open spec fn projects(v: Seq<ProjectRow>) -> Seq<model::Project> {
    v.map_values(|r: ProjectRow| r@)
}

/// The rows in a vector.
pub open spec fn workspaces(v: Seq<WorkspaceRow>) -> Seq<model::Workspace> {
    v.map_values(|r: WorkspaceRow| r@)
}

/// The rows in a vector.
pub open spec fn members(v: Seq<MemberRow>) -> Seq<model::Member> {
    v.map_values(|r: MemberRow| r@)
}

/// The rows in a vector.
pub open spec fn entries(v: Seq<JournalRow>) -> Seq<model::Entry> {
    v.map_values(|r: JournalRow| r@)
}

/// What a key maps to.
pub fn lookup(t: &Vec<LinkRow>, key: &str) -> (r: Option<String>)
    ensures
        text::opt_text(r) == model::target(links(t@), key@),
{
    let ghost all = links(t@);
    let mut i: usize = 0;
    assert(all.skip(0) =~= all);
    while i < t.len()
        invariant
            all == links(t@),
            i <= t@.len(),
            model::target(all, key@) == model::target(all.skip(i as int), key@),
        decreases t@.len() - i,
    {
        assert(all.skip(i as int)[0] == t@[i as int]@);
        assert(all.skip(i as int).drop_first() =~= all.skip(i + 1));
        if str_eq(t[i].key.as_str(), key) {
            return Some(t[i].target.clone());
        }
        i = i + 1;
    }
    None
}

/// Whether a key occurs.
pub fn has_key(t: &Vec<LinkRow>, key: &str) -> (r: bool)
    ensures
        r == model::has(links(t@), key@),
{
    lookup(t, key).is_some()
}

/// Adds a row, unless its key is taken.
pub fn insert_link(t: &mut Vec<LinkRow>, row: LinkRow)
    ensures
        links(final(t)@) == model::add_link(links(old(t)@), row@),
{
    if !has_key(t, row.key.as_str()) {
        let ghost before = links(t@);
        t.push(row);
        assert(links(t@) =~= before.push(row@));
    }
}

/// Removes the row of a key.
pub fn remove_key(t: &mut Vec<LinkRow>, key: &str)
    ensures
        links(final(t)@) == model::drop_key(links(old(t)@), key@),
{
    let ghost all = links(t@);
    let ghost keep = |l: model::Link| l.key != key@;
    let mut out: Vec<LinkRow> = Vec::new();
    let mut i: usize = 0;
    assert(links(out@) =~= all.take(0).filter(keep)) by {
        reveal(Seq::filter);
    }
    while i < t.len()
        invariant
            all == links(t@),
            keep == (|l: model::Link| l.key != key@),
            i <= t@.len(),
            links(out@) == all.take(i as int).filter(keep),
        decreases t@.len() - i,
    {
        let ghost before = links(out@);
        assert(all.take(i + 1).drop_last() =~= all.take(i as int));
        assert(all.take(i + 1).last() == t@[i as int]@);
        assert(all.take(i + 1).filter(keep) == if keep(t@[i as int]@) {
            before.push(t@[i as int]@)
        } else {
            before
        }) by {
            reveal(Seq::filter);
        }
        if !str_eq(t[i].key.as_str(), key) {
            out.push(t[i].copy());
            assert(links(out@) =~= before.push(t@[i as int]@));
        }
        i = i + 1;
    }
    assert(all.take(i as int) =~= all);
    *t = out;
}

/// Removes the rows that lead to a target.
pub fn remove_target(t: &mut Vec<LinkRow>, to: &str)
    ensures
        links(final(t)@) == model::drop_target(links(old(t)@), to@),
{
    let ghost all = links(t@);
    let ghost keep = |l: model::Link| l.target != to@;
    let mut out: Vec<LinkRow> = Vec::new();
    let mut i: usize = 0;
    assert(links(out@) =~= all.take(0).filter(keep)) by {
        reveal(Seq::filter);
    }
    while i < t.len()
        invariant
            all == links(t@),
            keep == (|l: model::Link| l.target != to@),
            i <= t@.len(),
            links(out@) == all.take(i as int).filter(keep),
        decreases t@.len() - i,
    {
        let ghost before = links(out@);
        assert(all.take(i + 1).drop_last() =~= all.take(i as int));
        assert(all.take(i + 1).last() == t@[i as int]@);
        assert(all.take(i + 1).filter(keep) == if keep(t@[i as int]@) {
            before.push(t@[i as int]@)
        } else {
            before
        }) by {
            reveal(Seq::filter);
        }
        if !str_eq(t[i].target.as_str(), to) {
            out.push(t[i].copy());
            assert(links(out@) =~= before.push(t@[i as int]@));
        }
        i = i + 1;
    }
    assert(all.take(i as int) =~= all);
    *t = out;
}

/// Adds a row that replaces any other of its key.
pub fn replace_link(t: &mut Vec<LinkRow>, row: LinkRow)
    ensures
        links(final(t)@) == model::put_link(links(old(t)@), row@),
{
    remove_key(t, row.key.as_str());
    let ghost before = links(t@);
    t.push(row);
    assert(links(t@) =~= before.push(row@));
}

/// Leads every row that led to `from` to `to`.
pub fn lead_links(t: &mut Vec<LinkRow>, from: &str, to: &str)
    ensures
        links(final(t)@) == model::retarget(links(old(t)@), from@, to@),
{
    let ghost all = links(t@);
    let mut out: Vec<LinkRow> = Vec::new();
    let mut i: usize = 0;
    while i < t.len()
        invariant
            all == links(t@),
            i <= t@.len(),
            out@.len() == i,
            forall|j: int|
                0 <= j < i ==> (#[trigger] out@[j])@ == model::led(all[j], from@, to@),
        decreases t@.len() - i,
    {
        assert(all[i as int] == t@[i as int]@);
        if str_eq(t[i].target.as_str(), from) {
            out.push(LinkRow { key: t[i].key.clone(), target: to.to_owned(), at: t[i].at });
        } else {
            out.push(t[i].copy());
        }
        i = i + 1;
    }
    assert(links(out@) =~= model::retarget(all, from@, to@));
    *t = out;
}

/// The project with an id.
pub fn find_project(t: &Vec<ProjectRow>, id: &str) -> (r: Option<ProjectRow>)
    ensures
        match r {
            Some(row) => model::project(projects(t@), id@) == Some(row@),
            None => model::project(projects(t@), id@) is None,
        },
{
    let ghost all = projects(t@);
    let mut i: usize = 0;
    assert(all.skip(0) =~= all);
    while i < t.len()
        invariant
            all == projects(t@),
            i <= t@.len(),
            model::project(all, id@) == model::project(all.skip(i as int), id@),
        decreases t@.len() - i,
    {
        assert(all.skip(i as int)[0] == t@[i as int]@);
        assert(all.skip(i as int).drop_first() =~= all.skip(i + 1));
        if str_eq(t[i].project_id.as_str(), id) {
            return Some(t[i].copy());
        }
        i = i + 1;
    }
    None
}

/// Whether a project is registered.
pub fn is_live(t: &Vec<ProjectRow>, id: &str) -> (r: bool)
    ensures
        r == model::live(projects(t@), id@),
{
    find_project(t, id).is_some()
}

/// Adds a project, unless its id is taken.
pub fn insert_project(t: &mut Vec<ProjectRow>, row: ProjectRow)
    ensures
        projects(final(t)@) == model::add_project(projects(old(t)@), row@),
{
    if !is_live(t, row.project_id.as_str()) {
        let ghost before = projects(t@);
        t.push(row);
        assert(projects(t@) =~= before.push(row@));
    }
}

/// Renames a project.
pub fn rename_project(t: &mut Vec<ProjectRow>, id: &str, name: &str, now: i64)
    ensures
        projects(final(t)@) == model::rename_project(projects(old(t)@), id@, name@, now),
{
    let ghost all = projects(t@);
    let mut out: Vec<ProjectRow> = Vec::new();
    let mut i: usize = 0;
    while i < t.len()
        invariant
            all == projects(t@),
            i <= t@.len(),
            out@.len() == i,
            forall|j: int|
                0 <= j < i ==> (#[trigger] out@[j])@ == model::renamed(all[j], id@, name@, now),
        decreases t@.len() - i,
    {
        assert(all[i as int] == t@[i as int]@);
        let mut row = t[i].copy();
        if str_eq(t[i].project_id.as_str(), id) {
            row.name = name.to_owned();
            row.updated_at = now;
        }
        out.push(row);
        i = i + 1;
    }
    assert(projects(out@) =~= model::rename_project(all, id@, name@, now));
    *t = out;
}

/// Removes a project.
pub fn remove_project(t: &mut Vec<ProjectRow>, id: &str)
    ensures
        projects(final(t)@) == model::drop_project(projects(old(t)@), id@),
{
    let ghost all = projects(t@);
    let ghost keep = |p: model::Project| p.project_id != id@;
    let mut out: Vec<ProjectRow> = Vec::new();
    let mut i: usize = 0;
    assert(projects(out@) =~= all.take(0).filter(keep)) by {
        reveal(Seq::filter);
    }
    while i < t.len()
        invariant
            all == projects(t@),
            keep == (|p: model::Project| p.project_id != id@),
            i <= t@.len(),
            projects(out@) == all.take(i as int).filter(keep),
        decreases t@.len() - i,
    {
        let ghost before = projects(out@);
        assert(all.take(i + 1).drop_last() =~= all.take(i as int));
        assert(all.take(i + 1).last() == t@[i as int]@);
        assert(all.take(i + 1).filter(keep) == if keep(t@[i as int]@) {
            before.push(t@[i as int]@)
        } else {
            before
        }) by {
            reveal(Seq::filter);
        }
        if !str_eq(t[i].project_id.as_str(), id) {
            out.push(t[i].copy());
            assert(projects(out@) =~= before.push(t@[i as int]@));
        }
        i = i + 1;
    }
    assert(all.take(i as int) =~= all);
    *t = out;
}

/// The workspace with an id.
pub fn find_workspace(t: &Vec<WorkspaceRow>, id: &str) -> (r: Option<WorkspaceRow>)
    ensures
        match r {
            Some(row) => model::workspace(workspaces(t@), id@) == Some(row@),
            None => model::workspace(workspaces(t@), id@) is None,
        },
{
    let ghost all = workspaces(t@);
    let mut i: usize = 0;
    assert(all.skip(0) =~= all);
    while i < t.len()
        invariant
            all == workspaces(t@),
            i <= t@.len(),
            model::workspace(all, id@) == model::workspace(all.skip(i as int), id@),
        decreases t@.len() - i,
    {
        assert(all.skip(i as int)[0] == t@[i as int]@);
        assert(all.skip(i as int).drop_first() =~= all.skip(i + 1));
        if str_eq(t[i].workspace_id.as_str(), id) {
            return Some(t[i].copy());
        }
        i = i + 1;
    }
    None
}

/// Whether a workspace is known.
pub fn is_known(t: &Vec<WorkspaceRow>, id: &str) -> (r: bool)
    ensures
        r == model::known(workspaces(t@), id@),
{
    find_workspace(t, id).is_some()
}

/// Adds a workspace, unless its id is taken.
pub fn insert_workspace(t: &mut Vec<WorkspaceRow>, row: WorkspaceRow)
    ensures
        workspaces(final(t)@) == model::add_workspace(workspaces(old(t)@), row@),
{
    if !is_known(t, row.workspace_id.as_str()) {
        let ghost before = workspaces(t@);
        t.push(row);
        assert(workspaces(t@) =~= before.push(row@));
    }
}

/// Renames a workspace.
pub fn rename_workspace(t: &mut Vec<WorkspaceRow>, id: &str, name: &str, now: i64)
    ensures
        workspaces(final(t)@) == model::rename_workspace(workspaces(old(t)@), id@, name@, now),
{
    let ghost all = workspaces(t@);
    let mut out: Vec<WorkspaceRow> = Vec::new();
    let mut i: usize = 0;
    while i < t.len()
        invariant
            all == workspaces(t@),
            i <= t@.len(),
            out@.len() == i,
            forall|j: int|
                0 <= j < i ==> (#[trigger] out@[j])@ == model::retitled(all[j], id@, name@, now),
        decreases t@.len() - i,
    {
        assert(all[i as int] == t@[i as int]@);
        let mut row = t[i].copy();
        if str_eq(t[i].workspace_id.as_str(), id) {
            row.name = name.to_owned();
            row.updated_at = now;
        }
        out.push(row);
        i = i + 1;
    }
    assert(workspaces(out@) =~= model::rename_workspace(all, id@, name@, now));
    *t = out;
}

/// Removes a workspace.
pub fn remove_workspace(t: &mut Vec<WorkspaceRow>, id: &str)
    ensures
        workspaces(final(t)@) == model::drop_workspace(workspaces(old(t)@), id@),
{
    let ghost all = workspaces(t@);
    let ghost keep = |w: model::Workspace| w.workspace_id != id@;
    let mut out: Vec<WorkspaceRow> = Vec::new();
    let mut i: usize = 0;
    assert(workspaces(out@) =~= all.take(0).filter(keep)) by {
        reveal(Seq::filter);
    }
    while i < t.len()
        invariant
            all == workspaces(t@),
            keep == (|w: model::Workspace| w.workspace_id != id@),
            i <= t@.len(),
            workspaces(out@) == all.take(i as int).filter(keep),
        decreases t@.len() - i,
    {
        let ghost before = workspaces(out@);
        assert(all.take(i + 1).drop_last() =~= all.take(i as int));
        assert(all.take(i + 1).last() == t@[i as int]@);
        assert(all.take(i + 1).filter(keep) == if keep(t@[i as int]@) {
            before.push(t@[i as int]@)
        } else {
            before
        }) by {
            reveal(Seq::filter);
        }
        if !str_eq(t[i].workspace_id.as_str(), id) {
            out.push(t[i].copy());
            assert(workspaces(out@) =~= before.push(t@[i as int]@));
        }
        i = i + 1;
    }
    assert(all.take(i as int) =~= all);
    *t = out;
}

/// Whether the project is referenced.
pub fn is_referenced(t: &Vec<MemberRow>, m: &MemberRow) -> (r: bool)
    ensures
        r == model::referenced(members(t@), m@),
{
    let ghost all = members(t@);
    let mut i: usize = 0;
    while i < t.len()
        invariant
            all == members(t@),
            i <= t@.len(),
            forall|j: int| 0 <= j < i ==> !model::same_reference(#[trigger] all[j], m@),
        decreases t@.len() - i,
    {
        assert(all[i as int] == t@[i as int]@);
        if t[i].remote == m.remote && t[i].device_fingerprint == m.device_fingerprint
            && t[i].project_id == m.project_id {
            assert(model::same_reference(all[i as int], m@));
            return true;
        }
        i = i + 1;
    }
    false
}

/// Adds a reference, unless its project is referenced.
pub fn insert_member(t: &mut Vec<MemberRow>, m: MemberRow)
    ensures
        members(final(t)@) == model::add_member(members(old(t)@), m@),
{
    if !is_referenced(t, &m) {
        let ghost before = members(t@);
        t.push(m);
        assert(members(t@) =~= before.push(m@));
    }
}

/// A reference to a project on this device.
pub fn local_row(workspace_id: &str, project_id: &str) -> (r: MemberRow)
    ensures
        r@ == model::local_member(workspace_id@, project_id@),
{
    MemberRow {
        workspace_id: workspace_id.to_owned(),
        remote: false,
        device_fingerprint: String::new(),
        project_id: project_id.to_owned(),
    }
}

/// Removes the references of a workspace.
pub fn remove_members_of(t: &mut Vec<MemberRow>, workspace_id: &str)
    ensures
        members(final(t)@) == model::drop_members_of(members(old(t)@), workspace_id@),
{
    let ghost all = members(t@);
    let ghost keep = |m: model::Member| m.workspace_id != workspace_id@;
    let mut out: Vec<MemberRow> = Vec::new();
    let mut i: usize = 0;
    assert(members(out@) =~= all.take(0).filter(keep)) by {
        reveal(Seq::filter);
    }
    while i < t.len()
        invariant
            all == members(t@),
            keep == (|m: model::Member| m.workspace_id != workspace_id@),
            i <= t@.len(),
            members(out@) == all.take(i as int).filter(keep),
        decreases t@.len() - i,
    {
        let ghost before = members(out@);
        assert(all.take(i + 1).drop_last() =~= all.take(i as int));
        assert(all.take(i + 1).last() == t@[i as int]@);
        assert(all.take(i + 1).filter(keep) == if keep(t@[i as int]@) {
            before.push(t@[i as int]@)
        } else {
            before
        }) by {
            reveal(Seq::filter);
        }
        if !str_eq(t[i].workspace_id.as_str(), workspace_id) {
            out.push(t[i].copy());
            assert(members(out@) =~= before.push(t@[i as int]@));
        }
        i = i + 1;
    }
    assert(all.take(i as int) =~= all);
    *t = out;
}

/// Removes the local reference to a project.
pub fn remove_local(t: &mut Vec<MemberRow>, project_id: &str)
    ensures
        members(final(t)@) == model::drop_local(members(old(t)@), project_id@),
{
    let ghost all = members(t@);
    let ghost keep = |m: model::Member| m.remote || m.project_id != project_id@;
    let mut out: Vec<MemberRow> = Vec::new();
    let mut i: usize = 0;
    assert(members(out@) =~= all.take(0).filter(keep)) by {
        reveal(Seq::filter);
    }
    while i < t.len()
        invariant
            all == members(t@),
            keep == (|m: model::Member| m.remote || m.project_id != project_id@),
            i <= t@.len(),
            members(out@) == all.take(i as int).filter(keep),
        decreases t@.len() - i,
    {
        let ghost before = members(out@);
        assert(all.take(i + 1).drop_last() =~= all.take(i as int));
        assert(all.take(i + 1).last() == t@[i as int]@);
        assert(all.take(i + 1).filter(keep) == if keep(t@[i as int]@) {
            before.push(t@[i as int]@)
        } else {
            before
        }) by {
            reveal(Seq::filter);
        }
        if t[i].remote || !str_eq(t[i].project_id.as_str(), project_id) {
            out.push(t[i].copy());
            assert(members(out@) =~= before.push(t@[i as int]@));
        }
        i = i + 1;
    }
    assert(all.take(i as int) =~= all);
    *t = out;
}

} // verus!
