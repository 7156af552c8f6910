//! The registry: its tables and its journal.
use vstd::prelude::*;
use vstd::string::*;

use crate::error::{Failure, RegistryError};
use crate::frame::Note;
use crate::model::{Link, Member, Registry, Tables};
use crate::paths::RootProbe;
use crate::request::JournalRecord;
use crate::rows::{
    has_key, is_known, is_live, is_referenced, JournalRow, LinkRow, MemberRow, ProjectRow,
    WorkspaceRow,
};
use crate::text::{cat, str_eq, Text};
use crate::{effects, frame, model, paths, replay, rows, text, upkeep};

verus! {

/// The schema that the rows are stored under.
pub const V1_SCHEMA: &'static str = "
CREATE TABLE registry_journal (
    seq INTEGER PRIMARY KEY AUTOINCREMENT,
    op TEXT,
    payload_json TEXT,
    actor TEXT,
    request_key TEXT UNIQUE NULL,
    created_at INTEGER,
    response_json TEXT NULL
);

CREATE TABLE workspace (
    workspace_id TEXT PRIMARY KEY,
    name TEXT,
    created_at INTEGER,
    updated_at INTEGER
);

CREATE TABLE workspace_member (
    workspace_id TEXT REFERENCES workspace(workspace_id),
    ref_kind TEXT CHECK(ref_kind IN ('local','remote')),
    device_fingerprint TEXT NOT NULL,
    project_id TEXT NOT NULL,
    PRIMARY KEY (workspace_id, ref_kind, device_fingerprint, project_id),
    UNIQUE (ref_kind, device_fingerprint, project_id),
    CHECK ((ref_kind = 'local' AND device_fingerprint = '') OR
           (ref_kind = 'remote' AND device_fingerprint <> ''))
);

CREATE TABLE project (
    project_id TEXT PRIMARY KEY,
    name TEXT,
    implicit INTEGER NOT NULL DEFAULT 0,
    seed_identity TEXT NULL,
    created_at INTEGER,
    updated_at INTEGER
);

CREATE TABLE project_workspace (
    project_id TEXT PRIMARY KEY REFERENCES project(project_id),
    workspace_id TEXT REFERENCES workspace(workspace_id)
);

CREATE TABLE project_root (
    canonical_root TEXT PRIMARY KEY,
    project_id TEXT REFERENCES project(project_id),
    added_at INTEGER
);

CREATE TABLE derived_root_parent (
    canonical_parent TEXT PRIMARY KEY, project_id TEXT REFERENCES project(project_id)
);

CREATE TABLE project_alias (
    old_id TEXT PRIMARY KEY,
    project_id TEXT REFERENCES project(project_id),
    created_at INTEGER
);
";

/// The rows of the projection tables, each table in the order in which its rows
/// were added.
#[derive(Debug, Clone)]
pub struct TableRows {
    pub workspaces: Vec<WorkspaceRow>,
    pub members: Vec<MemberRow>,
    pub projects: Vec<ProjectRow>,
    pub placements: Vec<LinkRow>,
    pub roots: Vec<LinkRow>,
    pub parents: Vec<LinkRow>,
    pub aliases: Vec<LinkRow>,
}

impl View for TableRows {
    type V = model::Tables;

    open spec fn view(&self) -> model::Tables {
        model::Tables {
            workspaces: rows::workspaces(self.workspaces@),
            members: rows::members(self.members@),
            projects: rows::projects(self.projects@),
            placements: rows::links(self.placements@),
            roots: rows::links(self.roots@),
            parents: rows::links(self.parents@),
            aliases: rows::links(self.aliases@),
        }
    }
}

/// The registry.
#[derive(Debug)]
pub struct RegistryStore {
    pub(crate) tables: TableRows,
    pub(crate) journal: Vec<JournalRow>,
}

impl View for RegistryStore {
    type V = model::Registry;

    open(crate) spec fn view(&self) -> model::Registry {
        model::Registry { tables: self.tables@, journal: rows::entries(self.journal@) }
    }
}

/// A row to add to a projection table.
#[derive(Debug, Clone)]
pub enum Write {
    Workspace(WorkspaceRow),
    Member(MemberRow),
    Project(ProjectRow),
    Placement(LinkRow),
    Root(LinkRow),
    Parent(LinkRow),
    Alias(LinkRow),
}

/// The rows to add, as contracts speak of them.
pub enum Row {
    Workspace(model::Workspace),
    Member(Member),
    Project(model::Project),
    Placement(Link),
    Root(Link),
    Parent(Link),
    Alias(Link),
}

impl View for Write {
    type V = Row;

    open spec fn view(&self) -> Row {
        match self {
            Write::Workspace(r) => Row::Workspace(r@),
            Write::Member(r) => Row::Member(r@),
            Write::Project(r) => Row::Project(r@),
            Write::Placement(r) => Row::Placement(r@),
            Write::Root(r) => Row::Root(r@),
            Write::Parent(r) => Row::Parent(r@),
            Write::Alias(r) => Row::Alias(r@),
        }
    }
}

/// The rows in a vector.
pub open spec fn writes(v: Seq<Write>) -> Seq<Row> {
    v.map_values(|w: Write| w@)
}

/// A link added to a table: its key must be free, and what it refers to there.
pub open spec fn linked(t: Seq<Link>, row: Link, taken: Text, refers: bool) -> Result<
    Seq<Link>,
    Text,
> {
    if model::has(t, row.key) {
        Err(taken)
    } else if !refers {
        Err(replay::missing())
    } else {
        Ok(t.push(row))
    }
}

/// The tables with one row more, or the constraint that it breaks.
pub open spec fn written(t: Tables, row: Row) -> Result<Tables, Text> {
    match row {
        Row::Workspace(r) => if model::known(t.workspaces, r.workspace_id) {
            Err("UNIQUE constraint failed: workspace.workspace_id"@)
        } else {
            Ok(Tables { workspaces: t.workspaces.push(r), ..t })
        },
        Row::Member(r) => if r.remote != (r.device.len() > 0) {
            Err(
                "CHECK constraint failed: (ref_kind = 'local' AND device_fingerprint = '') OR\n           (ref_kind = 'remote' AND device_fingerprint <> '')"@,
            )
        } else if model::referenced(t.members, r) {
            Err(
                "UNIQUE constraint failed: workspace_member.ref_kind, workspace_member.device_fingerprint, workspace_member.project_id"@,
            )
        } else if !model::known(t.workspaces, r.workspace_id) {
            Err(replay::missing())
        } else {
            Ok(Tables { members: t.members.push(r), ..t })
        },
        Row::Project(r) => if model::live(t.projects, r.project_id) {
            Err("UNIQUE constraint failed: project.project_id"@)
        } else {
            Ok(Tables { projects: t.projects.push(r), ..t })
        },
        Row::Placement(r) => match linked(
            t.placements,
            r,
            "UNIQUE constraint failed: project_workspace.project_id"@,
            model::live(t.projects, r.key) && model::known(t.workspaces, r.target),
        ) {
            Ok(placements) => Ok(Tables { placements, ..t }),
            Err(e) => Err(e),
        },
        Row::Root(r) => match linked(
            t.roots,
            r,
            "UNIQUE constraint failed: project_root.canonical_root"@,
            model::live(t.projects, r.target),
        ) {
            Ok(roots) => Ok(Tables { roots, ..t }),
            Err(e) => Err(e),
        },
        Row::Parent(r) => match linked(
            t.parents,
            r,
            "UNIQUE constraint failed: derived_root_parent.canonical_parent"@,
            model::live(t.projects, r.target),
        ) {
            Ok(parents) => Ok(Tables { parents, ..t }),
            Err(e) => Err(e),
        },
        Row::Alias(r) => match linked(
            t.aliases,
            r,
            "UNIQUE constraint failed: project_alias.old_id"@,
            model::live(t.projects, r.target),
        ) {
            Ok(aliases) => Ok(Tables { aliases, ..t }),
            Err(e) => Err(e),
        },
    }
}

/// The tables with rows added in order, or the first constraint that one breaks.
pub open spec fn written_all(t: Tables, all: Seq<Row>) -> Result<Tables, Text>
    decreases all.len(),
{
    if all.len() == 0 {
        Ok(t)
    } else {
        match written_all(t, all.drop_last()) {
            Err(e) => Err(e),
            Ok(u) => written(u, all.last()),
        }
    }
}

/// The failure of a transaction that was rolled back.
pub open spec fn rolled_back(message: Text) -> Failure {
    Failure::Store("storage backend: "@ + message)
}

/// The constraint that an entry with this request key breaks, where it does.
pub open spec fn append_complaint(registry: Registry, key: Option<Text>) -> Option<Text> {
    match frame::append_failure(registry.journal, key) {
        Some(Failure::Database(e)) => Some(e),
        _ => None,
    }
}

/// The registry with an entry and the rows that belong to it, or what went
/// wrong with either.
pub open spec fn applied(before: Registry, note: Note, all: Seq<Row>) -> Result<Registry, Failure> {
    match append_complaint(before, note.request_key) {
        Some(e) => Err(rolled_back(e)),
        None => match written_all(before.tables, all) {
            Err(e) => Err(rolled_back(e)),
            Ok(tables) => Ok(
                Registry { tables, journal: frame::appended(before.journal, note) },
            ),
        },
    }
}

proof fn lemma_linked_leads(t: Seq<Link>, row: Link, projects: Seq<model::Project>)
    requires
        model::unique_links(t),
        model::lead_to_projects(t, projects),
        !model::has(t, row.key),
        model::live(projects, row.target),
    ensures
        model::unique_links(t.push(row)),
        model::lead_to_projects(t.push(row), projects),
{
    upkeep::lemma_push_link(t, row, row.key);
    let u = t.push(row);
    assert forall|i: int| 0 <= i < u.len() implies model::live(
        projects,
        (#[trigger] u[i]).target,
    ) by {
        if i < t.len() {
            assert(u[i] == t[i]);
        }
    }
}

/// Adding a row that breaks no constraint keeps the tables sound.
pub proof fn lemma_written(t: Tables, row: Row)
    requires
        t.sound(),
    ensures
        written(t, row) matches Ok(u) ==> u.sound(),
{
    if let Ok(u) = written(t, row) {
        match row {
            Row::Workspace(r) => {
                upkeep::lemma_add_workspace(t.workspaces, r, r.workspace_id);
                assert forall|id: Text| model::known(t.workspaces, id) implies #[trigger] model::known(
                    u.workspaces,
                    id,
                ) by {
                    upkeep::lemma_add_workspace(t.workspaces, r, id);
                }
                effects::lemma_workspaces_change(t, u.workspaces);
            },
            Row::Member(r) => {
                upkeep::lemma_add_member(t.members, r);
                assert forall|i: int| 0 <= i < u.members.len() implies model::known(
                    u.workspaces,
                    (#[trigger] u.members[i]).workspace_id,
                ) by {
                    if i < t.members.len() {
                        assert(u.members[i] == t.members[i]);
                    }
                }
            },
            Row::Project(r) => {
                upkeep::lemma_add_project(t.projects, r, r.project_id);
                assert forall|id: Text| model::live(t.projects, id) implies #[trigger] model::live(
                    u.projects,
                    id,
                ) by {
                    upkeep::lemma_add_project(t.projects, r, id);
                }
                effects::lemma_projects_change(t, u.projects);
            },
            Row::Placement(r) => {
                upkeep::lemma_push_link(t.placements, r, r.key);
                assert forall|i: int| 0 <= i < u.placements.len() implies model::live(
                    u.projects,
                    (#[trigger] u.placements[i]).key,
                ) && model::known(u.workspaces, u.placements[i].target) by {
                    if i < t.placements.len() {
                        assert(u.placements[i] == t.placements[i]);
                    }
                }
            },
            Row::Root(r) => lemma_linked_leads(t.roots, r, t.projects),
            Row::Parent(r) => lemma_linked_leads(t.parents, r, t.projects),
            Row::Alias(r) => lemma_linked_leads(t.aliases, r, t.projects),
        }
    }
}

proof fn lemma_written_stops(t: Tables, all: Seq<Row>, n: int)
    requires
        0 <= n <= all.len(),
        written_all(t, all.take(n)) is Err,
    ensures
        written_all(t, all) == written_all(t, all.take(n)),
    decreases all.len(),
{
    if n == all.len() {
        assert(all.take(n) =~= all);
    } else {
        assert(all.drop_last().take(n) =~= all.take(n));
        lemma_written_stops(t, all.drop_last(), n);
    }
}

fn add_row(t: &mut Vec<LinkRow>, row: &LinkRow, taken: &str, refers: bool) -> (r: Result<
    (),
    String,
>)
    ensures
        match linked(rows::links(old(t)@), row@, taken@, refers) {
            Ok(u) => r is Ok && rows::links(final(t)@) == u,
            Err(e) => r matches Err(s) && s@ == e && *final(t) == *old(t),
        },
{
    if has_key(t, row.key.as_str()) {
        return Err(taken.to_owned());
    }
    if !refers {
        return Err("FOREIGN KEY constraint failed".to_owned());
    }
    let ghost before = rows::links(t@);
    t.push(row.copy());
    assert(rows::links(t@) =~= before.push(row@));
    Ok(())
}

fn copy_links(v: &Vec<LinkRow>) -> (r: Vec<LinkRow>)
    ensures
        rows::links(r@) == rows::links(v@),
{
    let mut out: Vec<LinkRow> = Vec::new();
    let mut i: usize = 0;
    while i < v.len()
        invariant
            i <= v@.len(),
            out@.len() == i,
            forall|j: int| 0 <= j < i ==> (#[trigger] out@[j])@ == v@[j]@,
        decreases v@.len() - i,
    {
        out.push(v[i].copy());
        i = i + 1;
    }
    assert(rows::links(out@) =~= rows::links(v@));
    out
}

fn links_unique(t: &Vec<LinkRow>) -> (r: bool)
    ensures
        r == model::unique_links(rows::links(t@)),
{
    let ghost all = rows::links(t@);
    let mut i: usize = 0;
    while i < t.len()
        invariant
            all == rows::links(t@),
            i <= t@.len(),
            forall|a: int, b: int|
                0 <= a < b < i ==> (#[trigger] all[a]).key != (#[trigger] all[b]).key,
        decreases t@.len() - i,
    {
        let mut j: usize = 0;
        while j < i
            invariant
                all == rows::links(t@),
                j <= i < t@.len(),
                forall|a: int| 0 <= a < j ==> (#[trigger] all[a]).key != all[i as int].key,
            decreases i - j,
        {
            assert(all[j as int] == t@[j as int]@ && all[i as int] == t@[i as int]@);
            if str_eq(t[j].key.as_str(), t[i].key.as_str()) {
                return false;
            }
            j = j + 1;
        }
        i = i + 1;
    }
    true
}

fn links_lead(t: &Vec<LinkRow>, projects: &Vec<ProjectRow>) -> (r: bool)
    ensures
        r == model::lead_to_projects(rows::links(t@), rows::projects(projects@)),
{
    let ghost all = rows::links(t@);
    let mut i: usize = 0;
    while i < t.len()
        invariant
            all == rows::links(t@),
            i <= t@.len(),
            forall|a: int|
                0 <= a < i ==> model::live(
                    rows::projects(projects@),
                    (#[trigger] all[a]).target,
                ),
        decreases t@.len() - i,
    {
        assert(all[i as int] == t@[i as int]@);
        if !is_live(projects, t[i].target.as_str()) {
            return false;
        }
        i = i + 1;
    }
    true
}

fn projects_unique(t: &Vec<ProjectRow>) -> (r: bool)
    ensures
        r == model::unique_projects(rows::projects(t@)),
{
    let ghost all = rows::projects(t@);
    let mut i: usize = 0;
    while i < t.len()
        invariant
            all == rows::projects(t@),
            i <= t@.len(),
            forall|a: int, b: int|
                0 <= a < b < i ==> (#[trigger] all[a]).project_id != (#[trigger] all[b]).project_id,
        decreases t@.len() - i,
    {
        let mut j: usize = 0;
        while j < i
            invariant
                all == rows::projects(t@),
                j <= i < t@.len(),
                forall|a: int|
                    0 <= a < j ==> (#[trigger] all[a]).project_id != all[i as int].project_id,
            decreases i - j,
        {
            assert(all[j as int] == t@[j as int]@ && all[i as int] == t@[i as int]@);
            if str_eq(t[j].project_id.as_str(), t[i].project_id.as_str()) {
                return false;
            }
            j = j + 1;
        }
        i = i + 1;
    }
    true
}

fn workspaces_unique(t: &Vec<WorkspaceRow>) -> (r: bool)
    ensures
        r == model::unique_workspaces(rows::workspaces(t@)),
{
    let ghost all = rows::workspaces(t@);
    let mut i: usize = 0;
    while i < t.len()
        invariant
            all == rows::workspaces(t@),
            i <= t@.len(),
            forall|a: int, b: int|
                0 <= a < b < i ==> (#[trigger] all[a]).workspace_id != (
                #[trigger] all[b]).workspace_id,
        decreases t@.len() - i,
    {
        let mut j: usize = 0;
        while j < i
            invariant
                all == rows::workspaces(t@),
                j <= i < t@.len(),
                forall|a: int|
                    0 <= a < j ==> (#[trigger] all[a]).workspace_id != all[i as int].workspace_id,
            decreases i - j,
        {
            assert(all[j as int] == t@[j as int]@ && all[i as int] == t@[i as int]@);
            if str_eq(t[j].workspace_id.as_str(), t[i].workspace_id.as_str()) {
                return false;
            }
            j = j + 1;
        }
        i = i + 1;
    }
    true
}

fn members_sound(t: &Vec<MemberRow>) -> (r: bool)
    ensures
        r == model::sound_members(rows::members(t@)),
{
    let ghost all = rows::members(t@);
    let mut i: usize = 0;
    while i < t.len()
        invariant
            all == rows::members(t@),
            i <= t@.len(),
            forall|a: int, b: int|
                0 <= a < b < i ==> !model::same_reference(#[trigger] all[a], #[trigger] all[b]),
            forall|a: int|
                0 <= a < i ==> (#[trigger] all[a]).remote == (all[a].device.len() > 0),
        decreases t@.len() - i,
    {
        assert(all[i as int] == t@[i as int]@);
        if t[i].remote == t[i].device_fingerprint.as_str().is_empty() {
            return false;
        }
        let mut j: usize = 0;
        while j < i
            invariant
                all == rows::members(t@),
                j <= i < t@.len(),
                forall|a: int|
                    0 <= a < j ==> !model::same_reference(#[trigger] all[a], all[i as int]),
            decreases i - j,
        {
            assert(all[j as int] == t@[j as int]@ && all[i as int] == t@[i as int]@);
            if t[j].remote == t[i].remote && t[j].device_fingerprint == t[i].device_fingerprint
                && t[j].project_id == t[i].project_id {
                assert(model::same_reference(all[j as int], all[i as int]));
                return false;
            }
            j = j + 1;
        }
        i = i + 1;
    }
    true
}

fn opt_same(a: &Option<String>, b: &Option<String>) -> (r: bool)
    ensures
        r == (a is Some && text::opt_text(*a) == text::opt_text(*b)),
{
    match (a, b) {
        (Some(x), Some(y)) => str_eq(x.as_str(), y.as_str()),
        _ => false,
    }
}

fn journal_sound(t: &Vec<JournalRow>) -> (r: bool)
    ensures
        r == model::sound_journal(rows::entries(t@)),
{
    let ghost all = rows::entries(t@);
    let mut i: usize = 0;
    while i < t.len()
        invariant
            all == rows::entries(t@),
            i <= t@.len(),
            forall|a: int| 0 <= a < i ==> (#[trigger] all[a]).seq >= 1,
            forall|a: int, b: int|
                0 <= a < b < i ==> (#[trigger] all[a]).seq < (#[trigger] all[b]).seq,
            forall|a: int, b: int|
                0 <= a < b < i && (#[trigger] all[a]).request_key is Some ==> all[a].request_key
                    != (#[trigger] all[b]).request_key,
        decreases t@.len() - i,
    {
        assert(all[i as int] == t@[i as int]@);
        if t[i].seq < 1 {
            return false;
        }
        let mut j: usize = 0;
        while j < i
            invariant
                all == rows::entries(t@),
                j <= i < t@.len(),
                forall|a: int|
                    0 <= a < j ==> (#[trigger] all[a]).seq < all[i as int].seq && (
                    all[a].request_key is Some ==> all[a].request_key
                        != all[i as int].request_key),
            decreases i - j,
        {
            assert(all[j as int] == t@[j as int]@ && all[i as int] == t@[i as int]@);
            if t[j].seq >= t[i].seq || opt_same(&t[j].request_key, &t[i].request_key) {
                return false;
            }
            j = j + 1;
        }
        i = i + 1;
    }
    true
}

impl TableRows {
    /// Whether the tables hold what they may hold together.
    pub fn is_sound(&self) -> (r: bool)
        ensures
            r == self@.sound(),
    {
        if !(workspaces_unique(&self.workspaces) && members_sound(&self.members)
            && projects_unique(&self.projects) && links_unique(&self.placements) && links_unique(
            &self.roots,
        ) && links_unique(&self.parents) && links_unique(&self.aliases) && links_lead(
            &self.roots,
            &self.projects,
        ) && links_lead(&self.parents, &self.projects) && links_lead(
            &self.aliases,
            &self.projects,
        )) {
            return false;
        }
        let ghost t = self@;
        let mut i: usize = 0;
        while i < self.placements.len()
            invariant
                t == self@,
                i <= self.placements@.len(),
                forall|a: int|
                    0 <= a < i ==> model::live(t.projects, (#[trigger] t.placements[a]).key)
                        && model::known(t.workspaces, t.placements[a].target),
            decreases self.placements@.len() - i,
        {
            assert(t.placements[i as int] == self.placements@[i as int]@);
            if !is_live(&self.projects, self.placements[i].key.as_str()) || !is_known(
                &self.workspaces,
                self.placements[i].target.as_str(),
            ) {
                return false;
            }
            i = i + 1;
        }
        let mut k: usize = 0;
        while k < self.members.len()
            invariant
                t == self@,
                k <= self.members@.len(),
                forall|a: int|
                    0 <= a < k ==> model::known(
                        t.workspaces,
                        (#[trigger] t.members[a]).workspace_id,
                    ),
            decreases self.members@.len() - k,
        {
            assert(t.members[k as int] == self.members@[k as int]@);
            if !is_known(&self.workspaces, self.members[k].workspace_id.as_str()) {
                return false;
            }
            k = k + 1;
        }
        true
    }

    /// A copy of the tables.
    pub fn copy(&self) -> (r: Self)
        ensures
            r@ == self@,
    {
        let mut workspaces: Vec<WorkspaceRow> = Vec::new();
        let mut i: usize = 0;
        while i < self.workspaces.len()
            invariant
                i <= self.workspaces@.len(),
                workspaces@.len() == i,
                forall|j: int|
                    0 <= j < i ==> (#[trigger] workspaces@[j])@ == self.workspaces@[j]@,
            decreases self.workspaces@.len() - i,
        {
            workspaces.push(self.workspaces[i].copy());
            i = i + 1;
        }
        let mut members: Vec<MemberRow> = Vec::new();
        let mut k: usize = 0;
        while k < self.members.len()
            invariant
                k <= self.members@.len(),
                members@.len() == k,
                forall|j: int| 0 <= j < k ==> (#[trigger] members@[j])@ == self.members@[j]@,
            decreases self.members@.len() - k,
        {
            members.push(self.members[k].copy());
            k = k + 1;
        }
        let mut projects: Vec<ProjectRow> = Vec::new();
        let mut n: usize = 0;
        while n < self.projects.len()
            invariant
                n <= self.projects@.len(),
                projects@.len() == n,
                forall|j: int| 0 <= j < n ==> (#[trigger] projects@[j])@ == self.projects@[j]@,
            decreases self.projects@.len() - n,
        {
            projects.push(self.projects[n].copy());
            n = n + 1;
        }
        assert(rows::workspaces(workspaces@) =~= rows::workspaces(self.workspaces@));
        assert(rows::members(members@) =~= rows::members(self.members@));
        assert(rows::projects(projects@) =~= rows::projects(self.projects@));
        TableRows {
            workspaces,
            members,
            projects,
            placements: copy_links(&self.placements),
            roots: copy_links(&self.roots),
            parents: copy_links(&self.parents),
            aliases: copy_links(&self.aliases),
        }
    }

    /// Adds a row, unless it breaks a constraint.
    pub fn write(&mut self, row: &Write) -> (r: Result<(), String>)
        ensures
            match written(old(self)@, row@) {
                Ok(u) => r is Ok && final(self)@ == u,
                Err(e) => r matches Err(s) && s@ == e && final(self)@ == old(self)@,
            },
    {
        let ghost t = self@;
        match row {
            Write::Workspace(w) => {
                if is_known(&self.workspaces, w.workspace_id.as_str()) {
                    return Err("UNIQUE constraint failed: workspace.workspace_id".to_owned());
                }
                self.workspaces.push(w.copy());
                assert(self@.workspaces =~= t.workspaces.push(w@));
                Ok(())
            },
            Write::Member(m) => {
                if m.remote == m.device_fingerprint.as_str().is_empty() {
                    return Err(
                        "CHECK constraint failed: (ref_kind = 'local' AND device_fingerprint = '') OR\n           (ref_kind = 'remote' AND device_fingerprint <> '')".to_owned(),
                    );
                }
                if is_referenced(&self.members, m) {
                    return Err(
                        "UNIQUE constraint failed: workspace_member.ref_kind, workspace_member.device_fingerprint, workspace_member.project_id".to_owned(),
                    );
                }
                if !is_known(&self.workspaces, m.workspace_id.as_str()) {
                    return Err("FOREIGN KEY constraint failed".to_owned());
                }
                self.members.push(m.copy());
                assert(self@.members =~= t.members.push(m@));
                Ok(())
            },
            Write::Project(p) => {
                if is_live(&self.projects, p.project_id.as_str()) {
                    return Err("UNIQUE constraint failed: project.project_id".to_owned());
                }
                self.projects.push(p.copy());
                assert(self@.projects =~= t.projects.push(p@));
                Ok(())
            },
            Write::Placement(l) => {
                let refers = is_live(&self.projects, l.key.as_str()) && is_known(
                    &self.workspaces,
                    l.target.as_str(),
                );
                add_row(
                    &mut self.placements,
                    l,
                    "UNIQUE constraint failed: project_workspace.project_id",
                    refers,
                )
            },
            Write::Root(l) => {
                let refers = is_live(&self.projects, l.target.as_str());
                add_row(
                    &mut self.roots,
                    l,
                    "UNIQUE constraint failed: project_root.canonical_root",
                    refers,
                )
            },
            Write::Parent(l) => {
                let refers = is_live(&self.projects, l.target.as_str());
                add_row(
                    &mut self.parents,
                    l,
                    "UNIQUE constraint failed: derived_root_parent.canonical_parent",
                    refers,
                )
            },
            Write::Alias(l) => {
                let refers = is_live(&self.projects, l.target.as_str());
                add_row(
                    &mut self.aliases,
                    l,
                    "UNIQUE constraint failed: project_alias.old_id",
                    refers,
                )
            },
        }
    }
}

impl RegistryStore {
    /// A registry that holds nothing.
    pub fn new() -> (r: Self)
        ensures
            r@.tables == Tables::empty(),
            r@.journal.len() == 0,
            r@.sound(),
    {
        RegistryStore { tables: TableRows::new(), journal: Vec::new() }
    }

    /// The registry that holds these rows, where they can stand together.
    pub fn from_rows(tables: TableRows, journal: Vec<JournalRow>) -> (r: Option<Self>)
        ensures
            ({
                let held = Registry { tables: tables@, journal: rows::entries(journal@) };
                match r {
                    Some(store) => held.sound() && store@ == held,
                    None => !held.sound(),
                }
            }),
    {
        if tables.is_sound() && journal_sound(&journal) {
            Some(RegistryStore { tables, journal })
        } else {
            None
        }
    }

    /// The rows of the projection tables.
    pub fn tables(&self) -> (r: &TableRows)
        ensures
            r@ == self@.tables,
    {
        &self.tables
    }

    /// The rows of the journal.
    pub fn journal(&self) -> (r: &Vec<JournalRow>)
        ensures
            rows::entries(r@) == self@.journal,
    {
        &self.journal
    }

    /// The canonical form of a path for a mutation, which must exist.
    pub fn canonical_mutation_root(raw_path: &str, probe: &RootProbe) -> (r: Result<
        String,
        RegistryError,
    >)
        ensures
            match paths::mutation_root(raw_path@, probe@) {
                Ok(value) => r matches Ok(s) && s@ == value,
                Err(e) => r matches Err(f) && f@ == e,
            },
    {
        match probe {
            RootProbe::Canonical(value) => Ok(value.clone()),
            RootProbe::Absent => Err(
                RegistryError::Path(cat("project root does not exist: ", raw_path)),
            ),
            RootProbe::Failed(e) => Err(RegistryError::Path(e.clone())),
        }
    }

    /// Appends a journal entry and adds the rows that belong to it, or does
    /// neither. Returns the entry's sequence number.
    pub fn apply_entry(
        &mut self,
        op: &str,
        payload_json: &str,
        actor: &str,
        request_key: &Option<String>,
        now: i64,
        record: JournalRecord,
        projection: &Vec<Write>,
    ) -> (r: Result<i64, RegistryError>)
        requires
            old(self)@.sound(),
        ensures
            match applied(
                old(self)@,
                Note {
                    op: op@,
                    payload: payload_json@,
                    actor: actor@,
                    request_key: text::opt_text(*request_key),
                    now,
                    record: record@,
                },
                writes(projection@),
            ) {
                Ok(after) => r matches Ok(seq) && seq == old(self)@.generation() + 1
                    && final(self)@ == after,
                Err(e) => r matches Err(f) && f@ == e && final(self)@ == old(self)@,
            },
            final(self)@.sound(),
    {
        let ghost before = self@;
        let ghost note = Note {
            op: op@,
            payload: payload_json@,
            actor: actor@,
            request_key: text::opt_text(*request_key),
            now,
            record: record@,
        };
        if let Some(e) = self.find_append_complaint(request_key) {
            return Err(RegistryError::Store(cat("storage backend: ", e.as_str())));
        }
        let ghost all = writes(projection@);
        let mut tables = self.tables.copy();
        let mut i: usize = 0;
        assert(all.take(0) =~= Seq::empty());
        while i < projection.len()
            invariant
                all == writes(projection@),
                *self == *old(self),
                before == self@,
                before.sound(),
                append_complaint(before, note.request_key) is None,
                applied(before, note, all) == match written_all(before.tables, all) {
                    Err(e) => Err(rolled_back(e)),
                    Ok(t) => Ok::<Registry, Failure>(
                        Registry {
                            tables: t,
                            journal: frame::appended(before.journal, note),
                        },
                    ),
                },
                note == (Note {
                    op: op@,
                    payload: payload_json@,
                    actor: actor@,
                    request_key: text::opt_text(*request_key),
                    now,
                    record: record@,
                }),
                i <= projection@.len(),
                written_all(before.tables, all.take(i as int)) == Ok::<Tables, Text>(tables@),
                tables@.sound(),
            decreases projection@.len() - i,
        {
            assert(all.take(i + 1).drop_last() =~= all.take(i as int));
            assert(all.take(i + 1).last() == projection@[i as int]@);
            proof {
                lemma_written(tables@, projection@[i as int]@);
            }
            match tables.write(&projection[i]) {
                Ok(()) => {},
                Err(e) => {
                    proof {
                        lemma_written_stops(before.tables, all, i + 1);
                    }
                    return Err(RegistryError::Store(cat("storage backend: ", e.as_str())));
                },
            }
            i = i + 1;
        }
        assert(all.take(i as int) =~= all);
        proof {
            frame::lemma_appended(before.journal, note);
        }
        let appended = self.append(
            op,
            payload_json.to_owned(),
            actor,
            request_key,
            now,
            record,
        );
        self.tables = tables;
        appended
    }
}

} // verus!
