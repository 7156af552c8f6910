//! Queries. None of them changes the registry.
use vstd::prelude::*;
use vstd::string::*;

use crate::error::RegistryError;
use crate::ids::implicit_project_id;
use crate::model::{Entry, Link, Member, Project, Registry, Tables, Workspace};
use crate::order::str_lt;
use crate::paths::{
    canonical_query_path, lexical_absolute, path_depth, path_prefix_or_equal, Probe, QueryProbe,
};
use crate::rows::{find_project, lookup};
use crate::store::RegistryStore;
use crate::text::{clone_opt, Text};
use crate::{ids, model, order, paths, rows, text};

verus! {

/// Where a path leads.
#[derive(Debug, Clone)]
pub struct ResolveReply {
    pub project_id: String,
    pub workspace_id: Option<String>,
    pub project_name: Option<String>,
    pub via: String,
    pub gone: bool,
    pub generation: i64,
    pub canonical_root: Option<String>,
}

/// What a [`ResolveReply`] says.
pub struct Resolved {
    pub project_id: Text,
    pub workspace_id: Option<Text>,
    pub project_name: Option<Text>,
    pub via: Text,
    pub gone: bool,
    pub generation: i64,
    pub canonical_root: Option<Text>,
}

impl View for ResolveReply {
    type V = Resolved;

    open spec fn view(&self) -> Resolved {
        Resolved {
            project_id: self.project_id@,
            workspace_id: text::opt_text(self.workspace_id),
            project_name: text::opt_text(self.project_name),
            via: self.via@,
            gone: self.gone,
            generation: self.generation,
            canonical_root: text::opt_text(self.canonical_root),
        }
    }
}

/// The registered name of a project.
pub open spec fn project_name(t: Tables, id: Text) -> Option<Text> {
    match model::project(t.projects, id) {
        Some(p) => Some(p.name),
        None => None,
    }
}

/// The reply for a registered project.
pub open spec fn project_reply(
    reg: Registry,
    id: Text,
    via: Text,
    gone: bool,
    path: Text,
) -> Resolved {
    Resolved {
        project_id: id,
        workspace_id: model::target(reg.tables.placements, id),
        project_name: project_name(reg.tables, id),
        via,
        gone,
        generation: reg.generation(),
        canonical_root: Some(path),
    }
}

/// Whether a parent contains the path. Where the devices of both are known they
/// must be one.
pub open spec fn fits(parent: Link, path: Text, device: Option<u64>, at: Option<u64>) -> bool {
    paths::contains_path(parent.key, path) && !(device is Some && at is Some && device != at)
}

/// Whether the first parent goes before the second: it is deeper, or as deep
/// and smaller.
pub open spec fn nearer(a: Link, b: Link) -> bool {
    let x = paths::components(a.key).len();
    let y = paths::components(b.key).len();
    x > y || x == y && order::text_lt(a.key, b.key)
}

/// Whether a parent contains the path and goes before all others that do.
pub open spec fn is_nearest(
    parents: Seq<Link>,
    path: Text,
    device: Option<u64>,
    devices: Seq<Option<u64>>,
    i: int,
) -> bool {
    &&& 0 <= i < parents.len()
    &&& fits(parents[i], path, device, devices[i])
    &&& forall|j: int|
        0 <= j < parents.len() && j != i && fits(#[trigger] parents[j], path, device, devices[j])
            ==> nearer(parents[i], parents[j])
}

/// The project of the nearest parent that contains the path.
pub open spec fn container(
    parents: Seq<Link>,
    path: Text,
    device: Option<u64>,
    devices: Seq<Option<u64>>,
) -> Option<Text> {
    if exists|i: int| is_nearest(parents, path, device, devices, i) {
        Some(parents[choose|i: int| is_nearest(parents, path, device, devices, i)].target)
    } else {
        None
    }
}

/// Where a canonical path leads: to the project that has it for a root, else to
/// that of the nearest parent that contains it, else to its implicit id.
pub open spec fn resolution(
    reg: Registry,
    path: Text,
    exists_there: bool,
    device: Option<u64>,
    devices: Seq<Option<u64>>,
) -> Resolved {
    match model::target(reg.tables.roots, path) {
        Some(id) => project_reply(reg, id, "root"@, !exists_there, path),
        None => match container(
            reg.tables.parents,
            path,
            if exists_there {
                device
            } else {
                None
            },
            devices,
        ) {
            Some(id) => project_reply(reg, id, "containment"@, !exists_there, path),
            None => Resolved {
                project_id: ids::implicit_id(path),
                workspace_id: None,
                project_name: None,
                via: "implicit"@,
                gone: !exists_there,
                generation: reg.generation(),
                canonical_root: Some(path),
            },
        },
    }
}

/// Of two different parents one goes before the other, and not both.
pub proof fn lemma_nearer(a: Link, b: Link, c: Link)
    ensures
        a.key != b.key ==> nearer(a, b) || nearer(b, a),
        !(nearer(a, b) && nearer(b, a)),
        nearer(a, b) && nearer(b, c) ==> nearer(a, c),
{
    order::lemma_text_total(a.key, b.key);
    if order::text_lt(a.key, b.key) && order::text_lt(b.key, a.key) {
        order::lemma_text_transitive(a.key, b.key, a.key);
        order::lemma_text_irreflexive(a.key);
    }
    if order::text_lt(a.key, b.key) && order::text_lt(b.key, c.key) {
        order::lemma_text_transitive(a.key, b.key, c.key);
    }
}

/// There is at most one nearest parent, and it decides.
pub proof fn lemma_container(
    parents: Seq<Link>,
    path: Text,
    device: Option<u64>,
    devices: Seq<Option<u64>>,
    i: int,
)
    requires
        is_nearest(parents, path, device, devices, i),
    ensures
        container(parents, path, device, devices) == Some(parents[i].target),
{
    let k = choose|k: int| is_nearest(parents, path, device, devices, k);
    if k != i {
        assert(nearer(parents[i], parents[k]));
        assert(nearer(parents[k], parents[i]));
        lemma_nearer(parents[i], parents[k], parents[i]);
    }
}

/// Where a project id leads.
#[derive(Debug, Clone)]
pub struct ResolveProjectIdReply {
    pub project_id: String,
    pub via: String,
    pub gone: bool,
    pub generation: i64,
}

/// What a [`ResolveProjectIdReply`] says.
pub struct Traced {
    pub project_id: Text,
    pub via: Text,
    pub gone: bool,
    pub generation: i64,
}

impl View for ResolveProjectIdReply {
    type V = Traced;

    open spec fn view(&self) -> Traced {
        Traced {
            project_id: self.project_id@,
            via: self.via@,
            gone: self.gone,
            generation: self.generation,
        }
    }
}

/// Where a project id leads: to itself where it is registered, else to what it
/// is an alias of, else nowhere.
pub open spec fn trace(reg: Registry, id: Text) -> Traced {
    if model::live(reg.tables.projects, id) {
        Traced { project_id: id, via: "current"@, gone: false, generation: reg.generation() }
    } else {
        match model::target(reg.tables.aliases, id) {
            Some(to) => Traced {
                project_id: to,
                via: "alias"@,
                gone: false,
                generation: reg.generation(),
            },
            None => Traced {
                project_id: id,
                via: "gone"@,
                gone: true,
                generation: reg.generation(),
            },
        }
    }
}

/// A workspace in an enumeration.
#[derive(Debug, Clone)]
pub struct WorkspaceSummary {
    pub workspace_id: String,
    pub name: String,
}

/// A project in an enumeration.
#[derive(Debug, Clone)]
pub struct ProjectView {
    pub project_id: String,
    pub name: String,
    pub roots: Vec<String>,
    pub implicit: bool,
    pub ref_kind: String,
    pub device_fingerprint: Option<String>,
    /// The workspace the project is placed in.
    pub workspace_id: Option<String>,
    pub last_route_activity_ms: Option<i64>,
}

/// What the registry holds.
#[derive(Debug, Clone)]
pub struct EnumerateReply {
    pub workspaces: Vec<WorkspaceSummary>,
    pub projects: Vec<ProjectView>,
    pub generation: i64,
}

/// What a [`ProjectView`] says.
#[verifier::ext_equal]
pub struct Shown {
    pub project_id: Text,
    pub name: Text,
    pub roots: Seq<Text>,
    pub implicit: bool,
    pub ref_kind: Text,
    pub device: Option<Text>,
    pub workspace_id: Option<Text>,
    pub activity: Option<i64>,
}

/// What an [`EnumerateReply`] says; a workspace is its id and name.
#[verifier::ext_equal]
pub struct Listing {
    pub workspaces: Seq<(Text, Text)>,
    pub projects: Seq<Shown>,
    pub generation: i64,
}

impl View for ProjectView {
    type V = Shown;

    open spec fn view(&self) -> Shown {
        Shown {
            project_id: self.project_id@,
            name: self.name@,
            roots: text::texts(self.roots@),
            implicit: self.implicit,
            ref_kind: self.ref_kind@,
            device: text::opt_text(self.device_fingerprint),
            workspace_id: text::opt_text(self.workspace_id),
            activity: self.last_route_activity_ms,
        }
    }
}

/// The workspaces in a vector.
pub open spec fn summaries(v: Seq<WorkspaceSummary>) -> Seq<(Text, Text)> {
    v.map_values(|w: WorkspaceSummary| (w.workspace_id@, w.name@))
}

/// The projects in a vector.
pub open spec fn views(v: Seq<ProjectView>) -> Seq<Shown> {
    v.map_values(|p: ProjectView| p@)
}

impl View for EnumerateReply {
    type V = Listing;

    open spec fn view(&self) -> Listing {
        Listing {
            workspaces: summaries(self.workspaces@),
            projects: views(self.projects@),
            generation: self.generation,
        }
    }
}

/// The roots of a project, in order.
pub open spec fn project_roots(t: Tables, id: Text) -> Seq<Text> {
    order::sorted(t.roots.filter(|l: Link| l.target == id).map_values(|l: Link| l.key))
}

/// A project as an enumeration shows it.
pub open spec fn shown(
    t: Tables,
    id: Text,
    name: Text,
    implicit: bool,
    ref_kind: Text,
    device: Option<Text>,
) -> Shown {
    Shown {
        project_id: id,
        name,
        roots: project_roots(t, id),
        implicit,
        ref_kind,
        device,
        workspace_id: model::target(t.placements, id),
        activity: None,
    }
}

/// What a reference is called.
pub open spec fn ref_kind(m: Member) -> Text {
    if m.remote {
        "remote"@
    } else {
        "local"@
    }
}

/// A referenced project as the enumeration of its workspace shows it. One that
/// is not registered here goes by its id.
pub open spec fn shown_member(t: Tables, m: Member) -> Shown {
    let device = if m.remote {
        Some(m.device)
    } else {
        None
    };
    match model::project(t.projects, m.project_id) {
        Some(p) => shown(t, m.project_id, p.name, p.implicit, ref_kind(m), device),
        None => shown(t, m.project_id, m.project_id, false, ref_kind(m), device),
    }
}

/// A registered project as a full enumeration shows it.
pub open spec fn shown_project(t: Tables, p: Project) -> Shown {
    shown(t, p.project_id, p.name, p.implicit, "local"@, None)
}

/// A remote project as a full enumeration shows it.
pub open spec fn shown_remote(t: Tables, m: Member) -> Shown {
    shown(t, m.project_id, m.project_id, false, "remote"@, Some(m.device))
}

/// The references of a workspace, by kind, device and project.
pub open spec fn roster(members: Seq<Member>, workspace_id: Text) -> Seq<Member> {
    let of_it = members.filter(|m: Member| m.workspace_id == workspace_id);
    order::pick(
        of_it,
        order::order_of(
            of_it.map_values(|m: Member| seq![ref_kind(m), m.device, m.project_id]),
        ),
    )
}

/// The remote references, by device and project.
pub open spec fn remotes(members: Seq<Member>) -> Seq<Member> {
    let far = members.filter(|m: Member| m.remote);
    order::pick(far, order::order_of(far.map_values(|m: Member| seq![m.device, m.project_id])))
}

/// The projects, by id.
pub open spec fn projects_by_id(projects: Seq<Project>) -> Seq<Project> {
    order::pick(projects, order::order_of(projects.map_values(|p: Project| seq![p.project_id])))
}

/// The workspaces, by id.
pub open spec fn workspaces_by_id(workspaces: Seq<Workspace>) -> Seq<Workspace> {
    order::pick(
        workspaces,
        order::order_of(workspaces.map_values(|w: Workspace| seq![w.workspace_id])),
    )
}

/// What the registry holds: one workspace with its references, or everything.
pub open spec fn listing(reg: Registry, workspace_id: Option<Text>) -> Listing {
    let t = reg.tables;
    match workspace_id {
        Some(w) => Listing {
            workspaces: match model::workspace(t.workspaces, w) {
                Some(row) => seq![(row.workspace_id, row.name)],
                None => Seq::empty(),
            },
            projects: roster(t.members, w).map_values(|m: Member| shown_member(t, m)),
            generation: reg.generation(),
        },
        None => Listing {
            workspaces: workspaces_by_id(t.workspaces).map_values(
                |w: Workspace| (w.workspace_id, w.name),
            ),
            projects: projects_by_id(t.projects).map_values(|p: Project| shown_project(t, p))
                + remotes(t.members).map_values(|m: Member| shown_remote(t, m)),
            generation: reg.generation(),
        },
    }
}

/// A journal entry in a tail.
#[derive(Debug, Clone)]
pub struct JournalEntry {
    pub seq: i64,
    pub op: String,
    pub payload_json: String,
    pub actor: String,
    pub request_key: Option<String>,
    pub created_at: i64,
}

/// Journal entries after a point.
#[derive(Debug, Clone)]
pub struct JournalTailReply {
    pub entries: Vec<JournalEntry>,
    pub generation: i64,
}

/// What a [`JournalEntry`] says.
pub struct Told {
    pub seq: i64,
    pub op: Text,
    pub payload: Text,
    pub actor: Text,
    pub request_key: Option<Text>,
    pub created_at: i64,
}

impl View for JournalEntry {
    type V = Told;

    open spec fn view(&self) -> Told {
        Told {
            seq: self.seq,
            op: self.op@,
            payload: self.payload_json@,
            actor: self.actor@,
            request_key: text::opt_text(self.request_key),
            created_at: self.created_at,
        }
    }
}

/// The entries in a vector.
pub open spec fn told_entries(v: Seq<JournalEntry>) -> Seq<Told> {
    v.map_values(|e: JournalEntry| e@)
}

/// An entry as a tail tells it.
pub open spec fn tell(e: Entry) -> Told {
    Told {
        seq: e.seq,
        op: e.op,
        payload: e.payload,
        actor: e.actor,
        request_key: e.request_key,
        created_at: e.created_at,
    }
}

/// How many entries a tail may hold: at least one, at most a thousand.
pub open spec fn tail_limit(limit: i64) -> int {
    if limit < 1 {
        1
    } else if limit > 1000 {
        1000
    } else {
        limit as int
    }
}

/// The entries after a sequence number.
pub open spec fn later(journal: Seq<Entry>, after: i64) -> Seq<Entry> {
    journal.filter(|e: Entry| e.seq > after)
}

/// The newest entries after a sequence number, as many as the limit allows,
/// oldest first.
pub open spec fn tail(journal: Seq<Entry>, after: i64, limit: i64) -> Seq<Told> {
    let all = later(journal, after);
    all.skip(
        if all.len() > tail_limit(limit) {
            all.len() - tail_limit(limit)
        } else {
            0
        },
    ).map_values(|e: Entry| tell(e))
}

impl RegistryStore {
    fn reply_for_project(&self, project_id: &str, via: &str, gone: bool, path: &str) -> (r:
        ResolveReply)
        requires
            self@.sound(),
        ensures
            r@ == project_reply(self@, project_id@, via@, gone, path@),
    {
        ResolveReply {
            project_id: project_id.to_owned(),
            workspace_id: lookup(&self.tables.placements, project_id),
            project_name: match find_project(&self.tables.projects, project_id) {
                Some(p) => Some(p.name),
                None => None,
            },
            via: via.to_owned(),
            gone,
            generation: self.generation(),
            canonical_root: Some(path.to_owned()),
        }
    }

    /// The project of the nearest parent that contains the path.
    fn find_container(&self, path: &str, device: Option<u64>, devices: &Vec<Option<u64>>) -> (r:
        Option<String>)
        requires
            self@.sound(),
            devices@.len() == self@.tables.parents.len(),
        ensures
            text::opt_text(r) == container(self@.tables.parents, path@, device, devices@),
    {
        let ghost all = self@.tables.parents;
        let mut best: Option<usize> = None;
        let mut i: usize = 0;
        while i < self.tables.parents.len()
            invariant
                all == rows::links(self.tables.parents@),
                model::unique_links(all),
                devices@.len() == all.len(),
                i <= all.len(),
                match best {
                    None => forall|j: int|
                        0 <= j < i ==> !fits(#[trigger] all[j], path@, device, devices@[j]),
                    Some(b) => b < i && fits(all[b as int], path@, device, devices@[b as int])
                        && forall|j: int|
                        0 <= j < i && j != b && fits(
                            #[trigger] all[j],
                            path@,
                            device,
                            devices@[j],
                        ) ==> nearer(all[b as int], all[j]),
                },
            decreases all.len() - i,
        {
            assert(all[i as int] == self.tables.parents@[i as int]@);
            let parent = self.tables.parents[i].key.as_str();
            let apart = match (device, devices[i]) {
                (Some(a), Some(b)) => a != b,
                _ => false,
            };
            if path_prefix_or_equal(parent, path) && !apart {
                match best {
                    None => {
                        best = Some(i);
                    },
                    Some(b) => {
                        assert(all[b as int] == self.tables.parents@[b as int]@);
                        assert(all[b as int].key != all[i as int].key);
                        let held = self.tables.parents[b].key.as_str();
                        let x: usize = path_depth(parent);
                        let y: usize = path_depth(held);
                        let wins = x > y || (x == y && str_lt(parent, held));
                        assert(wins == nearer(all[i as int], all[b as int]));
                        proof {
                            lemma_nearer(all[i as int], all[b as int], all[i as int]);
                            assert forall|j: int|
                                wins && 0 <= j < i + 1 && j != i && fits(
                                    #[trigger] all[j],
                                    path@,
                                    device,
                                    devices@[j],
                                ) implies nearer(all[i as int], all[j]) by {
                                lemma_nearer(all[i as int], all[b as int], all[j]);
                            }
                        }
                        if wins {
                            best = Some(i);
                        }
                    },
                }
            }
            i = i + 1;
        }
        match best {
            None => {
                assert(forall|k: int| !is_nearest(all, path@, device, devices@, k));
                None
            },
            Some(b) => {
                proof {
                    lemma_container(all, path@, device, devices@, b as int);
                }
                assert(all[b as int] == self.tables.parents@[b as int]@);
                Some(self.tables.parents[b].target.clone())
            },
        }
    }

    /// Where a canonical path leads. `device` is that of the path and `devices`
    /// are those of the parents, row by row, where known.
    pub fn resolve_canonical(
        &self,
        path: &str,
        path_exists: bool,
        device: Option<u64>,
        devices: &Vec<Option<u64>>,
    ) -> (r: ResolveReply)
        requires
            self@.sound(),
            devices@.len() == self@.tables.parents.len(),
        ensures
            r@ == resolution(self@, path@, path_exists, device, devices@),
    {
        if let Some(id) = lookup(&self.tables.roots, path) {
            return self.reply_for_project(id.as_str(), "root", !path_exists, path);
        }
        let usable = if path_exists {
            device
        } else {
            None
        };
        if let Some(id) = self.find_container(path, usable, devices) {
            return self.reply_for_project(id.as_str(), "containment", !path_exists, path);
        }
        ResolveReply {
            project_id: implicit_project_id(path),
            workspace_id: None,
            project_name: None,
            via: "implicit".to_owned(),
            gone: !path_exists,
            generation: self.generation(),
            canonical_root: Some(path.to_owned()),
        }
    }

    /// Where a path leads, by exact root, then containment, then its implicit
    /// id. `probe` is what the file system says of the path made absolute from
    /// `cwd`; the devices are as for [`RegistryStore::resolve_canonical`].
    pub fn resolve(
        &self,
        raw_path: &str,
        cwd: &str,
        probe: QueryProbe,
        device: Option<u64>,
        devices: &Vec<Option<u64>>,
    ) -> (r: Result<ResolveReply, RegistryError>)
        requires
            self@.sound(),
            devices@.len() == self@.tables.parents.len(),
            probe@ matches Probe::Found { climbed, .. } ==> climbed <= paths::climbable(
                paths::lexical(raw_path@, cwd@),
            ),
        ensures
            match paths::query_path(paths::lexical(raw_path@, cwd@), probe@) {
                Ok((path, exists_there)) => r matches Ok(reply) && reply@ == resolution(
                    self@,
                    path,
                    exists_there,
                    device,
                    devices@,
                ),
                Err(e) => r matches Err(f) && f@ == e,
            },
    {
        let lexical = lexical_absolute(raw_path, cwd);
        match canonical_query_path(lexical.as_str(), probe) {
            Ok((path, path_exists)) => Ok(
                self.resolve_canonical(path.as_str(), path_exists, device, devices),
            ),
            Err(e) => Err(e),
        }
    }

    /// Where a project id leads, through at most one alias. Every text has an
    /// answer.
    pub fn resolve_project_id(&self, project_id: &str) -> (r: ResolveProjectIdReply)
        ensures
            r@ == trace(self@, project_id@),
    {
        let generation: i64 = self.generation();
        if find_project(&self.tables.projects, project_id).is_some() {
            return ResolveProjectIdReply {
                project_id: project_id.to_owned(),
                via: "current".to_owned(),
                gone: false,
                generation,
            };
        }
        match lookup(&self.tables.aliases, project_id) {
            Some(to) => ResolveProjectIdReply {
                project_id: to,
                via: "alias".to_owned(),
                gone: false,
                generation,
            },
            None => ResolveProjectIdReply {
                project_id: project_id.to_owned(),
                via: "gone".to_owned(),
                gone: true,
                generation,
            },
        }
    }

    /// How many journal entries come after `after_seq`.
    fn count_later(&self, after_seq: i64) -> (r: usize)
        ensures
            r == later(self@.journal, after_seq).len(),
    {
        let ghost all = self@.journal;
        let ghost keep = |e: Entry| e.seq > after_seq;
        let mut n: usize = 0;
        let mut i: usize = 0;
        assert(all.take(0).filter(keep).len() == 0) by {
            reveal(Seq::filter);
        }
        while i < self.journal.len()
            invariant
                all == rows::entries(self.journal@),
                keep == (|e: Entry| e.seq > after_seq),
                i <= self.journal@.len(),
                n <= i,
                n == all.take(i as int).filter(keep).len(),
            decreases self.journal@.len() - i,
        {
            assert(all.take(i + 1).drop_last() =~= all.take(i as int));
            assert(all.take(i + 1).last() == self.journal@[i as int]@);
            assert(all.take(i + 1).filter(keep).len() == if keep(self.journal@[i as int]@) {
                n + 1
            } else {
                n as int
            }) by {
                reveal(Seq::filter);
            }
            if self.journal[i].seq > after_seq {
                n = n + 1;
            }
            i = i + 1;
        }
        assert(all.take(i as int) =~= all);
        n
    }

    /// The newest journal entries after `after_seq`, oldest first.
    pub fn journal_tail(&self, after_seq: i64, limit: i64) -> (r: JournalTailReply)
        ensures
            told_entries(r.entries@) == tail(self@.journal, after_seq, limit),
            r.generation == self@.generation(),
    {
        let most: usize = if limit < 1 {
            1
        } else if limit > 1000 {
            1000
        } else {
            limit as usize
        };
        let count = self.count_later(after_seq);
        let first: usize = if count > most {
            count - most
        } else {
            0
        };
        let ghost all = self@.journal;
        let ghost keep = |e: Entry| e.seq > after_seq;
        let ghost say = |e: Entry| tell(e);
        let mut out: Vec<JournalEntry> = Vec::new();
        let mut seen: usize = 0;
        let mut i: usize = 0;
        assert(all.take(0).filter(keep).len() == 0) by {
            reveal(Seq::filter);
        }
        while i < self.journal.len()
            invariant
                all == rows::entries(self.journal@),
                keep == (|e: Entry| e.seq > after_seq),
                say == (|e: Entry| tell(e)),
                i <= self.journal@.len(),
                seen <= i,
                seen == all.take(i as int).filter(keep).len(),
                if seen <= first {
                    out@.len() == 0
                } else {
                    told_entries(out@) == all.take(i as int).filter(keep).skip(
                        first as int,
                    ).map_values(say)
                },
            decreases self.journal@.len() - i,
        {
            let ghost before = told_entries(out@);
            let ghost kept = all.take(i as int).filter(keep);
            let ghost entry = self.journal@[i as int]@;
            assert(all.take(i + 1).drop_last() =~= all.take(i as int));
            assert(all.take(i + 1).last() == entry);
            assert(all.take(i + 1).filter(keep) == if keep(entry) {
                kept.push(entry)
            } else {
                kept
            }) by {
                reveal(Seq::filter);
            }
            if self.journal[i].seq > after_seq {
                if seen >= first {
                    let row = &self.journal[i];
                    let e = JournalEntry {
                        seq: row.seq,
                        op: row.op.clone(),
                        payload_json: row.payload_json.clone(),
                        actor: row.actor.clone(),
                        request_key: clone_opt(&row.request_key),
                        created_at: row.created_at,
                    };
                    out.push(e);
                    assert(told_entries(out@) =~= before.push(e@));
                    assert(kept.push(entry).skip(first as int).map_values(say) =~= kept.skip(
                        first as int,
                    ).map_values(say).push(tell(entry)));
                    assert(seen == first ==> before =~= kept.skip(first as int).map_values(say));
                }
                seen = seen + 1;
            }
            i = i + 1;
        }
        assert(all.take(i as int) =~= all);
        assert(told_entries(out@) =~= tail(all, after_seq, limit));
        JournalTailReply { entries: out, generation: self.generation() }
    }
}

} // verus!
