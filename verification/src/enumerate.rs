//! Enumerating what the registry holds.
use vstd::prelude::*;
use vstd::string::*;

use crate::model::{Link, Member, Project, Workspace};
use crate::order::{sort_order, sort_strs};
use crate::queries::{EnumerateReply, ProjectView, WorkspaceSummary};
use crate::rows::{find_project, find_workspace, lookup, MemberRow, ProjectRow, WorkspaceRow};
use crate::store::{RegistryStore, TableRows};
use crate::text::str_eq;
use crate::{order, queries, rows, text};

verus! {

/// The references of a workspace, or else the remote references.
fn pick_members(v: &Vec<MemberRow>, workspace_id: Option<&str>) -> (r: Vec<MemberRow>)
    ensures
        rows::members(r@) == (match workspace_id {
            Some(w) => rows::members(v@).filter(|m: Member| m.workspace_id == w@),
            None => rows::members(v@).filter(|m: Member| m.remote),
        }),
{
    let ghost all = rows::members(v@);
    let ghost keep = match workspace_id {
        Some(w) => |m: Member| m.workspace_id == w@,
        None => |m: Member| m.remote,
    };
    let mut out: Vec<MemberRow> = Vec::new();
    let mut i: usize = 0;
    assert(rows::members(out@) =~= all.take(0).filter(keep)) by {
        reveal(Seq::filter);
    }
    while i < v.len()
        invariant
            all == rows::members(v@),
            keep == (match workspace_id {
                Some(w) => |m: Member| m.workspace_id == w@,
                None => |m: Member| m.remote,
            }),
            i <= v@.len(),
            rows::members(out@) == all.take(i as int).filter(keep),
        decreases v@.len() - i,
    {
        let ghost before = rows::members(out@);
        assert(all.take(i + 1).drop_last() =~= all.take(i as int));
        assert(all.take(i + 1).last() == v@[i as int]@);
        assert(all.take(i + 1).filter(keep) == if keep(v@[i as int]@) {
            before.push(v@[i as int]@)
        } else {
            before
        }) by {
            reveal(Seq::filter);
        }
        let wanted = match workspace_id {
            Some(w) => str_eq(v[i].workspace_id.as_str(), w),
            None => v[i].remote,
        };
        if wanted {
            out.push(v[i].copy());
            assert(rows::members(out@) =~= before.push(v@[i as int]@));
        }
        i = i + 1;
    }
    assert(all.take(i as int) =~= all);
    out
}

/// What a reference is called.
fn kind_of(m: &MemberRow) -> (r: String)
    ensures
        r@ == queries::ref_kind(m@),
{
    if m.remote {
        "remote".to_owned()
    } else {
        "local".to_owned()
    }
}

/// The references at these places.
pub(crate) fn pick_rows(v: &Vec<MemberRow>, places: &Vec<usize>) -> (r: Vec<MemberRow>)
    requires
        forall|i: int| 0 <= i < places@.len() ==> 0 <= #[trigger] places@[i] < v@.len(),
    ensures
        rows::members(r@) == order::pick(rows::members(v@), order::places(places@)),
{
    let mut out: Vec<MemberRow> = Vec::new();
    let mut k: usize = 0;
    while k < places.len()
        invariant
            forall|j: int| 0 <= j < places@.len() ==> 0 <= #[trigger] places@[j] < v@.len(),
            k <= places@.len(),
            out@.len() == k,
            forall|j: int| 0 <= j < k ==> (#[trigger] out@[j])@ == v@[places@[j] as int]@,
        decreases places@.len() - k,
    {
        out.push(v[places[k]].copy());
        k = k + 1;
    }
    assert(rows::members(out@) =~= order::pick(rows::members(v@), order::places(places@)));
    out
}

fn sort_roster(v: &Vec<MemberRow>, workspace_id: &str) -> (r: Vec<MemberRow>)
    ensures
        rows::members(r@) == queries::roster(rows::members(v@), workspace_id@),
{
    let of_it = pick_members(v, Some(workspace_id));
    let ghost all = rows::members(of_it@);
    let mut keys: Vec<Vec<String>> = Vec::new();
    let mut i: usize = 0;
    while i < of_it.len()
        invariant
            i <= of_it@.len(),
            keys@.len() == i,
            forall|j: int|
                0 <= j < i ==> text::texts((#[trigger] keys@[j])@) == seq![
                    queries::ref_kind(of_it@[j]@),
                    of_it@[j]@.device,
                    of_it@[j]@.project_id,
                ],
        decreases of_it@.len() - i,
    {
        let mut key: Vec<String> = Vec::new();
        key.push(kind_of(&of_it[i]));
        key.push(of_it[i].device_fingerprint.clone());
        key.push(of_it[i].project_id.clone());
        assert(text::texts(key@) =~= seq![
            queries::ref_kind(of_it@[i as int]@),
            of_it@[i as int]@.device,
            of_it@[i as int]@.project_id,
        ]);
        keys.push(key);
        i = i + 1;
    }
    assert(order::key_rows(keys@) =~= all.map_values(
        |m: Member| seq![queries::ref_kind(m), m.device, m.project_id],
    ));
    pick_rows(&of_it, &sort_order(&keys))
}

fn sort_remotes(v: &Vec<MemberRow>) -> (r: Vec<MemberRow>)
    ensures
        rows::members(r@) == queries::remotes(rows::members(v@)),
{
    let far = pick_members(v, None);
    let ghost all = rows::members(far@);
    let mut keys: Vec<Vec<String>> = Vec::new();
    let mut i: usize = 0;
    while i < far.len()
        invariant
            i <= far@.len(),
            keys@.len() == i,
            forall|j: int|
                0 <= j < i ==> text::texts((#[trigger] keys@[j])@) == seq![
                    far@[j]@.device,
                    far@[j]@.project_id,
                ],
        decreases far@.len() - i,
    {
        let mut key: Vec<String> = Vec::new();
        key.push(far[i].device_fingerprint.clone());
        key.push(far[i].project_id.clone());
        assert(text::texts(key@) =~= seq![far@[i as int]@.device, far@[i as int]@.project_id]);
        keys.push(key);
        i = i + 1;
    }
    assert(order::key_rows(keys@) =~= all.map_values(
        |m: Member| seq![m.device, m.project_id],
    ));
    pick_rows(&far, &sort_order(&keys))
}

fn sort_projects(v: &Vec<ProjectRow>) -> (r: Vec<ProjectRow>)
    ensures
        rows::projects(r@) == queries::projects_by_id(rows::projects(v@)),
{
    let ghost all = rows::projects(v@);
    let mut keys: Vec<Vec<String>> = Vec::new();
    let mut i: usize = 0;
    while i < v.len()
        invariant
            i <= v@.len(),
            keys@.len() == i,
            forall|j: int|
                0 <= j < i ==> text::texts((#[trigger] keys@[j])@) == seq![v@[j]@.project_id],
        decreases v@.len() - i,
    {
        let mut key: Vec<String> = Vec::new();
        key.push(v[i].project_id.clone());
        assert(text::texts(key@) =~= seq![v@[i as int]@.project_id]);
        keys.push(key);
        i = i + 1;
    }
    assert(order::key_rows(keys@) =~= all.map_values(|p: Project| seq![p.project_id]));
    let places = sort_order(&keys);
    let mut out: Vec<ProjectRow> = Vec::new();
    let mut k: usize = 0;
    while k < places.len()
        invariant
            forall|j: int| 0 <= j < places@.len() ==> 0 <= #[trigger] places@[j] < v@.len(),
            k <= places@.len(),
            out@.len() == k,
            forall|j: int| 0 <= j < k ==> (#[trigger] out@[j])@ == v@[places@[j] as int]@,
        decreases places@.len() - k,
    {
        out.push(v[places[k]].copy());
        k = k + 1;
    }
    assert(rows::projects(out@) =~= order::pick(all, order::places(places@)));
    out
}

fn sort_workspaces(v: &Vec<WorkspaceRow>) -> (r: Vec<WorkspaceSummary>)
    ensures
        queries::summaries(r@) == queries::workspaces_by_id(rows::workspaces(v@)).map_values(
            |w: Workspace| (w.workspace_id, w.name),
        ),
{
    let ghost all = rows::workspaces(v@);
    let mut keys: Vec<Vec<String>> = Vec::new();
    let mut i: usize = 0;
    while i < v.len()
        invariant
            i <= v@.len(),
            keys@.len() == i,
            forall|j: int|
                0 <= j < i ==> text::texts((#[trigger] keys@[j])@) == seq![v@[j]@.workspace_id],
        decreases v@.len() - i,
    {
        let mut key: Vec<String> = Vec::new();
        key.push(v[i].workspace_id.clone());
        assert(text::texts(key@) =~= seq![v@[i as int]@.workspace_id]);
        keys.push(key);
        i = i + 1;
    }
    assert(order::key_rows(keys@) =~= all.map_values(|w: Workspace| seq![w.workspace_id]));
    let places = sort_order(&keys);
    let mut out: Vec<WorkspaceSummary> = Vec::new();
    let mut k: usize = 0;
    while k < places.len()
        invariant
            forall|j: int| 0 <= j < places@.len() ==> 0 <= #[trigger] places@[j] < v@.len(),
            k <= places@.len(),
            out@.len() == k,
            forall|j: int|
                0 <= j < k ==> (#[trigger] out@[j]).workspace_id@
                    == v@[places@[j] as int]@.workspace_id && out@[j].name@
                    == v@[places@[j] as int]@.name,
        decreases places@.len() - k,
    {
        let w = &v[places[k]];
        out.push(WorkspaceSummary { workspace_id: w.workspace_id.clone(), name: w.name.clone() });
        k = k + 1;
    }
    assert(queries::summaries(out@) =~= order::pick(all, order::places(places@)).map_values(
        |w: Workspace| (w.workspace_id, w.name),
    ));
    out
}

impl TableRows {
    fn list_roots(&self, id: &str) -> (r: Vec<String>)
        ensures
            text::texts(r@) == queries::project_roots(self@, id@),
    {
        let ghost all = self@.roots;
        let ghost keep = |l: Link| l.target == id@;
        let ghost key = |l: Link| l.key;
        let mut out: Vec<String> = Vec::new();
        let mut i: usize = 0;
        assert(text::texts(out@) =~= all.take(0).filter(keep).map_values(key)) by {
            reveal(Seq::filter);
        }
        while i < self.roots.len()
            invariant
                all == rows::links(self.roots@),
                keep == (|l: Link| l.target == id@),
                key == (|l: Link| l.key),
                i <= self.roots@.len(),
                text::texts(out@) == all.take(i as int).filter(keep).map_values(key),
            decreases self.roots@.len() - i,
        {
            let ghost before = text::texts(out@);
            let ghost l = self.roots@[i as int]@;
            let ghost kept = all.take(i as int).filter(keep);
            assert(all.take(i + 1).drop_last() =~= all.take(i as int));
            assert(all.take(i + 1).last() == l);
            assert(all.take(i + 1).filter(keep) == if keep(l) {
                kept.push(l)
            } else {
                kept
            }) by {
                reveal(Seq::filter);
            }
            if str_eq(self.roots[i].target.as_str(), id) {
                out.push(self.roots[i].key.clone());
                assert(text::texts(out@) =~= before.push(l.key));
                assert(kept.push(l).map_values(key) =~= kept.map_values(key).push(l.key));
            }
            i = i + 1;
        }
        assert(all.take(i as int) =~= all);
        sort_strs(&out)
    }

    fn project_view_from_parts(
        &self,
        project_id: &str,
        name: &str,
        implicit: bool,
        ref_kind: String,
        device_fingerprint: Option<String>,
    ) -> (r: ProjectView)
        ensures
            r@ == queries::shown(
                self@,
                project_id@,
                name@,
                implicit,
                ref_kind@,
                text::opt_text(device_fingerprint),
            ),
    {
        ProjectView {
            project_id: project_id.to_owned(),
            name: name.to_owned(),
            roots: self.list_roots(project_id),
            implicit,
            ref_kind,
            device_fingerprint,
            workspace_id: lookup(&self.placements, project_id),
            last_route_activity_ms: None,
        }
    }

    fn project_view(&self, m: &MemberRow) -> (r: ProjectView)
        ensures
            r@ == queries::shown_member(self@, m@),
    {
        let device = if m.remote {
            Some(m.device_fingerprint.clone())
        } else {
            None
        };
        match find_project(&self.projects, m.project_id.as_str()) {
            Some(p) => self.project_view_from_parts(
                m.project_id.as_str(),
                p.name.as_str(),
                p.implicit,
                kind_of(m),
                device,
            ),
            None => self.project_view_from_parts(
                m.project_id.as_str(),
                m.project_id.as_str(),
                false,
                kind_of(m),
                device,
            ),
        }
    }

    fn view_roster(&self, workspace_id: &str) -> (r: Vec<ProjectView>)
        ensures
            queries::views(r@) == queries::roster(self@.members, workspace_id@).map_values(
                |m: Member| queries::shown_member(self@, m),
            ),
    {
        let members = sort_roster(&self.members, workspace_id);
        let mut out: Vec<ProjectView> = Vec::new();
        let mut i: usize = 0;
        while i < members.len()
            invariant
                i <= members@.len(),
                out@.len() == i,
                forall|j: int|
                    0 <= j < i ==> (#[trigger] out@[j])@ == queries::shown_member(
                        self@,
                        members@[j]@,
                    ),
            decreases members@.len() - i,
        {
            out.push(self.project_view(&members[i]));
            i = i + 1;
        }
        assert(queries::views(out@) =~= rows::members(members@).map_values(
            |m: Member| queries::shown_member(self@, m),
        ));
        out
    }

    fn view_all(&self) -> (r: Vec<ProjectView>)
        ensures
            queries::views(r@) == queries::projects_by_id(self@.projects).map_values(
                |p: Project| queries::shown_project(self@, p),
            ) + queries::remotes(self@.members).map_values(
                |m: Member| queries::shown_remote(self@, m),
            ),
    {
        let projects = sort_projects(&self.projects);
        let ghost here = rows::projects(projects@).map_values(
            |p: Project| queries::shown_project(self@, p),
        );
        let mut out: Vec<ProjectView> = Vec::new();
        let mut i: usize = 0;
        while i < projects.len()
            invariant
                i <= projects@.len(),
                out@.len() == i,
                forall|j: int|
                    0 <= j < i ==> (#[trigger] out@[j])@ == queries::shown_project(
                        self@,
                        projects@[j]@,
                    ),
            decreases projects@.len() - i,
        {
            let p = &projects[i];
            out.push(
                self.project_view_from_parts(
                    p.project_id.as_str(),
                    p.name.as_str(),
                    p.implicit,
                    "local".to_owned(),
                    None,
                ),
            );
            i = i + 1;
        }
        assert(queries::views(out@) =~= here);
        let far = sort_remotes(&self.members);
        let ghost there = rows::members(far@).map_values(
            |m: Member| queries::shown_remote(self@, m),
        );
        let mut k: usize = 0;
        assert(queries::views(out@) =~= here + there.take(0));
        while k < far.len()
            invariant
                k <= far@.len(),
                there == rows::members(far@).map_values(
                    |m: Member| queries::shown_remote(self@, m),
                ),
                queries::views(out@) == here + there.take(k as int),
            decreases far@.len() - k,
        {
            let ghost before = queries::views(out@);
            let m = &far[k];
            let v = self.project_view_from_parts(
                m.project_id.as_str(),
                m.project_id.as_str(),
                false,
                "remote".to_owned(),
                Some(m.device_fingerprint.clone()),
            );
            assert(v@ == there[k as int]);
            out.push(v);
            assert(queries::views(out@) =~= before.push(v@));
            k = k + 1;
            assert(queries::views(out@) =~= here + there.take(k as int));
        }
        assert(there.take(k as int) =~= there);
        out
    }
}

impl RegistryStore {
    /// What the registry holds: one workspace with its references, or every
    /// workspace, every registered project and every remote one.
    pub fn enumerate(&self, workspace_id: Option<&str>) -> (r: EnumerateReply)
        ensures
            r@ == queries::listing(
                self@,
                match workspace_id {
                    Some(w) => Some(w@),
                    None => None,
                },
            ),
    {
        match workspace_id {
            Some(w) => {
                let mut workspaces: Vec<WorkspaceSummary> = Vec::new();
                if let Some(row) = find_workspace(&self.tables.workspaces, w) {
                    workspaces.push(
                        WorkspaceSummary { workspace_id: row.workspace_id, name: row.name },
                    );
                    assert(queries::summaries(workspaces@) =~= seq![
                        (row@.workspace_id, row@.name),
                    ]);
                } else {
                    assert(queries::summaries(workspaces@) =~= Seq::empty());
                }
                EnumerateReply {
                    workspaces,
                    projects: self.tables.view_roster(w),
                    generation: self.generation(),
                }
            },
            None => EnumerateReply {
                workspaces: sort_workspaces(&self.tables.workspaces),
                projects: self.tables.view_all(),
                generation: self.generation(),
            },
        }
    }
}

} // verus!
