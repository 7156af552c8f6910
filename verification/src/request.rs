//! The requests that change the registry.
use vstd::prelude::*;
use vstd::string::*;

use crate::text::{clone_opt, clone_strs};
use crate::{model, text};

verus! {

/// Asks to register a project.
#[derive(Debug, Clone, Default)]
pub struct RegisterRequest {
    pub project_id: Option<String>,
    pub name: String,
    pub workspace_id: Option<String>,
    pub roots: Vec<String>,
    pub derived_root_parents: Vec<String>,
    pub request_key: Option<String>,
    pub actor: Option<String>,
}

/// Asks to place a project in a workspace.
#[derive(Debug, Clone, Default)]
pub struct AssignWorkspaceRequest {
    pub project_id: String,
    pub workspace_id: String,
    pub workspace_name: Option<String>,
    pub request_key: Option<String>,
    pub actor: Option<String>,
}

/// Asks to register a project that had an implicit id.
#[derive(Debug, Clone, Default)]
pub struct UpgradeImplicitRequest {
    pub implicit_id: String,
    pub project_id: Option<String>,
    pub name: String,
    pub workspace_id: Option<String>,
    pub root: Option<String>,
    pub roots: Vec<String>,
    pub request_key: Option<String>,
    pub actor: Option<String>,
}

/// Asks to remove a workspace, or else a project.
#[derive(Debug, Clone, Default)]
pub struct RemoveRequest {
    pub project_id: Option<String>,
    pub successor_project_id: Option<String>,
    pub workspace_id: Option<String>,
    pub request_key: Option<String>,
    pub actor: Option<String>,
}

/// Asks to import registrations.
#[derive(Debug, Clone, Default)]
pub struct SeedImportRequest {
    pub source: String,
    pub request_key: Option<String>,
    pub payload: SeedPayload,
    pub actor: Option<String>,
}

/// What an import brings. `names` lists identities with the name each is to
/// have, an identity at most once.
#[derive(Debug, Clone, Default)]
pub struct SeedPayload {
    pub pairs: Vec<SeedPair>,
    pub workspaces: Vec<SeedWorkspace>,
    pub members: Vec<SeedMember>,
    pub names: Vec<(String, String)>,
}

/// A root observed under an identity.
#[derive(Debug, Clone, Default)]
pub struct SeedPair {
    pub canonical_root: String,
    pub mc_identity: String,
    pub identity_class: Option<String>,
    pub resolved_through_cooldown: bool,
    pub name: Option<String>,
}

/// A workspace to import.
#[derive(Debug, Clone, Default)]
pub struct SeedWorkspace {
    pub workspace_id: String,
    pub name: String,
}

/// A claim that an identity belongs to a workspace.
#[derive(Debug, Clone, Default)]
pub struct SeedMember {
    pub mc_identity: String,
    pub workspace_id: String,
}

impl View for RegisterRequest {
    type V = model::Register;

    open spec fn view(&self) -> model::Register {
        model::Register {
            project_id: text::opt_text(self.project_id),
            name: self.name@,
            workspace_id: text::opt_text(self.workspace_id),
            roots: text::texts(self.roots@),
            parents: text::texts(self.derived_root_parents@),
            request_key: text::opt_text(self.request_key),
            actor: text::opt_text(self.actor),
        }
    }
}

impl View for AssignWorkspaceRequest {
    type V = model::Assign;

    open spec fn view(&self) -> model::Assign {
        model::Assign {
            project_id: self.project_id@,
            workspace_id: self.workspace_id@,
            workspace_name: text::opt_text(self.workspace_name),
            request_key: text::opt_text(self.request_key),
            actor: text::opt_text(self.actor),
        }
    }
}

impl View for UpgradeImplicitRequest {
    type V = model::Upgrade;

    open spec fn view(&self) -> model::Upgrade {
        model::Upgrade {
            implicit_id: self.implicit_id@,
            project_id: text::opt_text(self.project_id),
            name: self.name@,
            workspace_id: text::opt_text(self.workspace_id),
            root: text::opt_text(self.root),
            roots: text::texts(self.roots@),
            request_key: text::opt_text(self.request_key),
            actor: text::opt_text(self.actor),
        }
    }
}

impl View for RemoveRequest {
    type V = model::Remove;

    open spec fn view(&self) -> model::Remove {
        model::Remove {
            project_id: text::opt_text(self.project_id),
            successor: text::opt_text(self.successor_project_id),
            workspace_id: text::opt_text(self.workspace_id),
            request_key: text::opt_text(self.request_key),
            actor: text::opt_text(self.actor),
        }
    }
}

impl View for SeedPair {
    type V = model::Pair;

    open spec fn view(&self) -> model::Pair {
        model::Pair {
            root: self.canonical_root@,
            identity: self.mc_identity@,
            class: text::opt_text(self.identity_class),
            cooldown: self.resolved_through_cooldown,
            name: text::opt_text(self.name),
        }
    }
}

impl View for SeedMember {
    type V = model::Claim;

    open spec fn view(&self) -> model::Claim {
        model::Claim { identity: self.mc_identity@, workspace_id: self.workspace_id@ }
    }
}

/// The observations in a vector.
pub open spec fn pairs(v: Seq<SeedPair>) -> Seq<model::Pair> {
    v.map_values(|p: SeedPair| p@)
}

/// The claims in a vector.
pub open spec fn claims(v: Seq<SeedMember>) -> Seq<model::Claim> {
    v.map_values(|m: SeedMember| m@)
}

/// The workspaces in a vector, each as id and name.
pub open spec fn titles(v: Seq<SeedWorkspace>) -> Seq<(text::Text, text::Text)> {
    v.map_values(|w: SeedWorkspace| (w.workspace_id@, w.name@))
}

/// The names in a vector, each as identity and name.
pub open spec fn names(v: Seq<(String, String)>) -> Seq<(text::Text, text::Text)> {
    v.map_values(|n: (String, String)| (n.0@, n.1@))
}

impl View for SeedImportRequest {
    type V = model::Seed;

    open spec fn view(&self) -> model::Seed {
        model::Seed {
            source: self.source@,
            request_key: text::opt_text(self.request_key),
            pairs: pairs(self.payload.pairs@),
            workspaces: titles(self.payload.workspaces@),
            claims: claims(self.payload.members@),
            names: names(self.payload.names@),
            actor: text::opt_text(self.actor),
        }
    }
}

impl RegisterRequest {
    /// A copy of the request.
    pub fn copy(&self) -> (r: Self)
        ensures
            r@ == self@,
    {
        RegisterRequest {
            project_id: clone_opt(&self.project_id),
            name: self.name.clone(),
            workspace_id: clone_opt(&self.workspace_id),
            roots: clone_strs(&self.roots),
            derived_root_parents: clone_strs(&self.derived_root_parents),
            request_key: clone_opt(&self.request_key),
            actor: clone_opt(&self.actor),
        }
    }
}

impl AssignWorkspaceRequest {
    /// A copy of the request.
    pub fn copy(&self) -> (r: Self)
        ensures
            r@ == self@,
    {
        AssignWorkspaceRequest {
            project_id: self.project_id.clone(),
            workspace_id: self.workspace_id.clone(),
            workspace_name: clone_opt(&self.workspace_name),
            request_key: clone_opt(&self.request_key),
            actor: clone_opt(&self.actor),
        }
    }
}

impl UpgradeImplicitRequest {
    /// A copy of the request.
    pub fn copy(&self) -> (r: Self)
        ensures
            r@ == self@,
    {
        UpgradeImplicitRequest {
            implicit_id: self.implicit_id.clone(),
            project_id: clone_opt(&self.project_id),
            name: self.name.clone(),
            workspace_id: clone_opt(&self.workspace_id),
            root: clone_opt(&self.root),
            roots: clone_strs(&self.roots),
            request_key: clone_opt(&self.request_key),
            actor: clone_opt(&self.actor),
        }
    }
}

impl RemoveRequest {
    /// A copy of the request.
    pub fn copy(&self) -> (r: Self)
        ensures
            r@ == self@,
    {
        RemoveRequest {
            project_id: clone_opt(&self.project_id),
            successor_project_id: clone_opt(&self.successor_project_id),
            workspace_id: clone_opt(&self.workspace_id),
            request_key: clone_opt(&self.request_key),
            actor: clone_opt(&self.actor),
        }
    }
}

impl SeedPair {
    /// A copy of the observation.
    pub fn copy(&self) -> (r: Self)
        ensures
            r@ == self@,
    {
        SeedPair {
            canonical_root: self.canonical_root.clone(),
            mc_identity: self.mc_identity.clone(),
            identity_class: clone_opt(&self.identity_class),
            resolved_through_cooldown: self.resolved_through_cooldown,
            name: clone_opt(&self.name),
        }
    }
}

/// A copy of a vector of observations.
pub fn copy_pairs(v: &Vec<SeedPair>) -> (r: Vec<SeedPair>)
    ensures
        pairs(r@) == pairs(v@),
{
    let mut out: Vec<SeedPair> = Vec::new();
    let mut i: usize = 0;
    while i < v.len()
        invariant
            i <= v@.len(),
            out@.len() == i,
            forall|j: int| 0 <= j < i ==> (#[trigger] out@[j])@ == v@[j]@,
        decreases v@.len() - i,
    {
        out.push(v[i].copy());
        i = i + 1;
    }
    assert(pairs(out@) =~= pairs(v@));
    out
}

impl SeedImportRequest {
    /// A copy of the request.
    pub fn copy(&self) -> (r: Self)
        ensures
            r@ == self@,
    {
        let mut workspaces: Vec<SeedWorkspace> = Vec::new();
        let mut i: usize = 0;
        while i < self.payload.workspaces.len()
            invariant
                i <= self.payload.workspaces@.len(),
                workspaces@.len() == i,
                forall|j: int|
                    0 <= j < i ==> (#[trigger] workspaces@[j]).workspace_id@
                        == self.payload.workspaces@[j].workspace_id@ && workspaces@[j].name@
                        == self.payload.workspaces@[j].name@,
            decreases self.payload.workspaces@.len() - i,
        {
            let w = &self.payload.workspaces[i];
            workspaces.push(
                SeedWorkspace { workspace_id: w.workspace_id.clone(), name: w.name.clone() },
            );
            i = i + 1;
        }
        let mut members: Vec<SeedMember> = Vec::new();
        let mut k: usize = 0;
        while k < self.payload.members.len()
            invariant
                k <= self.payload.members@.len(),
                members@.len() == k,
                forall|j: int|
                    0 <= j < k ==> (#[trigger] members@[j])@ == self.payload.members@[j]@,
            decreases self.payload.members@.len() - k,
        {
            let m = &self.payload.members[k];
            members.push(
                SeedMember {
                    mc_identity: m.mc_identity.clone(),
                    workspace_id: m.workspace_id.clone(),
                },
            );
            k = k + 1;
        }
        let mut named: Vec<(String, String)> = Vec::new();
        let mut n: usize = 0;
        while n < self.payload.names.len()
            invariant
                n <= self.payload.names@.len(),
                named@.len() == n,
                forall|j: int|
                    0 <= j < n ==> (#[trigger] named@[j]).0@ == self.payload.names@[j].0@
                        && named@[j].1@ == self.payload.names@[j].1@,
            decreases self.payload.names@.len() - n,
        {
            named.push((self.payload.names[n].0.clone(), self.payload.names[n].1.clone()));
            n = n + 1;
        }
        assert(titles(workspaces@) =~= titles(self.payload.workspaces@));
        assert(claims(members@) =~= claims(self.payload.members@));
        assert(names(named@) =~= names(self.payload.names@));
        SeedImportRequest {
            source: self.source.clone(),
            request_key: clone_opt(&self.request_key),
            payload: SeedPayload {
                pairs: copy_pairs(&self.payload.pairs),
                workspaces,
                members,
                names: named,
            },
            actor: clone_opt(&self.actor),
        }
    }
}

/// What a journal entry asks for when it is replayed.
#[derive(Debug, Clone)]
pub enum JournalRecord {
    Register(RegisterRequest),
    AssignWorkspace(AssignWorkspaceRequest),
    UpgradeImplicit(UpgradeImplicitRequest),
    SeedImport(SeedImportRequest),
    Remove(RemoveRequest),
    /// An entry that changes nothing when replayed.
    Other,
    /// An entry whose request cannot be read; the reason is given.
    Unreadable(String),
}

impl View for JournalRecord {
    type V = model::Record;

    open spec fn view(&self) -> model::Record {
        match self {
            JournalRecord::Register(r) => model::Record::Register(r@),
            JournalRecord::AssignWorkspace(r) => model::Record::Assign(r@),
            JournalRecord::UpgradeImplicit(r) => model::Record::Upgrade(r@),
            JournalRecord::SeedImport(r) => model::Record::Seed(r@),
            JournalRecord::Remove(r) => model::Record::Remove(r@),
            JournalRecord::Other => model::Record::Other,
            JournalRecord::Unreadable(e) => model::Record::Unreadable(e@),
        }
    }
}

} // verus!
