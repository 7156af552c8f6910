//! Placing projects in workspaces, upgrading implicit projects, and removing
//! projects and workspaces.
use vstd::prelude::*;
use vstd::string::*;

use crate::error::{domain, refusal, Failure, RegistryError};
use crate::frame::{Action, Deed, Note, Outcome};
use crate::ids::{mint, reserved};
use crate::json::{compact, field, opt_value, text_value, Field, Json};
use crate::model::{Assign, Record, Registry, Remove, Tables, Upgrade};
use crate::paths::{canonical_roots, RootFact, RootProbe};
use crate::register::{actor_or, has_all};
use crate::request::{AssignWorkspaceRequest, JournalRecord, RemoveRequest, UpgradeImplicitRequest};
use crate::rows::{has_key, is_known, is_live, is_referenced, local_row, lookup};
use crate::store::{RegistryStore, TableRows};
use crate::text::{cat, str_eq, Text};
use crate::{effects, entries, frame, ids, json, model, paths, payload, register, text};

verus! {

/// The tables after a placement; a workspace that was unknown gets the name
/// asked for, or its id.
pub open spec fn assigned(t: Tables, r: Assign, now: i64) -> Tables {
    t.open_workspace(
        r.workspace_id,
        match r.workspace_name {
            Some(n) => n,
            None => r.workspace_id,
        },
        now,
    ).place(r.project_id, r.workspace_id)
}

/// What a placement answers.
pub open spec fn assign_fields(r: Assign) -> Seq<Field> {
    seq![
        ("projectId"@, Json::Str(r.project_id)),
        ("workspaceId"@, Json::Str(r.workspace_id)),
    ]
}

/// The journal entry of a placement.
pub open spec fn assign_note(r: Assign, now: i64) -> Note {
    Note {
        op: "assign_workspace"@,
        payload: json::json_text(payload::assign_json(r)),
        actor: register::actor_of(r.actor, "module"@),
        request_key: r.request_key,
        now,
        record: Record::Assign(r),
    }
}

/// What a request to place a project comes to.
pub open spec fn assign_deed(before: Registry, r: Assign, now: i64) -> Deed {
    let t = before.tables;
    if !model::live(t.projects, r.project_id) {
        frame::refused(before, refusal("not_found"@, r.project_id))
    } else {
        match model::target(t.placements, r.project_id) {
            Some(old) => if old == r.workspace_id {
                frame::done(before, false, assign_fields(r), payload::assign_json(r))
            } else {
                frame::refused(
                    before,
                    refusal("workspace_conflict"@, "project is already in workspace "@ + old),
                )
            },
            None => match frame::append_failure(before.journal, r.request_key) {
                Some(e) => frame::refused(before, e),
                None => if model::referenced(
                    t.members,
                    model::local_member(r.workspace_id, r.project_id),
                ) {
                    frame::refused(before, reference_taken())
                } else {
                    frame::done(
                        Registry {
                            tables: assigned(t, r, now),
                            journal: frame::appended(before.journal, assign_note(r, now)),
                        },
                        true,
                        assign_fields(r),
                        payload::assign_json(r),
                    )
                },
            },
        }
    }
}

/// The failure of adding a reference to a project that is referenced.
pub open spec fn reference_taken() -> Failure {
    Failure::Database(
        "UNIQUE constraint failed: workspace_member.ref_kind, workspace_member.device_fingerprint, workspace_member.project_id"@,
    )
}

/// The outcome of a request to place a project.
pub open spec fn assign_outcome(before: Registry, req: Assign, now: i64) -> Outcome {
    frame::outcome(before, req.request_key, assign_deed(before, req, now))
}

/// The id that a request upgrades to: the one it names, or a minted one.
pub open spec fn upgrade_id(r: Upgrade) -> Text {
    match r.project_id {
        Some(id) => id,
        None => ids::minted_id("upgrade1"@, r.name, r.roots),
    }
}

/// The tables after an upgrade.
pub open spec fn upgraded(t: Tables, r: Upgrade, id: Text, now: i64) -> Tables {
    register::settled_in(
        register::named(t, id, r.name, now).claim_roots(r.roots, id, now).point(
            r.implicit_id,
            id,
            now,
        ),
        id,
        r.workspace_id,
        now,
    )
}

/// What an upgrade answers.
pub open spec fn upgrade_fields(r: Upgrade, id: Text) -> Seq<Field> {
    seq![("projectId"@, Json::Str(id)), ("oldId"@, Json::Str(r.implicit_id))]
}

/// The journal entry of an upgrade.
pub open spec fn upgrade_note(r: Upgrade, now: i64) -> Note {
    Note {
        op: "upgrade_implicit"@,
        payload: json::json_text(payload::upgrade_json(r)),
        actor: register::actor_of(r.actor, "module"@),
        request_key: r.request_key,
        now,
        record: Record::Upgrade(r),
    }
}

/// Whether an upgrade changes anything.
pub open spec fn upgrade_changes(t: Tables, r: Upgrade, id: Text) -> bool {
    ||| !register::registered_as(t, id, r.name)
    ||| !register::all_present(t.roots, r.roots)
    ||| !model::has(t.aliases, r.implicit_id)
}

/// What a request to upgrade comes to, its roots being canonical.
pub open spec fn upgrade_deed(before: Registry, r: Upgrade, now: i64) -> Deed {
    let t = before.tables;
    let id = upgrade_id(r);
    match register::foreign(t.aliases, r.implicit_id, id) {
        Some(owner) => frame::refused(before, refusal("alias_conflict"@, owner)),
        None => if !upgrade_changes(t, r, id) {
            frame::done(before, false, upgrade_fields(r, id), payload::upgrade_json(r))
        } else {
            match frame::append_failure(before.journal, r.request_key) {
                Some(e) => frame::refused(before, e),
                None => frame::done(
                    Registry {
                        tables: upgraded(t, r, id, now),
                        journal: frame::appended(before.journal, upgrade_note(r, now)),
                    },
                    true,
                    upgrade_fields(r, id),
                    payload::upgrade_json(r),
                ),
            }
        },
    }
}

/// Every root that an upgrade names: the list, then the single one.
pub open spec fn upgrade_roots(req: Upgrade) -> Seq<Text> {
    match req.root {
        Some(root) => req.roots.push(root),
        None => req.roots,
    }
}

/// The request with its roots canonical and in one list.
pub open spec fn upgrade_settled(req: Upgrade, roots: Seq<RootFact>) -> Result<Upgrade, Failure> {
    match req.project_id {
        Some(id) if ids::is_reserved(id) => Err(refusal("reserved_project_id_namespace"@, id)),
        _ => match paths::canonical_all(upgrade_roots(req), roots) {
            Err(e) => Err(e),
            Ok(rs) => Ok(Upgrade { root: None, roots: rs, ..req }),
        },
    }
}

/// The outcome of a request to upgrade. `roots` says what the file system knows
/// of [`upgrade_roots`].
pub open spec fn upgrade_outcome(
    before: Registry,
    req: Upgrade,
    roots: Seq<RootFact>,
    now: i64,
) -> Outcome {
    match upgrade_settled(req, roots) {
        Err(e) => Outcome { registry: before, answer: Err(e) },
        Ok(r) => frame::outcome(before, r.request_key, upgrade_deed(before, r, now)),
    }
}

/// The journal entry of a removal.
pub open spec fn remove_note(r: Remove, now: i64) -> Note {
    Note {
        op: "remove"@,
        payload: json::json_text(payload::remove_json(r)),
        actor: register::actor_of(r.actor, "module"@),
        request_key: r.request_key,
        now,
        record: Record::Remove(r),
    }
}

/// A removal that goes through, unless its entry cannot be appended.
pub open spec fn removed(
    before: Registry,
    r: Remove,
    tables: Tables,
    fields: Seq<Field>,
    now: i64,
) -> Deed {
    match frame::append_failure(before.journal, r.request_key) {
        Some(e) => frame::refused(before, e),
        None => frame::done(
            Registry { tables, journal: frame::appended(before.journal, remove_note(r, now)) },
            true,
            fields,
            payload::remove_json(r),
        ),
    }
}

/// What a request to remove comes to. A workspace goes before a project.
pub open spec fn remove_deed(before: Registry, r: Remove, now: i64) -> Deed {
    let t = before.tables;
    match r.workspace_id {
        Some(w) => if !model::known(t.workspaces, w) {
            frame::refused(before, refusal("not_found"@, w))
        } else {
            removed(before, r, t.dissolve(w), seq![("workspaceId"@, Json::Str(w))], now)
        },
        None => match r.project_id {
            None => frame::refused(before, refusal("invalid_params"@, "projectId is required"@)),
            Some(id) => if !model::live(t.projects, id) {
                frame::refused(before, refusal("not_found"@, id))
            } else if r.successor matches Some(s) && (s == id || !model::live(t.projects, s)) {
                frame::refused(before, refusal("not_found"@, r.successor.unwrap()))
            } else {
                removed(
                    before,
                    r,
                    t.withdraw(id, r.successor, now),
                    seq![
                        ("projectId"@, Json::Str(id)),
                        ("successorProjectId"@, json::opt_str(r.successor)),
                        ("droppedWorkspaceId"@, json::opt_str(model::target(t.placements, id))),
                    ],
                    now,
                )
            },
        },
    }
}

/// The outcome of a request to remove.
pub open spec fn remove_outcome(before: Registry, req: Remove, now: i64) -> Outcome {
    frame::outcome(before, req.request_key, remove_deed(before, req, now))
}

/// A placement of a registered project keeps the tables sound.
pub proof fn lemma_assigned(t: Tables, r: Assign, now: i64)
    requires
        t.sound(),
        model::live(t.projects, r.project_id),
    ensures
        assigned(t, r, now).sound(),
{
    let name = match r.workspace_name {
        Some(n) => n,
        None => r.workspace_id,
    };
    effects::lemma_open_workspace(t, r.workspace_id, name, now);
    effects::lemma_place(
        t.open_workspace(r.workspace_id, name, now),
        r.project_id,
        r.workspace_id,
    );
}

/// An upgrade keeps the tables sound.
pub proof fn lemma_upgraded(t: Tables, r: Upgrade, id: Text, now: i64)
    requires
        t.sound(),
    ensures
        upgraded(t, r, id, now).sound(),
{
    register::lemma_named(t, id, r.name, now);
    let a = register::named(t, id, r.name, now);
    effects::lemma_claim_roots(a, r.roots, id, now);
    let b = a.claim_roots(r.roots, id, now);
    effects::lemma_point(b, r.implicit_id, id, now);
    register::lemma_settled_in(b.point(r.implicit_id, id, now), id, r.workspace_id, now);
}

/// The id that a request upgrades to.
pub fn upgrade_target(req: &UpgradeImplicitRequest) -> (r: String)
    ensures
        r@ == upgrade_id(req@),
{
    match &req.project_id {
        Some(id) => id.clone(),
        None => mint("upgrade1", req.name.as_str(), &req.roots),
    }
}

impl TableRows {
    /// Places a project in a workspace, which is added where it is unknown.
    pub fn assign(&mut self, req: &AssignWorkspaceRequest, now: i64)
        ensures
            final(self)@ == assigned(old(self)@, req@, now),
    {
        let name = match &req.workspace_name {
            Some(n) => n.clone(),
            None => req.workspace_id.clone(),
        };
        self.open_workspace(req.workspace_id.as_str(), name.as_str(), now);
        self.place(req.project_id.as_str(), req.workspace_id.as_str());
    }

    /// Upgrades an implicit project to `id`.
    pub fn upgrade(&mut self, req: &UpgradeImplicitRequest, id: &str, now: i64)
        ensures
            final(self)@ == upgraded(old(self)@, req@, id@, now),
    {
        self.name_project(id, req.name.as_str(), now);
        self.claim_roots(&req.roots, id, now);
        self.point(req.implicit_id.as_str(), id, now);
        self.settle_in(id, &req.workspace_id, now);
    }
}

impl RegistryStore {
    fn assign_action(&mut self, req: &AssignWorkspaceRequest, now: i64) -> (r: Result<
        Action,
        RegistryError,
    >)
        requires
            old(self)@.sound(),
        ensures
            (Deed { registry: final(self)@, result: frame::acted(r) }) == assign_deed(
                old(self)@,
                req@,
                now,
            ),
            final(self)@.sound(),
            r matches Ok(a) ==> a.changed ==> final(self)@.journal.len() > 0 && entries::legible(
                final(self)@.journal.last(),
                a.view().payload,
            ),
            r matches Ok(a) ==> frame::legible(a.view().fields),
    {
        let ghost before = self@;
        let id = req.project_id.as_str();
        if !is_live(&self.tables.projects, id) {
            return Err(domain("not_found", req.project_id.clone()));
        }
        let mut fields: Vec<(String, serde_json::Value)> = Vec::new();
        fields.push(field("projectId", text_value(id)));
        fields.push(field("workspaceId", text_value(req.workspace_id.as_str())));
        assert(json::fields(fields@) =~= assign_fields(req@));
        if let Some(old) = lookup(&self.tables.placements, id) {
            if str_eq(old.as_str(), req.workspace_id.as_str()) {
                return Ok(Action { changed: false, fields, payload: req.to_value() });
            }
            return Err(
                domain("workspace_conflict", cat("project is already in workspace ", old.as_str())),
            );
        }
        if let Some(e) = self.find_append_complaint(&req.request_key) {
            return Err(RegistryError::Database(e));
        }
        if is_referenced(&self.tables.members, &local_row(req.workspace_id.as_str(), id)) {
            return Err(
                RegistryError::Database(
                    "UNIQUE constraint failed: workspace_member.ref_kind, workspace_member.device_fingerprint, workspace_member.project_id".to_owned(),
                ),
            );
        }
        let actor = actor_or(&req.actor, "module");
        match self.append(
            "assign_workspace",
            compact(&req.to_value()),
            actor.as_str(),
            &req.request_key,
            now,
            JournalRecord::AssignWorkspace(req.copy()),
        ) {
            Ok(_) => {},
            Err(e) => return Err(e),
        }
        proof {
            frame::lemma_appended(before.journal, assign_note(req@, now));
            lemma_assigned(before.tables, req@, now);
            entries::lemma_assign_kept(req@);
        }
        self.tables.assign(req, now);
        Ok(Action { changed: true, fields, payload: req.to_value() })
    }

    /// Places a project in a workspace.
    pub fn assign_workspace(&mut self, req: AssignWorkspaceRequest, now: i64) -> (r: Result<
        Vec<u8>,
        RegistryError,
    >)
        requires
            old(self)@.sound(),
        ensures
            (Outcome { registry: final(self)@, answer: frame::seen(r) }) == assign_outcome(
                old(self)@,
                req@,
                now,
            ),
            final(self)@.sound(),
            frame::kept(old(self)@.journal, req@.request_key) is None ==> (r matches Ok(b)
                ==> frame::head_in(b@) == Some(final(self)@.generation())),
            entries::extends(old(self)@.journal, final(self)@.journal),
    {
        if let Some(blob) = self.cached(&req.request_key) {
            return Ok(blob);
        }
        let result = self.assign_action(&req, now);
        self.finish(result)
    }

    fn upgrade_action(&mut self, req: &UpgradeImplicitRequest, now: i64) -> (r: Result<
        Action,
        RegistryError,
    >)
        requires
            old(self)@.sound(),
        ensures
            (Deed { registry: final(self)@, result: frame::acted(r) }) == upgrade_deed(
                old(self)@,
                req@,
                now,
            ),
            final(self)@.sound(),
            r matches Ok(a) ==> a.changed ==> final(self)@.journal.len() > 0 && entries::legible(
                final(self)@.journal.last(),
                a.view().payload,
            ),
            r matches Ok(a) ==> frame::legible(a.view().fields),
    {
        let ghost before = self@;
        let id = upgrade_target(req);
        if let Some(owner) = lookup(&self.tables.aliases, req.implicit_id.as_str()) {
            if !str_eq(owner.as_str(), id.as_str()) {
                return Err(domain("alias_conflict", owner));
            }
        }
        let mut fields: Vec<(String, serde_json::Value)> = Vec::new();
        fields.push(field("projectId", text_value(id.as_str())));
        fields.push(field("oldId", text_value(req.implicit_id.as_str())));
        assert(json::fields(fields@) =~= upgrade_fields(req@, id@));
        if self.tables.is_registered_as(id.as_str(), req.name.as_str()) && has_all(
            &self.tables.roots,
            &req.roots,
        ) && has_key(&self.tables.aliases, req.implicit_id.as_str()) {
            return Ok(Action { changed: false, fields, payload: req.to_value() });
        }
        let actor = actor_or(&req.actor, "module");
        match self.append(
            "upgrade_implicit",
            compact(&req.to_value()),
            actor.as_str(),
            &req.request_key,
            now,
            JournalRecord::UpgradeImplicit(req.copy()),
        ) {
            Ok(_) => {},
            Err(e) => return Err(e),
        }
        proof {
            frame::lemma_appended(before.journal, upgrade_note(req@, now));
            lemma_upgraded(before.tables, req@, id@, now);
            entries::lemma_upgrade_kept(req@);
        }
        self.tables.upgrade(req, id.as_str(), now);
        Ok(Action { changed: true, fields, payload: req.to_value() })
    }

    /// Registers a project that had an implicit id, which becomes an alias of
    /// it. `roots` says what the file system knows of the request's roots, the
    /// single root last.
    pub fn upgrade_implicit(
        &mut self,
        req: UpgradeImplicitRequest,
        roots: &Vec<RootProbe>,
        now: i64,
    ) -> (r: Result<Vec<u8>, RegistryError>)
        requires
            old(self)@.sound(),
            roots@.len() == upgrade_roots(req@).len(),
        ensures
            (Outcome { registry: final(self)@, answer: frame::seen(r) }) == upgrade_outcome(
                old(self)@,
                req@,
                paths::facts(roots@),
                now,
            ),
            final(self)@.sound(),
            frame::kept(old(self)@.journal, req@.request_key) is None ==> (r matches Ok(b)
                ==> frame::head_in(b@) == Some(final(self)@.generation())),
            entries::extends(old(self)@.journal, final(self)@.journal),
    {
        if let Some(id) = &req.project_id {
            if reserved(id.as_str()) {
                return Err(domain("reserved_project_id_namespace", id.clone()));
            }
        }
        let ghost wanted = upgrade_roots(req@);
        let ghost asked = req@;
        let mut settled = req;
        if let Some(root) = settled.root {
            settled.roots.push(root);
        }
        settled.root = None;
        assert(text::texts(settled.roots@) =~= wanted);
        settled.roots = match canonical_roots(&settled.roots, roots) {
            Ok(v) => v,
            Err(e) => return Err(e),
        };
        assert(Ok::<Upgrade, Failure>(settled@) == upgrade_settled(asked, paths::facts(roots@)));
        if let Some(blob) = self.cached(&settled.request_key) {
            return Ok(blob);
        }
        let result = self.upgrade_action(&settled, now);
        self.finish(result)
    }

    fn remove_action(&mut self, req: &RemoveRequest, now: i64) -> (r: Result<
        Action,
        RegistryError,
    >)
        requires
            old(self)@.sound(),
        ensures
            (Deed { registry: final(self)@, result: frame::acted(r) }) == remove_deed(
                old(self)@,
                req@,
                now,
            ),
            final(self)@.sound(),
            r matches Ok(a) ==> a.changed ==> final(self)@.journal.len() > 0 && entries::legible(
                final(self)@.journal.last(),
                a.view().payload,
            ),
            r matches Ok(a) ==> frame::legible(a.view().fields),
    {
        let ghost before = self@;
        let actor = actor_or(&req.actor, "module");
        let mut fields: Vec<(String, serde_json::Value)> = Vec::new();
        if let Some(w) = &req.workspace_id {
            if !is_known(&self.tables.workspaces, w.as_str()) {
                return Err(domain("not_found", w.clone()));
            }
            match self.append(
                "remove",
                compact(&req.to_value()),
                actor.as_str(),
                &req.request_key,
                now,
                JournalRecord::Remove(req.copy()),
            ) {
                Ok(_) => {},
                Err(e) => return Err(e),
            }
            proof {
                frame::lemma_appended(before.journal, remove_note(req@, now));
                entries::lemma_remove_kept(req@);
                effects::lemma_dissolve(before.tables, w@);
            }
            self.tables.dissolve(w.as_str());
            fields.push(field("workspaceId", text_value(w.as_str())));
            assert(json::fields(fields@) =~= seq![("workspaceId"@, Json::Str(w@))]);
            return Ok(Action { changed: true, fields, payload: req.to_value() });
        }
        let id = match &req.project_id {
            Some(id) => id.as_str(),
            None => return Err(domain("invalid_params", "projectId is required".to_owned())),
        };
        if !is_live(&self.tables.projects, id) {
            return Err(domain("not_found", id.to_owned()));
        }
        if let Some(s) = &req.successor_project_id {
            if str_eq(s.as_str(), id) || !is_live(&self.tables.projects, s.as_str()) {
                return Err(domain("not_found", s.clone()));
            }
        }
        let dropped = lookup(&self.tables.placements, id);
        match self.append(
            "remove",
            compact(&req.to_value()),
            actor.as_str(),
            &req.request_key,
            now,
            JournalRecord::Remove(req.copy()),
        ) {
            Ok(_) => {},
            Err(e) => return Err(e),
        }
        proof {
            frame::lemma_appended(before.journal, remove_note(req@, now));
            entries::lemma_remove_kept(req@);
            effects::lemma_withdraw(before.tables, id@, req@.successor, now);
        }
        self.tables.withdraw(id, &req.successor_project_id, now);
        fields.push(field("projectId", text_value(id)));
        fields.push(field("successorProjectId", opt_value(&req.successor_project_id)));
        fields.push(field("droppedWorkspaceId", opt_value(&dropped)));
        assert(json::fields(fields@) =~= seq![
            ("projectId"@, Json::Str(id@)),
            ("successorProjectId"@, json::opt_str(req@.successor)),
            ("droppedWorkspaceId"@, json::opt_str(model::target(before.tables.placements, id@))),
        ]);
        Ok(Action { changed: true, fields, payload: req.to_value() })
    }

    /// Removes a workspace, or else a project.
    pub fn remove(&mut self, req: RemoveRequest, now: i64) -> (r: Result<Vec<u8>, RegistryError>)
        requires
            old(self)@.sound(),
        ensures
            (Outcome { registry: final(self)@, answer: frame::seen(r) }) == remove_outcome(
                old(self)@,
                req@,
                now,
            ),
            final(self)@.sound(),
            frame::kept(old(self)@.journal, req@.request_key) is None ==> (r matches Ok(b)
                ==> frame::head_in(b@) == Some(final(self)@.generation())),
            entries::extends(old(self)@.journal, final(self)@.journal),
    {
        if let Some(blob) = self.cached(&req.request_key) {
            return Ok(blob);
        }
        let result = self.remove_action(&req, now);
        self.finish(result)
    }
}

} // verus!
