//! What queries answer, as JSON.
use vstd::prelude::*;
use vstd::string::*;
use vstd::utf8::*;

use crate::audit::VerifyReply;
use crate::json::{
    array_value, bool_value, compact, field, int_value, list_value, object_value, opt_value,
    text_value, wrap, Field, Json,
};
use crate::model::Registry;
use crate::queries::{
    EnumerateReply, JournalEntry, JournalTailReply, Listing, ProjectView, ResolveProjectIdReply,
    ResolveReply, Resolved, Shown, Told, Traced, WorkspaceSummary,
};
use crate::text::{bytes_of, Text};
use crate::{audit, json, queries, text};

verus! {

/// Where a path leads, as JSON.
pub open spec fn resolved_json(r: Resolved) -> Json {
    json::object(
        seq![
            ("projectId"@, Json::Str(r.project_id)),
            ("workspaceId"@, json::opt_str(r.workspace_id)),
            ("projectName"@, json::opt_str(r.project_name)),
            ("via"@, Json::Str(r.via)),
            ("gone"@, Json::Bool(r.gone)),
            ("generation"@, json::int_json(r.generation as int)),
            ("canonicalRoot"@, json::opt_str(r.canonical_root)),
        ],
    )
}

/// Where a project id leads, as JSON.
pub open spec fn traced_json(t: Traced) -> Json {
    json::object(
        seq![
            ("projectId"@, Json::Str(t.project_id)),
            ("via"@, Json::Str(t.via)),
            ("gone"@, Json::Bool(t.gone)),
            ("generation"@, json::int_json(t.generation as int)),
        ],
    )
}

/// A workspace, as JSON.
pub open spec fn summary_json(w: (Text, Text)) -> Json {
    json::object(seq![("workspaceId"@, Json::Str(w.0)), ("name"@, Json::Str(w.1))])
}

/// A field that is left out where there is nothing to say.
pub open spec fn optional(name: Text, o: Option<Text>) -> Seq<Field> {
    match o {
        Some(t) => seq![(name, Json::Str(t))],
        None => Seq::empty(),
    }
}

/// A project, as JSON.
pub open spec fn shown_json(p: Shown) -> Json {
    json::object(
        seq![
            ("projectId"@, Json::Str(p.project_id)),
            ("name"@, Json::Str(p.name)),
            ("roots"@, json::text_array(p.roots)),
            ("implicit"@, Json::Bool(p.implicit)),
            ("refKind"@, Json::Str(p.ref_kind)),
        ] + optional("deviceFingerprint"@, p.device) + optional("workspaceId"@, p.workspace_id)
            + match p.activity {
            Some(a) => seq![("lastRouteActivityMs"@, json::int_json(a as int))],
            None => Seq::empty(),
        },
    )
}

/// An enumeration, as JSON.
pub open spec fn listing_json(l: Listing) -> Json {
    json::object(
        seq![
            (
                "workspaces"@,
                Json::Array(l.workspaces.map_values(|w: (Text, Text)| summary_json(w))),
            ),
            ("projects"@, Json::Array(l.projects.map_values(|p: Shown| shown_json(p)))),
            ("generation"@, json::int_json(l.generation as int)),
        ],
    )
}

/// A journal entry, as JSON.
pub open spec fn told_json(e: Told) -> Json {
    json::object(
        seq![
            ("seq"@, json::int_json(e.seq as int)),
            ("op"@, Json::Str(e.op)),
            ("payloadJson"@, Json::Str(e.payload)),
            ("actor"@, Json::Str(e.actor)),
            ("requestKey"@, json::opt_str(e.request_key)),
            ("createdAt"@, json::int_json(e.created_at as int)),
        ],
    )
}

/// A tail of the journal, as JSON.
pub open spec fn tail_json(entries: Seq<Told>, generation: i64) -> Json {
    json::object(
        seq![
            ("entries"@, Json::Array(entries.map_values(|e: Told| told_json(e)))),
            ("generation"@, json::int_json(generation as int)),
        ],
    )
}

/// An audit, as JSON.
pub open spec fn audit_json(reg: Registry) -> Json {
    let t = reg.tables;
    json::object(
        seq![
            ("ok"@, Json::Bool(audit::findings(reg).len() == 0)),
            ("localMembers"@, json::int_json(audit::locals(t.members).len() as int)),
            ("projectWorkspaces"@, json::int_json(t.placements.len() as int)),
            ("mismatches"@, json::text_array(audit::findings(reg))),
            ("generation"@, json::int_json(reg.generation() as int)),
        ],
    )
}

/// The answer to a rebuild, as JSON.
pub open spec fn rebuilt_json(generation: i64) -> Json {
    json::object(seq![("generation"@, json::int_json(generation as int))])
}

/// A result as it goes over the wire.
pub open spec fn wire(v: Json) -> Seq<u8> {
    encode_utf8(json::json_text(json::object(seq![("result"@, v)])))
}

/// Puts a result into its envelope, as it goes over the wire.
pub fn encode_result(v: serde_json::Value) -> (r: Vec<u8>)
    ensures
        r@ == wire(json::value_view(v)),
{
    bytes_of(compact(&wrap("result", v)).as_str())
}

impl ResolveReply {
    /// The reply as JSON.
    pub fn to_value(&self) -> (r: serde_json::Value)
        ensures
            json::value_view(r) == resolved_json(self@),
    {
        let mut p: Vec<(String, serde_json::Value)> = Vec::new();
        p.push(field("projectId", text_value(self.project_id.as_str())));
        p.push(field("workspaceId", opt_value(&self.workspace_id)));
        p.push(field("projectName", opt_value(&self.project_name)));
        p.push(field("via", text_value(self.via.as_str())));
        p.push(field("gone", bool_value(self.gone)));
        p.push(field("generation", int_value(self.generation)));
        p.push(field("canonicalRoot", opt_value(&self.canonical_root)));
        let ghost v = self@;
        assert(json::fields(p@) =~= seq![
            ("projectId"@, Json::Str(v.project_id)),
            ("workspaceId"@, json::opt_str(v.workspace_id)),
            ("projectName"@, json::opt_str(v.project_name)),
            ("via"@, Json::Str(v.via)),
            ("gone"@, Json::Bool(v.gone)),
            ("generation"@, json::int_json(v.generation as int)),
            ("canonicalRoot"@, json::opt_str(v.canonical_root)),
        ]);
        object_value(p)
    }
}

impl ResolveProjectIdReply {
    /// The reply as JSON.
    pub fn to_value(&self) -> (r: serde_json::Value)
        ensures
            json::value_view(r) == traced_json(self@),
    {
        let mut p: Vec<(String, serde_json::Value)> = Vec::new();
        p.push(field("projectId", text_value(self.project_id.as_str())));
        p.push(field("via", text_value(self.via.as_str())));
        p.push(field("gone", bool_value(self.gone)));
        p.push(field("generation", int_value(self.generation)));
        let ghost v = self@;
        assert(json::fields(p@) =~= seq![
            ("projectId"@, Json::Str(v.project_id)),
            ("via"@, Json::Str(v.via)),
            ("gone"@, Json::Bool(v.gone)),
            ("generation"@, json::int_json(v.generation as int)),
        ]);
        object_value(p)
    }
}

impl WorkspaceSummary {
    /// The workspace as JSON.
    pub fn to_value(&self) -> (r: serde_json::Value)
        ensures
            json::value_view(r) == summary_json((self.workspace_id@, self.name@)),
    {
        let mut p: Vec<(String, serde_json::Value)> = Vec::new();
        p.push(field("workspaceId", text_value(self.workspace_id.as_str())));
        p.push(field("name", text_value(self.name.as_str())));
        assert(json::fields(p@) =~= seq![
            ("workspaceId"@, Json::Str(self.workspace_id@)),
            ("name"@, Json::Str(self.name@)),
        ]);
        object_value(p)
    }
}

fn push_optional(p: &mut Vec<(String, serde_json::Value)>, name: &str, o: &Option<String>)
    ensures
        json::fields(final(p)@) == json::fields(old(p)@) + optional(name@, text::opt_text(*o)),
{
    let ghost before = json::fields(p@);
    match o {
        Some(s) => {
            p.push(field(name, text_value(s.as_str())));
            assert(json::fields(p@) =~= before + seq![(name@, Json::Str(s@))]);
        },
        None => {
            assert(before + Seq::<Field>::empty() =~= before);
        },
    }
}

impl ProjectView {
    /// The project as JSON.
    pub fn to_value(&self) -> (r: serde_json::Value)
        ensures
            json::value_view(r) == shown_json(self@),
    {
        let mut p: Vec<(String, serde_json::Value)> = Vec::new();
        p.push(field("projectId", text_value(self.project_id.as_str())));
        p.push(field("name", text_value(self.name.as_str())));
        p.push(field("roots", array_value(&self.roots)));
        p.push(field("implicit", bool_value(self.implicit)));
        p.push(field("refKind", text_value(self.ref_kind.as_str())));
        let ghost v = self@;
        assert(json::fields(p@) =~= seq![
            ("projectId"@, Json::Str(v.project_id)),
            ("name"@, Json::Str(v.name)),
            ("roots"@, json::text_array(v.roots)),
            ("implicit"@, Json::Bool(v.implicit)),
            ("refKind"@, Json::Str(v.ref_kind)),
        ]);
        push_optional(&mut p, "deviceFingerprint", &self.device_fingerprint);
        push_optional(&mut p, "workspaceId", &self.workspace_id);
        let ghost before = json::fields(p@);
        match self.last_route_activity_ms {
            Some(a) => {
                p.push(field("lastRouteActivityMs", int_value(a)));
                assert(json::fields(p@) =~= before + seq![
                    ("lastRouteActivityMs"@, json::int_json(a as int)),
                ]);
            },
            None => {
                assert(before + Seq::<Field>::empty() =~= before);
            },
        }
        object_value(p)
    }
}

impl EnumerateReply {
    /// The reply as JSON.
    pub fn to_value(&self) -> (r: serde_json::Value)
        ensures
            json::value_view(r) == listing_json(self@),
    {
        let mut workspaces: Vec<serde_json::Value> = Vec::new();
        let mut i: usize = 0;
        while i < self.workspaces.len()
            invariant
                i <= self.workspaces@.len(),
                workspaces@.len() == i,
                forall|j: int|
                    0 <= j < i ==> json::value_view(#[trigger] workspaces@[j]) == summary_json(
                        (self.workspaces@[j].workspace_id@, self.workspaces@[j].name@),
                    ),
            decreases self.workspaces@.len() - i,
        {
            workspaces.push(self.workspaces[i].to_value());
            i = i + 1;
        }
        let mut projects: Vec<serde_json::Value> = Vec::new();
        let mut k: usize = 0;
        while k < self.projects.len()
            invariant
                k <= self.projects@.len(),
                projects@.len() == k,
                forall|j: int|
                    0 <= j < k ==> json::value_view(#[trigger] projects@[j]) == shown_json(
                        self.projects@[j]@,
                    ),
            decreases self.projects@.len() - k,
        {
            projects.push(self.projects[k].to_value());
            k = k + 1;
        }
        let ghost l = self@;
        assert(json::values(workspaces@) =~= l.workspaces.map_values(
            |w: (Text, Text)| summary_json(w),
        ));
        assert(json::values(projects@) =~= l.projects.map_values(|p: Shown| shown_json(p)));
        let mut p: Vec<(String, serde_json::Value)> = Vec::new();
        p.push(field("workspaces", list_value(workspaces)));
        p.push(field("projects", list_value(projects)));
        p.push(field("generation", int_value(self.generation)));
        assert(json::fields(p@) =~= seq![
            (
                "workspaces"@,
                Json::Array(l.workspaces.map_values(|w: (Text, Text)| summary_json(w))),
            ),
            ("projects"@, Json::Array(l.projects.map_values(|p: Shown| shown_json(p)))),
            ("generation"@, json::int_json(l.generation as int)),
        ]);
        object_value(p)
    }
}

impl JournalEntry {
    /// The entry as JSON.
    pub fn to_value(&self) -> (r: serde_json::Value)
        ensures
            json::value_view(r) == told_json(self@),
    {
        let mut p: Vec<(String, serde_json::Value)> = Vec::new();
        p.push(field("seq", int_value(self.seq)));
        p.push(field("op", text_value(self.op.as_str())));
        p.push(field("payloadJson", text_value(self.payload_json.as_str())));
        p.push(field("actor", text_value(self.actor.as_str())));
        p.push(field("requestKey", opt_value(&self.request_key)));
        p.push(field("createdAt", int_value(self.created_at)));
        let ghost e = self@;
        assert(json::fields(p@) =~= seq![
            ("seq"@, json::int_json(e.seq as int)),
            ("op"@, Json::Str(e.op)),
            ("payloadJson"@, Json::Str(e.payload)),
            ("actor"@, Json::Str(e.actor)),
            ("requestKey"@, json::opt_str(e.request_key)),
            ("createdAt"@, json::int_json(e.created_at as int)),
        ]);
        object_value(p)
    }
}

impl JournalTailReply {
    /// The reply as JSON.
    pub fn to_value(&self) -> (r: serde_json::Value)
        ensures
            json::value_view(r) == tail_json(
                queries::told_entries(self.entries@),
                self.generation,
            ),
    {
        let mut entries: Vec<serde_json::Value> = Vec::new();
        let mut i: usize = 0;
        while i < self.entries.len()
            invariant
                i <= self.entries@.len(),
                entries@.len() == i,
                forall|j: int|
                    0 <= j < i ==> json::value_view(#[trigger] entries@[j]) == told_json(
                        self.entries@[j]@,
                    ),
            decreases self.entries@.len() - i,
        {
            entries.push(self.entries[i].to_value());
            i = i + 1;
        }
        let ghost all = queries::told_entries(self.entries@);
        assert(json::values(entries@) =~= all.map_values(|e: Told| told_json(e)));
        let mut p: Vec<(String, serde_json::Value)> = Vec::new();
        p.push(field("entries", list_value(entries)));
        p.push(field("generation", int_value(self.generation)));
        assert(json::fields(p@) =~= seq![
            ("entries"@, Json::Array(all.map_values(|e: Told| told_json(e)))),
            ("generation"@, json::int_json(self.generation as int)),
        ]);
        object_value(p)
    }
}

impl VerifyReply {
    /// The reply as JSON.
    pub fn to_value(&self) -> (r: serde_json::Value)
        ensures
            json::value_view(r) == json::object(
                seq![
                    ("ok"@, Json::Bool(self.ok)),
                    ("localMembers"@, json::int_json(self.local_members as int)),
                    ("projectWorkspaces"@, json::int_json(self.project_workspaces as int)),
                    ("mismatches"@, json::text_array(text::texts(self.mismatches@))),
                    ("generation"@, json::int_json(self.generation as int)),
                ],
            ),
    {
        let mut p: Vec<(String, serde_json::Value)> = Vec::new();
        p.push(field("ok", bool_value(self.ok)));
        p.push(field("localMembers", int_value(self.local_members)));
        p.push(field("projectWorkspaces", int_value(self.project_workspaces)));
        p.push(field("mismatches", array_value(&self.mismatches)));
        p.push(field("generation", int_value(self.generation)));
        assert(json::fields(p@) =~= seq![
            ("ok"@, Json::Bool(self.ok)),
            ("localMembers"@, json::int_json(self.local_members as int)),
            ("projectWorkspaces"@, json::int_json(self.project_workspaces as int)),
            ("mismatches"@, json::text_array(text::texts(self.mismatches@))),
            ("generation"@, json::int_json(self.generation as int)),
        ]);
        object_value(p)
    }
}

} // verus!
