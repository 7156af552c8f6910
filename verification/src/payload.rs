//! The journal's record of a request, as JSON.
use vstd::prelude::*;
use vstd::string::*;

use crate::json::{
    array_value, bool_value, field, list_value, object_value, opt_value, text_value, Field, Json,
};
use crate::model::{Assign, Claim, Pair, Register, Remove, Seed, Upgrade};
use crate::request::{
    AssignWorkspaceRequest, RegisterRequest, RemoveRequest, SeedImportRequest, SeedMember, SeedPair,
    SeedWorkspace, UpgradeImplicitRequest,
};
use crate::text::Text;
use crate::{json, request};

verus! {

/// A request to register, as JSON.
pub open spec fn register_json(r: Register) -> Json {
    json::object(
        seq![
            ("projectId"@, json::opt_str(r.project_id)),
            ("name"@, Json::Str(r.name)),
            ("workspaceId"@, json::opt_str(r.workspace_id)),
            ("roots"@, json::text_array(r.roots)),
            ("derivedRootParents"@, json::text_array(r.parents)),
            ("requestKey"@, json::opt_str(r.request_key)),
            ("actor"@, json::opt_str(r.actor)),
        ],
    )
}

/// A request to place a project, as JSON.
pub open spec fn assign_json(r: Assign) -> Json {
    json::object(
        seq![
            ("projectId"@, Json::Str(r.project_id)),
            ("workspaceId"@, Json::Str(r.workspace_id)),
            ("workspaceName"@, json::opt_str(r.workspace_name)),
            ("requestKey"@, json::opt_str(r.request_key)),
            ("actor"@, json::opt_str(r.actor)),
        ],
    )
}

/// A request to upgrade an implicit project, as JSON.
pub open spec fn upgrade_json(r: Upgrade) -> Json {
    json::object(
        seq![
            ("implicitId"@, Json::Str(r.implicit_id)),
            ("projectId"@, json::opt_str(r.project_id)),
            ("name"@, Json::Str(r.name)),
            ("workspaceId"@, json::opt_str(r.workspace_id)),
            ("root"@, json::opt_str(r.root)),
            ("roots"@, json::text_array(r.roots)),
            ("requestKey"@, json::opt_str(r.request_key)),
            ("actor"@, json::opt_str(r.actor)),
        ],
    )
}

/// A request to remove, as JSON.
pub open spec fn remove_json(r: Remove) -> Json {
    json::object(
        seq![
            ("projectId"@, json::opt_str(r.project_id)),
            ("successorProjectId"@, json::opt_str(r.successor)),
            ("workspaceId"@, json::opt_str(r.workspace_id)),
            ("requestKey"@, json::opt_str(r.request_key)),
            ("actor"@, json::opt_str(r.actor)),
        ],
    )
}

/// An imported observation, as JSON.
pub open spec fn pair_json(p: Pair) -> Json {
    json::object(
        seq![
            ("canonicalRoot"@, Json::Str(p.root)),
            ("mcIdentity"@, Json::Str(p.identity)),
            ("identityClass"@, json::opt_str(p.class)),
            ("resolvedThroughCooldown"@, Json::Bool(p.cooldown)),
            ("name"@, json::opt_str(p.name)),
        ],
    )
}

/// An imported workspace, as JSON.
pub open spec fn title_json(w: (Text, Text)) -> Json {
    json::object(seq![("workspaceId"@, Json::Str(w.0)), ("name"@, Json::Str(w.1))])
}

/// An imported claim, as JSON.
pub open spec fn claim_json(c: Claim) -> Json {
    json::object(
        seq![("mcIdentity"@, Json::Str(c.identity)), ("workspaceId"@, Json::Str(c.workspace_id))],
    )
}

/// A request to import, as JSON.
pub open spec fn seed_json(r: Seed) -> Json {
    json::object(
        seq![
            ("source"@, Json::Str(r.source)),
            ("requestKey"@, json::opt_str(r.request_key)),
            (
                "payload"@,
                json::object(
                    seq![
                        ("pairs"@, Json::Array(r.pairs.map_values(|p: Pair| pair_json(p)))),
                        (
                            "workspaces"@,
                            Json::Array(r.workspaces.map_values(|w: (Text, Text)| title_json(w))),
                        ),
                        ("members"@, Json::Array(r.claims.map_values(|c: Claim| claim_json(c)))),
                        (
                            "names"@,
                            json::object(
                                r.names.map_values(|n: (Text, Text)| (n.0, Json::Str(n.1))),
                            ),
                        ),
                    ],
                ),
            ),
            ("actor"@, json::opt_str(r.actor)),
        ],
    )
}

impl RegisterRequest {
    /// The request as JSON.
    pub fn to_value(&self) -> (r: serde_json::Value)
        ensures
            json::value_view(r) == register_json(self@),
    {
        let mut p: Vec<(String, serde_json::Value)> = Vec::new();
        p.push(field("projectId", opt_value(&self.project_id)));
        p.push(field("name", text_value(self.name.as_str())));
        p.push(field("workspaceId", opt_value(&self.workspace_id)));
        p.push(field("roots", array_value(&self.roots)));
        p.push(field("derivedRootParents", array_value(&self.derived_root_parents)));
        p.push(field("requestKey", opt_value(&self.request_key)));
        p.push(field("actor", opt_value(&self.actor)));
        let ghost r = self@;
        assert(json::fields(p@) =~= seq![
            ("projectId"@, json::opt_str(r.project_id)),
            ("name"@, Json::Str(r.name)),
            ("workspaceId"@, json::opt_str(r.workspace_id)),
            ("roots"@, json::text_array(r.roots)),
            ("derivedRootParents"@, json::text_array(r.parents)),
            ("requestKey"@, json::opt_str(r.request_key)),
            ("actor"@, json::opt_str(r.actor)),
        ]);
        object_value(p)
    }
}

impl AssignWorkspaceRequest {
    /// The request as JSON.
    pub fn to_value(&self) -> (r: serde_json::Value)
        ensures
            json::value_view(r) == assign_json(self@),
    {
        let mut p: Vec<(String, serde_json::Value)> = Vec::new();
        p.push(field("projectId", text_value(self.project_id.as_str())));
        p.push(field("workspaceId", text_value(self.workspace_id.as_str())));
        p.push(field("workspaceName", opt_value(&self.workspace_name)));
        p.push(field("requestKey", opt_value(&self.request_key)));
        p.push(field("actor", opt_value(&self.actor)));
        let ghost r = self@;
        assert(json::fields(p@) =~= seq![
            ("projectId"@, Json::Str(r.project_id)),
            ("workspaceId"@, Json::Str(r.workspace_id)),
            ("workspaceName"@, json::opt_str(r.workspace_name)),
            ("requestKey"@, json::opt_str(r.request_key)),
            ("actor"@, json::opt_str(r.actor)),
        ]);
        object_value(p)
    }
}

impl UpgradeImplicitRequest {
    /// The request as JSON.
    pub fn to_value(&self) -> (r: serde_json::Value)
        ensures
            json::value_view(r) == upgrade_json(self@),
    {
        let mut p: Vec<(String, serde_json::Value)> = Vec::new();
        p.push(field("implicitId", text_value(self.implicit_id.as_str())));
        p.push(field("projectId", opt_value(&self.project_id)));
        p.push(field("name", text_value(self.name.as_str())));
        p.push(field("workspaceId", opt_value(&self.workspace_id)));
        p.push(field("root", opt_value(&self.root)));
        p.push(field("roots", array_value(&self.roots)));
        p.push(field("requestKey", opt_value(&self.request_key)));
        p.push(field("actor", opt_value(&self.actor)));
        let ghost r = self@;
        assert(json::fields(p@) =~= seq![
            ("implicitId"@, Json::Str(r.implicit_id)),
            ("projectId"@, json::opt_str(r.project_id)),
            ("name"@, Json::Str(r.name)),
            ("workspaceId"@, json::opt_str(r.workspace_id)),
            ("root"@, json::opt_str(r.root)),
            ("roots"@, json::text_array(r.roots)),
            ("requestKey"@, json::opt_str(r.request_key)),
            ("actor"@, json::opt_str(r.actor)),
        ]);
        object_value(p)
    }
}

impl RemoveRequest {
    /// The request as JSON.
    pub fn to_value(&self) -> (r: serde_json::Value)
        ensures
            json::value_view(r) == remove_json(self@),
    {
        let mut p: Vec<(String, serde_json::Value)> = Vec::new();
        p.push(field("projectId", opt_value(&self.project_id)));
        p.push(field("successorProjectId", opt_value(&self.successor_project_id)));
        p.push(field("workspaceId", opt_value(&self.workspace_id)));
        p.push(field("requestKey", opt_value(&self.request_key)));
        p.push(field("actor", opt_value(&self.actor)));
        let ghost r = self@;
        assert(json::fields(p@) =~= seq![
            ("projectId"@, json::opt_str(r.project_id)),
            ("successorProjectId"@, json::opt_str(r.successor)),
            ("workspaceId"@, json::opt_str(r.workspace_id)),
            ("requestKey"@, json::opt_str(r.request_key)),
            ("actor"@, json::opt_str(r.actor)),
        ]);
        object_value(p)
    }
}

impl SeedPair {
    /// The observation as JSON.
    pub fn to_value(&self) -> (r: serde_json::Value)
        ensures
            json::value_view(r) == pair_json(self@),
    {
        let mut p: Vec<(String, serde_json::Value)> = Vec::new();
        p.push(field("canonicalRoot", text_value(self.canonical_root.as_str())));
        p.push(field("mcIdentity", text_value(self.mc_identity.as_str())));
        p.push(field("identityClass", opt_value(&self.identity_class)));
        p.push(field("resolvedThroughCooldown", bool_value(self.resolved_through_cooldown)));
        p.push(field("name", opt_value(&self.name)));
        let ghost r = self@;
        assert(json::fields(p@) =~= seq![
            ("canonicalRoot"@, Json::Str(r.root)),
            ("mcIdentity"@, Json::Str(r.identity)),
            ("identityClass"@, json::opt_str(r.class)),
            ("resolvedThroughCooldown"@, Json::Bool(r.cooldown)),
            ("name"@, json::opt_str(r.name)),
        ]);
        object_value(p)
    }
}

impl SeedWorkspace {
    /// The workspace as JSON.
    pub fn to_value(&self) -> (r: serde_json::Value)
        ensures
            json::value_view(r) == title_json((self.workspace_id@, self.name@)),
    {
        let mut p: Vec<(String, serde_json::Value)> = Vec::new();
        p.push(field("workspaceId", text_value(self.workspace_id.as_str())));
        p.push(field("name", text_value(self.name.as_str())));
        assert(json::fields(p@) =~= seq![
            ("workspaceId"@, Json::Str(self.workspace_id@)),
            ("name"@, Json::Str(self.name@)),
        ]);
        object_value(p)
    }
}

impl SeedMember {
    /// The claim as JSON.
    pub fn to_value(&self) -> (r: serde_json::Value)
        ensures
            json::value_view(r) == claim_json(self@),
    {
        let mut p: Vec<(String, serde_json::Value)> = Vec::new();
        p.push(field("mcIdentity", text_value(self.mc_identity.as_str())));
        p.push(field("workspaceId", text_value(self.workspace_id.as_str())));
        assert(json::fields(p@) =~= seq![
            ("mcIdentity"@, Json::Str(self@.identity)),
            ("workspaceId"@, Json::Str(self@.workspace_id)),
        ]);
        object_value(p)
    }
}

fn pairs_value(v: &Vec<SeedPair>) -> (r: serde_json::Value)
    ensures
        json::value_view(r) == Json::Array(
            request::pairs(v@).map_values(|p: Pair| pair_json(p)),
        ),
{
    let mut out: Vec<serde_json::Value> = Vec::new();
    let mut i: usize = 0;
    while i < v.len()
        invariant
            i <= v@.len(),
            out@.len() == i,
            forall|j: int|
                0 <= j < i ==> json::value_view(#[trigger] out@[j]) == pair_json(v@[j]@),
        decreases v@.len() - i,
    {
        out.push(v[i].to_value());
        i = i + 1;
    }
    assert(json::values(out@) =~= request::pairs(v@).map_values(|p: Pair| pair_json(p)));
    list_value(out)
}

fn titles_value(v: &Vec<SeedWorkspace>) -> (r: serde_json::Value)
    ensures
        json::value_view(r) == Json::Array(
            request::titles(v@).map_values(|w: (Text, Text)| title_json(w)),
        ),
{
    let mut out: Vec<serde_json::Value> = Vec::new();
    let mut i: usize = 0;
    while i < v.len()
        invariant
            i <= v@.len(),
            out@.len() == i,
            forall|j: int|
                0 <= j < i ==> json::value_view(#[trigger] out@[j]) == title_json(
                    (v@[j].workspace_id@, v@[j].name@),
                ),
        decreases v@.len() - i,
    {
        out.push(v[i].to_value());
        i = i + 1;
    }
    assert(json::values(out@) =~= request::titles(v@).map_values(
        |w: (Text, Text)| title_json(w),
    ));
    list_value(out)
}

fn claims_value(v: &Vec<SeedMember>) -> (r: serde_json::Value)
    ensures
        json::value_view(r) == Json::Array(
            request::claims(v@).map_values(|c: Claim| claim_json(c)),
        ),
{
    let mut out: Vec<serde_json::Value> = Vec::new();
    let mut i: usize = 0;
    while i < v.len()
        invariant
            i <= v@.len(),
            out@.len() == i,
            forall|j: int|
                0 <= j < i ==> json::value_view(#[trigger] out@[j]) == claim_json(v@[j]@),
        decreases v@.len() - i,
    {
        out.push(v[i].to_value());
        i = i + 1;
    }
    assert(json::values(out@) =~= request::claims(v@).map_values(|c: Claim| claim_json(c)));
    list_value(out)
}

fn names_value(v: &Vec<(String, String)>) -> (r: serde_json::Value)
    ensures
        json::value_view(r) == json::object(
            request::names(v@).map_values(|n: (Text, Text)| (n.0, Json::Str(n.1))),
        ),
{
    let mut out: Vec<(String, serde_json::Value)> = Vec::new();
    let mut i: usize = 0;
    while i < v.len()
        invariant
            i <= v@.len(),
            out@.len() == i,
            forall|j: int|
                0 <= j < i ==> (#[trigger] out@[j]).0@ == v@[j].0@ && json::value_view(out@[j].1)
                    == Json::Str(v@[j].1@),
        decreases v@.len() - i,
    {
        out.push(field(v[i].0.as_str(), text_value(v[i].1.as_str())));
        i = i + 1;
    }
    assert(json::fields(out@) =~= request::names(v@).map_values(
        |n: (Text, Text)| (n.0, Json::Str(n.1)),
    ));
    object_value(out)
}

impl SeedImportRequest {
    /// The request as JSON.
    pub fn to_value(&self) -> (r: serde_json::Value)
        ensures
            json::value_view(r) == seed_json(self@),
    {
        let ghost r = self@;
        let ghost inner: Seq<Field> = seq![
            ("pairs"@, Json::Array(r.pairs.map_values(|p: Pair| pair_json(p)))),
            ("workspaces"@, Json::Array(r.workspaces.map_values(|w: (Text, Text)| title_json(w)))),
            ("members"@, Json::Array(r.claims.map_values(|c: Claim| claim_json(c)))),
            ("names"@, json::object(r.names.map_values(|n: (Text, Text)| (n.0, Json::Str(n.1))))),
        ];
        let mut b: Vec<(String, serde_json::Value)> = Vec::new();
        b.push(field("pairs", pairs_value(&self.payload.pairs)));
        b.push(field("workspaces", titles_value(&self.payload.workspaces)));
        b.push(field("members", claims_value(&self.payload.members)));
        b.push(field("names", names_value(&self.payload.names)));
        assert(json::fields(b@) =~= inner);
        let mut p: Vec<(String, serde_json::Value)> = Vec::new();
        p.push(field("source", text_value(self.source.as_str())));
        p.push(field("requestKey", opt_value(&self.request_key)));
        p.push(field("payload", object_value(b)));
        p.push(field("actor", opt_value(&self.actor)));
        assert(json::fields(p@) =~= seq![
            ("source"@, Json::Str(r.source)),
            ("requestKey"@, json::opt_str(r.request_key)),
            ("payload"@, json::object(inner)),
            ("actor"@, json::opt_str(r.actor)),
        ]);
        object_value(p)
    }
}

} // verus!
