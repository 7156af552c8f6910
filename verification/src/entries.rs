//! What a journal entry keeps of the request that made it.
use vstd::prelude::*;
use vstd::string::*;
use vstd::utf8::*;

use crate::json::{find, read, Field, Json};
use crate::model::{Assign, Claim, Entry, Pair, Record, Register, Remove, Seed, Upgrade};
use crate::text::{str_eq, Text};
use crate::{json, payload};

verus! {

/// The requests that a journal entry can keep, by its operation.
#[derive(Debug, Clone, Copy, PartialEq, Eq, Structural)]
pub enum Kind {
    Register,
    AssignWorkspace,
    UpgradeImplicit,
    SeedImport,
    Remove,
    /// An operation that changes nothing when replayed.
    Other,
}

/// The kind of request that an operation keeps.
pub open spec fn kind(op: Text) -> Kind {
    if op == "register"@ {
        Kind::Register
    } else if op == "assign_workspace"@ {
        Kind::AssignWorkspace
    } else if op == "upgrade_implicit"@ {
        Kind::UpgradeImplicit
    } else if op == "seed_import"@ {
        Kind::SeedImport
    } else if op == "remove"@ {
        Kind::Remove
    } else {
        Kind::Other
    }
}

/// The request in what an entry keeps: its field `request`, where it is an object
/// that has one, else all of it.
pub open spec fn request_part(v: Json) -> Json {
    match v {
        Json::Object(m) => if m.contains_key("request"@) {
            m["request"@]
        } else {
            v
        },
        _ => v,
    }
}

/// The kind of a record and its request as JSON, where it has one.
pub open spec fn asked(record: Record) -> Option<(Kind, Json)> {
    match record {
        Record::Register(r) => Some((Kind::Register, payload::register_json(r))),
        Record::Assign(r) => Some((Kind::AssignWorkspace, payload::assign_json(r))),
        Record::Upgrade(r) => Some((Kind::UpgradeImplicit, payload::upgrade_json(r))),
        Record::Seed(r) => Some((Kind::SeedImport, payload::seed_json(r))),
        Record::Remove(r) => Some((Kind::Remove, payload::remove_json(r))),
        Record::Other => None,
        Record::Unreadable(_) => None,
    }
}

/// Whether an operation and what is kept with it tell the request of a record.
pub open spec fn fits(op: Text, kept: Json, record: Record) -> bool {
    asked(record) == Some((kind(op), request_part(kept)))
}

/// Whether an entry's payload, when it is read, tells the request that made it.
pub open spec fn tells(e: Entry) -> bool {
    json::json_read(encode_utf8(e.payload)) matches Some(v) && fits(e.op, v, e.record)
}

/// Whether a journal goes on from another with entries that tell their requests.
pub open spec fn extends(before: Seq<Entry>, after: Seq<Entry>) -> bool {
    &&& before.len() <= after.len()
    &&& forall|i: int| 0 <= i < before.len() ==> (#[trigger] after[i]) == before[i]
    &&& forall|i: int| before.len() <= i < after.len() ==> tells(#[trigger] after[i])
}

/// Whether what a mutation keeps with an entry can be read and tells the request.
pub open spec fn legible(e: Entry, kept: Json) -> bool {
    json::plain(kept, 100) && fits(e.op, kept, e.record)
}

/// The operations are told apart.
proof fn lemma_kinds()
    ensures
        kind("register"@) == Kind::Register,
        kind("assign_workspace"@) == Kind::AssignWorkspace,
        kind("upgrade_implicit"@) == Kind::UpgradeImplicit,
        kind("seed_import"@) == Kind::SeedImport,
        kind("remove"@) == Kind::Remove,
{
    reveal_strlit("register");
    reveal_strlit("assign_workspace");
    reveal_strlit("upgrade_implicit");
    reveal_strlit("seed_import");
    reveal_strlit("remove");
    assert("register"@.len() == 8 && "seed_import"@.len() == 11 && "remove"@.len() == 6);
    assert("assign_workspace"@[0] == 'a');
    assert("upgrade_implicit"@[0] == 'u');
}

/// An object without the field `request` is the request itself.
proof fn lemma_bare(s: Seq<Field>)
    requires
        forall|i: int| 0 <= i < s.len() ==> (#[trigger] s[i]).0 != "request"@,
    ensures
        request_part(json::object(s)) == json::object(s),
{
    json::lemma_fields_domain(s, "request"@);
}

proof fn lemma_names()
    ensures
        "request"@.len() == 7,
        "request"@[0] == 'r',
        "payload"@[0] == 'p',
        "projectId"@.len() == 9,
        "name"@.len() == 4,
        "workspaceId"@.len() == 11,
        "workspaceName"@.len() == 13,
        "roots"@.len() == 5,
        "root"@.len() == 4,
        "derivedRootParents"@.len() == 18,
        "requestKey"@.len() == 10,
        "actor"@.len() == 5,
        "implicitId"@.len() == 10,
        "successorProjectId"@.len() == 18,
        "source"@.len() == 6,
        "implicitAliasCollisions"@.len() == 23,
{
    reveal_strlit("request");
    reveal_strlit("payload");
    reveal_strlit("projectId");
    reveal_strlit("name");
    reveal_strlit("workspaceId");
    reveal_strlit("workspaceName");
    reveal_strlit("roots");
    reveal_strlit("root");
    reveal_strlit("derivedRootParents");
    reveal_strlit("requestKey");
    reveal_strlit("actor");
    reveal_strlit("implicitId");
    reveal_strlit("successorProjectId");
    reveal_strlit("source");
    reveal_strlit("implicitAliasCollisions");
}

/// What a registration keeps tells its request.
pub proof fn lemma_register_kept(r: Register, collided: Json)
    requires
        json::plain(collided, 10),
    ensures
        ({
            let kept = json::object(
                seq![
                    ("request"@, payload::register_json(r)),
                    ("implicitAliasCollisions"@, collided),
                ],
            );
            json::plain(kept, 100) && fits("register"@, kept, Record::Register(r))
        }),
{
    let s: Seq<Field> = seq![
        ("request"@, payload::register_json(r)),
        ("implicitAliasCollisions"@, collided),
    ];
    let inner: Seq<Field> = seq![
        ("projectId"@, json::opt_str(r.project_id)),
        ("name"@, Json::Str(r.name)),
        ("workspaceId"@, json::opt_str(r.workspace_id)),
        ("roots"@, json::text_array(r.roots)),
        ("derivedRootParents"@, json::text_array(r.parents)),
        ("requestKey"@, json::opt_str(r.request_key)),
        ("actor"@, json::opt_str(r.actor)),
    ];
    json::lemma_plain_texts(r.roots, None, 8);
    json::lemma_plain_texts(r.parents, None, 8);
    json::lemma_plain_object(inner, 9);
    json::lemma_plain_object(s, 10);
    json::lemma_plain_deeper(json::object(s), 11, 100);
    lemma_names();
    lemma_kinds();
    json::lemma_fields_map(s, 0);
}

/// What a placement keeps tells its request.
pub proof fn lemma_assign_kept(r: Assign)
    ensures
        json::plain(payload::assign_json(r), 100),
        fits("assign_workspace"@, payload::assign_json(r), Record::Assign(r)),
{
    let s: Seq<Field> = seq![
        ("projectId"@, Json::Str(r.project_id)),
        ("workspaceId"@, Json::Str(r.workspace_id)),
        ("workspaceName"@, json::opt_str(r.workspace_name)),
        ("requestKey"@, json::opt_str(r.request_key)),
        ("actor"@, json::opt_str(r.actor)),
    ];
    json::lemma_plain_object(s, 99);
    lemma_names();
    lemma_kinds();
    lemma_bare(s);
}

/// What an upgrade keeps tells its request.
pub proof fn lemma_upgrade_kept(r: Upgrade)
    ensures
        json::plain(payload::upgrade_json(r), 100),
        fits("upgrade_implicit"@, payload::upgrade_json(r), Record::Upgrade(r)),
{
    let s: Seq<Field> = seq![
        ("implicitId"@, Json::Str(r.implicit_id)),
        ("projectId"@, json::opt_str(r.project_id)),
        ("name"@, Json::Str(r.name)),
        ("workspaceId"@, json::opt_str(r.workspace_id)),
        ("root"@, json::opt_str(r.root)),
        ("roots"@, json::text_array(r.roots)),
        ("requestKey"@, json::opt_str(r.request_key)),
        ("actor"@, json::opt_str(r.actor)),
    ];
    json::lemma_plain_texts(r.roots, None, 98);
    json::lemma_plain_object(s, 99);
    lemma_names();
    lemma_kinds();
    lemma_bare(s);
}

/// What a removal keeps tells its request.
pub proof fn lemma_remove_kept(r: Remove)
    ensures
        json::plain(payload::remove_json(r), 100),
        fits("remove"@, payload::remove_json(r), Record::Remove(r)),
{
    let s: Seq<Field> = seq![
        ("projectId"@, json::opt_str(r.project_id)),
        ("successorProjectId"@, json::opt_str(r.successor)),
        ("workspaceId"@, json::opt_str(r.workspace_id)),
        ("requestKey"@, json::opt_str(r.request_key)),
        ("actor"@, json::opt_str(r.actor)),
    ];
    json::lemma_plain_object(s, 99);
    lemma_names();
    lemma_kinds();
    lemma_bare(s);
}

proof fn lemma_pair_plain(p: Pair)
    ensures
        json::plain(payload::pair_json(p), 96),
{
    let s: Seq<Field> = seq![
        ("canonicalRoot"@, Json::Str(p.root)),
        ("mcIdentity"@, Json::Str(p.identity)),
        ("identityClass"@, json::opt_str(p.class)),
        ("resolvedThroughCooldown"@, Json::Bool(p.cooldown)),
        ("name"@, json::opt_str(p.name)),
    ];
    json::lemma_plain_object(s, 95);
}

proof fn lemma_title_plain(w: (Text, Text))
    ensures
        json::plain(payload::title_json(w), 96),
{
    let s: Seq<Field> = seq![("workspaceId"@, Json::Str(w.0)), ("name"@, Json::Str(w.1))];
    json::lemma_plain_object(s, 95);
}

proof fn lemma_claim_plain(c: Claim)
    ensures
        json::plain(payload::claim_json(c), 96),
{
    let s: Seq<Field> = seq![
        ("mcIdentity"@, Json::Str(c.identity)),
        ("workspaceId"@, Json::Str(c.workspace_id)),
    ];
    json::lemma_plain_object(s, 95);
}

/// What an import keeps tells its request.
pub proof fn lemma_seed_kept(r: Seed)
    ensures
        json::plain(payload::seed_json(r), 100),
        fits("seed_import"@, payload::seed_json(r), Record::Seed(r)),
{
    let pairs = r.pairs.map_values(|p: Pair| payload::pair_json(p));
    let titles = r.workspaces.map_values(|w: (Text, Text)| payload::title_json(w));
    let claims = r.claims.map_values(|c: Claim| payload::claim_json(c));
    let names = r.names.map_values(|n: (Text, Text)| (n.0, Json::Str(n.1)));
    assert forall|i: int| 0 <= i < pairs.len() implies json::plain(#[trigger] pairs[i], 96) by {
        lemma_pair_plain(r.pairs[i]);
    }
    assert forall|i: int| 0 <= i < titles.len() implies json::plain(#[trigger] titles[i], 96) by {
        lemma_title_plain(r.workspaces[i]);
    }
    assert forall|i: int| 0 <= i < claims.len() implies json::plain(#[trigger] claims[i], 96) by {
        lemma_claim_plain(r.claims[i]);
    }
    assert forall|i: int| 0 <= i < names.len() implies json::plain((#[trigger] names[i]).1, 96) by {
        assert(names[i].1 == Json::Str(r.names[i].1));
    }
    json::lemma_plain_object(names, 96);
    let inner: Seq<Field> = seq![
        ("pairs"@, Json::Array(pairs)),
        ("workspaces"@, Json::Array(titles)),
        ("members"@, Json::Array(claims)),
        ("names"@, json::object(names)),
    ];
    assert(json::plain(Json::Array(pairs), 97));
    assert(json::plain(Json::Array(titles), 97));
    assert(json::plain(Json::Array(claims), 97));
    json::lemma_plain_object(inner, 97);
    json::lemma_plain_deeper(json::object(inner), 98, 99);
    let s: Seq<Field> = seq![
        ("source"@, Json::Str(r.source)),
        ("requestKey"@, json::opt_str(r.request_key)),
        ("payload"@, json::object(inner)),
        ("actor"@, json::opt_str(r.actor)),
    ];
    json::lemma_plain_object(s, 99);
    lemma_names();
    lemma_kinds();
    lemma_bare(s);
}

/// Where every entry of a journal tells its request, so does every entry of one
/// that goes on from it.
pub proof fn law_journals_go_on_telling(before: Seq<Entry>, after: Seq<Entry>)
    requires
        forall|i: int| 0 <= i < before.len() ==> tells(#[trigger] before[i]),
        extends(before, after),
    ensures
        forall|i: int| 0 <= i < after.len() ==> tells(#[trigger] after[i]),
{
    assert forall|i: int| 0 <= i < after.len() implies tells(#[trigger] after[i]) by {
        if i < before.len() {
            assert(after[i] == before[i]);
            assert(tells(before[i]));
        }
    }
}

/// The kind of request that an operation keeps.
pub fn kind_of(op: &str) -> (r: Kind)
    ensures
        r == kind(op@),
{
    if str_eq(op, "register") {
        Kind::Register
    } else if str_eq(op, "assign_workspace") {
        Kind::AssignWorkspace
    } else if str_eq(op, "upgrade_implicit") {
        Kind::UpgradeImplicit
    } else if str_eq(op, "seed_import") {
        Kind::SeedImport
    } else if str_eq(op, "remove") {
        Kind::Remove
    } else {
        Kind::Other
    }
}

/// The request in the payload of a journal entry. What is said of a payload that is
/// no JSON is for people, and nothing is claimed of it.
pub fn request_in(payload: &str) -> (r: Result<serde_json::Value, String>)
    ensures
        match json::json_read(encode_utf8(payload@)) {
            Some(v) => r matches Ok(x) && json::value_view(x) == request_part(v),
            None => r is Err,
        },
{
    let v = match read(payload.as_bytes()) {
        Ok(v) => v,
        Err(e) => return Err(e),
    };
    match find(&v, "request") {
        Some(part) => Ok(part),
        None => Ok(v),
    }
}

} // verus!
