//! What replies say on the wire, and which request gets which.
use vstd::prelude::*;
use vstd::string::*;
use vstd::utf8::*;

use crate::error::Failure;
use crate::gauges::{Counter, HealthGauges, Recording};
use crate::json::{Field, Json};
use crate::liveness::{Live, Liveness};
use crate::model::Registry;
use crate::queries::{Listing, Resolved, Shown, Told, Traced};
use crate::service::{Call, Refusal};
use crate::text::Text;
use crate::{
    audit, frame, gauges, json, liveness, model, mutations, paths, queries, register, replay,
    replies, seed, service, text,
};

verus! {

/// A field is found under its name where no later one has that name.
pub proof fn lemma_at(s: Seq<Field>, i: int)
    requires
        0 <= i < s.len(),
        forall|j: int| i < j < s.len() ==> (#[trigger] s[j]).0 != s[i].0,
    ensures
        json::object(s).at(s[i].0) == s[i].1,
        json::fields_map(s).contains_key(s[i].0),
        json::fields_map(s)[s[i].0] == s[i].1,
    decreases s.len(),
{
    if i < s.len() - 1 {
        let head = s.drop_last();
        assert forall|j: int| i < j < head.len() implies (#[trigger] head[j]).0 != head[i].0 by {
            assert(s[j].0 != s[i].0);
        }
        lemma_at(head, i);
        assert(s[s.len() - 1].0 != s[i].0);
    }
}

/// A name that no field has finds nothing.
proof fn lemma_not_at(s: Seq<Field>, key: Text)
    requires
        forall|j: int| 0 <= j < s.len() ==> (#[trigger] s[j]).0 != key,
    ensures
        json::object(s).at(key) == Json::Null,
{
    json::lemma_fields_domain(s, key);
}

/// An optional text as JSON.
pub open spec fn text_or_null(o: Option<Text>) -> Json {
    match o {
        Some(t) => Json::Str(t),
        None => Json::Null,
    }
}

/// What resolving a path says on the wire.
pub proof fn law_resolutions_on_the_wire(r: Resolved)
    ensures
        ({
            let v = replies::resolved_json(r);
            &&& v.at("projectId"@) == Json::Str(r.project_id)
            &&& v.at("workspaceId"@) == text_or_null(r.workspace_id)
            &&& v.at("projectName"@) == text_or_null(r.project_name)
            &&& v.at("via"@) == Json::Str(r.via)
            &&& v.at("gone"@) == Json::Bool(r.gone)
            &&& v.at("generation"@) == json::int_json(r.generation as int)
            &&& v.at("canonicalRoot"@) == text_or_null(r.canonical_root)
        }),
{
    let s: Seq<Field> = seq![
        ("projectId"@, Json::Str(r.project_id)),
        ("workspaceId"@, json::opt_str(r.workspace_id)),
        ("projectName"@, json::opt_str(r.project_name)),
        ("via"@, Json::Str(r.via)),
        ("gone"@, Json::Bool(r.gone)),
        ("generation"@, json::int_json(r.generation as int)),
        ("canonicalRoot"@, json::opt_str(r.canonical_root)),
    ];
    reveal_strlit("projectId");
    reveal_strlit("workspaceId");
    reveal_strlit("projectName");
    reveal_strlit("via");
    reveal_strlit("gone");
    reveal_strlit("generation");
    reveal_strlit("canonicalRoot");
    assert("workspaceId"@[0] == 'w' && "projectName"@[0] == 'p');
    assert("projectId"@.len() == 9 && "workspaceId"@.len() == 11 && "projectName"@.len() == 11
        && "via"@.len() == 3 && "gone"@.len() == 4 && "generation"@.len() == 10
        && "canonicalRoot"@.len() == 13);
    lemma_at(s, 0);
    lemma_at(s, 1);
    lemma_at(s, 2);
    lemma_at(s, 3);
    lemma_at(s, 4);
    lemma_at(s, 5);
    lemma_at(s, 6);
}

/// What looking up a project id says on the wire.
pub proof fn law_traces_on_the_wire(r: Traced)
    ensures
        ({
            let v = replies::traced_json(r);
            &&& v.at("projectId"@) == Json::Str(r.project_id)
            &&& v.at("via"@) == Json::Str(r.via)
            &&& v.at("gone"@) == Json::Bool(r.gone)
            &&& v.at("generation"@) == json::int_json(r.generation as int)
        }),
{
    let s: Seq<Field> = seq![
        ("projectId"@, Json::Str(r.project_id)),
        ("via"@, Json::Str(r.via)),
        ("gone"@, Json::Bool(r.gone)),
        ("generation"@, json::int_json(r.generation as int)),
    ];
    reveal_strlit("projectId");
    reveal_strlit("via");
    reveal_strlit("gone");
    reveal_strlit("generation");
    assert("projectId"@.len() == 9 && "via"@.len() == 3 && "gone"@.len() == 4 && "generation"@.len()
        == 10);
    lemma_at(s, 0);
    lemma_at(s, 1);
    lemma_at(s, 2);
    lemma_at(s, 3);
}

/// What an enumeration says of a project on the wire. What there is nothing to say of is
/// left out.
pub proof fn law_projects_on_the_wire(p: Shown)
    ensures
        ({
            let v = replies::shown_json(p);
            &&& v.at("projectId"@) == Json::Str(p.project_id)
            &&& v.at("name"@) == Json::Str(p.name)
            &&& v.at("roots"@) == json::text_array(p.roots)
            &&& v.at("implicit"@) == Json::Bool(p.implicit)
            &&& v.at("refKind"@) == Json::Str(p.ref_kind)
            &&& v.at("deviceFingerprint"@) == text_or_null(p.device)
            &&& v.at("workspaceId"@) == text_or_null(p.workspace_id)
            &&& v.at("lastRouteActivityMs"@) == (match p.activity {
                Some(a) => json::int_json(a as int),
                None => Json::Null,
            })
        }),
{
    let first: Seq<Field> = seq![
        ("projectId"@, Json::Str(p.project_id)),
        ("name"@, Json::Str(p.name)),
        ("roots"@, json::text_array(p.roots)),
        ("implicit"@, Json::Bool(p.implicit)),
        ("refKind"@, Json::Str(p.ref_kind)),
    ];
    let device = replies::optional("deviceFingerprint"@, p.device);
    let place = replies::optional("workspaceId"@, p.workspace_id);
    let last: Seq<Field> = match p.activity {
        Some(a) => seq![("lastRouteActivityMs"@, json::int_json(a as int))],
        None => Seq::empty(),
    };
    let s = first + device + place + last;
    reveal_strlit("projectId");
    reveal_strlit("name");
    reveal_strlit("roots");
    reveal_strlit("implicit");
    reveal_strlit("refKind");
    reveal_strlit("deviceFingerprint");
    reveal_strlit("workspaceId");
    reveal_strlit("lastRouteActivityMs");
    assert("projectId"@.len() == 9 && "name"@.len() == 4 && "roots"@.len() == 5 && "implicit"@.len()
        == 8 && "refKind"@.len() == 7 && "deviceFingerprint"@.len() == 17 && "workspaceId"@.len()
        == 11 && "lastRouteActivityMs"@.len() == 19);
    let (a, b) = (device.len() as int, place.len() as int);
    assert forall|i: int| 0 <= i < 5 implies (#[trigger] s[i]) == first[i] by {}
    assert(s[0].0 == "projectId"@ && s[1].0 == "name"@ && s[2].0 == "roots"@ && s[3].0
        == "implicit"@ && s[4].0 == "refKind"@);
    assert forall|i: int| 5 <= i < 5 + a implies (#[trigger] s[i]) == device[i - 5] by {}
    assert forall|i: int| 5 + a <= i < 5 + a + b implies (#[trigger] s[i]) == place[i - 5 - a] by {}
    assert forall|i: int| 5 + a + b <= i < s.len() implies (#[trigger] s[i]) == last[i - 5 - a
        - b] by {}
    lemma_at(s, 0);
    lemma_at(s, 1);
    lemma_at(s, 2);
    lemma_at(s, 3);
    lemma_at(s, 4);
    if p.device is Some {
        assert(s[5] == device[0]);
        lemma_at(s, 5);
    } else {
        lemma_not_at(s, "deviceFingerprint"@);
    }
    if p.workspace_id is Some {
        assert(s[5 + a] == place[0]);
        lemma_at(s, 5 + a);
    } else {
        lemma_not_at(s, "workspaceId"@);
    }
    if p.activity is Some {
        assert(s[5 + a + b] == last[0]);
        lemma_at(s, 5 + a + b);
    } else {
        lemma_not_at(s, "lastRouteActivityMs"@);
    }
}

/// What an enumeration says on the wire: its workspaces and projects, one for one.
pub proof fn law_listings_on_the_wire(l: Listing)
    ensures
        ({
            let v = replies::listing_json(l);
            &&& v.at("workspaces"@) matches Json::Array(ws) && ws.len() == l.workspaces.len()
                && forall|i: int|
                0 <= i < ws.len() ==> (#[trigger] ws[i]).at("workspaceId"@) == Json::Str(
                    l.workspaces[i].0,
                ) && ws[i].at("name"@) == Json::Str(l.workspaces[i].1)
            &&& v.at("projects"@) matches Json::Array(ps) && ps.len() == l.projects.len()
                && forall|i: int|
                0 <= i < ps.len() ==> #[trigger] ps[i] == replies::shown_json(l.projects[i])
            &&& v.at("generation"@) == json::int_json(l.generation as int)
        }),
{
    let ws = l.workspaces.map_values(|w: (Text, Text)| replies::summary_json(w));
    let ps = l.projects.map_values(|p: Shown| replies::shown_json(p));
    let s: Seq<Field> = seq![
        ("workspaces"@, Json::Array(ws)),
        ("projects"@, Json::Array(ps)),
        ("generation"@, json::int_json(l.generation as int)),
    ];
    reveal_strlit("workspaces");
    reveal_strlit("projects");
    reveal_strlit("generation");
    assert("workspaces"@[0] == 'w' && "projects"@[0] == 'p' && "generation"@[0] == 'g');
    lemma_at(s, 0);
    lemma_at(s, 1);
    lemma_at(s, 2);
    reveal_strlit("workspaceId");
    reveal_strlit("name");
    assert("workspaceId"@.len() == 11 && "name"@.len() == 4);
    assert forall|i: int| 0 <= i < ws.len() implies (#[trigger] ws[i]).at("workspaceId"@)
        == Json::Str(l.workspaces[i].0) && ws[i].at("name"@) == Json::Str(l.workspaces[i].1) by {
        let w = l.workspaces[i];
        let f: Seq<Field> = seq![("workspaceId"@, Json::Str(w.0)), ("name"@, Json::Str(w.1))];
        lemma_at(f, 0);
        lemma_at(f, 1);
        assert(ws[i] == json::object(f));
    }
}

/// What a journal entry says on the wire.
pub proof fn law_entries_on_the_wire(e: Told)
    ensures
        ({
            let v = replies::told_json(e);
            &&& v.at("seq"@) == json::int_json(e.seq as int)
            &&& v.at("op"@) == Json::Str(e.op)
            &&& v.at("payloadJson"@) == Json::Str(e.payload)
            &&& v.at("actor"@) == Json::Str(e.actor)
            &&& v.at("requestKey"@) == text_or_null(e.request_key)
            &&& v.at("createdAt"@) == json::int_json(e.created_at as int)
        }),
{
    let s: Seq<Field> = seq![
        ("seq"@, json::int_json(e.seq as int)),
        ("op"@, Json::Str(e.op)),
        ("payloadJson"@, Json::Str(e.payload)),
        ("actor"@, Json::Str(e.actor)),
        ("requestKey"@, json::opt_str(e.request_key)),
        ("createdAt"@, json::int_json(e.created_at as int)),
    ];
    reveal_strlit("seq");
    reveal_strlit("op");
    reveal_strlit("payloadJson");
    reveal_strlit("actor");
    reveal_strlit("requestKey");
    reveal_strlit("createdAt");
    assert("seq"@.len() == 3 && "op"@.len() == 2 && "payloadJson"@.len() == 11 && "actor"@.len()
        == 5 && "requestKey"@.len() == 10 && "createdAt"@.len() == 9);
    lemma_at(s, 0);
    lemma_at(s, 1);
    lemma_at(s, 2);
    lemma_at(s, 3);
    lemma_at(s, 4);
    lemma_at(s, 5);
}

/// What a tail of the journal says on the wire: its entries, one for one.
pub proof fn law_tails_on_the_wire(entries: Seq<Told>, generation: i64)
    ensures
        ({
            let v = replies::tail_json(entries, generation);
            &&& v.at("entries"@) matches Json::Array(told) && told.len() == entries.len()
                && forall|i: int|
                0 <= i < told.len() ==> #[trigger] told[i] == replies::told_json(entries[i])
            &&& v.at("generation"@) == json::int_json(generation as int)
        }),
{
    let told = entries.map_values(|e: Told| replies::told_json(e));
    let s: Seq<Field> = seq![
        ("entries"@, Json::Array(told)),
        ("generation"@, json::int_json(generation as int)),
    ];
    reveal_strlit("entries");
    reveal_strlit("generation");
    assert("entries"@.len() == 7 && "generation"@.len() == 10);
    lemma_at(s, 0);
    lemma_at(s, 1);
}

/// What an audit says on the wire: what it found, whether that is nothing, and how many
/// references on this device and placements there are.
pub proof fn law_audits_on_the_wire(reg: Registry)
    ensures
        ({
            let v = replies::audit_json(reg);
            let found = audit::findings(reg);
            &&& v.at("ok"@) == Json::Bool(found.len() == 0)
            &&& v.at("mismatches"@) == json::text_array(found)
            &&& v.at("localMembers"@) == json::int_json(
                reg.tables.members.filter(|m: model::Member| !m.remote).len() as int,
            )
            &&& v.at("projectWorkspaces"@) == json::int_json(reg.tables.placements.len() as int)
            &&& v.at("generation"@) == json::int_json(reg.generation() as int)
        }),
{
    let t = reg.tables;
    let s: Seq<Field> = seq![
        ("ok"@, Json::Bool(audit::findings(reg).len() == 0)),
        ("localMembers"@, json::int_json(audit::locals(t.members).len() as int)),
        ("projectWorkspaces"@, json::int_json(t.placements.len() as int)),
        ("mismatches"@, json::text_array(audit::findings(reg))),
        ("generation"@, json::int_json(reg.generation() as int)),
    ];
    reveal_strlit("ok");
    reveal_strlit("localMembers");
    reveal_strlit("projectWorkspaces");
    reveal_strlit("mismatches");
    reveal_strlit("generation");
    assert("ok"@.len() == 2 && "localMembers"@.len() == 12 && "projectWorkspaces"@.len() == 17
        && "mismatches"@.len() == 10 && "generation"@.len() == 10);
    assert("mismatches"@[0] == 'm' && "generation"@[0] == 'g');
    lemma_at(s, 0);
    lemma_at(s, 1);
    lemma_at(s, 2);
    lemma_at(s, 3);
    lemma_at(s, 4);
}

/// What the module's gauges say on the wire.
pub proof fn law_gauges_on_the_wire(g: HealthGauges)
    ensures
        ({
            let v = gauges::metrics(g);
            &&& v.at("storeReady"@) == Json::Bool(g.store_ready)
            &&& v.at("generation"@) == json::int_json(g.generation as int)
            &&& v.at("resolveCount"@) == json::int_json(g.resolve_count as int)
            &&& v.at("enumerateCount"@) == json::int_json(g.enumerate_count as int)
            &&& v.at("journalTailCount"@) == json::int_json(g.journal_tail_count as int)
            &&& v.at("lastOperationMs"@) == json::int_json(g.last_operation_ms as int)
            &&& v.at("livenessBatches"@) == json::int_json(g.liveness_batches as int)
            &&& v.at("livenessGaps"@) == json::int_json(g.liveness_gaps as int)
            &&& v.at("livenessSessions"@) == json::int_json(g.liveness_sessions as int)
        }),
{
    let s: Seq<Field> = seq![
        ("storeReady"@, Json::Bool(g.store_ready)),
        ("generation"@, json::int_json(g.generation as int)),
        ("resolveCount"@, json::int_json(g.resolve_count as int)),
        ("enumerateCount"@, json::int_json(g.enumerate_count as int)),
        ("journalTailCount"@, json::int_json(g.journal_tail_count as int)),
        ("lastOperationMs"@, json::int_json(g.last_operation_ms as int)),
        ("livenessBatches"@, json::int_json(g.liveness_batches as int)),
        ("livenessGaps"@, json::int_json(g.liveness_gaps as int)),
        ("livenessSessions"@, json::int_json(g.liveness_sessions as int)),
    ];
    reveal_strlit("storeReady");
    reveal_strlit("generation");
    reveal_strlit("resolveCount");
    reveal_strlit("enumerateCount");
    reveal_strlit("journalTailCount");
    reveal_strlit("lastOperationMs");
    reveal_strlit("livenessBatches");
    reveal_strlit("livenessGaps");
    reveal_strlit("livenessSessions");
    assert("storeReady"@.len() == 10 && "generation"@.len() == 10 && "resolveCount"@.len() == 12
        && "enumerateCount"@.len() == 14 && "journalTailCount"@.len() == 16
        && "lastOperationMs"@.len() == 15 && "livenessBatches"@.len() == 15 && "livenessGaps"@.len()
        == 12 && "livenessSessions"@.len() == 16);
    assert("storeReady"@[0] == 's' && "generation"@[0] == 'g' && "resolveCount"@[0] == 'r'
        && "livenessGaps"@[0] == 'l' && "journalTailCount"@[0] == 'j' && "livenessSessions"@[0]
        == 'l' && "lastOperationMs"@[1] == 'a' && "livenessBatches"@[1] == 'i');
    lemma_at(s, 0);
    lemma_at(s, 1);
    lemma_at(s, 2);
    lemma_at(s, 3);
    lemma_at(s, 4);
    lemma_at(s, 5);
    lemma_at(s, 6);
    lemma_at(s, 7);
    lemma_at(s, 8);
}

/// What a batch of sessions is answered on the wire: that it was accepted, whether a
/// snapshot is wanted, and how many sessions are known.
pub proof fn law_batches_on_the_wire(after: Liveness) -> (reply: Json)
    ensures
        liveness::batch_answer(after) == json::json_text(reply),
        reply.at("result"@).at("accepted"@) == Json::Bool(true),
        reply.at("result"@).at("snapshotRequested"@) == Json::Bool(after.stale),
        reply.at("result"@).at("tracked"@) == json::int_json(after.sessions.len() as int),
{
    let s: Seq<Field> = seq![
        ("accepted"@, Json::Bool(true)),
        ("snapshotRequested"@, Json::Bool(after.stale)),
        ("tracked"@, json::int_json(after.sessions.len() as int)),
    ];
    let outer: Seq<Field> = seq![("result"@, json::object(s))];
    reveal_strlit("accepted");
    reveal_strlit("snapshotRequested");
    reveal_strlit("tracked");
    assert("accepted"@.len() == 8 && "snapshotRequested"@.len() == 17 && "tracked"@.len() == 7);
    lemma_at(outer, 0);
    lemma_at(s, 0);
    lemma_at(s, 1);
    lemma_at(s, 2);
    json::object(outer)
}

/// Whether a request is answered with this result, in its envelope.
pub open spec fn gives(answer: Result<Seq<u8>, Refusal>, result: Json) -> bool {
    exists|reply: Json|
        answer == Ok::<Seq<u8>, Refusal>(encode_utf8(#[trigger] json::json_text(reply))) && reply.at(
            "result"@,
        ) == result
}

proof fn lemma_gives(result: Json)
    ensures
        gives(Ok(replies::wire(result)), result),
{
    let outer: Seq<Field> = seq![("result"@, result)];
    lemma_at(outer, 0);
    assert(replies::wire(result) == encode_utf8(json::json_text(json::object(outer))));
}

/// Each query is answered from the registry by what it asks for, and counted as what it
/// is. An enumeration tells of activity; a tail is of a hundred entries unless the request
/// says otherwise.
pub proof fn law_queries_get_their_answers(
    reg: Registry,
    sessions: Map<Text, Live>,
    call: Call,
    now: i64,
)
    ensures
        ({
            let h = service::handled(reg, sessions, call, now);
            match call {
                Call::Resolve { path, cwd, probe, device, devices } => match paths::query_path(
                    paths::lexical(path@, cwd@),
                    probe@,
                ) {
                    Ok((found, there)) => gives(
                        h.answer,
                        replies::resolved_json(
                            queries::resolution(reg, found, there, device, devices@),
                        ),
                    ) && h.recording == Recording::Query(Counter::Resolve, reg.generation()),
                    Err(e) => tells_failure(h.answer, e) && h.recording == Recording::Nothing,
                },
                Call::ResolveProjectId { project_id } => gives(
                    h.answer,
                    replies::traced_json(queries::trace(reg, project_id@)),
                ) && h.recording == Recording::Query(Counter::Resolve, reg.generation()),
                Call::Enumerate { workspace_id } => gives(
                    h.answer,
                    replies::listing_json(
                        liveness::annotated(
                            sessions,
                            queries::listing(
                                reg,
                                match workspace_id {
                                    Some(w) => Some(w@),
                                    None => None,
                                },
                            ),
                        ),
                    ),
                ) && h.recording == Recording::Query(Counter::Enumerate, reg.generation()),
                Call::JournalTail { after_seq, limit } => gives(
                    h.answer,
                    replies::tail_json(
                        queries::tail(
                            reg.journal,
                            after_seq,
                            match limit {
                                Some(n) => n,
                                None => 100,
                            },
                        ),
                        reg.generation(),
                    ),
                ) && h.recording == Recording::Query(Counter::JournalTail, reg.generation()),
                Call::Verify => gives(h.answer, replies::audit_json(reg)) && h.recording
                    == Recording::Nothing,
                _ => true,
            }
        }),
{
    match call {
        Call::Resolve { path, cwd, probe, device, devices } => {
            if let Ok((found, there)) = paths::query_path(paths::lexical(path@, cwd@), probe@) {
                lemma_gives(
                    replies::resolved_json(
                        queries::resolution(reg, found, there, device, devices@),
                    ),
                );
            }
        },
        Call::ResolveProjectId { project_id } => {
            lemma_gives(replies::traced_json(queries::trace(reg, project_id@)));
        },
        Call::Enumerate { workspace_id } => {
            lemma_gives(
                replies::listing_json(
                    liveness::annotated(
                        sessions,
                        queries::listing(
                            reg,
                            match workspace_id {
                                Some(w) => Some(w@),
                                None => None,
                            },
                        ),
                    ),
                ),
            );
        },
        Call::JournalTail { after_seq, limit } => {
            lemma_gives(
                replies::tail_json(
                    queries::tail(
                        reg.journal,
                        after_seq,
                        match limit {
                            Some(n) => n,
                            None => 100,
                        },
                    ),
                    reg.generation(),
                ),
            );
        },
        Call::Verify => {
            lemma_gives(replies::audit_json(reg));
        },
        _ => {},
    }
}

/// How a failure is told: a refusal by its own code, anything else as one of the storage,
/// and each with what it says.
pub open spec fn tells_failure(answer: Result<Seq<u8>, Refusal>, e: Failure) -> bool {
    answer matches Err(r) && match e {
        Failure::Domain { code, message } => r.code == code && r.message == code + ": "@ + message,
        Failure::Store(s) => r.code == "storage_error"@ && r.message == s,
        Failure::Database(s) => r.code == "storage_error"@ && r.message == "database: "@ + s,
        Failure::Path(s) => r.code == "storage_error"@ && r.message == "path: "@ + s,
    }
}

/// Each mutation leaves behind what it comes to, and is answered with that or refused with
/// its failure. A rebuild leaves the journal as it is, tells its head, and changes nothing
/// where an entry cannot be replayed.
pub proof fn law_mutations_get_their_answers(
    reg: Registry,
    sessions: Map<Text, Live>,
    call: Call,
    now: i64,
)
    ensures
        ({
            let h = service::handled(reg, sessions, call, now);
            let outcome = match call {
                Call::Register { req, roots, parents } => Some(
                    register::register_outcome(
                        reg,
                        req@,
                        paths::facts(roots@),
                        paths::facts(parents@),
                        now,
                    ),
                ),
                Call::AssignWorkspace { req } => Some(mutations::assign_outcome(reg, req@, now)),
                Call::UpgradeImplicit { req, roots } => Some(
                    mutations::upgrade_outcome(reg, req@, paths::facts(roots@), now),
                ),
                Call::Remove { req } => Some(mutations::remove_outcome(reg, req@, now)),
                Call::SeedImport { req, roots } => Some(
                    seed::seed_outcome(reg, req@, paths::facts(roots@), now),
                ),
                _ => None,
            };
            &&& outcome matches Some(o) ==> h.registry == o.registry && match o.answer {
                Ok(bytes) => h.answer == Ok::<Seq<u8>, Refusal>(bytes) && h.recording
                    == Recording::Mutation(frame::head_in(bytes)),
                Err(e) => tells_failure(h.answer, e) && h.recording == Recording::Nothing,
            }
            &&& call is Rebuild ==> {
                &&& h.registry.journal == reg.journal
                &&& h.recording == Recording::Nothing
                &&& match replay::replay_all(reg.journal) {
                    Ok(t) => h.registry.tables == t && exists|v: Json| #[trigger]
                        gives(h.answer, v) && v.at("generation"@) == json::int_json(
                            reg.generation() as int,
                        ),
                    Err(e) => h.registry == reg && tells_failure(
                        h.answer,
                        Failure::Store("storage backend: "@ + e),
                    ),
                }
            }
        }),
{
    if call is Rebuild {
        let s: Seq<Field> = seq![("generation"@, json::int_json(reg.generation() as int))];
        lemma_at(s, 0);
        lemma_gives(replies::rebuilt_json(reg.generation()));
        if replay::replay_all(reg.journal) is Ok {
            let v = replies::rebuilt_json(reg.generation());
            assert(gives(service::handled(reg, sessions, call, now).answer, v));
        }
    }
}

/// What a recording does to the gauges: a query counts once in its own counter, anything
/// that is recorded is the last operation, and the journal head is the one it saw.
/// Nothing else changes.
pub proof fn law_recordings_count_once(g: HealthGauges, what: Recording, now: i64)
    requires
        g.resolve_count < u64::MAX,
        g.enumerate_count < u64::MAX,
        g.journal_tail_count < u64::MAX,
    ensures
        ({
            let h = gauges::recorded(g, what, now);
            &&& h.resolve_count == g.resolve_count + (if what matches Recording::Query(c, _) && c
                == Counter::Resolve {
                1int
            } else {
                0
            })
            &&& h.enumerate_count == g.enumerate_count + (if what matches Recording::Query(c, _) && c
                == Counter::Enumerate {
                1int
            } else {
                0
            })
            &&& h.journal_tail_count == g.journal_tail_count + (if what matches Recording::Query(
                c,
                _,
            ) && c == Counter::JournalTail {
                1int
            } else {
                0
            })
            &&& h.last_operation_ms == (if what is Nothing {
                g.last_operation_ms
            } else {
                now
            })
            &&& h.generation == (match what {
                Recording::Query(_, n) => n,
                Recording::Mutation(Some(n)) => n,
                _ => g.generation,
            })
            &&& h.store_ready == g.store_ready && h.store_failed == g.store_failed
            &&& h.liveness_batches == g.liveness_batches && h.liveness_gaps == g.liveness_gaps
                && h.liveness_sessions == g.liveness_sessions
        }),
{
}

/// What a batch of sessions does to the gauges: it counts once, a gap counts once more,
/// and the sessions are as many as are known. Nothing else changes.
pub proof fn law_batches_count_once(g: HealthGauges, gap: bool, count: u64)
    requires
        g.liveness_batches < u64::MAX,
        g.liveness_gaps < u64::MAX,
    ensures
        ({
            let h = gauges::batched(g, gap, count);
            &&& h.liveness_batches == g.liveness_batches + 1
            &&& h.liveness_gaps == g.liveness_gaps + (if gap {
                1int
            } else {
                0
            })
            &&& h.liveness_sessions == count
            &&& h.resolve_count == g.resolve_count && h.enumerate_count == g.enumerate_count
                && h.journal_tail_count == g.journal_tail_count
            &&& h.generation == g.generation && h.last_operation_ms == g.last_operation_ms
            &&& h.store_ready == g.store_ready && h.store_failed == g.store_failed
        }),
        gauges::failing(g) <==> !(g.store_ready && !g.store_failed),
{
}

} // verus!
