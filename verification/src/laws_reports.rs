//! What requests that ran answer.
use vstd::prelude::*;
use vstd::string::*;
use vstd::utf8::*;

use crate::error::Failure;
use crate::frame::{Deed, Done, Outcome};
use crate::json::{Field, Json};
use crate::laws_rows::ran;
use crate::membership::leads;
use crate::model::{Assign, Register, Registry, Remove, Seed, Upgrade};
use crate::paths::RootFact;
use crate::text::Text;
use crate::{
    frame, ids, json, laws_registration, laws_rows, membership, model, mutations, order,
    register, seed,
};

verus! {

/// Whether an outcome is answered with this JSON, which tells the journal head after it
/// and whether nothing changed.
pub open spec fn answers(before: Registry, o: Outcome, reply: Json) -> bool {
    let v = reply.at("result"@);
    &&& o.answer == Ok::<Seq<u8>, Failure>(encode_utf8(json::json_text(reply)))
    &&& v.at("generation"@) == json::int_json(o.registry.generation() as int)
    &&& v.at("noop"@) == Json::Bool(o.registry == before)
}

/// Whether names of fields differ, also from those that every answer has.
spec fn apart(fields: Seq<Field>) -> bool {
    &&& forall|a: int, b: int|
        0 <= a < b < fields.len() ==> (#[trigger] fields[a]).0 != (#[trigger] fields[b]).0
    &&& forall|a: int|
        0 <= a < fields.len() ==> (#[trigger] fields[a]).0 != "generation"@ && fields[a].0
            != "noop"@
}

proof fn lemma_answer(d: Done, generation: i64)
    requires
        apart(d.fields),
    ensures
        ({
            let v = frame::envelope(d, generation).at("result"@);
            &&& forall|i: int|
                0 <= i < d.fields.len() ==> v.at((#[trigger] d.fields[i]).0) == d.fields[i].1
            &&& v.at("generation"@) == json::int_json(generation as int)
            &&& v.at("noop"@) == Json::Bool(!d.changed)
        }),
{
    let g: Field = ("generation"@, json::int_json(generation as int));
    let n: Field = ("noop"@, Json::Bool(!d.changed));
    let inner = d.fields + seq![g, n];
    let k = d.fields.len() as int;
    reveal_strlit("generation");
    reveal_strlit("noop");
    assert("generation"@.len() != "noop"@.len());
    assert(inner[k] == g && inner[k + 1] == n);
    assert forall|a: int, b: int| 0 <= a < b < inner.len() implies (#[trigger] inner[a]).0 != (
    #[trigger] inner[b]).0 by {
        if a < k {
            assert(inner[a] == d.fields[a]);
            if b < k {
                assert(inner[b] == d.fields[b]);
            }
        }
    }
    let v = json::object(inner);
    let outer: Seq<Field> = seq![("result"@, v)];
    json::lemma_fields_map(outer, 0);
    assert(frame::envelope(d, generation).at("result"@) == v);
    assert forall|i: int| 0 <= i < d.fields.len() implies v.at((#[trigger] d.fields[i]).0)
        == d.fields[i].1 by {
        json::lemma_fields_map(inner, i);
        assert(inner[i] == d.fields[i]);
    }
    json::lemma_fields_map(inner, k);
    json::lemma_fields_map(inner, k + 1);
}

/// A mutation that reports a change moved the journal on; one that reports none left the
/// registry as it was.
spec fn truthful(before: Registry, deed: Deed) -> bool {
    deed.result matches Ok(d) ==> if d.changed {
        deed.registry.journal.len() == before.journal.len() + 1
    } else {
        deed.registry == before
    }
}

proof fn lemma_answers(before: Registry, key: Option<Text>, deed: Deed)
    requires
        before.sound(),
        laws_rows::unanswered(before.journal, key),
        deed.result is Ok,
        truthful(before, deed),
        model::sound_journal(deed.registry.journal),
        apart(deed.result->Ok_0.fields),
    ensures
        ({
            let d = deed.result->Ok_0;
            let reply = frame::envelope(d, deed.registry.generation());
            &&& answers(before, frame::outcome(before, key, deed), reply)
            &&& forall|i: int|
                0 <= i < d.fields.len() ==> reply.at("result"@).at((#[trigger] d.fields[i]).0)
                    == d.fields[i].1
        }),
{
    let d = deed.result->Ok_0;
    let o = frame::outcome(before, key, deed);
    laws_rows::lemma_unanswered(before.journal, key);
    lemma_answer(d, deed.registry.generation());
    if d.changed {
        frame::lemma_answered(
            deed.registry.journal,
            json::json_text(d.payload),
            frame::answer(d, deed.registry.generation()),
        );
        assert(o.registry.journal.len() != before.journal.len());
    }
}

/// A placement that ran answers with the project and the workspace.
pub proof fn law_placements_answer(before: Registry, req: Assign, now: i64) -> (reply: Json)
    requires
        before.sound(),
        ran(before, req.request_key, mutations::assign_outcome(before, req, now)),
    ensures
        answers(before, mutations::assign_outcome(before, req, now), reply),
        reply.at("result"@).at("projectId"@) == Json::Str(req.project_id),
        reply.at("result"@).at("workspaceId"@) == Json::Str(req.workspace_id),
{
    let deed = mutations::assign_deed(before, req, now);
    laws_rows::lemma_ran(before, req.request_key, deed);
    let d = deed.result->Ok_0;
    reveal_strlit("projectId");
    reveal_strlit("workspaceId");
    reveal_strlit("generation");
    reveal_strlit("noop");
    assert("projectId"@.len() == 9 && "workspaceId"@.len() == 11 && "generation"@.len() == 10
        && "noop"@.len() == 4);
    assert(d.fields[0].0 == "projectId"@ && d.fields[1].0 == "workspaceId"@);
    if d.changed {
        frame::lemma_appended(before.journal, mutations::assign_note(req, now));
    }
    lemma_answers(before, req.request_key, deed);
    let reply = frame::envelope(d, deed.registry.generation());
    assert(reply.at("result"@).at(d.fields[0].0) == d.fields[0].1);
    assert(reply.at("result"@).at(d.fields[1].0) == d.fields[1].1);
    reply
}

/// An upgrade that ran answers with the project and the id that it had.
pub proof fn law_upgrades_answer(
    before: Registry,
    req: Upgrade,
    roots: Seq<RootFact>,
    now: i64,
) -> (reply: Json)
    requires
        before.sound(),
        ran(before, req.request_key, mutations::upgrade_outcome(before, req, roots, now)),
    ensures
        answers(before, mutations::upgrade_outcome(before, req, roots, now), reply),
        ({
            let all = match req.root {
                Some(root) => req.roots.push(root),
                None => req.roots,
            };
            reply.at("result"@).at("projectId"@) == Json::Str(
                match req.project_id {
                    Some(id) => id,
                    None => ids::minted_id("upgrade1"@, req.name, all),
                },
            )
        }),
        reply.at("result"@).at("oldId"@) == Json::Str(req.implicit_id),
{
    let r = mutations::upgrade_settled(req, roots)->Ok_0;
    let deed = mutations::upgrade_deed(before, r, now);
    laws_rows::lemma_ran(before, req.request_key, deed);
    laws_registration::lemma_canonical_as_given(mutations::upgrade_roots(req), roots);
    let d = deed.result->Ok_0;
    reveal_strlit("projectId");
    reveal_strlit("oldId");
    reveal_strlit("generation");
    reveal_strlit("noop");
    assert("projectId"@.len() == 9 && "oldId"@.len() == 5 && "generation"@.len() == 10
        && "noop"@.len() == 4);
    assert(d.fields[0].0 == "projectId"@ && d.fields[1].0 == "oldId"@);
    if d.changed {
        frame::lemma_appended(before.journal, mutations::upgrade_note(r, now));
    }
    lemma_answers(before, req.request_key, deed);
    let reply = frame::envelope(d, deed.registry.generation());
    assert(reply.at("result"@).at(d.fields[0].0) == d.fields[0].1);
    assert(reply.at("result"@).at(d.fields[1].0) == d.fields[1].1);
    reply
}

/// A removal that ran answers with what it removed: the workspace, or else the project,
/// its successor and the workspace that it was in.
pub proof fn law_removals_answer(before: Registry, req: Remove, now: i64) -> (reply: Json)
    requires
        before.sound(),
        ran(before, req.request_key, mutations::remove_outcome(before, req, now)),
    ensures
        answers(before, mutations::remove_outcome(before, req, now), reply),
        req.workspace_id matches Some(w) ==> reply.at("result"@).at("workspaceId"@) == Json::Str(w),
        req.workspace_id is None ==> {
            let v = reply.at("result"@);
            &&& req.project_id matches Some(id) && v.at("projectId"@) == Json::Str(id)
            &&& v.at("successorProjectId"@) == (match req.successor {
                Some(s) => Json::Str(s),
                None => Json::Null,
            })
            &&& forall|w: Text| #[trigger]
                leads(before.tables.placements, req.project_id->Some_0, w) <==> v.at(
                    "droppedWorkspaceId"@,
                ) == Json::Str(w)
        },
{
    let t = before.tables;
    let deed = mutations::remove_deed(before, req, now);
    laws_rows::lemma_ran(before, req.request_key, deed);
    let d = deed.result->Ok_0;
    reveal_strlit("projectId");
    reveal_strlit("workspaceId");
    reveal_strlit("successorProjectId");
    reveal_strlit("droppedWorkspaceId");
    reveal_strlit("generation");
    reveal_strlit("noop");
    assert("successorProjectId"@[0] == 's' && "droppedWorkspaceId"@[0] == 'd');
    assert("projectId"@.len() == 9 && "workspaceId"@.len() == 11 && "generation"@.len() == 10
        && "noop"@.len() == 4 && "successorProjectId"@.len() == 18 && "droppedWorkspaceId"@.len()
        == 18);
    frame::lemma_appended(before.journal, mutations::remove_note(req, now));
    match req.workspace_id {
        Some(w) => {
            assert(d.fields[0].0 == "workspaceId"@);
        },
        None => {
            assert(d.fields[0].0 == "projectId"@ && d.fields[1].0 == "successorProjectId"@
                && d.fields[2].0 == "droppedWorkspaceId"@);
        },
    }
    assert(apart(d.fields));
    lemma_answers(before, req.request_key, deed);
    let reply = frame::envelope(d, deed.registry.generation());
    let v = reply.at("result"@);
    assert(v.at(d.fields[0].0) == d.fields[0].1);
    if req.workspace_id is None {
        assert(v.at(d.fields[1].0) == d.fields[1].1);
        assert(v.at(d.fields[2].0) == d.fields[2].1);
        let id = req.project_id->Some_0;
        assert forall|w: Text| #[trigger] leads(t.placements, id, w) <==> v.at(
            "droppedWorkspaceId"@,
        ) == Json::Str(w) by {
            membership::lemma_lookup(t.placements, id, w);
        }
    }
    reply
}

/// A registration that ran answers with the name, the roots and the parents that it asked
/// for, the latter two in ascending order and each once; and where something changed, it
/// tells of colliding aliases twice.
pub proof fn law_registrations_answer(
    before: Registry,
    req: Register,
    roots: Seq<RootFact>,
    parents: Seq<RootFact>,
    now: i64,
)
    requires
        before.sound(),
        ran(
            before,
            req.request_key,
            register::register_outcome(before, req, roots, parents, now),
        ),
    ensures
        ({
            let o = register::register_outcome(before, req, roots, parents, now);
            let reply = register::register_reply(before, req, roots, parents, now);
            let v = reply.at("result"@);
            &&& answers(before, o, reply)
            &&& v.at("name"@) == Json::Str(req.name)
            &&& v.at("roots"@) == json::text_array(order::sorted_set(req.roots))
            &&& v.at("derivedRootParents"@) == json::text_array(order::sorted_set(req.parents))
            &&& v.at("implicitAliasCollisions"@) == (if o.registry == before {
                Json::Null
            } else {
                v.at("warnings"@)
            })
        }),
{
    let t = before.tables;
    let r = register::register_settled(req, roots, parents)->Ok_0;
    let deed = register::register_deed(before, r, now);
    laws_rows::lemma_ran(before, req.request_key, deed);
    laws_registration::lemma_canonical_as_given(req.roots, roots);
    laws_registration::lemma_canonical_as_given(req.parents, parents);
    let d = deed.result->Ok_0;
    reveal_strlit("projectId");
    reveal_strlit("name");
    reveal_strlit("roots");
    reveal_strlit("derivedRootParents");
    reveal_strlit("warnings");
    reveal_strlit("implicitAliasCollisions");
    reveal_strlit("generation");
    reveal_strlit("noop");
    assert("name"@[1] == 'a');
    assert("noop"@[1] == 'o');
    assert("projectId"@.len() == 9 && "roots"@.len() == 5 && "derivedRootParents"@.len() == 18
        && "warnings"@.len() == 8 && "implicitAliasCollisions"@.len() == 23 && "generation"@.len()
        == 10 && "name"@.len() == 4 && "noop"@.len() == 4);
    let told = register::register_fields(t, r, register::registrant(t, r)->Ok_0);
    assert(told.len() == 5);
    assert forall|i: int| 0 <= i < 5 implies (#[trigger] d.fields[i]) == told[i] by {}
    assert(told[0].0 == "projectId"@ && told[1].0 == "name"@ && told[2].0 == "roots"@
        && told[3].0 == "derivedRootParents"@ && told[4].0 == "warnings"@);
    if d.changed {
        frame::lemma_appended(before.journal, register::register_note(r, now));
        assert(d.fields[5].0 == "implicitAliasCollisions"@);
    }
    assert(apart(d.fields)) by {
        assert forall|a: int, b: int| 0 <= a < b < d.fields.len() implies (
        #[trigger] d.fields[a]).0 != (#[trigger] d.fields[b]).0 by {
            assert(d.fields[a] == told[a]);
            if b < 5 {
                assert(d.fields[b] == told[b]);
            }
        }
        assert forall|a: int| 0 <= a < d.fields.len() implies (#[trigger] d.fields[a]).0
            != "generation"@ && d.fields[a].0 != "noop"@ by {
            if a < 5 {
                assert(d.fields[a] == told[a]);
            }
        }
    }
    lemma_answers(before, req.request_key, deed);
    let v = frame::envelope(d, deed.registry.generation()).at("result"@);
    assert(v.at(d.fields[1].0) == d.fields[1].1);
    assert(v.at(d.fields[2].0) == d.fields[2].1);
    assert(v.at(d.fields[3].0) == d.fields[3].1);
    assert(v.at(d.fields[4].0) == d.fields[4].1);
    let o = register::register_outcome(before, req, roots, parents, now);
    if d.changed {
        assert(v.at(d.fields[5].0) == d.fields[5].1);
        assert(o.registry.journal.len() != before.journal.len());
    } else {
        let inner = d.fields + seq![
            ("generation"@, json::int_json(deed.registry.generation() as int)),
            ("noop"@, Json::Bool(!d.changed)),
        ];
        let outer: Seq<Field> = seq![("result"@, json::object(inner))];
        json::lemma_fields_map(outer, 0);
        json::lemma_fields_domain(inner, "implicitAliasCollisions"@);
        assert forall|i: int| 0 <= i < inner.len() implies (#[trigger] inner[i]).0
            != "implicitAliasCollisions"@ by {
            if i < 5 {
                assert(inner[i] == told[i]);
            }
        }
    }
}

/// An import that ran answers with its report.
pub proof fn law_imports_answer(
    before: Registry,
    req: Seed,
    roots: Seq<RootFact>,
    now: i64,
) -> (reply: Json)
    requires
        before.sound(),
        ran(before, req.request_key, seed::seed_outcome(before, req, roots, now)),
    ensures
        answers(before, seed::seed_outcome(before, req, roots, now), reply),
        ({
            let lines = seed::imported(
                before.tables,
                Seed { pairs: seed::tidy_pairs(req.pairs), ..req },
                now,
            ).lines;
            reply.at("result"@).at("report"@) matches Json::Array(told) && told.len() == lines.len()
                && forall|i: int|
                0 <= i < lines.len() ==> #[trigger] told[i] == seed::line_json(lines[i])
        }),
{
    let r = seed::seed_settled(req, roots)->Ok_0;
    let deed = seed::seed_deed(before, r, now);
    laws_rows::lemma_ran(before, req.request_key, deed);
    let d = deed.result->Ok_0;
    reveal_strlit("report");
    reveal_strlit("generation");
    reveal_strlit("noop");
    assert("report"@.len() == 6 && "generation"@.len() == 10 && "noop"@.len() == 4);
    assert(d.fields[0].0 == "report"@);
    if d.changed {
        frame::lemma_appended(before.journal, seed::seed_note(r, now));
    }
    lemma_answers(before, req.request_key, deed);
    let reply = frame::envelope(d, deed.registry.generation());
    assert(reply.at("result"@).at(d.fields[0].0) == d.fields[0].1);
    reply
}

} // verus!
