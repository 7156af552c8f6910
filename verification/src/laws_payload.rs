//! What the journal keeps of requests, and what reports say, field by field.
use vstd::prelude::*;
use vstd::string::*;

use crate::json::{Field, Json};
use crate::laws_wire::{lemma_at, text_or_null};
use crate::model::{Assign, Claim, Pair, Register, Remove, Seed, Upgrade};
use crate::seed::Line;
use crate::text::Text;
use crate::{ids, json, payload, seed};

verus! {

/// What the journal keeps of a request to register: all of it.
pub proof fn law_registrations_are_kept_whole(r: Register)
    ensures
        ({
            let v = payload::register_json(r);
            &&& v.at("projectId"@) == text_or_null(r.project_id)
            &&& v.at("name"@) == Json::Str(r.name)
            &&& v.at("workspaceId"@) == text_or_null(r.workspace_id)
            &&& v.at("roots"@) == json::text_array(r.roots)
            &&& v.at("derivedRootParents"@) == json::text_array(r.parents)
            &&& v.at("requestKey"@) == text_or_null(r.request_key)
            &&& v.at("actor"@) == text_or_null(r.actor)
        }),
{
    let s: Seq<Field> = seq![
        ("projectId"@, json::opt_str(r.project_id)),
        ("name"@, Json::Str(r.name)),
        ("workspaceId"@, json::opt_str(r.workspace_id)),
        ("roots"@, json::text_array(r.roots)),
        ("derivedRootParents"@, json::text_array(r.parents)),
        ("requestKey"@, json::opt_str(r.request_key)),
        ("actor"@, json::opt_str(r.actor)),
    ];
    reveal_strlit("projectId");
    reveal_strlit("name");
    reveal_strlit("workspaceId");
    reveal_strlit("roots");
    reveal_strlit("derivedRootParents");
    reveal_strlit("requestKey");
    reveal_strlit("actor");
    assert("projectId"@.len() == 9 && "name"@.len() == 4 && "workspaceId"@.len() == 11
        && "roots"@.len() == 5 && "derivedRootParents"@.len() == 18 && "requestKey"@.len() == 10
        && "actor"@.len() == 5 && "actor"@[0] == 'a' && "roots"@[0] == 'r');
    lemma_at(s, 0);
    lemma_at(s, 1);
    lemma_at(s, 2);
    lemma_at(s, 3);
    lemma_at(s, 4);
    lemma_at(s, 5);
    lemma_at(s, 6);
}

/// What the journal keeps of a request to place a project: all of it.
pub proof fn law_placements_are_kept_whole(r: Assign)
    ensures
        ({
            let v = payload::assign_json(r);
            &&& v.at("projectId"@) == Json::Str(r.project_id)
            &&& v.at("workspaceId"@) == Json::Str(r.workspace_id)
            &&& v.at("workspaceName"@) == text_or_null(r.workspace_name)
            &&& v.at("requestKey"@) == text_or_null(r.request_key)
            &&& v.at("actor"@) == text_or_null(r.actor)
        }),
{
    let s: Seq<Field> = seq![
        ("projectId"@, Json::Str(r.project_id)),
        ("workspaceId"@, Json::Str(r.workspace_id)),
        ("workspaceName"@, json::opt_str(r.workspace_name)),
        ("requestKey"@, json::opt_str(r.request_key)),
        ("actor"@, json::opt_str(r.actor)),
    ];
    reveal_strlit("projectId");
    reveal_strlit("workspaceId");
    reveal_strlit("workspaceName");
    reveal_strlit("requestKey");
    reveal_strlit("actor");
    assert("projectId"@.len() == 9 && "workspaceId"@.len() == 11 && "workspaceName"@.len() == 13
        && "requestKey"@.len() == 10 && "actor"@.len() == 5);
    lemma_at(s, 0);
    lemma_at(s, 1);
    lemma_at(s, 2);
    lemma_at(s, 3);
    lemma_at(s, 4);
}

/// What the journal keeps of a request to upgrade: all of it.
pub proof fn law_upgrades_are_kept_whole(r: Upgrade)
    ensures
        ({
            let v = payload::upgrade_json(r);
            &&& v.at("implicitId"@) == Json::Str(r.implicit_id)
            &&& v.at("projectId"@) == text_or_null(r.project_id)
            &&& v.at("name"@) == Json::Str(r.name)
            &&& v.at("workspaceId"@) == text_or_null(r.workspace_id)
            &&& v.at("root"@) == text_or_null(r.root)
            &&& v.at("roots"@) == json::text_array(r.roots)
            &&& v.at("requestKey"@) == text_or_null(r.request_key)
            &&& v.at("actor"@) == text_or_null(r.actor)
        }),
{
    let s: Seq<Field> = seq![
        ("implicitId"@, Json::Str(r.implicit_id)),
        ("projectId"@, json::opt_str(r.project_id)),
        ("name"@, Json::Str(r.name)),
        ("workspaceId"@, json::opt_str(r.workspace_id)),
        ("root"@, json::opt_str(r.root)),
        ("roots"@, json::text_array(r.roots)),
        ("requestKey"@, json::opt_str(r.request_key)),
        ("actor"@, json::opt_str(r.actor)),
    ];
    reveal_strlit("implicitId");
    reveal_strlit("projectId");
    reveal_strlit("name");
    reveal_strlit("workspaceId");
    reveal_strlit("root");
    reveal_strlit("roots");
    reveal_strlit("requestKey");
    reveal_strlit("actor");
    assert("implicitId"@.len() == 10 && "projectId"@.len() == 9 && "name"@.len() == 4
        && "workspaceId"@.len() == 11 && "root"@.len() == 4 && "roots"@.len() == 5
        && "requestKey"@.len() == 10 && "actor"@.len() == 5 && "actor"@[0] == 'a'
        && "implicitId"@[0] == 'i' && "name"@[0] == 'n' && "requestKey"@[0] == 'r'
        && "root"@[0] == 'r' && "roots"@[0] == 'r');
    lemma_at(s, 0);
    lemma_at(s, 1);
    lemma_at(s, 2);
    lemma_at(s, 3);
    lemma_at(s, 4);
    lemma_at(s, 5);
    lemma_at(s, 6);
    lemma_at(s, 7);
}

/// What the journal keeps of a request to remove: all of it.
pub proof fn law_removals_are_kept_whole(r: Remove)
    ensures
        ({
            let v = payload::remove_json(r);
            &&& v.at("projectId"@) == text_or_null(r.project_id)
            &&& v.at("successorProjectId"@) == text_or_null(r.successor)
            &&& v.at("workspaceId"@) == text_or_null(r.workspace_id)
            &&& v.at("requestKey"@) == text_or_null(r.request_key)
            &&& v.at("actor"@) == text_or_null(r.actor)
        }),
{
    let s: Seq<Field> = seq![
        ("projectId"@, json::opt_str(r.project_id)),
        ("successorProjectId"@, json::opt_str(r.successor)),
        ("workspaceId"@, json::opt_str(r.workspace_id)),
        ("requestKey"@, json::opt_str(r.request_key)),
        ("actor"@, json::opt_str(r.actor)),
    ];
    reveal_strlit("projectId");
    reveal_strlit("successorProjectId");
    reveal_strlit("workspaceId");
    reveal_strlit("requestKey");
    reveal_strlit("actor");
    assert("projectId"@.len() == 9 && "successorProjectId"@.len() == 18
        && "workspaceId"@.len() == 11 && "requestKey"@.len() == 10 && "actor"@.len() == 5);
    lemma_at(s, 0);
    lemma_at(s, 1);
    lemma_at(s, 2);
    lemma_at(s, 3);
    lemma_at(s, 4);
}

/// What the journal keeps of an imported observation: all of it.
pub proof fn law_observations_are_kept_whole(p: Pair)
    ensures
        ({
            let v = payload::pair_json(p);
            &&& v.at("canonicalRoot"@) == Json::Str(p.root)
            &&& v.at("mcIdentity"@) == Json::Str(p.identity)
            &&& v.at("identityClass"@) == text_or_null(p.class)
            &&& v.at("resolvedThroughCooldown"@) == Json::Bool(p.cooldown)
            &&& v.at("name"@) == text_or_null(p.name)
        }),
{
    let s: Seq<Field> = seq![
        ("canonicalRoot"@, Json::Str(p.root)),
        ("mcIdentity"@, Json::Str(p.identity)),
        ("identityClass"@, json::opt_str(p.class)),
        ("resolvedThroughCooldown"@, Json::Bool(p.cooldown)),
        ("name"@, json::opt_str(p.name)),
    ];
    reveal_strlit("canonicalRoot");
    reveal_strlit("mcIdentity");
    reveal_strlit("identityClass");
    reveal_strlit("resolvedThroughCooldown");
    reveal_strlit("name");
    assert("canonicalRoot"@.len() == 13 && "mcIdentity"@.len() == 10
        && "identityClass"@.len() == 13 && "resolvedThroughCooldown"@.len() == 23
        && "name"@.len() == 4 && "canonicalRoot"@[0] == 'c' && "identityClass"@[0] == 'i');
    lemma_at(s, 0);
    lemma_at(s, 1);
    lemma_at(s, 2);
    lemma_at(s, 3);
    lemma_at(s, 4);
}

/// What the journal keeps of an imported claim: all of it.
pub proof fn law_claims_are_kept_whole(c: Claim)
    ensures
        ({
            let v = payload::claim_json(c);
            &&& v.at("mcIdentity"@) == Json::Str(c.identity)
            &&& v.at("workspaceId"@) == Json::Str(c.workspace_id)
        }),
{
    let s: Seq<Field> = seq![
        ("mcIdentity"@, Json::Str(c.identity)),
        ("workspaceId"@, Json::Str(c.workspace_id)),
    ];
    reveal_strlit("mcIdentity");
    reveal_strlit("workspaceId");
    assert("mcIdentity"@.len() == 10 && "workspaceId"@.len() == 11);
    lemma_at(s, 0);
    lemma_at(s, 1);
}

/// What the journal keeps of an imported workspace: all of it.
pub proof fn law_titles_are_kept_whole(w: (Text, Text))
    ensures
        ({
            let v = payload::title_json(w);
            &&& v.at("workspaceId"@) == Json::Str(w.0)
            &&& v.at("name"@) == Json::Str(w.1)
        }),
{
    let s: Seq<Field> = seq![
        ("workspaceId"@, Json::Str(w.0)),
        ("name"@, Json::Str(w.1)),
    ];
    reveal_strlit("workspaceId");
    reveal_strlit("name");
    assert("workspaceId"@.len() == 11 && "name"@.len() == 4);
    lemma_at(s, 0);
    lemma_at(s, 1);
}

/// What a line of the report on an import says on the wire.
pub proof fn law_lines_on_the_wire(l: Line)
    ensures
        ({
            let v = seed::line_json(l);
            &&& v.at("kind"@) == Json::Str(l.kind)
            &&& v.at("mcIdentity"@) == text_or_null(l.identity)
            &&& v.at("canonicalRoot"@) == text_or_null(l.root)
            &&& v.at("projectId"@) == text_or_null(l.project_id)
            &&& v.at("ownerProjectId"@) == text_or_null(l.owner)
            &&& v.at("newProjectId"@) == text_or_null(l.new_project)
            &&& v.at("roots"@) == (match l.roots {
                Some(roots) => json::text_array(roots),
                None => Json::Null,
            })
            &&& v.at("reason"@) == text_or_null(l.reason)
        }),
{
    let s: Seq<Field> = seq![
        ("kind"@, Json::Str(l.kind)),
        ("mcIdentity"@, json::opt_str(l.identity)),
        ("canonicalRoot"@, json::opt_str(l.root)),
        ("projectId"@, json::opt_str(l.project_id)),
        ("ownerProjectId"@, json::opt_str(l.owner)),
        ("newProjectId"@, json::opt_str(l.new_project)),
        ("roots"@, match l.roots {
            Some(roots) => json::text_array(roots),
            None => Json::Null,
        }),
        ("reason"@, json::opt_str(l.reason)),
    ];
    reveal_strlit("kind");
    reveal_strlit("mcIdentity");
    reveal_strlit("canonicalRoot");
    reveal_strlit("projectId");
    reveal_strlit("ownerProjectId");
    reveal_strlit("newProjectId");
    reveal_strlit("roots");
    reveal_strlit("reason");
    assert("kind"@.len() == 4 && "mcIdentity"@.len() == 10 && "canonicalRoot"@.len() == 13
        && "projectId"@.len() == 9 && "ownerProjectId"@.len() == 14
        && "newProjectId"@.len() == 12 && "roots"@.len() == 5 && "reason"@.len() == 6);
    lemma_at(s, 0);
    lemma_at(s, 1);
    lemma_at(s, 2);
    lemma_at(s, 3);
    lemma_at(s, 4);
    lemma_at(s, 5);
    lemma_at(s, 6);
    lemma_at(s, 7);
}

/// Whether an array holds, one for one, what these elements are as JSON.
pub open spec fn lists<T>(v: Json, items: Seq<T>, each: spec_fn(T) -> Json) -> bool {
    v matches Json::Array(told) && told.len() == items.len() && forall|i: int|
        0 <= i < items.len() ==> #[trigger] told[i] == each(items[i])
}

/// What the journal keeps of a request to import: all of it, the observations, workspaces
/// and claims one for one, and of the names that are given for an identity the last.
pub proof fn law_imports_are_kept_whole(r: Seed, k: int)
    ensures
        ({
            let v = payload::seed_json(r);
            let body = v.at("payload"@);
            &&& v.at("source"@) == Json::Str(r.source)
            &&& v.at("requestKey"@) == text_or_null(r.request_key)
            &&& v.at("actor"@) == text_or_null(r.actor)
            &&& lists(body.at("pairs"@), r.pairs, |p: Pair| payload::pair_json(p))
            &&& lists(body.at("workspaces"@), r.workspaces, |w: (Text, Text)| payload::title_json(w))
            &&& lists(body.at("members"@), r.claims, |c: Claim| payload::claim_json(c))
            &&& 0 <= k < r.names.len() && (forall|j: int|
                k < j < r.names.len() ==> (#[trigger] r.names[j]).0 != r.names[k].0) ==> body.at(
                "names"@,
            ).at(r.names[k].0) == Json::Str(r.names[k].1)
        }),
{
    let names = r.names.map_values(|n: (Text, Text)| (n.0, Json::Str(n.1)));
    let inner: Seq<Field> = seq![
        ("pairs"@, Json::Array(r.pairs.map_values(|p: Pair| payload::pair_json(p)))),
        (
            "workspaces"@,
            Json::Array(r.workspaces.map_values(|w: (Text, Text)| payload::title_json(w))),
        ),
        ("members"@, Json::Array(r.claims.map_values(|c: Claim| payload::claim_json(c)))),
        ("names"@, json::object(names)),
    ];
    let s: Seq<Field> = seq![
        ("source"@, Json::Str(r.source)),
        ("requestKey"@, json::opt_str(r.request_key)),
        ("payload"@, json::object(inner)),
        ("actor"@, json::opt_str(r.actor)),
    ];
    reveal_strlit("pairs");
    reveal_strlit("workspaces");
    reveal_strlit("members");
    reveal_strlit("names");
    reveal_strlit("source");
    reveal_strlit("requestKey");
    reveal_strlit("payload");
    reveal_strlit("actor");
    assert("pairs"@.len() == 5 && "workspaces"@.len() == 10 && "members"@.len() == 7
        && "names"@.len() == 5 && "pairs"@[0] == 'p' && "names"@[0] == 'n' && "source"@.len() == 6
        && "requestKey"@.len() == 10 && "payload"@.len() == 7 && "actor"@.len() == 5);
    lemma_at(s, 0);
    lemma_at(s, 1);
    lemma_at(s, 2);
    lemma_at(s, 3);
    lemma_at(inner, 0);
    lemma_at(inner, 1);
    lemma_at(inner, 2);
    lemma_at(inner, 3);
    if 0 <= k < r.names.len() && forall|j: int|
        k < j < r.names.len() ==> (#[trigger] r.names[j]).0 != r.names[k].0 {
        assert forall|j: int| k < j < names.len() implies (#[trigger] names[j]).0 != names[k].0 by {
            assert(r.names[j].0 != r.names[k].0);
        }
        lemma_at(names, k);
    }
}

/// A list of texts on the wire is those texts, in order.
pub proof fn law_texts_on_the_wire(items: Seq<Text>)
    ensures
        json::text_array(items) matches Json::Array(told) && told.len() == items.len() && forall|
            i: int,
        | 0 <= i < items.len() ==> #[trigger] told[i] == Json::Str(items[i]),
{
}

/// The number that decimal digits stand for.
pub open spec fn value_of(digits: Text) -> int
    decreases digits.len(),
{
    if digits.len() == 0 {
        0
    } else {
        10 * value_of(digits.drop_last()) + (digits.last() as int - '0' as int)
    }
}

proof fn lemma_digit(d: nat)
    requires
        d < 10,
    ensures
        '0' <= json::digit(d) <= '9',
        json::digit(d) as int - '0' as int == d,
{
}

/// A number on the wire is the number: digits that stand for it, the first of them no
/// zero unless it is the only one, behind a minus where it is less than zero.
pub proof fn law_numbers_on_the_wire(n: int)
    ensures
        n >= 0 ==> json::int_json(n) == Json::Number(json::digits(n as nat)) && value_of(
            json::digits(n as nat),
        ) == n && ids::all_digits(json::digits(n as nat)) && (n > 0 ==> json::digits(n as nat)[0]
            != '0'),
        n < 0 ==> json::int_json(n) == Json::Number(seq!['-'] + json::digits((-n) as nat)),
    decreases (if n < 0 {
        0
    } else {
        n
    }),
{
    if n >= 0 {
        let m = n as nat;
        let d = json::digits(m);
        if m < 10 {
            lemma_digit(m);
            assert(d.drop_last() =~= Seq::empty());
            assert(d.last() == json::digit(m));
            assert(value_of(d.drop_last()) == 0);
        } else {
            law_numbers_on_the_wire(n / 10);
            let head = json::digits(m / 10);
            lemma_digit(m % 10);
            assert(d == head.push(json::digit(m % 10)));
            assert(d.drop_last() =~= head);
            assert(d.last() == json::digit(m % 10));
            assert(head.len() > 0);
        }
    }
}

} // verus!
