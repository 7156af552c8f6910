//! What holds of a registration, its answer, and the queries after it.
use vstd::prelude::*;
use vstd::string::*;
use vstd::utf8::*;

use crate::error::Failure;
use crate::frame::Done;
use crate::json::{Field, Json};
use crate::laws_replay::Step;
use crate::model::{Link, Register, Registry, Tables};
use crate::paths::RootFact;
use crate::text::Text;
use crate::{
    effects, frame, ids, json, laws_reserved, laws_resolution, model, order, paths, queries,
    register,
};

verus! {

/// Whether a registration of `r` under `id` goes through, whatever it changes.
pub open spec fn goes_through(before: Registry, r: Register, id: Text, now: i64) -> bool {
    &&& register::registrant(before.tables, r) == Ok::<Text, Failure>(id)
    &&& register::register_deed(before, r, now).result is Ok
}

/// After a registration that goes through, every root that it names resolves to
/// its project, exactly.
pub proof fn law_registered_roots_resolve(
    before: Registry,
    r: Register,
    id: Text,
    now: i64,
    root: Text,
    exists_there: bool,
    device: Option<u64>,
    devices: Seq<Option<u64>>,
)
    requires
        before.sound(),
        goes_through(before, r, id, now),
        r.roots.contains(root),
    ensures
        ({
            let after = register::register_deed(before, r, now).registry;
            let found = queries::resolution(after, root, exists_there, device, devices);
            found.project_id == id && found.via == "root"@ && found.gone == !exists_there
        }),
{
    let t = before.tables;
    let i = choose|i: int| 0 <= i < r.roots.len() && r.roots[i] == root;
    laws_resolution::lemma_no_root_clash(t, id, r.roots, i);
    effects::lemma_add_links(t.roots, r.roots, id, now, root);
}

proof fn lemma_collisions_are_warned_of(aliases: Seq<Link>, roots: Seq<Text>, id: Text, i: int)
    requires
        0 <= i < roots.len(),
    ensures
        register::foreign(aliases, ids::implicit_id(roots[i]), id) matches Some(owner)
            ==> register::collisions(aliases, roots, id).contains(
            register::warning(ids::implicit_id(roots[i]), owner),
        ),
    decreases roots.len(),
{
    let head = roots.drop_last();
    let told = register::collisions(aliases, head, id);
    let all = register::collisions(aliases, roots, id);
    if let Some(owner) = register::foreign(aliases, ids::implicit_id(roots[i]), id) {
        let w = register::warning(ids::implicit_id(roots[i]), owner);
        if i < head.len() {
            lemma_collisions_are_warned_of(aliases, head, id, i);
            assert(head[i] == roots[i]);
            let k = choose|k: int| 0 <= k < told.len() && told[k] == w;
            assert(all[k] == w);
        } else {
            assert(all[told.len() as int] == w);
        }
    }
}

proof fn lemma_warnings_are_of_collisions(aliases: Seq<Link>, roots: Seq<Text>, id: Text, k: int)
    requires
        0 <= k < register::collisions(aliases, roots, id).len(),
    ensures
        exists|i: int|
            0 <= i < roots.len() && (register::foreign(
                aliases,
                ids::implicit_id(#[trigger] roots[i]),
                id,
            ) matches Some(owner) && register::collisions(aliases, roots, id)[k]
                == register::warning(ids::implicit_id(roots[i]), owner)),
    decreases roots.len(),
{
    if roots.len() > 0 {
        let head = roots.drop_last();
        let told = register::collisions(aliases, head, id);
        if k < told.len() {
            lemma_warnings_are_of_collisions(aliases, head, id, k);
            let i = choose|i: int|
                0 <= i < head.len() && (register::foreign(
                    aliases,
                    ids::implicit_id(#[trigger] head[i]),
                    id,
                ) matches Some(owner) && told[k] == register::warning(
                    ids::implicit_id(head[i]),
                    owner,
                ));
            assert(roots[i] == head[i]);
        } else {
            assert(roots[roots.len() - 1] == roots.last());
        }
    }
}

/// After a registration that goes through, the implicit id of every root that it
/// names is an alias of its project, or still of the other project that it was an
/// alias of; then, and only then, the answer warns of it and names that project.
/// Where the implicit id is itself registered, it stands for itself.
pub proof fn law_registered_roots_have_implicit_aliases(
    before: Registry,
    r: Register,
    id: Text,
    now: i64,
    root: Text,
)
    requires
        before.sound(),
        goes_through(before, r, id, now),
        r.roots.contains(root),
    ensures
        ({
            let after = register::register_deed(before, r, now).registry;
            let alias = ids::implicit_id(root);
            let warnings = register::collisions(before.tables.aliases, r.roots, id);
            let owner = register::foreign(before.tables.aliases, alias, id);
            let found = queries::trace(after, alias);
            &&& model::live(after.tables.projects, alias) ==> found.project_id == alias && found.via
                == "current"@ && !found.gone
            &&& !model::live(after.tables.projects, alias) ==> found.via == "alias"@
                && !found.gone && found.project_id == (match owner {
                Some(o) => o,
                None => id,
            })
            &&& owner matches Some(o) ==> warnings.contains(register::warning(alias, o))
            &&& register::register_deed(before, r, now).result matches Ok(d)
                && d.fields.contains(("warnings"@, Json::Array(warnings)))
        }),
        forall|k: int|
            0 <= k < register::collisions(before.tables.aliases, r.roots, id).len() ==> exists|
                i: int,
            |
                0 <= i < r.roots.len() && (register::foreign(
                    before.tables.aliases,
                    ids::implicit_id(#[trigger] r.roots[i]),
                    id,
                ) matches Some(owner) && (#[trigger] register::collisions(
                    before.tables.aliases,
                    r.roots,
                    id,
                )[k]) == register::warning(ids::implicit_id(r.roots[i]), owner)),
{
    let t = before.tables;
    let alias = ids::implicit_id(root);
    let all = effects::implicit_ids(r.roots);
    let i = choose|i: int| 0 <= i < r.roots.len() && r.roots[i] == root;
    assert(all[i] == alias);
    effects::lemma_add_links(t.aliases, all, id, now, alias);
    register::lemma_named(t, id, r.name, now);
    lemma_collisions_are_warned_of(t.aliases, r.roots, id, i);
    let d = register::register_deed(before, r, now).result->Ok_0;
    assert(d.fields[4] == (
        "warnings"@,
        Json::Array(register::collisions(t.aliases, r.roots, id)),
    ));
    assert forall|k: int|
        0 <= k < register::collisions(t.aliases, r.roots, id).len() implies exists|i: int|
        0 <= i < r.roots.len() && (register::foreign(
            t.aliases,
            ids::implicit_id(#[trigger] r.roots[i]),
            id,
        ) matches Some(owner) && (#[trigger] register::collisions(t.aliases, r.roots, id)[k])
            == register::warning(ids::implicit_id(r.roots[i]), owner)) by {
        lemma_warnings_are_of_collisions(t.aliases, r.roots, id, k);
    }
}

/// Paths that were held against the file system are as they were given.
pub proof fn lemma_canonical_as_given(raws: Seq<Text>, facts: Seq<RootFact>)
    ensures
        paths::canonical_all(raws, facts) matches Ok(values) ==> values == raws,
    decreases raws.len(),
{
    if raws.len() > 0 {
        lemma_canonical_as_given(raws.drop_last(), facts);
        assert(raws.drop_last().push(raws.last()) =~= raws);
    } else {
        assert(raws =~= Seq::empty());
    }
}

/// A warning is told apart by the id and the project that it names.
proof fn lemma_warnings_differ(old: Text, owner: Text, old2: Text, owner2: Text)
    requires
        register::warning(old, owner) == register::warning(old2, owner2),
    ensures
        old == old2,
        owner == owner2,
{
    reveal_strlit("oldId");
    reveal_strlit("owner");
    assert("oldId"@[1] == 'l');
    assert("owner"@[1] == 'w');
    let a: Seq<Field> = seq![("oldId"@, Json::Str(old)), ("owner"@, Json::Str(owner))];
    let b: Seq<Field> = seq![("oldId"@, Json::Str(old2)), ("owner"@, Json::Str(owner2))];
    json::lemma_fields_map(a, 0);
    json::lemma_fields_map(a, 1);
    json::lemma_fields_map(b, 0);
    json::lemma_fields_map(b, 1);
    assert(json::fields_map(a) == json::fields_map(b));
    assert(Json::Str(old) == Json::Str(old2));
    assert(Json::Str(owner) == Json::Str(owner2));
}

/// The fields of a registration's answer are found under their names.
pub proof fn lemma_register_answer(d: Done, generation: i64, t: Tables, r: Register, id: Text)
    requires
        d.fields == register::register_fields(t, r, id) || d.fields == register::register_fields(
            t,
            r,
            id,
        ).push(
            (
                "implicitAliasCollisions"@,
                Json::Array(register::collisions(t.aliases, r.roots, id)),
            ),
        ),
    ensures
        ({
            let v = frame::envelope(d, generation).at("result"@);
            &&& v.at("projectId"@) == Json::Str(id)
            &&& v.at("roots"@) == json::text_array(r.roots)
            &&& v.at("warnings"@) == Json::Array(register::collisions(t.aliases, r.roots, id))
        }),
{
    reveal_strlit("projectId");
    reveal_strlit("name");
    reveal_strlit("roots");
    reveal_strlit("derivedRootParents");
    reveal_strlit("warnings");
    reveal_strlit("implicitAliasCollisions");
    reveal_strlit("generation");
    reveal_strlit("noop");
    assert("name"@[1] == 'a');
    assert("noop"@[1] == 'o');
    assert("projectId"@.len() == 9 && "roots"@.len() == 5 && "derivedRootParents"@.len() == 18
        && "warnings"@.len() == 8 && "implicitAliasCollisions"@.len() == 23 && "generation"@.len()
        == 10 && "name"@.len() == 4 && "noop"@.len() == 4);
    let inner = d.fields + seq![
        ("generation"@, json::int_json(generation as int)),
        ("noop"@, Json::Bool(!d.changed)),
    ];
    let told = register::register_fields(t, r, id);
    assert(told.len() == 5);
    assert forall|i: int| 0 <= i < 5 implies (#[trigger] inner[i]) == told[i] by {}
    let n = d.fields.len() as int;
    assert(inner[n].0 == "generation"@ && inner[n + 1].0 == "noop"@);
    assert(n == 5 || n == 6 && inner[5].0 == "implicitAliasCollisions"@);
    assert(inner[0].0 == "projectId"@ && inner[1].0 == "name"@ && inner[2].0 == "roots"@
        && inner[3].0 == "derivedRootParents"@ && inner[4].0 == "warnings"@);
    assert forall|a: int, b: int| 0 <= a < b < inner.len() implies (#[trigger] inner[a]).0 != (
    #[trigger] inner[b]).0 by {}
    json::lemma_fields_map(inner, 0);
    json::lemma_fields_map(inner, 2);
    json::lemma_fields_map(inner, 4);
    let outer: Seq<Field> = seq![("result"@, json::object(inner))];
    json::lemma_fields_map(outer, 0);
}

/// What a registration answers holds of the registry after it. Where the answer is
/// not one that was kept, it gives the roots of the request in ascending order, each
/// once. Every one of them resolves to the project that the answer names. Their
/// implicit ids are aliases of that project, save one that the answer warns of,
/// which still leads to the owner that the warning names, and one that is itself
/// registered; where no reserved id is, there is none of these.
pub proof fn law_registrations_do_as_they_answer(
    before: Registry,
    req: Register,
    roots: Seq<RootFact>,
    parents: Seq<RootFact>,
    now: i64,
    root: Text,
    exists_there: bool,
    device: Option<u64>,
    devices: Seq<Option<u64>>,
)
    requires
        before.sound(),
        frame::kept(before.journal, req.request_key) is None,
        register::register_outcome(before, req, roots, parents, now).answer is Ok,
        req.roots.contains(root),
    ensures
        ({
            let o = register::register_outcome(before, req, roots, parents, now);
            let reply = register::register_reply(before, req, roots, parents, now);
            let v = reply.at("result"@);
            let id = v.at("projectId"@)->Str_0;
            let warnings = v.at("warnings"@)->Array_0;
            let alias = ids::implicit_id(root);
            let found = queries::resolution(o.registry, root, exists_there, device, devices);
            let traced = queries::trace(o.registry, alias);
            &&& o.answer == Ok::<Seq<u8>, Failure>(encode_utf8(json::json_text(reply)))
            &&& v.at("projectId"@) is Str
            &&& v.at("warnings"@) is Array
            &&& v.at("roots"@) == json::text_array(order::sorted_set(req.roots))
            &&& found.via == "root"@ && found.project_id == id && found.gone == !exists_there
            &&& if model::live(o.registry.tables.projects, alias) {
                traced.via == "current"@ && traced.project_id == alias
            } else {
                &&& traced.via == "alias"@
                &&& forall|owner: Text|
                    warnings.contains(#[trigger] register::warning(alias, owner))
                        ==> traced.project_id == owner
                &&& (forall|owner: Text|
                    !warnings.contains(#[trigger] register::warning(alias, owner)))
                    ==> traced.project_id == id
            }
            &&& !traced.gone
            &&& laws_reserved::unreserved(before.tables) ==> traced.via == "alias"@
        }),
{
    let t = before.tables;
    let r = register::register_settled(req, roots, parents)->Ok_0;
    let deed = register::register_deed(before, r, now);
    let id = register::registrant(t, r)->Ok_0;
    let d = deed.result->Ok_0;
    let alias = ids::implicit_id(root);
    lemma_canonical_as_given(req.roots, roots);
    order::law_sorted_set(req.roots);
    assert(r.roots.contains(root));
    law_registered_roots_resolve(before, r, id, now, root, exists_there, device, devices);
    law_registered_roots_have_implicit_aliases(before, r, id, now, root);
    lemma_register_answer(d, deed.registry.generation(), t, r, id);
    let o = register::register_outcome(before, req, roots, parents, now);
    assert(o.registry.tables == deed.registry.tables);
    if laws_reserved::unreserved(t) {
        laws_reserved::law_requests_register_no_reserved_id(
            before,
            Step::Register { req, roots, parents, now },
        );
        ids::law_implicit_ids_are_reserved(root);
    }
    let warnings = register::collisions(t.aliases, r.roots, id);
    assert forall|owner: Text|
        warnings.contains(#[trigger] register::warning(alias, owner)) implies register::foreign(
        t.aliases,
        alias,
        id,
    ) == Some(owner) by {
        let k = choose|k: int|
            0 <= k < warnings.len() && warnings[k] == register::warning(alias, owner);
        lemma_warnings_are_of_collisions(t.aliases, r.roots, id, k);
        let i = choose|i: int|
            0 <= i < r.roots.len() && (register::foreign(
                t.aliases,
                ids::implicit_id(#[trigger] r.roots[i]),
                id,
            ) matches Some(other) && warnings[k] == register::warning(
                ids::implicit_id(r.roots[i]),
                other,
            ));
        let other = register::foreign(t.aliases, ids::implicit_id(r.roots[i]), id)->Some_0;
        lemma_warnings_differ(alias, owner, ids::implicit_id(r.roots[i]), other);
    }
}

} // verus!
