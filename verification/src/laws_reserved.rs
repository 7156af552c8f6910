//! No project is ever registered under an id that is kept for implicit ones.
use vstd::prelude::*;

use crate::laws_replay::Step;
use crate::model::{Link, Pair, Project, Register, Registry, Remove, Seed, Tables, Upgrade};
use crate::seed::Progress;
use crate::text::Text;
use crate::{
    effects, ids, laws_replay, model, mutations, order, queries, register, seed, upkeep,
};

verus! {

/// Whether no registered project has a reserved id.
pub open spec fn unreserved(t: Tables) -> bool {
    forall|id: Text| #[trigger] model::live(t.projects, id) ==> !ids::is_reserved(id)
}

/// Whoever holds a key of rows that lead to projects is registered.
proof fn lemma_found_live(t: Seq<Link>, keys: Seq<Text>, projects: Seq<Project>, i: int)
    requires
        model::unique_links(t),
        model::lead_to_projects(t, projects),
        0 <= i < register::found(t, keys).len(),
    ensures
        model::live(projects, register::found(t, keys)[i]),
    decreases keys.len(),
{
    if keys.len() > 0 {
        let head = register::found(t, keys.drop_last());
        if i < head.len() {
            lemma_found_live(t, keys.drop_last(), projects, i);
        } else {
            upkeep::lemma_leads(t, projects);
            assert(model::live(projects, model::target(t, keys.last()).unwrap()));
        }
    }
}

/// A request names its project, or one that is registered is found for it, or one
/// is minted that is not reserved.
proof fn lemma_registrant(t: Tables, r: Register)
    requires
        t.sound(),
        r.project_id matches Some(id) ==> !ids::is_reserved(id),
    ensures
        register::registrant(t, r) matches Ok(id) ==> model::live(t.projects, id)
            || !ids::is_reserved(id),
{
    let held = register::found(t.roots, r.roots) + register::found(t.parents, r.parents);
    let holders = register::owners(t, r);
    order::law_sorted_set(held);
    if holders.len() == 1 {
        assert(holders.contains(holders[0]));
        assert(held.contains(holders[0]));
        let i = choose|i: int| 0 <= i < held.len() && held[i] == holders[0];
        let n = register::found(t.roots, r.roots).len();
        if i < n {
            lemma_found_live(t.roots, r.roots, t.projects, i);
        } else {
            lemma_found_live(t.parents, r.parents, t.projects, i - n);
        }
    }
    ids::law_minted_ids_are_not_reserved("register1"@, r.name, r.roots);
}

proof fn lemma_registered(t: Tables, r: Register, id: Text, now: i64)
    requires
        t.sound(),
        unreserved(t),
        model::live(t.projects, id) || !ids::is_reserved(id),
    ensures
        unreserved(register::registered(t, r, id, now)),
{
    register::lemma_named(t, id, r.name, now);
    assert(register::registered(t, r, id, now).projects == register::named(
        t,
        id,
        r.name,
        now,
    ).projects);
}

proof fn lemma_upgraded(t: Tables, r: Upgrade, now: i64)
    requires
        t.sound(),
        unreserved(t),
        r.project_id matches Some(id) ==> !ids::is_reserved(id),
    ensures
        unreserved(mutations::upgraded(t, r, mutations::upgrade_id(r), now)),
{
    let id = mutations::upgrade_id(r);
    ids::law_minted_ids_are_not_reserved("upgrade1"@, r.name, r.roots);
    register::lemma_named(t, id, r.name, now);
    assert(mutations::upgraded(t, r, id, now).projects == register::named(
        t,
        id,
        r.name,
        now,
    ).projects);
}

proof fn lemma_removed(t: Tables, r: Remove, now: i64)
    requires
        t.sound(),
        unreserved(t),
    ensures
        r.workspace_id matches Some(w) ==> unreserved(t.dissolve(w)),
        r.project_id matches Some(id) ==> (r.successor matches Some(s) ==> s != id && model::live(
            t.projects,
            s,
        )) ==> unreserved(t.withdraw(id, r.successor, now)),
{
    if let Some(w) = r.workspace_id {
        assert(t.dissolve(w).projects == t.projects);
    }
    if let Some(id) = r.project_id {
        if r.successor matches Some(s) ==> s != id && model::live(t.projects, s) {
            effects::lemma_withdraw(t, id, r.successor, now);
        }
    }
}

proof fn lemma_titles(t: Tables, titles: Seq<(Text, Text)>, now: i64)
    ensures
        seed::import_titles(t, titles, now).0.projects == t.projects,
    decreases titles.len(),
{
    if titles.len() > 0 {
        lemma_titles(t, titles.drop_last(), now);
    }
}

proof fn lemma_group(t: Tables, req: Seed, identity: Text, rows: Seq<Pair>, now: i64)
    requires
        t.sound(),
        unreserved(t),
    ensures
        unreserved(seed::import_group(t, req, identity, rows, now).tables),
{
    if let Some(project) = seed::landing(t, identity).0 {
        ids::law_seeded_ids_are_not_reserved(identity);
        let name = seed::import_name(req.names, identity, rows);
        effects::lemma_enter(t, project, name, Some(identity), now);
        let u = t.enter(project, name, Some(identity), now);
        assert(unreserved(u));
        let after = seed::import_group(t, req, identity, rows, now).tables;
        assert(after.projects == u.projects || after == t);
    }
}

proof fn lemma_groups(
    start: Progress,
    req: Seed,
    roots: Seq<Text>,
    identities: Seq<Text>,
    now: i64,
)
    requires
        start.tables.sound(),
        unreserved(start.tables),
    ensures
        unreserved(seed::import_groups(start, req, roots, identities, now).tables),
    decreases identities.len(),
{
    if identities.len() > 0 {
        let head = identities.drop_last();
        lemma_groups(start, req, roots, head, now);
        seed::lemma_import_groups(start, req, roots, head, now);
        let identity = identities.last();
        lemma_group(
            seed::import_groups(start, req, roots, head, now).tables,
            req,
            identity,
            seed::group(req.pairs, roots, identity),
            now,
        );
    }
}

proof fn lemma_imported(t: Tables, req: Seed, now: i64)
    requires
        t.sound(),
        unreserved(t),
    ensures
        unreserved(seed::imported(t, req, now).tables),
{
    let roots = order::sorted_set(seed::roots_of(req.pairs));
    let (u, changed) = seed::import_titles(t, req.workspaces, now);
    lemma_titles(t, req.workspaces, now);
    seed::lemma_import_titles(t, req.workspaces, now);
    lemma_groups(
        Progress { tables: u, lines: seed::roots_lines(req.pairs, roots), changed, failure: None },
        req,
        roots,
        order::sorted_set(seed::winners(req.pairs, roots)),
        now,
    );
}

/// Where no reserved id is registered, none is after a request.
pub proof fn law_requests_register_no_reserved_id(before: Registry, step: Step)
    requires
        before.tables.sound(),
        unreserved(before.tables),
        !(step is Rebuild),
    ensures
        unreserved(laws_replay::after(before, step).tables),
{
    let t = before.tables;
    match step {
        Step::Register { req, roots, parents, now } => {
            if let Ok(r) = register::register_settled(req, roots, parents) {
                lemma_registrant(t, r);
                if let Ok(id) = register::registrant(t, r) {
                    lemma_registered(t, r, id, now);
                }
            }
        },
        Step::Assign { req, now } => {
            assert(mutations::assigned(t, req, now).projects == t.projects);
        },
        Step::Upgrade { req, roots, now } => {
            if let Ok(r) = mutations::upgrade_settled(req, roots) {
                lemma_upgraded(t, r, now);
            }
        },
        Step::Remove { req, now } => {
            lemma_removed(t, req, now);
        },
        Step::Import { req, roots, now } => {
            if let Ok(r) = seed::seed_settled(req, roots) {
                lemma_imported(t, r, now);
            }
        },
        Step::Rebuild => {},
    }
}

/// Whatever a registry went through since it was new, no reserved id is registered
/// in it. So an implicit id is never found as a project's own: it leads to a project
/// as an alias, or nowhere.
pub proof fn law_reserved_ids_are_never_registered(steps: Seq<Step>, root: Text)
    ensures
        unreserved(laws_replay::lived(steps).tables),
        ({
            let found = queries::trace(laws_replay::lived(steps), ids::implicit_id(root));
            found.via == "alias"@ || found.via == "gone"@
        }),
    decreases steps.len(),
{
    if steps.len() > 0 {
        let before = laws_replay::lived(steps.drop_last());
        law_reserved_ids_are_never_registered(steps.drop_last(), root);
        laws_replay::law_what_was_lived_can_be_rebuilt(steps.drop_last());
        if !(steps.last() is Rebuild) {
            law_requests_register_no_reserved_id(before, steps.last());
        }
    }
    ids::law_implicit_ids_are_reserved(root);
}

} // verus!
