//! What replaying the journal restores.
use vstd::prelude::*;

use crate::frame::{Deed, Note};
use crate::json::Json;
use crate::model::{Assign, Entry, Register, Registry, Remove, Seed, Tables, Upgrade};
use crate::paths::RootFact;
use crate::text::Text;
use crate::{audit, entries, frame, json, laws_placement, mutations, register, replay, seed};

verus! {

/// Whether the tables are those that the journal leads to.
pub open spec fn rebuilds(reg: Registry) -> bool {
    replay::replay_all(reg.journal) == Ok::<Tables, Text>(reg.tables)
}

/// Rebuilding is a function of the journal: doing it twice is doing it once, and
/// the journal stays as it is.
pub proof fn law_rebuilding_twice_is_rebuilding_once(reg: Registry, t: Tables)
    requires
        replay::replay_all(reg.journal) == Ok::<Tables, Text>(t),
    ensures
        ({
            let once = Registry { tables: t, ..reg };
            &&& rebuilds(once)
            &&& once.generation() == reg.generation()
            &&& replay::replay_all(once.journal) == Ok::<Tables, Text>(t)
        }),
{
}

/// An entry is replayed last, whatever was answered to it.
proof fn lemma_replay_appended(journal: Seq<Entry>, note: Note, payload: Text, response: Text)
    ensures
        replay::replay_all(frame::appended(journal, note)) == match replay::replay_all(journal) {
            Ok(t) => replay::replayed(t, note.record, note.now),
            Err(e) => Err(e),
        },
        replay::replay_all(frame::answered(frame::appended(journal, note), payload, response))
            == replay::replay_all(frame::appended(journal, note)),
{
    let appended = frame::appended(journal, note);
    let after = frame::answered(appended, payload, response);
    assert(appended.drop_last() =~= journal);
    assert(after.drop_last() =~= journal);
}

/// A mutation can be rebuilt that changes nothing, or else appends an entry that
/// does when it is replayed what the mutation did.
proof fn lemma_deeds_can_be_rebuilt(before: Registry, key: Option<Text>, deed: Deed, note: Note)
    requires
        rebuilds(before),
        deed.result is Err ==> deed.registry == before,
        deed.result matches Ok(d) ==> if d.changed {
            &&& deed.registry.journal == frame::appended(before.journal, note)
            &&& replay::replayed(before.tables, note.record, note.now) == Ok::<Tables, Text>(
                deed.registry.tables,
            )
        } else {
            deed.registry == before
        },
    ensures
        rebuilds(frame::outcome(before, key, deed).registry),
{
    if let Ok(d) = deed.result {
        lemma_replay_appended(
            before.journal,
            note,
            json::json_text(d.payload),
            frame::answer(d, deed.registry.generation()),
        );
    }
}

/// Registrations can be rebuilt: tables that the journal leads to are still those
/// after one.
pub proof fn law_registrations_can_be_rebuilt(
    before: Registry,
    req: Register,
    roots: Seq<RootFact>,
    parents: Seq<RootFact>,
    now: i64,
)
    requires
        rebuilds(before),
    ensures
        rebuilds(register::register_outcome(before, req, roots, parents, now).registry),
{
    if let Ok(r) = register::register_settled(req, roots, parents) {
        lemma_deeds_can_be_rebuilt(
            before,
            r.request_key,
            register::register_deed(before, r, now),
            register::register_note(r, now),
        );
    }
}

/// Placements can be rebuilt: tables that the journal leads to are still those
/// after one.
pub proof fn law_placements_can_be_rebuilt(before: Registry, req: Assign, now: i64)
    requires
        rebuilds(before),
    ensures
        rebuilds(mutations::assign_outcome(before, req, now).registry),
{
    lemma_deeds_can_be_rebuilt(
        before,
        req.request_key,
        mutations::assign_deed(before, req, now),
        mutations::assign_note(req, now),
    );
}

/// Upgrades can be rebuilt: tables that the journal leads to are still those after
/// one.
pub proof fn law_upgrades_can_be_rebuilt(
    before: Registry,
    req: Upgrade,
    roots: Seq<RootFact>,
    now: i64,
)
    requires
        rebuilds(before),
    ensures
        rebuilds(mutations::upgrade_outcome(before, req, roots, now).registry),
{
    if let Ok(r) = mutations::upgrade_settled(req, roots) {
        lemma_deeds_can_be_rebuilt(
            before,
            r.request_key,
            mutations::upgrade_deed(before, r, now),
            mutations::upgrade_note(r, now),
        );
    }
}

/// Removals can be rebuilt: tables that the journal leads to are still those after
/// one.
pub proof fn law_removals_can_be_rebuilt(before: Registry, req: Remove, now: i64)
    requires
        rebuilds(before),
    ensures
        rebuilds(mutations::remove_outcome(before, req, now).registry),
{
    lemma_deeds_can_be_rebuilt(
        before,
        req.request_key,
        mutations::remove_deed(before, req, now),
        mutations::remove_note(req, now),
    );
}

/// Imports can be rebuilt: tables that the journal leads to are still those after
/// one.
pub proof fn law_imports_can_be_rebuilt(
    before: Registry,
    req: Seed,
    roots: Seq<RootFact>,
    now: i64,
)
    requires
        rebuilds(before),
    ensures
        rebuilds(seed::seed_outcome(before, req, roots, now).registry),
{
    if let Ok(r) = seed::seed_settled(req, roots) {
        lemma_deeds_can_be_rebuilt(
            before,
            r.request_key,
            seed::seed_deed(before, r, now),
            seed::seed_note(r, now),
        );
    }
}

/// A request that changes the registry, with what the file system knows of its
/// paths and the time it is made.
pub enum Step {
    Register { req: Register, roots: Seq<RootFact>, parents: Seq<RootFact>, now: i64 },
    Assign { req: Assign, now: i64 },
    Upgrade { req: Upgrade, roots: Seq<RootFact>, now: i64 },
    Remove { req: Remove, now: i64 },
    Import { req: Seed, roots: Seq<RootFact>, now: i64 },
    Rebuild,
}

/// The registry after a step.
pub open spec fn after(before: Registry, step: Step) -> Registry {
    match step {
        Step::Register { req, roots, parents, now } => register::register_outcome(
            before,
            req,
            roots,
            parents,
            now,
        ).registry,
        Step::Assign { req, now } => mutations::assign_outcome(before, req, now).registry,
        Step::Upgrade { req, roots, now } => mutations::upgrade_outcome(
            before,
            req,
            roots,
            now,
        ).registry,
        Step::Remove { req, now } => mutations::remove_outcome(before, req, now).registry,
        Step::Import { req, roots, now } => seed::seed_outcome(before, req, roots, now).registry,
        Step::Rebuild => match replay::replay_all(before.journal) {
            Ok(t) => Registry { tables: t, ..before },
            Err(_) => before,
        },
    }
}

/// The registry that steps lead to from none.
pub open spec fn lived(steps: Seq<Step>) -> Registry
    decreases steps.len(),
{
    if steps.len() == 0 {
        Registry { tables: Tables::empty(), journal: Seq::empty() }
    } else {
        after(lived(steps.drop_last()), steps.last())
    }
}

/// Whether what an entry keeps is JSON that can be read back and tells the request
/// that made it.
pub open spec fn keeps(e: Entry) -> bool {
    exists|v: Json| e.payload == #[trigger] json::json_text(v) && entries::legible(e, v)
}

/// A mutation keeps its request that changes nothing, or else appends an entry and
/// keeps with it what tells the request.
proof fn lemma_deeds_keep_requests(before: Registry, key: Option<Text>, deed: Deed, note: Note)
    requires
        deed.result is Err ==> deed.registry == before,
        deed.result matches Ok(d) ==> if d.changed {
            &&& deed.registry.journal == frame::appended(before.journal, note)
            &&& json::plain(d.payload, 100)
            &&& entries::fits(note.op, d.payload, note.record)
        } else {
            deed.registry == before
        },
    ensures
        ({
            let journal = frame::outcome(before, key, deed).registry.journal;
            journal == before.journal || journal.drop_last() == before.journal && journal.len() > 0
                && keeps(journal.last())
        }),
{
    if let Ok(d) = deed.result {
        if d.changed && frame::kept(before.journal, key) is None {
            let journal = frame::outcome(before, key, deed).registry.journal;
            assert(journal.drop_last() =~= before.journal);
            assert(journal.last().payload == json::json_text(d.payload));
            assert(entries::legible(journal.last(), d.payload));
        }
    }
}

/// A request changes nothing in the journal, or appends one entry, the payload of
/// which has the request as JSON for its request part.
pub proof fn law_entries_keep_their_requests(before: Registry, step: Step)
    ensures
        ({
            let journal = after(before, step).journal;
            journal == before.journal || journal.drop_last() == before.journal && journal.len() > 0
                && keeps(journal.last())
        }),
{
    match step {
        Step::Register { req, roots, parents, now } => {
            if let Ok(r) = register::register_settled(req, roots, parents) {
                if let Ok(id) = register::registrant(before.tables, r) {
                    register::lemma_register_legible(before.tables, r, id);
                    entries::lemma_register_kept(
                        r,
                        Json::Array(register::collisions(before.tables.aliases, r.roots, id)),
                    );
                }
                lemma_deeds_keep_requests(
                    before,
                    r.request_key,
                    register::register_deed(before, r, now),
                    register::register_note(r, now),
                );
            }
        },
        Step::Assign { req, now } => {
            entries::lemma_assign_kept(req);
            lemma_deeds_keep_requests(
                before,
                req.request_key,
                mutations::assign_deed(before, req, now),
                mutations::assign_note(req, now),
            );
        },
        Step::Upgrade { req, roots, now } => {
            if let Ok(r) = mutations::upgrade_settled(req, roots) {
                entries::lemma_upgrade_kept(r);
                lemma_deeds_keep_requests(
                    before,
                    r.request_key,
                    mutations::upgrade_deed(before, r, now),
                    mutations::upgrade_note(r, now),
                );
            }
        },
        Step::Remove { req, now } => {
            entries::lemma_remove_kept(req);
            lemma_deeds_keep_requests(
                before,
                req.request_key,
                mutations::remove_deed(before, req, now),
                mutations::remove_note(req, now),
            );
        },
        Step::Import { req, roots, now } => {
            if let Ok(r) = seed::seed_settled(req, roots) {
                entries::lemma_seed_kept(r);
                lemma_deeds_keep_requests(
                    before,
                    r.request_key,
                    seed::seed_deed(before, r, now),
                    seed::seed_note(r, now),
                );
            }
        },
        Step::Rebuild => {},
    }
}

/// Whatever a registry went through since it was new, every entry of its journal
/// keeps the request that made it.
pub proof fn law_what_was_lived_is_kept(steps: Seq<Step>)
    ensures
        forall|i: int|
            0 <= i < lived(steps).journal.len() ==> keeps(#[trigger] lived(steps).journal[i]),
    decreases steps.len(),
{
    if steps.len() > 0 {
        let before = lived(steps.drop_last());
        let journal = lived(steps).journal;
        law_what_was_lived_is_kept(steps.drop_last());
        law_entries_keep_their_requests(before, steps.last());
        assert forall|i: int| 0 <= i < journal.len() implies keeps(#[trigger] journal[i]) by {
            if journal != before.journal {
                if i < journal.len() - 1 {
                    assert(journal[i] == journal.drop_last()[i]);
                    assert(keeps(before.journal[i]));
                }
            } else {
                assert(keeps(before.journal[i]));
            }
        }
    }
}

/// Whatever a registry went through since it was new, refusals and repeats among
/// it, rebuilding it restores every row as it was, and an audit finds nothing.
pub proof fn law_what_was_lived_can_be_rebuilt(steps: Seq<Step>)
    ensures
        rebuilds(lived(steps)),
        after(lived(steps), Step::Rebuild) == lived(steps),
        lived(steps).tables.sound(),
        audit::findings(lived(steps)).len() == 0,
    decreases steps.len(),
{
    if steps.len() > 0 {
        let before = lived(steps.drop_last());
        law_what_was_lived_can_be_rebuilt(steps.drop_last());
        match steps.last() {
            Step::Register { req, roots, parents, now } => {
                law_registrations_can_be_rebuilt(before, req, roots, parents, now);
            },
            Step::Assign { req, now } => {
                law_placements_can_be_rebuilt(before, req, now);
            },
            Step::Upgrade { req, roots, now } => {
                law_upgrades_can_be_rebuilt(before, req, roots, now);
            },
            Step::Remove { req, now } => {
                law_removals_can_be_rebuilt(before, req, now);
            },
            Step::Import { req, roots, now } => {
                law_imports_can_be_rebuilt(before, req, roots, now);
            },
            Step::Rebuild => {},
        }
    }
    laws_placement::law_rebuilt_tables_pass_their_audit(lived(steps).journal);
    laws_placement::law_audits_pass_what_can_be_rebuilt(lived(steps));
}

} // verus!
