//! What holds of the mutations as a whole: answers that repeat, the journal
//! that only grows, refusals that change nothing.
use vstd::prelude::*;
use vstd::utf8::*;

use crate::frame::{Deed, Note, Outcome};
use crate::model::{Assign, Entry, Register, Registry, Remove, Seed, Upgrade};
use crate::paths::RootFact;
use crate::text::Text;
use crate::{frame, json, mutations, register, seed};

verus! {

/// Whether a journal continues another: every earlier entry stands as it was.
pub open spec fn continues(before: Seq<Entry>, after: Seq<Entry>) -> bool {
    before.len() <= after.len() && after.take(before.len() as int) == before
}

/// Whether an outcome moved the journal head on by one entry, and only that.
pub open spec fn advanced(before: Registry, o: Outcome) -> bool {
    &&& o.registry.generation() == before.generation() + 1
    &&& o.registry.journal.len() == before.journal.len() + 1
}

/// What every mutation reports: where something changed, one entry was appended
/// with the request's key; where nothing did, the registry is what it was.
spec fn honest(before: Registry, key: Option<Text>, deed: Deed) -> bool {
    match deed.result {
        Ok(d) => if d.changed {
            frame::append_failure(before.journal, key) is None && exists|note: Note|
                note.request_key == key && deed.registry.journal == #[trigger] frame::appended(
                    before.journal,
                    note,
                )
        } else {
            deed.registry == before
        },
        Err(_) => continues(before.journal, deed.registry.journal),
    }
}

proof fn lemma_kept_last(s: Seq<Entry>, key: Option<Text>)
    requires
        s.len() > 0,
        key is Some,
        forall|i: int| 0 <= i < s.len() - 1 ==> (#[trigger] s[i]).request_key != key,
        s.last().request_key == key,
    ensures
        frame::kept(s, key) == s.last().response,
    decreases s.len(),
{
    if s.len() > 1 {
        let rest = s.drop_first();
        assert forall|i: int| 0 <= i < rest.len() - 1 implies (#[trigger] rest[i]).request_key
            != key by {
            assert(rest[i] == s[i + 1]);
        }
        lemma_kept_last(rest, key);
        assert(s[0].request_key != key);
    }
}

proof fn lemma_frame(before: Registry, key: Option<Text>, deed: Deed)
    requires
        before.sound(),
        honest(before, key, deed),
    ensures
        ({
            let o = frame::outcome(before, key, deed);
            &&& continues(before.journal, o.registry.journal)
            &&& o.answer is Ok ==> o.registry == before || advanced(before, o)
            &&& o.answer matches Ok(b) ==> key is Some && (o.registry.generation()
                != before.generation() || frame::kept(before.journal, key) is Some) ==> (
            frame::kept(o.registry.journal, key) matches Some(t) && b == encode_utf8(t))
        }),
{
    let o = frame::outcome(before, key, deed);
    assert(before.journal.take(before.journal.len() as int) =~= before.journal);
    if frame::kept(before.journal, key) is None {
        if let Ok(d) = deed.result {
            if d.changed {
                let note = choose|note: Note|
                    note.request_key == key && deed.registry.journal == #[trigger] frame::appended(
                        before.journal,
                        note,
                    );
                let mid = frame::appended(before.journal, note);
                frame::lemma_appended(before.journal, note);
                let response = frame::answer(d, deed.registry.generation());
                let after = frame::answered(mid, json::json_text(d.payload), response);
                assert(o.registry.journal == after);
                assert(after.take(before.journal.len() as int) =~= before.journal);
                frame::lemma_answered(mid, json::json_text(d.payload), response);
                if key is Some {
                    assert forall|i: int| 0 <= i < after.len() - 1 implies (
                    #[trigger] after[i]).request_key != key by {
                        assert(after[i] == before.journal[i]);
                    }
                    lemma_kept_last(after, key);
                }
            }
        }
    }
}

proof fn lemma_register_honest(before: Registry, r: Register, now: i64)
    ensures
        honest(before, r.request_key, register::register_deed(before, r, now)),
        register::register_deed(before, r, now).result is Err ==> register::register_deed(
            before,
            r,
            now,
        ).registry == before,
{
    let deed = register::register_deed(before, r, now);
    assert(before.journal.take(before.journal.len() as int) =~= before.journal);
    if let Ok(d) = deed.result {
        if d.changed {
            assert(deed.registry.journal == frame::appended(
                before.journal,
                register::register_note(r, now),
            ));
        }
    }
}

proof fn lemma_assign_honest(before: Registry, r: Assign, now: i64)
    ensures
        honest(before, r.request_key, mutations::assign_deed(before, r, now)),
        mutations::assign_deed(before, r, now).result is Err ==> mutations::assign_deed(
            before,
            r,
            now,
        ).registry == before,
{
    let deed = mutations::assign_deed(before, r, now);
    let note = mutations::assign_note(r, now);
    assert(before.journal.take(before.journal.len() as int) =~= before.journal);
    if let Ok(d) = deed.result {
        if d.changed {
            assert(deed.registry.journal == frame::appended(before.journal, note));
        }
    }
}

proof fn lemma_upgrade_honest(before: Registry, r: Upgrade, now: i64)
    ensures
        honest(before, r.request_key, mutations::upgrade_deed(before, r, now)),
        mutations::upgrade_deed(before, r, now).result is Err ==> mutations::upgrade_deed(
            before,
            r,
            now,
        ).registry == before,
{
    let deed = mutations::upgrade_deed(before, r, now);
    assert(before.journal.take(before.journal.len() as int) =~= before.journal);
    if let Ok(d) = deed.result {
        if d.changed {
            assert(deed.registry.journal == frame::appended(
                before.journal,
                mutations::upgrade_note(r, now),
            ));
        }
    }
}

proof fn lemma_remove_honest(before: Registry, r: Remove, now: i64)
    ensures
        honest(before, r.request_key, mutations::remove_deed(before, r, now)),
        mutations::remove_deed(before, r, now).result is Err ==> mutations::remove_deed(
            before,
            r,
            now,
        ).registry == before,
{
    let deed = mutations::remove_deed(before, r, now);
    assert(before.journal.take(before.journal.len() as int) =~= before.journal);
    if let Ok(d) = deed.result {
        if d.changed {
            assert(deed.registry.journal == frame::appended(
                before.journal,
                mutations::remove_note(r, now),
            ));
        }
    }
}

proof fn lemma_seed_honest(before: Registry, r: Seed, now: i64)
    ensures
        honest(before, r.request_key, seed::seed_deed(before, r, now)),
        seed::seed_deed(before, r, now).result is Err ==> seed::seed_deed(before, r, now).registry
            == before,
{
    let deed = seed::seed_deed(before, r, now);
    assert(before.journal.take(before.journal.len() as int) =~= before.journal);
    if let Ok(d) = deed.result {
        if d.changed {
            assert(deed.registry.journal == frame::appended(
                before.journal,
                seed::seed_note(r, now),
            ));
        }
    }
}

/// A registration appends at most one entry and rewrites none. One that
/// succeeds either moves the journal head on by one or changes nothing; one that
/// is refused changes nothing.
pub proof fn law_register_moves_the_head_by_one_or_changes_nothing(
    before: Registry,
    req: Register,
    roots: Seq<RootFact>,
    parents: Seq<RootFact>,
    now: i64,
)
    requires
        before.sound(),
    ensures
        ({
            let o = register::register_outcome(before, req, roots, parents, now);
            &&& continues(before.journal, o.registry.journal)
            &&& o.answer is Ok ==> o.registry == before || advanced(before, o)
            &&& o.answer is Err ==> o.registry == before
        }),
{
    assert(before.journal.take(before.journal.len() as int) =~= before.journal);
    if let Ok(r) = register::register_settled(req, roots, parents) {
        lemma_register_honest(before, r, now);
        lemma_frame(before, r.request_key, register::register_deed(before, r, now));
    }
}

/// A placement appends at most one entry and rewrites none. One that succeeds
/// either moves the journal head on by one or changes nothing; one that is refused
/// changes nothing.
pub proof fn law_assign_moves_the_head_by_one_or_changes_nothing(
    before: Registry,
    req: Assign,
    now: i64,
)
    requires
        before.sound(),
    ensures
        ({
            let o = mutations::assign_outcome(before, req, now);
            &&& continues(before.journal, o.registry.journal)
            &&& o.answer is Ok ==> o.registry == before || advanced(before, o)
            &&& o.answer is Err ==> o.registry == before
        }),
{
    lemma_assign_honest(before, req, now);
    lemma_frame(before, req.request_key, mutations::assign_deed(before, req, now));
}

/// An upgrade appends at most one entry and rewrites none. One that succeeds
/// either moves the journal head on by one or changes nothing; one that is
/// refused changes nothing.
pub proof fn law_upgrade_moves_the_head_by_one_or_changes_nothing(
    before: Registry,
    req: Upgrade,
    roots: Seq<RootFact>,
    now: i64,
)
    requires
        before.sound(),
    ensures
        ({
            let o = mutations::upgrade_outcome(before, req, roots, now);
            &&& continues(before.journal, o.registry.journal)
            &&& o.answer is Ok ==> o.registry == before || advanced(before, o)
            &&& o.answer is Err ==> o.registry == before
        }),
{
    assert(before.journal.take(before.journal.len() as int) =~= before.journal);
    if let Ok(r) = mutations::upgrade_settled(req, roots) {
        lemma_upgrade_honest(before, r, now);
        lemma_frame(before, r.request_key, mutations::upgrade_deed(before, r, now));
    }
}

/// A removal appends at most one entry and rewrites none. One that succeeds
/// moves the journal head on by one, or was answered before; one that is refused
/// changes nothing.
pub proof fn law_remove_moves_the_head_by_one_or_changes_nothing(
    before: Registry,
    req: Remove,
    now: i64,
)
    requires
        before.sound(),
    ensures
        ({
            let o = mutations::remove_outcome(before, req, now);
            &&& continues(before.journal, o.registry.journal)
            &&& o.answer is Ok ==> (if frame::kept(before.journal, req.request_key) is Some {
                o.registry == before
            } else {
                advanced(before, o)
            })
            &&& o.answer is Err ==> o.registry == before
        }),
{
    lemma_remove_honest(before, req, now);
    lemma_frame(before, req.request_key, mutations::remove_deed(before, req, now));
    let o = mutations::remove_outcome(before, req, now);
    if o.answer is Ok && frame::kept(before.journal, req.request_key) is None {
        let note = mutations::remove_note(req, now);
        frame::lemma_appended(before.journal, note);
    }
}

/// An import appends at most one entry and rewrites none. One that succeeds
/// either moves the journal head on by one or changes nothing; one that fails
/// changes nothing.
pub proof fn law_seed_import_moves_the_head_by_one_or_changes_nothing(
    before: Registry,
    req: Seed,
    roots: Seq<RootFact>,
    now: i64,
)
    requires
        before.sound(),
    ensures
        ({
            let o = seed::seed_outcome(before, req, roots, now);
            &&& continues(before.journal, o.registry.journal)
            &&& o.answer is Ok ==> o.registry == before || advanced(before, o)
            &&& o.answer is Err ==> o.registry == before
        }),
{
    assert(before.journal.take(before.journal.len() as int) =~= before.journal);
    if let Ok(r) = seed::seed_settled(req, roots) {
        lemma_seed_honest(before, r, now);
        lemma_frame(before, r.request_key, seed::seed_deed(before, r, now));
    }
}

/// Whether a request was answered for good: it has a key, and its answer moved
/// the journal head or was kept before.
pub open spec fn answered_for_good(before: Registry, key: Option<Text>, o: Outcome) -> bool {
    &&& key is Some
    &&& o.answer is Ok
    &&& o.registry.generation() != before.generation() || frame::kept(before.journal, key) is Some
}

/// A registration with a request key that took effect is answered with the same
/// bytes when it is sent again, and changes nothing more.
pub proof fn law_register_repeats_its_answer(
    before: Registry,
    req: Register,
    roots: Seq<RootFact>,
    parents: Seq<RootFact>,
    now: i64,
    later: i64,
)
    requires
        before.sound(),
        answered_for_good(
            before,
            req.request_key,
            register::register_outcome(before, req, roots, parents, now),
        ),
    ensures
        ({
            let o = register::register_outcome(before, req, roots, parents, now);
            register::register_outcome(o.registry, req, roots, parents, later) == o
        }),
{
    if let Ok(r) = register::register_settled(req, roots, parents) {
        lemma_register_honest(before, r, now);
        lemma_frame(before, r.request_key, register::register_deed(before, r, now));
    }
}

/// A placement with a request key that took effect is answered with the same
/// bytes when it is sent again, and changes nothing more.
pub proof fn law_assign_repeats_its_answer(before: Registry, req: Assign, now: i64, later: i64)
    requires
        before.sound(),
        answered_for_good(before, req.request_key, mutations::assign_outcome(before, req, now)),
    ensures
        ({
            let o = mutations::assign_outcome(before, req, now);
            mutations::assign_outcome(o.registry, req, later) == o
        }),
{
    lemma_assign_honest(before, req, now);
    lemma_frame(before, req.request_key, mutations::assign_deed(before, req, now));
}

/// An upgrade with a request key that took effect is answered with the same
/// bytes when it is sent again, and changes nothing more.
pub proof fn law_upgrade_repeats_its_answer(
    before: Registry,
    req: Upgrade,
    roots: Seq<RootFact>,
    now: i64,
    later: i64,
)
    requires
        before.sound(),
        answered_for_good(
            before,
            req.request_key,
            mutations::upgrade_outcome(before, req, roots, now),
        ),
    ensures
        ({
            let o = mutations::upgrade_outcome(before, req, roots, now);
            mutations::upgrade_outcome(o.registry, req, roots, later) == o
        }),
{
    if let Ok(r) = mutations::upgrade_settled(req, roots) {
        lemma_upgrade_honest(before, r, now);
        lemma_frame(before, r.request_key, mutations::upgrade_deed(before, r, now));
    }
}

/// A removal with a request key that took effect is answered with the same bytes
/// when it is sent again, and changes nothing more.
pub proof fn law_remove_repeats_its_answer(before: Registry, req: Remove, now: i64, later: i64)
    requires
        before.sound(),
        answered_for_good(before, req.request_key, mutations::remove_outcome(before, req, now)),
    ensures
        ({
            let o = mutations::remove_outcome(before, req, now);
            mutations::remove_outcome(o.registry, req, later) == o
        }),
{
    lemma_remove_honest(before, req, now);
    lemma_frame(before, req.request_key, mutations::remove_deed(before, req, now));
}

/// An import with a request key that took effect is answered with the same bytes
/// when it is sent again, and changes nothing more.
pub proof fn law_seed_import_repeats_its_answer(
    before: Registry,
    req: Seed,
    roots: Seq<RootFact>,
    now: i64,
    later: i64,
)
    requires
        before.sound(),
        answered_for_good(
            before,
            req.request_key,
            seed::seed_outcome(before, req, roots, now),
        ),
    ensures
        ({
            let o = seed::seed_outcome(before, req, roots, now);
            seed::seed_outcome(o.registry, req, roots, later) == o
        }),
{
    if let Ok(r) = seed::seed_settled(req, roots) {
        lemma_seed_honest(before, r, now);
        lemma_frame(before, r.request_key, seed::seed_deed(before, r, now));
    }
}

/// A request key belongs to the journal, not to one kind of request: whatever is
/// sent under a key that was answered gets that answer, and changes nothing. Only
/// a request that is refused before it is looked up is refused all the same.
pub proof fn law_a_key_is_answered_once(
    before: Registry,
    key: Option<Text>,
    answer: Text,
    register: Register,
    assign: Assign,
    upgrade: Upgrade,
    remove: Remove,
    import: Seed,
    roots: Seq<RootFact>,
    parents: Seq<RootFact>,
    now: i64,
)
    requires
        frame::kept(before.journal, key) == Some(answer),
    ensures
        ({
            let o = Outcome { registry: before, answer: Ok(encode_utf8(answer)) };
            &&& register.request_key == key && register::register_settled(
                register,
                roots,
                parents,
            ) is Ok ==> register::register_outcome(before, register, roots, parents, now) == o
            &&& assign.request_key == key ==> mutations::assign_outcome(before, assign, now) == o
            &&& upgrade.request_key == key && mutations::upgrade_settled(upgrade, roots) is Ok
                ==> mutations::upgrade_outcome(before, upgrade, roots, now) == o
            &&& remove.request_key == key ==> mutations::remove_outcome(before, remove, now) == o
            &&& import.request_key == key && seed::seed_settled(import, roots) is Ok
                ==> seed::seed_outcome(before, import, roots, now) == o
        }),
{
}

} // verus!
