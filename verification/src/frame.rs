//! The frame that every mutation runs in: a request key that was answered gets
//! the same answer again; else the mutation runs, and the answer of one that
//! changed something is kept with its journal entry.
use vstd::prelude::*;
use vstd::string::*;
use vstd::utf8::*;

use crate::error::{Failure, RegistryError};
use crate::json::{bool_value, compact, field, int_value, object_value, wrap, Field, Json};
use crate::model::{Entry, Record, Registry};
use crate::request::JournalRecord;
use crate::rows::JournalRow;
use crate::store::RegistryStore;
use crate::text::{bytes_of, clone_opt, str_eq, Text};
use crate::{entries, json, model, rows, text};

verus! {

/// The answer kept for a request key.
pub open spec fn kept(journal: Seq<Entry>, key: Option<Text>) -> Option<Text>
    decreases journal.len(),
{
    if key is None || journal.len() == 0 {
        None
    } else if journal[0].request_key == key {
        journal[0].response
    } else {
        kept(journal.drop_first(), key)
    }
}

/// Whether a journal entry has the request key.
pub open spec fn key_taken(journal: Seq<Entry>, key: Option<Text>) -> bool {
    key is Some && exists|i: int|
        0 <= i < journal.len() && (#[trigger] journal[i]).request_key == key
}

/// Why no entry with this request key can be appended, where none can.
pub open spec fn append_failure(journal: Seq<Entry>, key: Option<Text>) -> Option<Failure> {
    if model::generation(journal) == i64::MAX {
        Some(Failure::Database("database or disk is full"@))
    } else if key_taken(journal, key) {
        Some(Failure::Database("UNIQUE constraint failed: registry_journal.request_key"@))
    } else {
        None
    }
}

/// What a mutation writes to the journal.
pub struct Note {
    pub op: Text,
    pub payload: Text,
    pub actor: Text,
    pub request_key: Option<Text>,
    pub now: i64,
    pub record: Record,
}

/// The journal with one entry more.
pub open spec fn appended(journal: Seq<Entry>, note: Note) -> Seq<Entry> {
    journal.push(
        Entry {
            seq: (model::generation(journal) + 1) as i64,
            op: note.op,
            payload: note.payload,
            actor: note.actor,
            request_key: note.request_key,
            created_at: note.now,
            response: None,
            record: note.record,
        },
    )
}

/// The journal with its last entry answered.
pub open spec fn answered(journal: Seq<Entry>, payload: Text, response: Text) -> Seq<Entry> {
    journal.update(
        journal.len() - 1,
        Entry { payload, response: Some(response), ..journal.last() },
    )
}

/// What a mutation that succeeded reports.
pub struct Done {
    /// Whether anything changed, and so a journal entry was appended.
    pub changed: bool,
    /// What it answers, but for the journal head and whether anything changed.
    pub fields: Seq<Field>,
    /// What the journal entry keeps of the request.
    pub payload: Json,
}

/// What a mutation came to: the registry after it, and its report.
pub struct Deed {
    pub registry: Registry,
    pub result: Result<Done, Failure>,
}

/// A mutation that was refused and changed nothing.
pub open spec fn refused(registry: Registry, e: Failure) -> Deed {
    Deed { registry, result: Err(e) }
}

/// A mutation that succeeded.
pub open spec fn done(registry: Registry, changed: bool, fields: Seq<Field>, payload: Json) -> Deed {
    Deed { registry, result: Ok(Done { changed, fields, payload }) }
}

/// What a mutation answers, in its envelope.
pub open spec fn envelope(report: Done, generation: i64) -> Json {
    json::object(
        seq![
            (
                "result"@,
                json::object(
                    report.fields + seq![
                        ("generation"@, json::int_json(generation as int)),
                        ("noop"@, Json::Bool(!report.changed)),
                    ],
                ),
            ),
        ],
    )
}

/// The answer, as it goes over the wire.
pub open spec fn answer(report: Done, generation: i64) -> Text {
    json::json_text(envelope(report, generation))
}

/// The journal head that an answer gives.
pub open spec fn head_in(bytes: Seq<u8>) -> Option<i64> {
    match json::json_read(bytes) {
        Some(v) => {
            let head = v.at("result"@).at("generation"@);
            if exists|i: i64| head == #[trigger] json::int_json(i as int) {
                Some(choose|i: i64| head == #[trigger] json::int_json(i as int))
            } else {
                None
            }
        },
        None => None,
    }
}

/// Whether a report holds nothing that a reader of its answer could not follow.
pub open spec fn legible(fields: Seq<Field>) -> bool {
    forall|i: int| 0 <= i < fields.len() ==> json::plain((#[trigger] fields[i]).1, 10)
}

/// The answer of a legible report tells the journal head.
pub proof fn lemma_head(report: Done, generation: i64, bytes: Seq<u8>)
    requires
        legible(report.fields),
    ensures
        json::plain(envelope(report, generation), 100),
        json::json_read(bytes) == Some(envelope(report, generation)) ==> head_in(bytes) == Some(
            generation,
        ),
{
    let g = ("generation"@, json::int_json(generation as int));
    let n = ("noop"@, Json::Bool(!report.changed));
    let inner = report.fields + seq![g, n];
    let v = json::object(inner);
    assert(json::plain(g.1, 10)) by {
        assert(json::int_json(generation as int) == Json::Number(json::decimal(generation as int)));
    }
    assert forall|i: int| 0 <= i < inner.len() implies json::plain((#[trigger] inner[i]).1, 10) by {
        if i < report.fields.len() {
            assert(inner[i] == report.fields[i]);
        } else if i == report.fields.len() {
            assert(inner[i] == g);
        } else {
            assert(inner[i] == n);
        }
    }
    json::lemma_plain_object(inner, 10);
    let outer: Seq<Field> = seq![("result"@, v)];
    assert(outer[0].1 == v);
    json::lemma_plain_object(outer, 11);
    json::lemma_plain_deeper(envelope(report, generation), 12, 100);
    reveal_strlit("generation");
    reveal_strlit("noop");
    assert("generation"@.len() != "noop"@.len());
    assert(inner.drop_last() =~= report.fields.push(g));
    assert(inner.drop_last().drop_last() =~= report.fields);
    assert(inner.last() == n && inner.drop_last().last() == g);
    let head = json::fields_map(report.fields);
    assert(json::fields_map(inner.drop_last()) == head.insert(g.0, g.1));
    assert(json::fields_map(inner) == head.insert(g.0, g.1).insert(n.0, n.1));
    assert(v.at("generation"@) == g.1);
    assert(outer.drop_last() =~= Seq::empty());
    assert(envelope(report, generation).at("result"@) == v);
    let i = choose|i: i64| g.1 == #[trigger] json::int_json(i as int);
    assert(g.1 == json::int_json(generation as int));
    json::lemma_decimal_injective(i as int, generation as int);
}

/// What a mutation leaves behind and answers.
pub struct Outcome {
    pub registry: Registry,
    pub answer: Result<Seq<u8>, Failure>,
}

/// The outcome of a mutation that ran.
pub open spec fn settled(deed: Deed) -> Outcome {
    match deed.result {
        Err(e) => Outcome { registry: deed.registry, answer: Err(e) },
        Ok(report) => {
            let response = answer(report, deed.registry.generation());
            Outcome {
                registry: if report.changed {
                    Registry {
                        journal: answered(
                            deed.registry.journal,
                            json::json_text(report.payload),
                            response,
                        ),
                        ..deed.registry
                    }
                } else {
                    deed.registry
                },
                answer: Ok(encode_utf8(response)),
            }
        },
    }
}

/// The outcome of a request: the answer kept for its key, or else what the
/// mutation comes to.
pub open spec fn outcome(before: Registry, key: Option<Text>, deed: Deed) -> Outcome {
    match kept(before.journal, key) {
        Some(response) => Outcome { registry: before, answer: Ok(encode_utf8(response)) },
        None => settled(deed),
    }
}

/// The result, as the library's types view it.
pub open spec fn seen(r: Result<Vec<u8>, RegistryError>) -> Result<Seq<u8>, Failure> {
    match r {
        Ok(bytes) => Ok(bytes@),
        Err(e) => Err(e@),
    }
}

/// Appending keeps the journal sound and advances its head by one.
pub proof fn lemma_appended(journal: Seq<Entry>, note: Note)
    requires
        model::sound_journal(journal),
        append_failure(journal, note.request_key) is None,
    ensures
        model::sound_journal(appended(journal, note)),
        model::generation(appended(journal, note)) == model::generation(journal) + 1,
{
    let u = appended(journal, note);
    let n = journal.len() as int;
    assert forall|i: int| 0 <= i < u.len() implies (#[trigger] u[i]).seq >= 1 by {
        if i < n {
            assert(journal[i].seq >= 1);
        } else if n > 0 {
            assert(journal[n - 1].seq >= 1);
        }
    }
    assert forall|i: int, j: int| 0 <= i < j < u.len() implies (#[trigger] u[i]).seq < (
    #[trigger] u[j]).seq by {
        if j < n {
            assert(journal[i].seq < journal[j].seq);
        } else if i < n - 1 {
            assert(journal[i].seq < journal[n - 1].seq);
        }
    }
    assert forall|i: int, j: int|
        0 <= i < j < u.len() && (#[trigger] u[i]).request_key is Some implies u[i].request_key != (
    #[trigger] u[j]).request_key by {
        if j < n {
            assert(journal[i].request_key != journal[j].request_key);
        } else {
            assert(u[i] == journal[i]);
        }
    }
}

/// Answering keeps the journal sound and its head.
pub proof fn lemma_answered(journal: Seq<Entry>, payload: Text, response: Text)
    requires
        model::sound_journal(journal),
        journal.len() > 0,
    ensures
        model::sound_journal(answered(journal, payload, response)),
        model::generation(answered(journal, payload, response)) == model::generation(journal),
{
    let u = answered(journal, payload, response);
    assert forall|i: int, j: int| 0 <= i < j < u.len() implies (#[trigger] u[i]).seq < (
    #[trigger] u[j]).seq by {
        assert(journal[i].seq < journal[j].seq);
    }
    assert forall|i: int, j: int|
        0 <= i < j < u.len() && (#[trigger] u[i]).request_key is Some implies u[i].request_key != (
    #[trigger] u[j]).request_key by {
        assert(journal[i].request_key != journal[j].request_key);
    }
    assert forall|i: int| 0 <= i < u.len() implies (#[trigger] u[i]).seq >= 1 by {
        assert(journal[i].seq >= 1);
    }
}

/// What a mutation hands to the frame.
pub(crate) struct Action {
    pub(crate) changed: bool,
    pub(crate) fields: Vec<(String, serde_json::Value)>,
    pub(crate) payload: serde_json::Value,
}

impl Action {
    pub open(crate) spec fn view(&self) -> Done {
        Done {
            changed: self.changed,
            fields: json::fields(self.fields@),
            payload: json::value_view(self.payload),
        }
    }
}

/// The action, as the mutation's contract speaks of it.
pub(crate) open spec fn acted(r: Result<Action, RegistryError>) -> Result<Done, Failure> {
    match r {
        Ok(a) => Ok(a.view()),
        Err(e) => Err(e@),
    }
}

impl RegistryStore {
    /// The journal head. A query never changes it.
    pub fn generation(&self) -> (r: i64)
        ensures
            r == self@.generation(),
    {
        let n = self.journal.len();
        if n == 0 {
            0
        } else {
            self.journal[n - 1].seq
        }
    }

    /// The answer kept for a request key.
    pub(crate) fn cached(&self, key: &Option<String>) -> (r: Option<Vec<u8>>)
        ensures
            match r {
                Some(bytes) => kept(self@.journal, text::opt_text(*key)) matches Some(t) && bytes@
                    == encode_utf8(t),
                None => kept(self@.journal, text::opt_text(*key)) is None,
            },
    {
        let wanted = match key {
            Some(k) => k,
            None => return None,
        };
        let ghost all = self@.journal;
        let ghost k = text::opt_text(*key);
        let mut i: usize = 0;
        assert(all.skip(0) =~= all);
        while i < self.journal.len()
            invariant
                all == rows::entries(self.journal@),
                k == text::opt_text(*key),
                k == Some(wanted@),
                i <= self.journal@.len(),
                kept(all, k) == kept(all.skip(i as int), k),
            decreases self.journal@.len() - i,
        {
            assert(all.skip(i as int)[0] == self.journal@[i as int]@);
            assert(all.skip(i as int).drop_first() =~= all.skip(i + 1));
            if let Some(found) = &self.journal[i].request_key {
                if str_eq(found.as_str(), wanted.as_str()) {
                    return match &self.journal[i].response_json {
                        Some(response) => Some(bytes_of(response.as_str())),
                        None => None,
                    };
                }
            }
            i = i + 1;
        }
        None
    }

    fn is_key_taken(&self, key: &Option<String>) -> (r: bool)
        ensures
            r == key_taken(self@.journal, text::opt_text(*key)),
    {
        let wanted = match key {
            Some(k) => k,
            None => return false,
        };
        let ghost all = self@.journal;
        let ghost k = text::opt_text(*key);
        let mut i: usize = 0;
        while i < self.journal.len()
            invariant
                all == rows::entries(self.journal@),
                k == text::opt_text(*key),
                k == Some(wanted@),
                i <= self.journal@.len(),
                forall|j: int| 0 <= j < i ==> (#[trigger] all[j]).request_key != k,
            decreases self.journal@.len() - i,
        {
            assert(all[i as int] == self.journal@[i as int]@);
            if let Some(found) = &self.journal[i].request_key {
                if str_eq(found.as_str(), wanted.as_str()) {
                    return true;
                }
            }
            i = i + 1;
        }
        false
    }

    /// Why no entry with this request key can be appended, where none can.
    pub(crate) fn find_append_complaint(&self, key: &Option<String>) -> (r: Option<String>)
        ensures
            append_failure(self@.journal, text::opt_text(*key)) == match r {
                Some(s) => Some(Failure::Database(s@)),
                None => None,
            },
    {
        if self.generation() == i64::MAX {
            return Some("database or disk is full".to_owned());
        }
        if self.is_key_taken(key) {
            return Some("UNIQUE constraint failed: registry_journal.request_key".to_owned());
        }
        None
    }

    /// Appends a journal entry.
    pub(crate) fn append(
        &mut self,
        op: &str,
        payload: String,
        actor: &str,
        key: &Option<String>,
        now: i64,
        record: JournalRecord,
    ) -> (r: Result<i64, RegistryError>)
        ensures
            match append_failure(old(self)@.journal, text::opt_text(*key)) {
                Some(e) => r matches Err(f) && f@ == e && final(self)@ == old(self)@,
                None => r matches Ok(seq) && seq == old(self)@.generation() + 1 && final(self)@
                    == (Registry {
                    journal: appended(
                        old(self)@.journal,
                        Note {
                            op: op@,
                            payload: payload@,
                            actor: actor@,
                            request_key: text::opt_text(*key),
                            now,
                            record: record@,
                        },
                    ),
                    ..old(self)@
                }),
            },
    {
        if let Some(e) = self.find_append_complaint(key) {
            return Err(RegistryError::Database(e));
        }
        let head: i64 = self.generation();
        let ghost before = self@.journal;
        let seq: i64 = head + 1;
        self.journal.push(
            JournalRow {
                seq,
                op: op.to_owned(),
                payload_json: payload,
                actor: actor.to_owned(),
                request_key: clone_opt(key),
                created_at: now,
                response_json: None,
                record,
            },
        );
        assert(self@.journal =~= appended(
            before,
            Note {
                op: op@,
                payload: payload@,
                actor: actor@,
                request_key: text::opt_text(*key),
                now,
                record: record@,
            },
        ));
        Ok(seq)
    }

    /// Turns what a mutation reports into its answer, and keeps the answer with
    /// the journal entry where something changed.
    pub(crate) fn finish(&mut self, result: Result<Action, RegistryError>) -> (r: Result<
        Vec<u8>,
        RegistryError,
    >)
        requires
            old(self)@.sound(),
            result matches Ok(a) ==> a.changed ==> old(self)@.journal.len() > 0,
        ensures
            (Outcome { registry: final(self)@, answer: seen(r) }) == settled(
                Deed { registry: old(self)@, result: acted(result) },
            ),
            final(self)@.sound(),
            result matches Ok(a) ==> legible(a.view().fields) ==> (r matches Ok(b) && head_in(b@)
                == Some(final(self)@.generation()) && json::json_read(b@) == Some(
                envelope(a.view(), final(self)@.generation()),
            )),
            result matches Ok(a) ==> a.changed && entries::legible(
                old(self)@.journal.last(),
                a.view().payload,
            ) ==> entries::tells(final(self)@.journal.last()),
    {
        let action = match result {
            Ok(a) => a,
            Err(e) => return Err(e),
        };
        let ghost report = action.view();
        let head: i64 = self.generation();
        let mut pairs = action.fields;
        pairs.push(field("generation", int_value(head)));
        pairs.push(field("noop", bool_value(!action.changed)));
        assert(json::fields(pairs@) =~= report.fields + seq![
            ("generation"@, json::int_json(head as int)),
            ("noop"@, Json::Bool(!report.changed)),
        ]);
        let response = compact(&wrap("result", object_value(pairs)));
        let blob = bytes_of(response.as_str());
        proof {
            if legible(report.fields) {
                lemma_head(report, head, blob@);
            }
        }
        if action.changed {
            let ghost before = self@.journal;
            proof {
                lemma_answered(before, json::json_text(report.payload), answer(report, head));
            }
            let last = self.journal.len() - 1;
            self.journal[last].payload_json = compact(&action.payload);
            self.journal[last].response_json = Some(response);
            assert(self@.journal =~= answered(
                before,
                json::json_text(report.payload),
                answer(report, head),
            ));
        }
        Ok(blob)
    }
}

} // verus!
