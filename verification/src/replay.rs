//! Rebuilding the tables from the journal.
use vstd::prelude::*;
use vstd::string::*;

use crate::error::{Failure, RegistryError};
use crate::model::{Entry, Record, Registry, Remove, Tables};
use crate::mutations::upgrade_target;
use crate::request::{JournalRecord, RemoveRequest};
use crate::rows::is_live;
use crate::store::{RegistryStore, TableRows};
use crate::text::{cat, str_eq, Text};
use crate::{effects, model, mutations, register, rows, seed};

verus! {

/// The complaint of a row that refers to a row that is not there.
pub open spec fn missing() -> Text {
    "FOREIGN KEY constraint failed"@
}

/// The complaint that a failure makes of an entry that is replayed.
pub open spec fn complaint(e: Failure) -> Text {
    match e {
        Failure::Database(s) => s,
        _ => e.shown(),
    }
}

/// The tables after a removal is replayed.
pub open spec fn replay_remove(t: Tables, r: Remove, now: i64) -> Result<Tables, Text> {
    match r.workspace_id {
        Some(w) => Ok(t.dissolve(w)),
        None => match r.project_id {
            None => Ok(t),
            Some(id) => if r.successor matches Some(s) && (s == id || !model::live(
                t.projects,
                s,
            )) {
                Err(missing())
            } else {
                Ok(t.withdraw(id, r.successor, now))
            },
        },
    }
}

/// The tables after a journal entry is replayed; else what is wrong with it. What
/// a request did when it was made, it does again.
pub open spec fn replayed(t: Tables, record: Record, now: i64) -> Result<Tables, Text> {
    match record {
        Record::Register(r) => match register::registrant(t, r) {
            Ok(id) => Ok(register::registered(t, r, id, now)),
            Err(e) => Err(complaint(e)),
        },
        Record::Assign(r) => if model::live(t.projects, r.project_id) {
            Ok(mutations::assigned(t, r, now))
        } else {
            Err(missing())
        },
        Record::Upgrade(r) => Ok(mutations::upgraded(t, r, mutations::upgrade_id(r), now)),
        Record::Seed(r) => {
            let p = seed::imported(t, r, now);
            match p.failure {
                None => Ok(p.tables),
                Some(e) => Err(complaint(e)),
            }
        },
        Record::Remove(r) => replay_remove(t, r, now),
        Record::Other => Ok(t),
        Record::Unreadable(e) => Err(e),
    }
}

/// The tables that a journal leads to from none; else what is wrong with the
/// first entry that cannot be replayed.
pub open spec fn replay_all(journal: Seq<Entry>) -> Result<Tables, Text>
    decreases journal.len(),
{
    if journal.len() == 0 {
        Ok(Tables::empty())
    } else {
        match replay_all(journal.drop_last()) {
            Err(e) => Err(e),
            Ok(t) => replayed(t, journal.last().record, journal.last().created_at),
        }
    }
}

/// The tables that a journal leads to from none; else the first entry that cannot
/// be replayed, by its sequence number, and what is wrong with it.
pub open spec fn retold(journal: Seq<Entry>) -> Result<Tables, (i64, Text)>
    decreases journal.len(),
{
    if journal.len() == 0 {
        Ok(Tables::empty())
    } else {
        match retold(journal.drop_last()) {
            Err(e) => Err(e),
            Ok(t) => match replayed(t, journal.last().record, journal.last().created_at) {
                Ok(u) => Ok(u),
                Err(e) => Err((journal.last().seq, e)),
            },
        }
    }
}

/// Retelling a journal is replaying it, and saying where that fails.
pub proof fn lemma_retold(journal: Seq<Entry>)
    ensures
        match retold(journal) {
            Ok(t) => replay_all(journal) == Ok::<Tables, Text>(t) && t.sound(),
            Err((seq, e)) => replay_all(journal) == Err::<Tables, Text>(e) && exists|i: int|
                0 <= i < journal.len() && (#[trigger] journal[i]).seq == seq,
        },
    decreases journal.len(),
{
    if journal.len() == 0 {
        lemma_empty_sound();
    } else {
        let head = journal.drop_last();
        lemma_retold(head);
        match retold(head) {
            Ok(t) => {
                lemma_replayed(t, journal.last().record, journal.last().created_at);
                assert(journal[journal.len() - 1] == journal.last());
            },
            Err((seq, _)) => {
                let i = choose|i: int| 0 <= i < head.len() && (#[trigger] head[i]).seq == seq;
                assert(journal[i].seq == seq);
            },
        }
    }
}

/// Empty tables are sound.
pub proof fn lemma_empty_sound()
    ensures
        Tables::empty().sound(),
{
}

/// Replaying an entry keeps the tables sound.
pub proof fn lemma_replayed(t: Tables, record: Record, now: i64)
    requires
        t.sound(),
    ensures
        replayed(t, record, now) matches Ok(u) ==> u.sound(),
{
    match record {
        Record::Register(r) => {
            if let Ok(id) = register::registrant(t, r) {
                register::lemma_registered(t, r, id, now);
            }
        },
        Record::Assign(r) => {
            if model::live(t.projects, r.project_id) {
                mutations::lemma_assigned(t, r, now);
            }
        },
        Record::Upgrade(r) => {
            mutations::lemma_upgraded(t, r, mutations::upgrade_id(r), now);
        },
        Record::Seed(r) => {
            seed::lemma_imported(t, r, now);
        },
        Record::Remove(r) => {
            if let Some(w) = r.workspace_id {
                effects::lemma_dissolve(t, w);
            } else if let Some(id) = r.project_id {
                if !(r.successor matches Some(s) && (s == id || !model::live(t.projects, s))) {
                    effects::lemma_withdraw(t, id, r.successor, now);
                }
            }
        },
        _ => {},
    }
}

proof fn lemma_retelling_stops(journal: Seq<Entry>, n: int)
    requires
        0 <= n <= journal.len(),
        retold(journal.take(n)) is Err,
    ensures
        retold(journal) == retold(journal.take(n)),
    decreases journal.len(),
{
    if n == journal.len() {
        assert(journal.take(n) =~= journal);
    } else {
        assert(journal.drop_last().take(n) =~= journal.take(n));
        lemma_retelling_stops(journal.drop_last(), n);
    }
}

fn missing_text() -> (r: String)
    ensures
        r@ == missing(),
{
    "FOREIGN KEY constraint failed".to_owned()
}

fn complaint_of(e: RegistryError) -> (r: String)
    ensures
        r@ == complaint(e@),
{
    match e {
        RegistryError::Database(s) => s,
        other => other.to_text(),
    }
}

impl TableRows {
    /// Tables with no rows.
    pub fn new() -> (r: Self)
        ensures
            r@ == Tables::empty(),
    {
        let r = TableRows {
            workspaces: Vec::new(),
            members: Vec::new(),
            projects: Vec::new(),
            placements: Vec::new(),
            roots: Vec::new(),
            parents: Vec::new(),
            aliases: Vec::new(),
        };
        assert(r@ =~= Tables::empty());
        r
    }

    fn replay_remove(&mut self, req: &RemoveRequest, now: i64) -> (r: Result<(), String>)
        ensures
            match replay_remove(old(self)@, req@, now) {
                Ok(u) => r is Ok && final(self)@ == u,
                Err(e) => r matches Err(s) && s@ == e && final(self)@ == old(self)@,
            },
    {
        if let Some(w) = &req.workspace_id {
            self.dissolve(w.as_str());
            return Ok(());
        }
        if let Some(id) = &req.project_id {
            if let Some(s) = &req.successor_project_id {
                if str_eq(s.as_str(), id.as_str()) || !is_live(&self.projects, s.as_str()) {
                    return Err(missing_text());
                }
            }
            self.withdraw(id.as_str(), &req.successor_project_id, now);
        }
        Ok(())
    }

    /// Replays a journal entry. Where that fails, nothing changes.
    pub fn replay(&mut self, record: &JournalRecord, now: i64) -> (r: Result<(), String>)
        requires
            old(self)@.sound(),
        ensures
            match replayed(old(self)@, record@, now) {
                Ok(u) => r is Ok && final(self)@ == u,
                Err(e) => r matches Err(s) && s@ == e && final(self)@ == old(self)@,
            },
    {
        match record {
            JournalRecord::Register(req) => match self.registrant(req) {
                Ok(id) => {
                    self.register_as(req, id.as_str(), now);
                    Ok(())
                },
                Err(e) => Err(complaint_of(e)),
            },
            JournalRecord::AssignWorkspace(req) => {
                if !is_live(&self.projects, req.project_id.as_str()) {
                    return Err(missing_text());
                }
                self.assign(req, now);
                Ok(())
            },
            JournalRecord::UpgradeImplicit(req) => {
                let id = upgrade_target(req);
                self.upgrade(req, id.as_str(), now);
                Ok(())
            },
            JournalRecord::SeedImport(req) => {
                let mut next = self.copy();
                let (_, _, failure) = next.import(req, now);
                match failure {
                    None => {
                        *self = next;
                        Ok(())
                    },
                    Some(e) => Err(complaint_of(e)),
                }
            },
            JournalRecord::Remove(req) => self.replay_remove(req, now),
            JournalRecord::Other => Ok(()),
            JournalRecord::Unreadable(e) => Err(e.clone()),
        }
    }
}

impl RegistryStore {
    /// The tables that the journal leads to from none; else the sequence number of
    /// the first entry that cannot be replayed, and what is wrong with it.
    pub(crate) fn retell(&self) -> (r: Result<TableRows, (i64, String)>)
        requires
            self@.sound(),
        ensures
            match retold(self@.journal) {
                Ok(t) => r matches Ok(tables) && tables@ == t && t.sound(),
                Err((seq, e)) => r matches Err(f) && f.0 == seq && f.1@ == e && seq >= 1,
            },
    {
        let ghost all = self@.journal;
        let mut tables = TableRows::new();
        let mut i: usize = 0;
        assert(all.take(0) =~= Seq::empty());
        proof {
            lemma_empty_sound();
        }
        while i < self.journal.len()
            invariant
                all == rows::entries(self.journal@),
                all == self@.journal,
                model::sound_journal(all),
                i <= self.journal@.len(),
                retold(all.take(i as int)) == Ok::<Tables, (i64, Text)>(tables@),
                tables@.sound(),
            decreases self.journal@.len() - i,
        {
            assert(all.take(i + 1).drop_last() =~= all.take(i as int));
            assert(all.take(i + 1).last() == self.journal@[i as int]@);
            assert(all[i as int] == self.journal@[i as int]@);
            proof {
                lemma_replayed(
                    tables@,
                    self.journal@[i as int].record@,
                    self.journal@[i as int].created_at,
                );
            }
            match tables.replay(&self.journal[i].record, self.journal[i].created_at) {
                Ok(()) => {},
                Err(e) => {
                    proof {
                        lemma_retelling_stops(all, i + 1);
                    }
                    return Err((self.journal[i].seq, e));
                },
            }
            i = i + 1;
        }
        assert(all.take(i as int) =~= all);
        Ok(tables)
    }

    /// Rebuilds the tables from the journal, and returns the journal head.
    /// Where an entry cannot be replayed, nothing changes.
    pub fn rebuild(&mut self) -> (r: Result<i64, RegistryError>)
        requires
            old(self)@.sound(),
        ensures
            match replay_all(old(self)@.journal) {
                Ok(t) => r matches Ok(g) && g == old(self)@.generation() && final(self)@ == (
                Registry { tables: t, ..old(self)@ }),
                Err(e) => r matches Err(f) && f@ == Failure::Store("storage backend: "@ + e)
                    && final(self)@ == old(self)@,
            },
            final(self)@.sound(),
    {
        proof {
            lemma_retold(self@.journal);
        }
        match self.retell() {
            Ok(tables) => {
                self.tables = tables;
                Ok(self.generation())
            },
            Err((_, e)) => Err(RegistryError::Store(cat("storage backend: ", e.as_str()))),
        }
    }
}

} // verus!
