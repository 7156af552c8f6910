//! What the module measures of itself.
use vstd::prelude::*;
use vstd::string::*;

use crate::json::{bool_value, count_value, field, int_value, object_value, Json};
use crate::liveness::Ingested;
use crate::{json, text};

verus! {

/// What the module measures of itself.
#[derive(Debug, Clone, Copy)]
pub struct HealthGauges {
    pub store_ready: bool,
    pub store_failed: bool,
    pub generation: i64,
    pub resolve_count: u64,
    pub enumerate_count: u64,
    pub journal_tail_count: u64,
    pub last_operation_ms: i64,
    pub liveness_batches: u64,
    pub liveness_gaps: u64,
    pub liveness_sessions: u64,
}

/// Which counter a query counts in.
#[derive(Debug, Clone, Copy, PartialEq, Eq, Structural)]
pub enum Counter {
    Resolve,
    Enumerate,
    JournalTail,
}

/// What there is to record of a request that succeeded.
#[derive(Debug, Clone, Copy, PartialEq, Eq, Structural)]
pub enum Recording {
    /// A query, with the journal head it saw.
    Query(Counter, i64),
    /// A mutation, with the journal head that its answer gives.
    Mutation(Option<i64>),
    /// Nothing.
    Nothing,
}

/// A counter that goes up by one; it wraps around.
pub open spec fn counted(n: u64) -> u64 {
    if n == u64::MAX {
        0
    } else {
        (n + 1) as u64
    }
}

/// The gauges after a request that succeeded.
pub open spec fn recorded(g: HealthGauges, what: Recording, now: i64) -> HealthGauges {
    match what {
        Recording::Query(counter, generation) => HealthGauges {
            generation,
            last_operation_ms: now,
            resolve_count: if counter == Counter::Resolve {
                counted(g.resolve_count)
            } else {
                g.resolve_count
            },
            enumerate_count: if counter == Counter::Enumerate {
                counted(g.enumerate_count)
            } else {
                g.enumerate_count
            },
            journal_tail_count: if counter == Counter::JournalTail {
                counted(g.journal_tail_count)
            } else {
                g.journal_tail_count
            },
            ..g
        },
        Recording::Mutation(generation) => HealthGauges {
            generation: match generation {
                Some(n) => n,
                None => g.generation,
            },
            last_operation_ms: now,
            ..g
        },
        Recording::Nothing => g,
    }
}

/// What the module says of its health.
#[derive(Debug)]
pub struct Health {
    pub failing: bool,
    pub detail: Option<String>,
    pub metrics: serde_json::Value,
}

/// The gauges after a batch of sessions.
pub open spec fn batched(g: HealthGauges, gap: bool, count: u64) -> HealthGauges {
    HealthGauges {
        liveness_batches: counted(g.liveness_batches),
        liveness_gaps: if gap {
            counted(g.liveness_gaps)
        } else {
            g.liveness_gaps
        },
        liveness_sessions: count,
        ..g
    }
}

/// Whether the module fails: its store is not ready.
pub open spec fn failing(g: HealthGauges) -> bool {
    g.store_failed || !g.store_ready
}

/// What the module says in numbers.
pub open spec fn metrics(g: HealthGauges) -> Json {
    json::object(
        seq![
            ("storeReady"@, Json::Bool(g.store_ready)),
            ("generation"@, json::int_json(g.generation as int)),
            ("resolveCount"@, json::int_json(g.resolve_count as int)),
            ("enumerateCount"@, json::int_json(g.enumerate_count as int)),
            ("journalTailCount"@, json::int_json(g.journal_tail_count as int)),
            ("lastOperationMs"@, json::int_json(g.last_operation_ms as int)),
            ("livenessBatches"@, json::int_json(g.liveness_batches as int)),
            ("livenessGaps"@, json::int_json(g.liveness_gaps as int)),
            ("livenessSessions"@, json::int_json(g.liveness_sessions as int)),
        ],
    )
}

impl HealthGauges {
    /// Nothing measured, and no store yet.
    pub fn new() -> (r: Self)
        ensures
            r == (HealthGauges {
                store_ready: false,
                store_failed: false,
                generation: 0,
                resolve_count: 0,
                enumerate_count: 0,
                journal_tail_count: 0,
                last_operation_ms: 0,
                liveness_batches: 0,
                liveness_gaps: 0,
                liveness_sessions: 0,
            }),
    {
        HealthGauges {
            store_ready: false,
            store_failed: false,
            generation: 0,
            resolve_count: 0,
            enumerate_count: 0,
            journal_tail_count: 0,
            last_operation_ms: 0,
            liveness_batches: 0,
            liveness_gaps: 0,
            liveness_sessions: 0,
        }
    }

    /// The store was opened, at this journal head.
    pub fn store_opened(&mut self, generation: i64)
        ensures
            *final(self) == (HealthGauges {
                store_ready: true,
                store_failed: false,
                generation,
                ..*old(self)
            }),
    {
        self.generation = generation;
        self.store_ready = true;
        self.store_failed = false;
    }

    /// The store could not be opened.
    pub fn store_lost(&mut self)
        ensures
            *final(self) == (HealthGauges { store_ready: false, store_failed: true, ..*old(self) }),
    {
        self.store_ready = false;
        self.store_failed = true;
    }

    /// Records a request that succeeded.
    pub fn record(&mut self, what: Recording, now: i64)
        ensures
            *final(self) == recorded(*old(self), what, now),
    {
        match what {
            Recording::Query(counter, generation) => {
                self.generation = generation;
                self.last_operation_ms = now;
                match counter {
                    Counter::Resolve => {
                        self.resolve_count = self.resolve_count.wrapping_add(1);
                    },
                    Counter::Enumerate => {
                        self.enumerate_count = self.enumerate_count.wrapping_add(1);
                    },
                    Counter::JournalTail => {
                        self.journal_tail_count = self.journal_tail_count.wrapping_add(1);
                    },
                }
            },
            Recording::Mutation(generation) => {
                if let Some(n) = generation {
                    self.generation = n;
                }
                self.last_operation_ms = now;
            },
            Recording::Nothing => {},
        }
    }

    /// Records a batch of sessions.
    pub fn record_batch(&mut self, batch: &Ingested)
        ensures
            *final(self) == (HealthGauges {
                liveness_batches: counted(old(self).liveness_batches),
                liveness_gaps: if batch.gap {
                    counted(old(self).liveness_gaps)
                } else {
                    old(self).liveness_gaps
                },
                liveness_sessions: batch.count,
                ..*old(self)
            }),
            *final(self) == batched(*old(self), batch.gap, batch.count),
    {
        if batch.gap {
            self.liveness_gaps = self.liveness_gaps.wrapping_add(1);
        }
        self.liveness_batches = self.liveness_batches.wrapping_add(1);
        self.liveness_sessions = batch.count;
    }

    /// What the module says of its health. It fails where the store is not
    /// ready.
    pub fn health(&self) -> (r: Health)
        ensures
            r.failing == (self.store_failed || !self.store_ready),
            r.failing == failing(*self),
            text::opt_text(r.detail) == (if self.store_ready {
                None
            } else {
                Some("projects storage is not ready"@)
            }),
            json::value_view(r.metrics) == metrics(*self),
    {
        let mut p: Vec<(String, serde_json::Value)> = Vec::new();
        p.push(field("storeReady", bool_value(self.store_ready)));
        p.push(field("generation", int_value(self.generation)));
        p.push(field("resolveCount", count_value(self.resolve_count)));
        p.push(field("enumerateCount", count_value(self.enumerate_count)));
        p.push(field("journalTailCount", count_value(self.journal_tail_count)));
        p.push(field("lastOperationMs", int_value(self.last_operation_ms)));
        p.push(field("livenessBatches", count_value(self.liveness_batches)));
        p.push(field("livenessGaps", count_value(self.liveness_gaps)));
        p.push(field("livenessSessions", count_value(self.liveness_sessions)));
        let ghost g = *self;
        assert(json::fields(p@) =~= seq![
            ("storeReady"@, Json::Bool(g.store_ready)),
            ("generation"@, json::int_json(g.generation as int)),
            ("resolveCount"@, json::int_json(g.resolve_count as int)),
            ("enumerateCount"@, json::int_json(g.enumerate_count as int)),
            ("journalTailCount"@, json::int_json(g.journal_tail_count as int)),
            ("lastOperationMs"@, json::int_json(g.last_operation_ms as int)),
            ("livenessBatches"@, json::int_json(g.liveness_batches as int)),
            ("livenessGaps"@, json::int_json(g.liveness_gaps as int)),
            ("livenessSessions"@, json::int_json(g.liveness_sessions as int)),
        ]);
        Health {
            failing: self.store_failed || !self.store_ready,
            detail: if self.store_ready {
                None
            } else {
                Some("projects storage is not ready".to_owned())
            },
            metrics: object_value(p),
        }
    }
}

} // verus!
