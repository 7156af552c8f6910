//! Which sessions are alive, as their emitter tells it. Nothing of this is
//! journaled: a wrong, late or absent feed cannot harm the registry.
use vstd::prelude::*;
use vstd::string::*;
use vstd::utf8::*;

use crate::json::{bool_value, compact, count_value, field, object_value, wrap, Json};
use crate::paths::trim_slashes;
use crate::queries::{EnumerateReply, Listing, Shown};
use crate::text::{bytes_of, cat, starts_with, str_eq, Text};
use crate::{json, paths, text, upkeep};

verus! {

/// A session as a batch tells it.
#[derive(Debug, Clone)]
pub struct LivenessSession {
    pub session_id: String,
    pub canonical_root: String,
    pub state: String,
    pub last_activity_ms: i64,
}

/// A batch of sessions. A snapshot replaces everything before it.
#[derive(Debug, Clone)]
pub struct LivenessBatch {
    pub seq: u64,
    pub snapshot: bool,
    pub sessions: Vec<LivenessSession>,
}

/// What is known of a live session.
pub struct Live {
    pub state: Text,
    pub root: Text,
    pub activity: i64,
}

/// A session as a batch tells it.
pub struct Report {
    pub id: Text,
    pub live: Live,
}

/// What a [`LivenessBatch`] says.
pub struct Batch {
    pub seq: u64,
    pub snapshot: bool,
    pub sessions: Seq<Report>,
}

impl View for LivenessSession {
    type V = Report;

    open spec fn view(&self) -> Report {
        Report {
            id: self.session_id@,
            live: Live {
                state: self.state@,
                root: self.canonical_root@,
                activity: self.last_activity_ms,
            },
        }
    }
}

/// The sessions in a vector.
pub open spec fn reports(v: Seq<LivenessSession>) -> Seq<Report> {
    v.map_values(|s: LivenessSession| s@)
}

impl View for LivenessBatch {
    type V = Batch;

    open spec fn view(&self) -> Batch {
        Batch { seq: self.seq, snapshot: self.snapshot, sessions: reports(self.sessions@) }
    }
}

/// The sessions that reports tell of; of two on one session the later counts.
pub open spec fn session_map(all: Seq<Report>) -> Map<Text, Live>
    decreases all.len(),
{
    if all.len() == 0 {
        Map::empty()
    } else {
        session_map(all.drop_last()).insert(all.last().id, all.last().live)
    }
}

/// What is known of the sessions.
pub struct Liveness {
    /// The number of the last batch; none before the first.
    pub last_seq: Option<u64>,
    /// Whether a batch was missed and no snapshot came since.
    pub stale: bool,
    pub sessions: Map<Text, Live>,
}

/// What is known of the sessions. Each is held once.
#[derive(Debug)]
pub struct LivenessState {
    last_seq: Option<u64>,
    stale: bool,
    sessions: Vec<LivenessSession>,
}

impl View for LivenessState {
    type V = Liveness;

    closed spec fn view(&self) -> Liveness {
        Liveness {
            last_seq: self.last_seq,
            stale: self.stale,
            sessions: session_map(reports(self.sessions@)),
        }
    }
}

/// Each session at most once.
pub open spec fn unique_reports(all: Seq<Report>) -> bool {
    forall|i: int, j: int| 0 <= i < j < all.len() ==> (#[trigger] all[i]).id != (#[trigger] all[j]).id
}

/// The number that follows; it wraps around.
pub open spec fn next_seq(seq: u64) -> u64 {
    if seq == u64::MAX {
        0
    } else {
        (seq + 1) as u64
    }
}

/// Whether a batch shows that one before it was missed.
pub open spec fn shows_gap(l: Liveness, batch: Batch) -> bool {
    !batch.snapshot && l.last_seq is Some && batch.seq != next_seq(l.last_seq.unwrap())
}

/// The sessions after reports: one that is gone is dropped, any other is set.
pub open spec fn absorbed(sessions: Map<Text, Live>, news: Seq<Report>) -> Map<Text, Live>
    decreases news.len(),
{
    if news.len() == 0 {
        sessions
    } else {
        let head = absorbed(sessions, news.drop_last());
        if news.last().live.state == "gone"@ {
            head.remove(news.last().id)
        } else {
            head.insert(news.last().id, news.last().live)
        }
    }
}

/// What is known after a batch. Staleness is a latch: only a snapshot ends it.
pub open spec fn after_batch(l: Liveness, batch: Batch) -> Liveness {
    Liveness {
        last_seq: Some(batch.seq),
        stale: !batch.snapshot && (l.stale || shows_gap(l, batch)),
        sessions: absorbed(
            if batch.snapshot {
                Map::empty()
            } else {
                l.sessions
            },
            batch.sessions,
        ),
    }
}

/// What a batch is answered.
pub open spec fn batch_answer(after: Liveness) -> Text {
    json::json_text(
        json::object(
            seq![
                (
                    "result"@,
                    json::object(
                        seq![
                            ("accepted"@, Json::Bool(true)),
                            ("snapshotRequested"@, Json::Bool(after.stale)),
                            ("tracked"@, json::int_json(after.sessions.len() as int)),
                        ],
                    ),
                ),
            ],
        ),
    )
}

/// Whether a session's root lies in a project's root.
pub open spec fn lies_in(root: Text, project_root: Text) -> bool {
    root == project_root || text::begins_with(root, paths::trimmed(project_root) + "/"@)
}

/// Whether a session's root lies in one of a project's roots.
pub open spec fn touches(live: Live, roots: Seq<Text>) -> bool {
    exists|i: int| 0 <= i < roots.len() && lies_in(live.root, #[trigger] roots[i])
}

/// Whether a session is alive in a project.
pub open spec fn alive_in(sessions: Map<Text, Live>, id: Text, roots: Seq<Text>) -> bool {
    sessions.contains_key(id) && touches(sessions[id], roots)
}

/// Whether this is the newest activity of the sessions alive in a project.
pub open spec fn is_newest(sessions: Map<Text, Live>, roots: Seq<Text>, activity: i64) -> bool {
    &&& exists|id: Text| #[trigger]
        alive_in(sessions, id, roots) && sessions[id].activity == activity
    &&& forall|id: Text| #[trigger]
        alive_in(sessions, id, roots) ==> sessions[id].activity <= activity
}

/// The newest activity of the sessions alive in a project; none where none is.
pub open spec fn newest(sessions: Map<Text, Live>, roots: Seq<Text>) -> Option<i64> {
    if exists|id: Text| alive_in(sessions, id, roots) {
        Some(choose|activity: i64| is_newest(sessions, roots, activity))
    } else {
        None
    }
}

/// An enumeration with the activity of each project. Where no session is known
/// it stays as it is.
pub open spec fn annotated(sessions: Map<Text, Live>, l: Listing) -> Listing {
    if sessions.len() == 0 {
        l
    } else {
        Listing {
            projects: l.projects.map_values(
                |p: Shown| Shown { activity: newest(sessions, p.roots), ..p },
            ),
            ..l
        }
    }
}

/// There is one newest activity.
pub proof fn lemma_newest(sessions: Map<Text, Live>, roots: Seq<Text>, activity: i64)
    requires
        is_newest(sessions, roots, activity),
    ensures
        newest(sessions, roots) == Some(activity),
{
    let id = choose|id: Text| #[trigger]
        alive_in(sessions, id, roots) && sessions[id].activity == activity;
    assert(alive_in(sessions, id, roots));
    let other = choose|other: i64| is_newest(sessions, roots, other);
    assert(is_newest(sessions, roots, other));
    let oid = choose|oid: Text| #[trigger]
        alive_in(sessions, oid, roots) && sessions[oid].activity == other;
    assert(alive_in(sessions, oid, roots));
}

proof fn lemma_map_filter(all: Seq<Report>, gone: Text)
    ensures
        session_map(all.filter(|r: Report| r.id != gone)) == session_map(all).remove(gone),
    decreases all.len(),
{
    let keep = |r: Report| r.id != gone;
    reveal(Seq::filter);
    if all.len() == 0 {
        assert(all.filter(keep) =~= all);
        assert(session_map(all).remove(gone) =~= session_map(all));
    } else {
        lemma_map_filter(all.drop_last(), gone);
        let head = all.drop_last().filter(keep);
        if keep(all.last()) {
            assert(all.filter(keep) == head.push(all.last()));
            assert(head.push(all.last()).drop_last() =~= head);
            assert(session_map(all.filter(keep)) =~= session_map(all).remove(gone));
        } else {
            assert(all.filter(keep) == head);
            assert(session_map(all).remove(gone) =~= session_map(all.drop_last()).remove(gone));
        }
    }
}

proof fn lemma_map_domain(all: Seq<Report>, id: Text)
    ensures
        session_map(all).contains_key(id) <==> exists|i: int|
            0 <= i < all.len() && (#[trigger] all[i]).id == id,
        session_map(all).dom().finite(),
        unique_reports(all) ==> session_map(all).len() == all.len(),
        unique_reports(all) ==> forall|i: int|
            0 <= i < all.len() && (#[trigger] all[i]).id == id ==> session_map(all)[id]
                == all[i].live,
    decreases all.len(),
{
    if all.len() > 0 {
        let head = all.drop_last();
        lemma_map_domain(head, id);
        lemma_map_domain(head, all.last().id);
        if exists|i: int| 0 <= i < all.len() && (#[trigger] all[i]).id == id {
            let i = choose|i: int| 0 <= i < all.len() && (#[trigger] all[i]).id == id;
            if i < head.len() {
                assert(head[i].id == id);
            }
        }
        if exists|i: int| 0 <= i < head.len() && (#[trigger] head[i]).id == id {
            let i = choose|i: int| 0 <= i < head.len() && (#[trigger] head[i]).id == id;
            assert(all[i].id == id);
        }
        if all.last().id == id {
            assert(all[all.len() - 1].id == id);
        }
        if unique_reports(all) {
            assert forall|i: int, j: int| 0 <= i < j < head.len() implies (#[trigger] head[i]).id
                != (#[trigger] head[j]).id by {
                assert(all[i].id != all[j].id);
            }
            if session_map(head).contains_key(all.last().id) {
                let i = choose|i: int|
                    0 <= i < head.len() && (#[trigger] head[i]).id == all.last().id;
                assert(all[i].id != all[all.len() - 1].id);
            }
            assert forall|i: int| 0 <= i < all.len() && (#[trigger] all[i]).id == id implies session_map(
                all,
            )[id] == all[i].live by {
                if i < head.len() {
                    assert(head[i].id == id);
                    assert(all[i].id != all[all.len() - 1].id);
                }
            }
        }
    }
}

impl LivenessSession {
    /// A copy of the session.
    pub fn copy(&self) -> (r: Self)
        ensures
            r@ == self@,
    {
        LivenessSession {
            session_id: self.session_id.clone(),
            canonical_root: self.canonical_root.clone(),
            state: self.state.clone(),
            last_activity_ms: self.last_activity_ms,
        }
    }
}

fn drop_session(v: &Vec<LivenessSession>, id: &str) -> (r: Vec<LivenessSession>)
    requires
        unique_reports(reports(v@)),
    ensures
        session_map(reports(r@)) == session_map(reports(v@)).remove(id@),
        unique_reports(reports(r@)),
{
    let ghost all = reports(v@);
    let ghost keep = |r: Report| r.id != id@;
    let mut out: Vec<LivenessSession> = Vec::new();
    let mut i: usize = 0;
    assert(reports(out@) =~= all.take(0).filter(keep)) by {
        reveal(Seq::filter);
    }
    while i < v.len()
        invariant
            all == reports(v@),
            keep == (|r: Report| r.id != id@),
            i <= v@.len(),
            reports(out@) == all.take(i as int).filter(keep),
        decreases v@.len() - i,
    {
        let ghost before = reports(out@);
        assert(all.take(i + 1).drop_last() =~= all.take(i as int));
        assert(all.take(i + 1).last() == v@[i as int]@);
        assert(all.take(i + 1).filter(keep) == if keep(v@[i as int]@) {
            before.push(v@[i as int]@)
        } else {
            before
        }) by {
            reveal(Seq::filter);
        }
        if !str_eq(v[i].session_id.as_str(), id) {
            out.push(v[i].copy());
            assert(reports(out@) =~= before.push(v@[i as int]@));
        }
        i = i + 1;
    }
    assert(all.take(i as int) =~= all);
    proof {
        lemma_map_filter(all, id@);
        upkeep::lemma_filter(all, keep);
        let f = all.filter(keep);
        assert forall|a: int, b: int| 0 <= a < b < f.len() implies (#[trigger] f[a]).id != (
        #[trigger] f[b]).id by {
            let (x, y) = choose|x: int, y: int|
                #![trigger all[x], all[y]]
                0 <= x < y < all.len() && all[x] == f[a] && all[y] == f[b];
            assert(all[x].id != all[y].id);
        }
    }
    out
}

fn set_session(v: &Vec<LivenessSession>, s: &LivenessSession) -> (r: Vec<LivenessSession>)
    requires
        unique_reports(reports(v@)),
    ensures
        session_map(reports(r@)) == session_map(reports(v@)).insert(s@.id, s@.live),
        unique_reports(reports(r@)),
{
    let mut out = drop_session(v, s.session_id.as_str());
    let ghost left = reports(out@);
    out.push(s.copy());
    proof {
        let all = reports(out@);
        assert(all =~= left.push(s@));
        assert(all.drop_last() =~= left);
        lemma_map_domain(left, s@.id);
        assert(session_map(all) =~= session_map(reports(v@)).insert(s@.id, s@.live));
        assert forall|a: int, b: int| 0 <= a < b < all.len() implies (#[trigger] all[a]).id != (
        #[trigger] all[b]).id by {
            if b < left.len() {
                assert(left[a].id != left[b].id);
            } else {
                assert(all[a] == left[a]);
                if left[a].id == s@.id {
                    assert(session_map(left).contains_key(s@.id));
                }
            }
        }
    }
    out
}

/// What came of a batch.
#[derive(Debug)]
pub struct Ingested {
    /// The answer, as it goes over the wire.
    pub reply: Vec<u8>,
    /// Whether a missed batch showed.
    pub gap: bool,
    /// How many sessions are known now.
    pub count: u64,
}

fn is_within(root: &str, roots: &Vec<String>) -> (r: bool)
    ensures
        forall|live: Live| live.root == root@ ==> r == #[trigger] touches(live, text::texts(roots@)),
{
    let ghost all = text::texts(roots@);
    let mut i: usize = 0;
    while i < roots.len()
        invariant
            all == text::texts(roots@),
            i <= roots@.len(),
            forall|j: int| 0 <= j < i ==> !lies_in(root@, #[trigger] all[j]),
        decreases roots@.len() - i,
    {
        assert(all[i as int] == roots@[i as int]@);
        let inside = cat(trim_slashes(roots[i].as_str()).as_str(), "/");
        if str_eq(root, roots[i].as_str()) || starts_with(root, inside.as_str()) {
            assert(lies_in(root@, all[i as int]));
            return true;
        }
        i = i + 1;
    }
    false
}

impl LivenessState {
    /// Each session is held once.
    pub closed spec fn wf(self) -> bool {
        unique_reports(reports(self.sessions@))
    }

    /// Nothing known yet.
    pub fn new() -> (r: Self)
        ensures
            r@ == (Liveness { last_seq: None, stale: false, sessions: Map::empty() }),
            r.wf(),
    {
        LivenessState { last_seq: None, stale: false, sessions: Vec::new() }
    }

    /// Takes in a batch. One that shows a gap makes what is known stale until a
    /// snapshot comes; the answer asks for a snapshot as long as that lasts.
    pub fn ingest(&mut self, batch: &LivenessBatch) -> (r: Ingested)
        requires
            old(self).wf(),
        ensures
            final(self)@ == after_batch(old(self)@, batch@),
            final(self).wf(),
            r.gap == shows_gap(old(self)@, batch@),
            r.count == final(self)@.sessions.len(),
            r.reply@ == encode_utf8(batch_answer(final(self)@)),
    {
        let ghost before = self@;
        let mut gap = false;
        if batch.snapshot {
            self.sessions = Vec::new();
            self.stale = false;
            assert(session_map(reports(self.sessions@)) =~= Map::empty());
        } else if let Some(last) = self.last_seq {
            if batch.seq != last.wrapping_add(1) {
                self.stale = true;
                gap = true;
            }
        }
        self.last_seq = Some(batch.seq);
        let ghost start = self@.sessions;
        let ghost news = reports(batch.sessions@);
        let mut i: usize = 0;
        assert(news.take(0) =~= Seq::empty());
        while i < batch.sessions.len()
            invariant
                news == reports(batch.sessions@),
                i <= batch.sessions@.len(),
                self.wf(),
                self@.sessions == absorbed(start, news.take(i as int)),
                self.last_seq == Some(batch.seq),
                self.stale == (!batch@.snapshot && (before.stale || shows_gap(before, batch@))),
            decreases batch.sessions@.len() - i,
        {
            assert(news.take(i + 1).drop_last() =~= news.take(i as int));
            assert(news.take(i + 1).last() == batch.sessions@[i as int]@);
            let s = &batch.sessions[i];
            if str_eq(s.state.as_str(), "gone") {
                self.sessions = drop_session(&self.sessions, s.session_id.as_str());
            } else {
                self.sessions = set_session(&self.sessions, s);
            }
            i = i + 1;
        }
        assert(news.take(i as int) =~= news);
        proof {
            lemma_map_domain(reports(self.sessions@), Seq::empty());
        }
        let count = self.sessions.len() as u64;
        let mut p: Vec<(String, serde_json::Value)> = Vec::new();
        p.push(field("accepted", bool_value(true)));
        p.push(field("snapshotRequested", bool_value(self.stale)));
        p.push(field("tracked", count_value(count)));
        assert(json::fields(p@) =~= seq![
            ("accepted"@, Json::Bool(true)),
            ("snapshotRequested"@, Json::Bool(self@.stale)),
            ("tracked"@, json::int_json(self@.sessions.len() as int)),
        ]);
        let reply = bytes_of(compact(&wrap("result", object_value(p))).as_str());
        Ingested { reply, gap, count }
    }

    fn newest_activity(&self, roots: &Vec<String>) -> (r: Option<i64>)
        requires
            self.wf(),
        ensures
            r == newest(self@.sessions, text::texts(roots@)),
    {
        let ghost all = reports(self.sessions@);
        let ghost m = self@.sessions;
        let ghost rs = text::texts(roots@);
        let mut best: Option<usize> = None;
        let mut i: usize = 0;
        while i < self.sessions.len()
            invariant
                all == reports(self.sessions@),
                rs == text::texts(roots@),
                i <= all.len(),
                match best {
                    None => forall|j: int| 0 <= j < i ==> !touches((#[trigger] all[j]).live, rs),
                    Some(b) => b < i && touches(all[b as int].live, rs) && forall|j: int|
                        0 <= j < i && touches((#[trigger] all[j]).live, rs)
                            ==> all[j].live.activity <= all[b as int].live.activity,
                },
            decreases all.len() - i,
        {
            assert(all[i as int] == self.sessions@[i as int]@);
            let s = &self.sessions[i];
            let inside = is_within(s.canonical_root.as_str(), roots);
            assert(inside == touches(all[i as int].live, rs));
            if inside {
                match best {
                    None => {
                        best = Some(i);
                    },
                    Some(b) => {
                        assert(all[b as int] == self.sessions@[b as int]@);
                        if s.last_activity_ms > self.sessions[b].last_activity_ms {
                            best = Some(i);
                        }
                    },
                }
            }
            i = i + 1;
        }
        match best {
            None => {
                proof {
                    assert forall|id: Text| !#[trigger] alive_in(m, id, rs) by {
                        lemma_map_domain(all, id);
                        if m.contains_key(id) {
                            let j = choose|j: int| 0 <= j < all.len() && (#[trigger] all[j]).id == id;
                            assert(m[id] == all[j].live);
                        }
                    }
                }
                None
            },
            Some(b) => {
                proof {
                    let id = all[b as int].id;
                    lemma_map_domain(all, id);
                    assert(m[id] == all[b as int].live);
                    assert(alive_in(m, id, rs));
                    assert forall|other: Text| #[trigger] alive_in(m, other, rs) implies m[other].activity
                        <= all[b as int].live.activity by {
                        lemma_map_domain(all, other);
                        let j = choose|j: int| 0 <= j < all.len() && (#[trigger] all[j]).id == other;
                        assert(m[other] == all[j].live);
                    }
                    assert(is_newest(m, rs, all[b as int].live.activity));
                    lemma_newest(m, rs, all[b as int].live.activity);
                    assert(all[b as int] == self.sessions@[b as int]@);
                }
                Some(self.sessions[b].last_activity_ms)
            },
        }
    }

    /// Tells an enumeration the newest activity in each project.
    pub fn annotate(&self, reply: &mut EnumerateReply)
        requires
            self.wf(),
        ensures
            final(reply)@ == annotated(self@.sessions, old(reply)@),
    {
        proof {
            lemma_map_domain(reports(self.sessions@), Seq::empty());
        }
        if self.sessions.len() == 0 {
            return;
        }
        let ghost before = reply@;
        let mut i: usize = 0;
        while i < reply.projects.len()
            invariant
                self.wf(),
                reply@.workspaces == before.workspaces,
                reply.generation == before.generation,
                reply@.projects.len() == before.projects.len(),
                i <= reply.projects@.len(),
                forall|j: int|
                    0 <= j < i ==> #[trigger] reply@.projects[j] == (Shown {
                        activity: newest(self@.sessions, before.projects[j].roots),
                        ..before.projects[j]
                    }),
                forall|j: int|
                    i <= j < before.projects.len() ==> #[trigger] reply@.projects[j]
                        == before.projects[j],
            decreases reply.projects@.len() - i,
        {
            let ghost mid = reply@;
            assert(mid.projects[i as int] == reply.projects@[i as int]@);
            let activity = self.newest_activity(&reply.projects[i].roots);
            reply.projects[i].last_route_activity_ms = activity;
            assert(reply@.projects =~= mid.projects.update(
                i as int,
                Shown { activity, ..mid.projects[i as int] },
            ));
            i = i + 1;
        }
        assert(reply@.projects =~= annotated(self@.sessions, before).projects);
    }
}

/// Staleness is a latch: from a gap on every answer asks for a snapshot, until a
/// batch that is one.
pub proof fn law_staleness_is_a_latch(l: Liveness, batch: Batch)
    ensures
        after_batch(l, batch).stale <==> !batch.snapshot && (l.stale || shows_gap(l, batch)),
        batch.snapshot ==> !after_batch(l, batch).stale && after_batch(l, batch).sessions
            == absorbed(Map::empty(), batch.sessions),
{
}

/// Batches that follow on one another show no gap, and a first batch shows none.
pub proof fn law_consecutive_batches_show_no_gap(l: Liveness, first: Batch, second: Batch)
    requires
        second.seq == next_seq(first.seq),
    ensures
        !shows_gap(after_batch(l, first), second),
        l.last_seq is None ==> !shows_gap(l, first),
{
}

proof fn lemma_gone_stays_gone(sessions: Map<Text, Live>, news: Seq<Report>, i: int)
    requires
        0 <= i < news.len(),
        news[i].live.state == "gone"@,
        forall|j: int| i < j < news.len() ==> (#[trigger] news[j]).id != news[i].id,
    ensures
        !absorbed(sessions, news).contains_key(news[i].id),
    decreases news.len(),
{
    if i < news.len() - 1 {
        let head = news.drop_last();
        assert(news[news.len() - 1].id != news[i].id);
        assert forall|j: int| i < j < head.len() implies (#[trigger] head[j]).id != head[i].id by {
            assert(news[j].id != news[i].id);
        }
        lemma_gone_stays_gone(sessions, head, i);
    }
}

/// A session that a batch tells is gone is no longer known, whatever was known
/// of it, if nothing later in the batch brings it back.
pub proof fn law_gone_sessions_are_dropped(l: Liveness, batch: Batch, i: int)
    requires
        0 <= i < batch.sessions.len(),
        batch.sessions[i].live.state == "gone"@,
        forall|j: int|
            i < j < batch.sessions.len() ==> (#[trigger] batch.sessions[j]).id
                != batch.sessions[i].id,
    ensures
        !after_batch(l, batch).sessions.contains_key(batch.sessions[i].id),
{
    lemma_gone_stays_gone(
        if batch.snapshot {
            Map::empty()
        } else {
            l.sessions
        },
        batch.sessions,
        i,
    );
}

} // verus!
