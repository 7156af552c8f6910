//! What is known of sessions after a batch, and what enumerations tell of it.
use vstd::prelude::*;
use vstd::string::*;

use crate::laws_service;
use crate::liveness;
use crate::liveness::{Batch, Live, Liveness, Report};
use crate::queries::Listing;
use crate::text::Text;
use crate::{paths, text};

verus! {

/// Whether a report is the last one on its session.
pub open spec fn last_word(news: Seq<Report>, k: int) -> bool {
    0 <= k < news.len() && forall|j: int| k < j < news.len() ==> (#[trigger] news[j]).id != news[k].id
}

/// Whether there is no report on a session.
pub open spec fn unmentioned(news: Seq<Report>, id: Text) -> bool {
    forall|j: int| 0 <= j < news.len() ==> (#[trigger] news[j]).id != id
}

proof fn lemma_absorbed(sessions: Map<Text, Live>, news: Seq<Report>, id: Text, k: int)
    ensures
        unmentioned(news, id) ==> (liveness::absorbed(sessions, news).contains_key(id)
            <==> sessions.contains_key(id)),
        unmentioned(news, id) && sessions.contains_key(id) ==> liveness::absorbed(
            sessions,
            news,
        )[id] == sessions[id],
        last_word(news, k) && news[k].id == id && news[k].live.state == "gone"@
            ==> !liveness::absorbed(sessions, news).contains_key(id),
        last_word(news, k) && news[k].id == id && news[k].live.state != "gone"@
            ==> liveness::absorbed(sessions, news).contains_key(id) && liveness::absorbed(
            sessions,
            news,
        )[id] == news[k].live,
    decreases news.len(),
{
    if news.len() > 0 {
        let head = news.drop_last();
        let last = news.len() - 1;
        lemma_absorbed(sessions, head, id, k);
        assert(news[last] == news.last());
        if unmentioned(news, id) {
            assert(unmentioned(head, id)) by {
                assert forall|j: int| 0 <= j < head.len() implies (#[trigger] head[j]).id != id by {
                    assert(news[j].id != id);
                }
            }
        }
        if last_word(news, k) && news[k].id == id && k < last {
            assert(news[last].id != id);
            assert(last_word(head, k)) by {
                assert forall|j: int| k < j < head.len() implies (#[trigger] head[j]).id
                    != head[k].id by {
                    assert(news[j].id != news[k].id);
                }
            }
        }
    }
}

/// What is known after a batch. Of a session that the batch tells of, its last word
/// counts: it is forgotten where it is gone, and else known as told. Of any other, what was
/// known stays, unless the batch is a snapshot, which leaves only what it tells. A batch
/// that does not follow the one before it makes what is known stale, until a snapshot
/// comes.
pub proof fn law_batches_are_taken_in(l: Liveness, batch: Batch, id: Text, k: int)
    ensures
        ({
            let after = liveness::after_batch(l, batch);
            let news = batch.sessions;
            &&& after.last_seq == Some(batch.seq)
            &&& batch.snapshot ==> !after.stale
            &&& !batch.snapshot ==> (after.stale <==> l.stale || (l.last_seq matches Some(s)
                && batch.seq != (if s == u64::MAX {
                0
            } else {
                s + 1
            })))
            &&& unmentioned(news, id) ==> (after.sessions.contains_key(id) <==> !batch.snapshot
                && l.sessions.contains_key(id))
            &&& unmentioned(news, id) && after.sessions.contains_key(id) ==> after.sessions[id]
                == l.sessions[id]
            &&& last_word(news, k) && news[k].id == id ==> if news[k].live.state == "gone"@ {
                !after.sessions.contains_key(id)
            } else {
                after.sessions.contains_key(id) && after.sessions[id] == news[k].live
            }
        }),
{
    let start = if batch.snapshot {
        Map::empty()
    } else {
        l.sessions
    };
    lemma_absorbed(start, batch.sessions, id, k);
}

/// Whether a batch shows a gap: it is no snapshot, and does not follow the one before it.
pub proof fn law_gaps_are_seen(l: Liveness, batch: Batch)
    ensures
        liveness::shows_gap(l, batch) <==> !batch.snapshot && (l.last_seq matches Some(s)
            && batch.seq != (if s == u64::MAX {
            0
        } else {
            s + 1
        })),
{
}

/// Whether a session is at a root or below it.
pub open spec fn at_or_below(session: Text, root: Text) -> bool {
    session == root || session.len() > root.len() && session.take(root.len() as int) == root
        && session[root.len() as int] == '/'
}

/// Whether a known session is in a project with these roots.
pub open spec fn works_in(sessions: Map<Text, Live>, id: Text, roots: Seq<Text>) -> bool {
    sessions.contains_key(id) && exists|i: int|
        0 <= i < roots.len() && at_or_below(sessions[id].root, #[trigger] roots[i])
}

proof fn lemma_lies_in(session: Text, root: Text)
    requires
        root.len() > 0,
        root.last() != '/',
    ensures
        liveness::lies_in(session, root) <==> at_or_below(session, root),
{
    let n = root.len() as int;
    let start = root + "/"@;
    reveal_strlit("/");
    assert(paths::trimmed(root) == root);
    assert(start.len() == n + 1);
    if text::begins_with(session, start) {
        assert(session.take(n) =~= root) by {
            assert forall|i: int| 0 <= i < n implies session[i] == root[i] by {
                assert(session.take(n + 1)[i] == start[i]);
            }
        }
        assert(session.take(n + 1)[n] == start[n]);
    }
    if at_or_below(session, root) && session != root {
        assert(session.take(n + 1) =~= start) by {
            assert forall|i: int| 0 <= i < n implies session[i] == root[i] by {
                assert(session.take(n)[i] == root[i]);
            }
        }
    }
}

/// An enumeration tells of a project the newest activity of the sessions in it, at one of
/// its roots or below, and none where there is no session in it. Nothing else of the
/// enumeration changes.
pub proof fn law_enumerations_tell_of_activity(sessions: Map<Text, Live>, l: Listing, i: int)
    requires
        sessions.dom().finite(),
        0 <= i < l.projects.len(),
        l.projects[i].activity is None,
        forall|k: int|
            0 <= k < l.projects[i].roots.len() ==> (#[trigger] l.projects[i].roots[k]).len() > 0
                && l.projects[i].roots[k].last() != '/',
    ensures
        ({
            let roots = l.projects[i].roots;
            let told = liveness::annotated(sessions, l);
            &&& told.projects.len() == l.projects.len()
            &&& match told.projects[i].activity {
                Some(a) => {
                    &&& exists|id: Text| #[trigger]
                        works_in(sessions, id, roots) && sessions[id].activity == a
                    &&& forall|id: Text| #[trigger]
                        works_in(sessions, id, roots) ==> sessions[id].activity <= a
                },
                None => forall|id: Text| !#[trigger] works_in(sessions, id, roots),
            }
        }),
{
    let roots = l.projects[i].roots;
    let told = liveness::annotated(sessions, l);
    assert forall|id: Text| #[trigger]
        works_in(sessions, id, roots) <==> liveness::alive_in(sessions, id, roots) by {
        if works_in(sessions, id, roots) {
            let k = choose|k: int|
                0 <= k < roots.len() && at_or_below(sessions[id].root, #[trigger] roots[k]);
            lemma_lies_in(sessions[id].root, roots[k]);
            assert(liveness::lies_in(sessions[id].root, roots[k]));
        }
        if liveness::alive_in(sessions, id, roots) {
            let k = choose|k: int|
                0 <= k < roots.len() && liveness::lies_in(sessions[id].root, #[trigger] roots[k]);
            lemma_lies_in(sessions[id].root, roots[k]);
            assert(at_or_below(sessions[id].root, roots[k]));
        }
    }
    laws_service::law_activity_is_the_newest(sessions, roots);
    if sessions.len() == 0 {
        assert(sessions.dom().len() == 0);
        assert(sessions.dom() =~= Set::empty());
        assert forall|id: Text| !#[trigger] works_in(sessions, id, roots) by {
            assert(!sessions.dom().contains(id));
        }
    } else {
        assert(told.projects[i].activity == liveness::newest(sessions, roots));
        if let Some(a) = liveness::newest(sessions, roots) {
            let id = choose|id: Text| #[trigger]
                liveness::alive_in(sessions, id, roots) && sessions[id].activity == a;
            assert(works_in(sessions, id, roots));
        }
    }
}

} // verus!
