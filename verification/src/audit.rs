//! Holding the two records of where projects are placed, placements and local
//! references, against each other, and all tables against the journal.
use vstd::prelude::*;
use vstd::string::*;

use crate::enumerate::pick_rows;
use crate::model::{Link, Member, Registry, Tables};
use crate::order::sort_order;
use crate::render::decimal_text;
use crate::rows::{lookup, MemberRow};
use crate::store::{RegistryStore, TableRows};
use crate::text::{cat, cat3, str_eq, Text};
use crate::{differences, json, laws_placement, model, order, replay, rows, text};

verus! {

/// What an audit finds.
#[derive(Debug, Clone, Default)]
pub struct VerifyReply {
    pub ok: bool,
    pub local_members: i64,
    pub project_workspaces: i64,
    pub mismatches: Vec<String>,
    pub generation: i64,
}

/// The references to projects on this device.
pub open spec fn locals(members: Seq<Member>) -> Seq<Member> {
    members.filter(|m: Member| !m.remote)
}

/// References in the order of their projects.
pub open spec fn by_project(members: Seq<Member>) -> Seq<Member> {
    order::pick(members, order::order_of(order::single_keys(project_ids(members))))
}

/// The projects of references.
pub open spec fn project_ids(members: Seq<Member>) -> Seq<Text> {
    members.map_values(|m: Member| m.project_id)
}

/// Whether a placement answers a reference.
pub open spec fn placed(t: Tables, m: Member) -> bool {
    model::target(t.placements, m.project_id) == Some(m.workspace_id)
}

/// Whether a local reference answers a placement.
pub open spec fn answers(t: Tables, l: Link) -> bool {
    exists|i: int|
        0 <= i < t.members.len() && !(#[trigger] t.members[i]).remote && t.members[i].workspace_id
            == l.target && t.members[i].project_id == l.key
}

/// How a mismatch is told.
pub open spec fn told(workspace_id: Text, project_id: Text) -> Text {
    workspace_id + ":"@ + project_id
}

/// The local references without a placement, in the order of their projects,
/// then the placements without a local reference, in the order they were made.
pub open spec fn mismatches(t: Tables) -> Seq<Text> {
    by_project(locals(t.members)).filter(|m: Member| !placed(t, m)).map_values(
        |m: Member| told(m.workspace_id, m.project_id),
    ) + t.placements.filter(|l: Link| !answers(t, l)).map_values(
        |l: Link| told(l.target, l.key),
    )
}

/// What an audit finds: what is out of step, then how the tables differ from those
/// that the journal leads to, or else which entry cannot be replayed and why.
pub open spec fn findings(reg: Registry) -> Seq<Text> {
    mismatches(reg.tables) + match replay::retold(reg.journal) {
        Ok(u) => differences::differences(reg.tables, u),
        Err((seq, e)) => seq!["journal "@ + json::decimal(seq as int) + ": "@ + e],
    }
}

fn local_rows(v: &Vec<MemberRow>) -> (r: Vec<MemberRow>)
    ensures
        rows::members(r@) == locals(rows::members(v@)),
        r@.len() <= v@.len(),
{
    let ghost all = rows::members(v@);
    let ghost keep = |m: Member| !m.remote;
    let mut out: Vec<MemberRow> = Vec::new();
    let mut i: usize = 0;
    assert(rows::members(out@) =~= all.take(0).filter(keep)) by {
        reveal(Seq::filter);
    }
    while i < v.len()
        invariant
            all == rows::members(v@),
            keep == (|m: Member| !m.remote),
            i <= v@.len(),
            out@.len() <= i,
            rows::members(out@) == all.take(i as int).filter(keep),
        decreases v@.len() - i,
    {
        let ghost before = rows::members(out@);
        assert(all.take(i + 1).drop_last() =~= all.take(i as int));
        assert(all.take(i + 1).last() == v@[i as int]@);
        assert(all.take(i + 1).filter(keep) == if keep(v@[i as int]@) {
            before.push(v@[i as int]@)
        } else {
            before
        }) by {
            reveal(Seq::filter);
        }
        if !v[i].remote {
            out.push(v[i].copy());
            assert(rows::members(out@) =~= before.push(v@[i as int]@));
        }
        i = i + 1;
    }
    assert(all.take(i as int) =~= all);
    out
}

fn sort_by_project(v: &Vec<MemberRow>) -> (r: Vec<MemberRow>)
    ensures
        rows::members(r@) == by_project(rows::members(v@)),
{
    let ghost all = rows::members(v@);
    let mut keys: Vec<Vec<String>> = Vec::new();
    let mut i: usize = 0;
    while i < v.len()
        invariant
            i <= v@.len(),
            keys@.len() == i,
            forall|j: int|
                0 <= j < i ==> text::texts((#[trigger] keys@[j])@) == seq![v@[j]@.project_id],
        decreases v@.len() - i,
    {
        let mut key: Vec<String> = Vec::new();
        key.push(v[i].project_id.clone());
        assert(text::texts(key@) =~= seq![v@[i as int]@.project_id]);
        keys.push(key);
        i = i + 1;
    }
    assert(order::key_rows(keys@) =~= order::single_keys(project_ids(all)));
    pick_rows(v, &sort_order(&keys))
}

impl TableRows {
    fn is_answered(&self, project_id: &str, workspace_id: &str) -> (r: bool)
        ensures
            forall|at: i64|
                r == #[trigger] answers(
                    self@,
                    (Link { key: project_id@, target: workspace_id@, at }),
                ),
    {
        let ghost all = self@.members;
        let mut i: usize = 0;
        while i < self.members.len()
            invariant
                all == self@.members,
                i <= self.members@.len(),
                forall|j: int|
                    0 <= j < i ==> !(!(#[trigger] all[j]).remote && all[j].workspace_id
                        == workspace_id@ && all[j].project_id == project_id@),
            decreases self.members@.len() - i,
        {
            assert(all[i as int] == self.members@[i as int]@);
            if !self.members[i].remote && str_eq(
                self.members[i].workspace_id.as_str(),
                workspace_id,
            ) && str_eq(self.members[i].project_id.as_str(), project_id) {
                assert(!self@.members[i as int].remote);
                return true;
            }
            i = i + 1;
        }
        false
    }

    fn list_mismatches(&self) -> (r: Vec<String>)
        ensures
            text::texts(r@) == mismatches(self@),
    {
        let mut out: Vec<String> = Vec::new();
        let refs = sort_by_project(&local_rows(&self.members));
        let ghost all = rows::members(refs@);
        let ghost lone = |m: Member| !placed(self@, m);
        let ghost tell = |m: Member| told(m.workspace_id, m.project_id);
        let mut i: usize = 0;
        assert(text::texts(out@) =~= all.take(0).filter(lone).map_values(tell)) by {
            reveal(Seq::filter);
        }
        while i < refs.len()
            invariant
                all == rows::members(refs@),
                lone == (|m: Member| !placed(self@, m)),
                tell == (|m: Member| told(m.workspace_id, m.project_id)),
                i <= refs@.len(),
                text::texts(out@) == all.take(i as int).filter(lone).map_values(tell),
            decreases refs@.len() - i,
        {
            let ghost before = text::texts(out@);
            let ghost m = refs@[i as int]@;
            let ghost kept = all.take(i as int).filter(lone);
            assert(all.take(i + 1).drop_last() =~= all.take(i as int));
            assert(all.take(i + 1).last() == m);
            assert(all.take(i + 1).filter(lone) == if lone(m) {
                kept.push(m)
            } else {
                kept
            }) by {
                reveal(Seq::filter);
            }
            let place = lookup(&self.placements, refs[i].project_id.as_str());
            let found = match &place {
                Some(w) => str_eq(w.as_str(), refs[i].workspace_id.as_str()),
                None => false,
            };
            if !found {
                let s = cat3(refs[i].workspace_id.as_str(), ":", refs[i].project_id.as_str());
                out.push(s);
                assert(text::texts(out@) =~= before.push(s@));
                assert(kept.push(m).map_values(tell) =~= kept.map_values(tell).push(tell(m)));
            }
            i = i + 1;
        }
        assert(all.take(i as int) =~= all);
        let ghost first = text::texts(out@);
        let ghost links = self@.placements;
        let ghost bare = |l: Link| !answers(self@, l);
        let ghost say = |l: Link| told(l.target, l.key);
        let mut k: usize = 0;
        assert(text::texts(out@) =~= first + links.take(0).filter(bare).map_values(say)) by {
            reveal(Seq::filter);
        }
        while k < self.placements.len()
            invariant
                links == rows::links(self.placements@),
                links == self@.placements,
                bare == (|l: Link| !answers(self@, l)),
                say == (|l: Link| told(l.target, l.key)),
                k <= self.placements@.len(),
                text::texts(out@) == first + links.take(k as int).filter(bare).map_values(say),
            decreases self.placements@.len() - k,
        {
            let ghost before = text::texts(out@);
            let ghost l = self.placements@[k as int]@;
            let ghost kept = links.take(k as int).filter(bare);
            assert(links.take(k + 1).drop_last() =~= links.take(k as int));
            assert(links.take(k + 1).last() == l);
            assert(links.take(k + 1).filter(bare) == if bare(l) {
                kept.push(l)
            } else {
                kept
            }) by {
                reveal(Seq::filter);
            }
            let row = &self.placements[k];
            let found = self.is_answered(row.key.as_str(), row.target.as_str());
            assert(found == answers(self@, Link { key: l.key, target: l.target, at: l.at }));
            if !found {
                let s = cat3(row.target.as_str(), ":", row.key.as_str());
                out.push(s);
                assert(text::texts(out@) =~= before.push(s@));
                assert(kept.push(l).map_values(say) =~= kept.map_values(say).push(say(l)));
                assert(text::texts(out@) =~= first + kept.push(l).map_values(say));
            }
            k = k + 1;
        }
        assert(links.take(k as int) =~= links);
        out
    }
}

impl RegistryStore {
    /// Holds placements and local references against each other, and all tables
    /// against the journal.
    pub fn verify(&self) -> (r: VerifyReply)
        requires
            self@.sound(),
            self@.tables.members.len() <= i64::MAX,
            self@.tables.placements.len() <= i64::MAX,
        ensures
            text::texts(r.mismatches@) == findings(self@),
            r.ok == (findings(self@).len() == 0),
            r.ok <==> laws_placement::in_step(self@.tables) && replay::replay_all(self@.journal)
                == Ok::<Tables, Text>(self@.tables),
            r.local_members == locals(self@.tables.members).len(),
            r.project_workspaces == self@.tables.placements.len(),
            r.generation == self@.generation(),
    {
        proof {
            laws_placement::law_audits_hold_tables_against_the_journal(self@);
        }
        let mut found = self.tables.list_mismatches();
        match self.retell() {
            Ok(u) => self.tables.list_differences(&u, &mut found),
            Err((seq, e)) => {
                let ghost before = text::texts(found@);
                let number = decimal_text(seq as u64);
                let place = cat3("journal ", number.as_str(), ": ");
                let s = cat(place.as_str(), e.as_str());
                found.push(s);
                assert(text::texts(found@) =~= before + seq![s@]);
            },
        }
        assert(text::texts(found@).len() == found@.len());
        let refs = local_rows(&self.tables.members);
        assert(rows::members(refs@).len() == refs@.len());
        assert(self@.tables.members.len() == self.tables.members@.len());
        VerifyReply {
            ok: found.len() == 0,
            local_members: refs.len() as i64,
            project_workspaces: self.tables.placements.len() as i64,
            mismatches: found,
            generation: self.generation(),
        }
    }
}

} // verus!
