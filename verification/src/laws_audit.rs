//! What an audit tells, what a replay does with an entry, and which rows can be added.
use vstd::prelude::*;
use vstd::string::*;

use crate::frame::Note;
use crate::membership::{entered, leads};
use crate::model::{Entry, Link, Member, Project, Record, Registry, Tables, Workspace};
use crate::store::Row;
use crate::text::Text;
use crate::{
    audit, differences, frame, json, membership, model, observed, order, replay, store, upkeep,
};

verus! {

/// Whether a local reference has no placement to go with it, and is told so.
pub open spec fn unplaced(t: Tables, m: Member, told: Text) -> bool {
    t.members.contains(m) && !m.remote && !leads(t.placements, m.project_id, m.workspace_id) && told
        == m.workspace_id + ":"@ + m.project_id
}

/// Whether a placement has no local reference to go with it, and is told so.
pub open spec fn unreferenced(t: Tables, l: Link, told: Text) -> bool {
    t.placements.contains(l) && (forall|m: Member| #[trigger]
        t.members.contains(m) && !m.remote && m.project_id == l.key ==> m.workspace_id != l.target)
        && told == l.target + ":"@ + l.key
}

/// An audit tells of each local reference without a placement and of each placement
/// without a local reference, and of nothing else that is out of step.
pub proof fn law_audits_tell_each_mismatch(t: Tables, told: Text)
    requires
        t.sound(),
    ensures
        audit::mismatches(t).contains(told) <==> (exists|m: Member| unplaced(t, m, told)) || (exists|
            l: Link,
        | unreferenced(t, l, told)),
{
    let mine = audit::locals(t.members);
    let cols = order::single_keys(audit::project_ids(mine));
    let ranked = audit::by_project(mine);
    let lost = |m: Member| !audit::placed(t, m);
    let a = ranked.filter(lost);
    let x = a.map_values(|m: Member| audit::told(m.workspace_id, m.project_id));
    let bare = |l: Link| !audit::answers(t, l);
    let b = t.placements.filter(bare);
    let y = b.map_values(|l: Link| audit::told(l.target, l.key));
    assert(audit::mismatches(t) == x + y);
    assert forall|m: Member| #[trigger] a.contains(m) <==> t.members.contains(m) && !m.remote
        && !leads(t.placements, m.project_id, m.workspace_id) by {
        membership::lemma_kept(ranked, lost, m);
        observed::lemma_picked(mine, cols, m);
        membership::lemma_kept(t.members, |m: Member| !m.remote, m);
        membership::lemma_lookup(t.placements, m.project_id, m.workspace_id);
    }
    assert forall|l: Link| #[trigger] b.contains(l) <==> t.placements.contains(l) && (forall|
        m: Member,
    | #[trigger]
        t.members.contains(m) && !m.remote && m.project_id == l.key ==> m.workspace_id
            != l.target) by {
        membership::lemma_kept(t.placements, bare, l);
        if audit::answers(t, l) {
            let i = choose|i: int|
                0 <= i < t.members.len() && !(#[trigger] t.members[i]).remote
                    && t.members[i].workspace_id == l.target && t.members[i].project_id == l.key;
            assert(t.members.contains(t.members[i]));
        } else {
            assert forall|m: Member| #[trigger]
                t.members.contains(m) && !m.remote && m.project_id == l.key implies m.workspace_id
                != l.target by {
                let i = choose|i: int| 0 <= i < t.members.len() && t.members[i] == m;
                assert(!t.members[i].remote);
            }
        }
    }
    if (x + y).contains(told) {
        let i = choose|i: int| 0 <= i < (x + y).len() && (x + y)[i] == told;
        if i < x.len() {
            assert(x[i] == told);
            assert(a.contains(a[i]));
            assert(unplaced(t, a[i], told));
        } else {
            let j = i - x.len();
            assert(y[j] == told);
            assert(b.contains(b[j]));
            assert(unreferenced(t, b[j], told));
        }
    }
    if exists|m: Member| unplaced(t, m, told) {
        let m = choose|m: Member| unplaced(t, m, told);
        assert(a.contains(m));
        let i = choose|i: int| 0 <= i < a.len() && a[i] == m;
        assert(x[i] == told);
        assert((x + y)[i] == told);
    }
    if exists|l: Link| unreferenced(t, l, told) {
        let l = choose|l: Link| unreferenced(t, l, told);
        assert(b.contains(l));
        let j = choose|j: int| 0 <= j < b.len() && b[j] == l;
        assert(y[j] == told);
        assert((x + y)[x.len() + j] == told);
    }
}

/// Whether a table that holds `a` and should hold `b` is told of so: by a row more, by a
/// row less, or where there is neither, by the order of its rows.
pub open spec fn differs<V>(
    table: Text,
    a: Seq<V>,
    b: Seq<V>,
    tell: spec_fn(V) -> Text,
    told: Text,
) -> bool {
    ||| exists|x: V| #[trigger]
        a.contains(x) && !b.contains(x) && told == "unjournaled "@ + table + " "@ + tell(x)
    ||| exists|x: V| #[trigger]
        b.contains(x) && !a.contains(x) && told == "missing "@ + table + " "@ + tell(x)
    ||| a != b && (forall|x: V| #[trigger] a.contains(x) <==> b.contains(x)) && told
        == "reordered "@ + table
}

proof fn lemma_strays<V>(a: Seq<V>, b: Seq<V>, say: spec_fn(V) -> Text, told: Text)
    ensures
        differences::strays(a, b).map_values(say).contains(told) <==> exists|x: V| #[trigger]
            a.contains(x) && !b.contains(x) && told == say(x),
        differences::strays(a, b).len() == 0 <==> forall|x: V| #[trigger]
            a.contains(x) ==> b.contains(x),
{
    let keep = |x: V| !b.contains(x);
    let s = differences::strays(a, b);
    let m = s.map_values(say);
    assert forall|x: V| #[trigger] s.contains(x) <==> a.contains(x) && !b.contains(x) by {
        membership::lemma_kept(a, keep, x);
    }
    if m.contains(told) {
        let i = choose|i: int| 0 <= i < m.len() && m[i] == told;
        assert(s.contains(s[i]));
        assert(a.contains(s[i]));
    }
    if exists|x: V| #[trigger] a.contains(x) && !b.contains(x) && told == say(x) {
        let x = choose|x: V| #[trigger] a.contains(x) && !b.contains(x) && told == say(x);
        assert(s.contains(x));
        let i = choose|i: int| 0 <= i < s.len() && s[i] == x;
        assert(m[i] == told);
    }
    if s.len() > 0 {
        assert(s.contains(s[0]));
        assert(a.contains(s[0]));
    } else {
        assert forall|x: V| #[trigger] a.contains(x) implies b.contains(x) by {
            if !b.contains(x) {
                assert(s.contains(x));
            }
        }
    }
}

proof fn lemma_differing<V>(
    table: Text,
    a: Seq<V>,
    b: Seq<V>,
    tell: spec_fn(V) -> Text,
    told: Text,
)
    ensures
        differences::differing(table, a, b, tell).contains(told) <==> differs(
            table,
            a,
            b,
            tell,
            told,
        ),
{
    let up = |x: V| "unjournaled "@ + table + " "@ + tell(x);
    let down = |x: V| "missing "@ + table + " "@ + tell(x);
    let more = differences::strays(a, b).map_values(up);
    let less = differences::strays(b, a).map_values(down);
    lemma_strays(a, b, up, told);
    lemma_strays(b, a, down, told);
    lemma_joined(more, less, told);
    assert(more.contains(told) <==> exists|x: V| #[trigger]
        a.contains(x) && !b.contains(x) && told == "unjournaled "@ + table + " "@ + tell(x)) by {
        if more.contains(told) {
            let x = choose|x: V| #[trigger] a.contains(x) && !b.contains(x) && told == up(x);
            assert(a.contains(x));
        }
        if exists|x: V| #[trigger]
            a.contains(x) && !b.contains(x) && told == "unjournaled "@ + table + " "@ + tell(x) {
            let x = choose|x: V| #[trigger]
                a.contains(x) && !b.contains(x) && told == "unjournaled "@ + table + " "@ + tell(x);
            assert(a.contains(x) && told == up(x));
        }
    }
    assert(less.contains(told) <==> exists|x: V| #[trigger]
        b.contains(x) && !a.contains(x) && told == "missing "@ + table + " "@ + tell(x)) by {
        if less.contains(told) {
            let x = choose|x: V| #[trigger] b.contains(x) && !a.contains(x) && told == down(x);
            assert(b.contains(x));
        }
        if exists|x: V| #[trigger]
            b.contains(x) && !a.contains(x) && told == "missing "@ + table + " "@ + tell(x) {
            let x = choose|x: V| #[trigger]
                b.contains(x) && !a.contains(x) && told == "missing "@ + table + " "@ + tell(x);
            assert(b.contains(x) && told == down(x));
        }
    }
    if a != b && more.len() == 0 && less.len() == 0 {
        let only = seq!["reordered "@ + table];
        assert(differences::differing(table, a, b, tell) == only);
        assert(only[0] == "reordered "@ + table);
        assert forall|x: V| #[trigger] a.contains(x) <==> b.contains(x) by {
            if b.contains(x) {
                assert(a.contains(x));
            }
        }
    } else {
        assert(differences::differing(table, a, b, tell) == more + less);
        if forall|x: V| #[trigger] a.contains(x) <==> b.contains(x) {
            assert forall|x: V| #[trigger] b.contains(x) implies a.contains(x) by {
                assert(a.contains(x) <==> b.contains(x));
            }
        }
    }
}

proof fn lemma_joined(a: Seq<Text>, b: Seq<Text>, x: Text)
    ensures
        (a + b).contains(x) <==> a.contains(x) || b.contains(x),
{
    if (a + b).contains(x) {
        let i = choose|i: int| 0 <= i < (a + b).len() && (a + b)[i] == x;
        if i < a.len() {
            assert(a[i] == x);
        } else {
            assert(b[i - a.len()] == x);
        }
    }
    if a.contains(x) {
        let i = choose|i: int| 0 <= i < a.len() && a[i] == x;
        assert((a + b)[i] == x);
    }
    if b.contains(x) {
        let i = choose|i: int| 0 <= i < b.len() && b[i] == x;
        assert((a + b)[a.len() + i] == x);
    }
}

/// An audit tells of each row that the journal does not account for or that is missing,
/// by its table and its key, and of each table whose rows merely stand in another order.
pub proof fn law_audits_tell_each_difference(t: Tables, u: Tables, told: Text)
    ensures
        differences::differences(t, u).contains(told) <==> {
            ||| differs(
                "workspace"@,
                t.workspaces,
                u.workspaces,
                |w: Workspace| w.workspace_id,
                told,
            )
            ||| differs(
                "workspace_member"@,
                t.members,
                u.members,
                |m: Member| m.workspace_id + ":"@ + m.device + ":"@ + m.project_id,
                told,
            )
            ||| differs("project"@, t.projects, u.projects, |p: Project| p.project_id, told)
            ||| differs("project_workspace"@, t.placements, u.placements, |l: Link| l.key, told)
            ||| differs("project_root"@, t.roots, u.roots, |l: Link| l.key, told)
            ||| differs("derived_root_parent"@, t.parents, u.parents, |l: Link| l.key, told)
            ||| differs("project_alias"@, t.aliases, u.aliases, |l: Link| l.key, told)
        },
{
    let a = differences::differing(
        "workspace"@,
        t.workspaces,
        u.workspaces,
        |w: Workspace| differences::workspace_told(w),
    );
    let b = differences::differing(
        "workspace_member"@,
        t.members,
        u.members,
        |m: Member| differences::member_told(m),
    );
    let c = differences::differing(
        "project"@,
        t.projects,
        u.projects,
        |p: Project| differences::project_told(p),
    );
    let tell = |l: Link| differences::link_told(l);
    let d = differences::differing("project_workspace"@, t.placements, u.placements, tell);
    let e = differences::differing("project_root"@, t.roots, u.roots, tell);
    let f = differences::differing("derived_root_parent"@, t.parents, u.parents, tell);
    let g = differences::differing("project_alias"@, t.aliases, u.aliases, tell);
    lemma_joined(a, b, told);
    lemma_joined(a + b, c, told);
    lemma_joined(a + b + c, d, told);
    lemma_joined(a + b + c + d, e, told);
    lemma_joined(a + b + c + d + e, f, told);
    lemma_joined(a + b + c + d + e + f, g, told);
    let wt = |w: Workspace| w.workspace_id;
    let mt = |m: Member| m.workspace_id + ":"@ + m.device + ":"@ + m.project_id;
    let pt = |p: Project| p.project_id;
    let lt = |l: Link| l.key;
    lemma_differing(
        "workspace"@,
        t.workspaces,
        u.workspaces,
        |w: Workspace| differences::workspace_told(w),
        told,
    );
    lemma_tells(
        "workspace"@,
        t.workspaces,
        u.workspaces,
        |w: Workspace| differences::workspace_told(w),
        wt,
        told,
    );
    lemma_differing(
        "workspace_member"@,
        t.members,
        u.members,
        |m: Member| differences::member_told(m),
        told,
    );
    lemma_tells(
        "workspace_member"@,
        t.members,
        u.members,
        |m: Member| differences::member_told(m),
        mt,
        told,
    );
    lemma_differing(
        "project"@,
        t.projects,
        u.projects,
        |p: Project| differences::project_told(p),
        told,
    );
    lemma_tells(
        "project"@,
        t.projects,
        u.projects,
        |p: Project| differences::project_told(p),
        pt,
        told,
    );
    lemma_differing("project_workspace"@, t.placements, u.placements, tell, told);
    lemma_tells("project_workspace"@, t.placements, u.placements, tell, lt, told);
    lemma_differing("project_root"@, t.roots, u.roots, tell, told);
    lemma_tells("project_root"@, t.roots, u.roots, tell, lt, told);
    lemma_differing("derived_root_parent"@, t.parents, u.parents, tell, told);
    lemma_tells("derived_root_parent"@, t.parents, u.parents, tell, lt, told);
    lemma_differing("project_alias"@, t.aliases, u.aliases, tell, told);
    lemma_tells("project_alias"@, t.aliases, u.aliases, tell, lt, told);
}

proof fn lemma_tells<V>(
    table: Text,
    a: Seq<V>,
    b: Seq<V>,
    f: spec_fn(V) -> Text,
    g: spec_fn(V) -> Text,
    told: Text,
)
    requires
        forall|x: V| #[trigger] f(x) == g(x),
    ensures
        differs(table, a, b, f, told) <==> differs(table, a, b, g, told),
{
    if exists|x: V| #[trigger]
        a.contains(x) && !b.contains(x) && told == "unjournaled "@ + table + " "@ + g(x) {
        let x = choose|x: V| #[trigger]
            a.contains(x) && !b.contains(x) && told == "unjournaled "@ + table + " "@ + g(x);
        assert(f(x) == g(x));
    }
    if exists|x: V| #[trigger]
        a.contains(x) && !b.contains(x) && told == "unjournaled "@ + table + " "@ + f(x) {
        let x = choose|x: V| #[trigger]
            a.contains(x) && !b.contains(x) && told == "unjournaled "@ + table + " "@ + f(x);
        assert(f(x) == g(x));
    }
    if exists|x: V| #[trigger]
        b.contains(x) && !a.contains(x) && told == "missing "@ + table + " "@ + g(x) {
        let x = choose|x: V| #[trigger]
            b.contains(x) && !a.contains(x) && told == "missing "@ + table + " "@ + g(x);
        assert(f(x) == g(x));
    }
    if exists|x: V| #[trigger]
        b.contains(x) && !a.contains(x) && told == "missing "@ + table + " "@ + f(x) {
        let x = choose|x: V| #[trigger]
            b.contains(x) && !a.contains(x) && told == "missing "@ + table + " "@ + f(x);
        assert(f(x) == g(x));
    }
}

/// What an audit finds is what is out of step, and then what differs from the tables that
/// the journal leads to; where the journal leads nowhere, it is the entry at fault that is
/// told in place of that.
pub proof fn law_audits_find_both(reg: Registry, told: Text)
    ensures
        match replay::retold(reg.journal) {
            Ok(u) => audit::findings(reg).contains(told) <==> audit::mismatches(
                reg.tables,
            ).contains(told) || differences::differences(reg.tables, u).contains(told),
            Err((seq, e)) => audit::findings(reg).contains(told) <==> audit::mismatches(
                reg.tables,
            ).contains(told) || told == "journal "@ + json::decimal(seq as int) + ": "@ + e,
        },
{
    let a = audit::mismatches(reg.tables);
    match replay::retold(reg.journal) {
        Ok(u) => {
            lemma_joined(a, differences::differences(reg.tables, u), told);
        },
        Err((seq, e)) => {
            let b = seq!["journal "@ + json::decimal(seq as int) + ": "@ + e];
            lemma_joined(a, b, told);
            assert(b[0] == "journal "@ + json::decimal(seq as int) + ": "@ + e);
        },
    }
}

/// What replaying does with an entry that is not a request that ran: one that is no request
/// changes nothing, one that cannot be read fails with the reason, and one that refers to a
/// project that is not there fails.
pub proof fn law_entries_that_cannot_be_replayed(t: Tables, record: Record, now: i64)
    ensures
        record is Other ==> replay::replayed(t, record, now) == Ok::<Tables, Text>(t),
        record matches Record::Unreadable(e) ==> replay::replayed(t, record, now) == Err::<
            Tables,
            Text,
        >(e),
        record matches Record::Assign(r) ==> (replay::replayed(t, record, now) is Err
            <==> !entered(t.projects, r.project_id)),
        record matches Record::Remove(r) ==> (replay::replayed(t, record, now) is Err
            <==> r.workspace_id is None && r.project_id is Some && (r.successor matches Some(s) && (s
            == r.project_id->Some_0 || !entered(t.projects, s)))),
{
    if let Record::Assign(r) = record {
        upkeep::lemma_live(t.projects, r.project_id);
    }
    if let Record::Remove(r) = record {
        if let Some(s) = r.successor {
            upkeep::lemma_live(t.projects, s);
        }
    }
}

/// The tables with a row more.
pub open spec fn with_row(t: Tables, row: Row) -> Tables {
    match row {
        Row::Workspace(r) => Tables { workspaces: t.workspaces.push(r), ..t },
        Row::Member(r) => Tables { members: t.members.push(r), ..t },
        Row::Project(r) => Tables { projects: t.projects.push(r), ..t },
        Row::Placement(r) => Tables { placements: t.placements.push(r), ..t },
        Row::Root(r) => Tables { roots: t.roots.push(r), ..t },
        Row::Parent(r) => Tables { parents: t.parents.push(r), ..t },
        Row::Alias(r) => Tables { aliases: t.aliases.push(r), ..t },
    }
}

proof fn lemma_link_fits(t: Seq<Link>, row: Link)
    requires
        model::unique_links(t.push(row)),
    ensures
        !model::has(t, row.key),
{
    upkeep::lemma_target(t, row.key);
    if model::has(t, row.key) {
        let i = choose|i: int| 0 <= i < t.len() && (#[trigger] t[i]).key == row.key;
        let u = t.push(row);
        assert(u[i].key != u[t.len() as int].key);
    }
}

/// A row is added to sound tables exactly where they stay sound with it, and then it is
/// the only change.
pub proof fn law_rows_are_added_where_they_fit(t: Tables, row: Row)
    requires
        t.sound(),
    ensures
        store::written(t, row) is Ok <==> with_row(t, row).sound(),
        store::written(t, row) matches Ok(u) ==> u == with_row(t, row),
{
    store::lemma_written(t, row);
    let u = with_row(t, row);
    if u.sound() {
        match row {
            Row::Workspace(r) => {
                upkeep::lemma_known(t.workspaces, r.workspace_id);
                if model::known(t.workspaces, r.workspace_id) {
                    let i = choose|i: int|
                        0 <= i < t.workspaces.len() && (#[trigger] t.workspaces[i]).workspace_id
                            == r.workspace_id;
                    assert(u.workspaces[i].workspace_id
                        != u.workspaces[t.workspaces.len() as int].workspace_id);
                }
            },
            Row::Member(r) => {
                let n = t.members.len() as int;
                assert(u.members[n] == r);
                assert(u.members[n].remote == (u.members[n].device.len() > 0));
                assert(model::known(u.workspaces, u.members[n].workspace_id));
                if model::referenced(t.members, r) {
                    let i = choose|i: int|
                        0 <= i < t.members.len() && model::same_reference(
                            #[trigger] t.members[i],
                            r,
                        );
                    assert(!model::same_reference(u.members[i], u.members[n]));
                }
            },
            Row::Project(r) => {
                upkeep::lemma_live(t.projects, r.project_id);
                if model::live(t.projects, r.project_id) {
                    let i = choose|i: int|
                        0 <= i < t.projects.len() && (#[trigger] t.projects[i]).project_id
                            == r.project_id;
                    assert(u.projects[i].project_id
                        != u.projects[t.projects.len() as int].project_id);
                }
            },
            Row::Placement(r) => {
                lemma_link_fits(t.placements, r);
                assert(u.placements[t.placements.len() as int] == r);
            },
            Row::Root(r) => {
                lemma_link_fits(t.roots, r);
                assert(u.roots[t.roots.len() as int] == r);
            },
            Row::Parent(r) => {
                lemma_link_fits(t.parents, r);
                assert(u.parents[t.parents.len() as int] == r);
            },
            Row::Alias(r) => {
                lemma_link_fits(t.aliases, r);
                assert(u.aliases[t.aliases.len() as int] == r);
            },
        }
    }
}

/// The tables with rows more, in order.
pub open spec fn with_rows(t: Tables, all: Seq<Row>) -> Tables
    decreases all.len(),
{
    if all.len() == 0 {
        t
    } else {
        with_row(with_rows(t, all.drop_last()), all.last())
    }
}

/// Whether tables stay sound with every one of the rows, one after the other.
pub open spec fn all_fit(t: Tables, all: Seq<Row>) -> bool {
    forall|n: int| 0 <= n <= all.len() ==> (#[trigger] with_rows(t, all.take(n))).sound()
}

proof fn lemma_written_all(t: Tables, all: Seq<Row>)
    requires
        t.sound(),
    ensures
        store::written_all(t, all) is Ok <==> all_fit(t, all),
        store::written_all(t, all) matches Ok(u) ==> u == with_rows(t, all) && u.sound(),
    decreases all.len(),
{
    assert(all.take(all.len() as int) =~= all);
    if all.len() == 0 {
        assert forall|n: int| 0 <= n <= all.len() implies (#[trigger] with_rows(
            t,
            all.take(n),
        )).sound() by {
            assert(all.take(n) =~= all);
        }
    } else {
        let head = all.drop_last();
        lemma_written_all(t, head);
        assert forall|n: int| 0 <= n <= head.len() implies head.take(n) == #[trigger] all.take(
            n,
        ) by {
            assert(head.take(n) =~= all.take(n));
        }
        if all_fit(t, all) {
            assert forall|n: int| 0 <= n <= head.len() implies (#[trigger] with_rows(
                t,
                head.take(n),
            )).sound() by {
                assert(head.take(n) == all.take(n));
                assert(with_rows(t, all.take(n)).sound());
            }
            assert(with_rows(t, all.take(all.len() as int)).sound());
        }
        if let Ok(u) = store::written_all(t, head) {
            law_rows_are_added_where_they_fit(u, all.last());
            if with_rows(t, all).sound() {
                assert forall|n: int| 0 <= n <= all.len() implies (#[trigger] with_rows(
                    t,
                    all.take(n),
                )).sound() by {
                    if n < all.len() {
                        assert(head.take(n) == all.take(n));
                        assert(with_rows(t, head.take(n)).sound());
                    }
                }
            }
        }
    }
}

/// An entry is applied whole: with every one of its rows, and itself at the end of the
/// journal as it was given; or not at all, where a row does not fit, where its key is in
/// use, and where the journal is full.
pub proof fn law_entries_are_applied_whole(before: Registry, note: Note, all: Seq<Row>)
    requires
        before.sound(),
    ensures
        ({
            let free = before.generation() < i64::MAX && (note.request_key is Some ==> forall|
                i: int,
            |
                0 <= i < before.journal.len() ==> (#[trigger] before.journal[i]).request_key
                    != note.request_key);
            &&& store::applied(before, note, all) is Ok <==> free && all_fit(before.tables, all)
            &&& store::applied(before, note, all) matches Ok(after) ==> {
                let e = after.journal.last();
                &&& after.tables == with_rows(before.tables, all)
                &&& after.journal.len() == before.journal.len() + 1
                &&& after.journal.drop_last() == before.journal
                &&& e.seq == before.generation() + 1
                &&& e.op == note.op && e.payload == note.payload && e.actor == note.actor
                    && e.request_key == note.request_key && e.created_at == note.now && e.record
                    == note.record && e.response is None
            }
        }),
{
    lemma_written_all(before.tables, all);
    let free = before.generation() < i64::MAX && (note.request_key is Some ==> forall|i: int|
        0 <= i < before.journal.len() ==> (#[trigger] before.journal[i]).request_key
            != note.request_key);
    assert(free <==> frame::append_failure(before.journal, note.request_key) is None) by {
        if frame::key_taken(before.journal, note.request_key) {
            let i = choose|i: int|
                0 <= i < before.journal.len() && (#[trigger] before.journal[i]).request_key
                    == note.request_key;
            assert(before.journal[i].request_key == note.request_key);
        }
    }
    if let Ok(after) = store::applied(before, note, all) {
        assert(after.journal.drop_last() =~= before.journal);
    }
}

/// Replaying goes entry by entry from no rows at all: each entry is replayed, with the time
/// that it was made, on what those before it lead to.
pub proof fn law_journals_are_replayed_in_order(journal: Seq<Entry>, e: Entry)
    ensures
        replay::replay_all(Seq::empty()) == Ok::<Tables, Text>(Tables::empty()),
        replay::replay_all(journal.push(e)) == match replay::replay_all(journal) {
            Ok(t) => replay::replayed(t, e.record, e.created_at),
            Err(f) => Err(f),
        },
{
    assert(journal.push(e).drop_last() =~= journal);
}

/// Where a journal cannot be replayed, an audit names the first entry at fault and what is
/// wrong with it.
pub proof fn law_the_first_bad_entry_is_told(journal: Seq<Entry>) -> (k: int)
    ensures
        match replay::retold(journal) {
            Ok(t) => replay::replay_all(journal) == Ok::<Tables, Text>(t),
            Err((seq, e)) => 0 <= k < journal.len() && journal[k].seq == seq && (
            replay::replay_all(journal.take(k)) matches Ok(t) && replay::replayed(
                t,
                journal[k].record,
                journal[k].created_at,
            ) == Err::<Tables, Text>(e)),
        },
    decreases journal.len(),
{
    replay::lemma_retold(journal);
    if journal.len() == 0 {
        0
    } else {
        let head = journal.drop_last();
        let last = journal.len() - 1;
        replay::lemma_retold(head);
        if replay::retold(head) is Err {
            let k = law_the_first_bad_entry_is_told(head);
            assert(head.take(k) =~= journal.take(k));
            k
        } else {
            assert(journal.take(last) =~= head);
            last
        }
    }
}

/// The head of a journal is its largest sequence number, and 0 where it has no entry.
pub proof fn law_heads_are_the_newest(journal: Seq<Entry>, i: int)
    requires
        model::sound_journal(journal),
    ensures
        0 <= i < journal.len() ==> journal[i].seq <= model::generation(journal),
        journal.len() > 0 ==> exists|k: int|
            0 <= k < journal.len() && (#[trigger] journal[k]).seq == model::generation(journal),
        journal.len() == 0 ==> model::generation(journal) == 0,
{
    if journal.len() > 0 {
        let last = journal.len() - 1;
        assert(journal[last].seq == model::generation(journal));
        if 0 <= i < last {
            assert(journal[i].seq < journal[last].seq);
        }
    }
}

} // verus!
