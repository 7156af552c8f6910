//! What holds of the two records of where projects are placed.
use vstd::prelude::*;

use crate::model::{
    Assign, Entry, Link, Member, Pair, Project, Record, Register, Registry, Remove, Seed, Tables,
    Upgrade, Workspace,
};
use crate::seed::Progress;
use crate::text::Text;
use crate::{audit, differences, frame, laws_replay, model, mutations, order, register, replay, seed, upkeep};

verus! {

/// Whether placements and local references say the same.
pub open spec fn in_step(t: Tables) -> bool {
    &&& forall|i: int|
        0 <= i < t.members.len() && !(#[trigger] t.members[i]).remote ==> audit::placed(t, t.members[i])
    &&& forall|i: int| 0 <= i < t.placements.len() ==> audit::answers(t, #[trigger] t.placements[i])
}

/// An audit finds nothing exactly where the two records are in step.
pub proof fn law_audits_find_what_is_out_of_step(t: Tables)
    ensures
        audit::mismatches(t).len() == 0 <==> in_step(t),
{
    let local = audit::locals(t.members);
    let ranked = audit::by_project(local);
    let lone = |m: Member| !audit::placed(t, m);
    let bare = |l: Link| !audit::answers(t, l);
    let keys = order::single_keys(audit::project_ids(local));
    let order = order::order_of(keys);
    upkeep::lemma_filter(t.members, |m: Member| !m.remote);
    upkeep::lemma_filter(ranked, lone);
    upkeep::lemma_filter(t.placements, bare);
    order::law_sorting_is_stable(keys);
    let a = ranked.filter(lone);
    let b = t.placements.filter(bare);
    assert(audit::mismatches(t).len() == a.len() + b.len());
    if in_step(t) {
        if a.len() > 0 {
            assert(lone(a[0]));
            assert(ranked.contains(a[0]));
            let i = choose|i: int| 0 <= i < ranked.len() && ranked[i] == a[0];
            assert(ranked[i] == local[order[i]]);
            assert(t.members.contains(local[order[i]]));
            let k = choose|k: int| 0 <= k < t.members.len() && t.members[k] == local[order[i]];
            assert(!t.members[k].remote);
        }
        if b.len() > 0 {
            assert(bare(b[0]));
            assert(t.placements.contains(b[0]));
        }
    }
    if a.len() + b.len() == 0 {
        assert forall|i: int|
            0 <= i < t.members.len() && !(#[trigger] t.members[i]).remote implies audit::placed(
            t,
            t.members[i],
        ) by {
            assert(local.contains(t.members[i]));
            let k = choose|k: int| 0 <= k < local.len() && local[k] == t.members[i];
            order::lemma_order_covers(keys, keys.len(), k);
            let p = choose|p: int| 0 <= p < order.len() && order[p] == k;
            assert(ranked[p] == t.members[i]);
            if lone(ranked[p]) {
                assert(a.contains(ranked[p]));
            }
        }
        assert forall|i: int| 0 <= i < t.placements.len() implies audit::answers(
            t,
            #[trigger] t.placements[i],
        ) by {
            if bare(t.placements[i]) {
                assert(b.contains(t.placements[i]));
            }
        }
    }
}

proof fn lemma_elsewhere(t: Tables, u: Tables)
    requires
        in_step(t),
        u.members == t.members,
        u.placements == t.placements,
    ensures
        in_step(u),
{
    assert forall|i: int|
        0 <= i < u.members.len() && !(#[trigger] u.members[i]).remote implies audit::placed(
        u,
        u.members[i],
    ) by {
        assert(audit::placed(t, t.members[i]));
    }
    assert forall|i: int| 0 <= i < u.placements.len() implies audit::answers(
        u,
        #[trigger] u.placements[i],
    ) by {
        assert(audit::answers(t, t.placements[i]));
        let k = choose|k: int|
            0 <= k < t.members.len() && !(#[trigger] t.members[k]).remote
                && t.members[k].workspace_id == t.placements[i].target && t.members[k].project_id
                == t.placements[i].key;
        assert(!u.members[k].remote);
    }
}

proof fn lemma_place_in_step(t: Tables, id: Text, w: Text)
    requires
        model::unique_links(t.placements),
        model::sound_members(t.members),
        in_step(t),
    ensures
        in_step(t.place(id, w)),
{
    let u = t.place(id, w);
    let m = model::local_member(w, id);
    if model::has(t.placements, id) {
        upkeep::lemma_target(t.placements, id);
        let i = choose|i: int| 0 <= i < t.placements.len() && (#[trigger] t.placements[i]).key == id;
        assert(audit::answers(t, t.placements[i]));
        let k = choose|k: int|
            0 <= k < t.members.len() && !(#[trigger] t.members[k]).remote
                && t.members[k].workspace_id == t.placements[i].target && t.members[k].project_id
                == t.placements[i].key;
        assert(t.members[k].device =~= Seq::empty());
        assert(model::same_reference(t.members[k], m));
        assert(u =~= t);
    } else {
        let row = Link { key: id, target: w, at: 0 };
        if model::referenced(t.members, m) {
            let k = choose|k: int|
                0 <= k < t.members.len() && model::same_reference(#[trigger] t.members[k], m);
            assert(audit::placed(t, t.members[k]));
            assert(model::has(t.placements, id));
        }
        assert(u.members == t.members.push(m));
        assert(u.placements == t.placements.push(row));
        assert forall|i: int|
            0 <= i < u.members.len() && !(#[trigger] u.members[i]).remote implies audit::placed(
            u,
            u.members[i],
        ) by {
            upkeep::lemma_push_link(t.placements, row, u.members[i].project_id);
            if i < t.members.len() {
                assert(u.members[i] == t.members[i]);
                assert(audit::placed(t, t.members[i]));
            }
        }
        assert forall|i: int| 0 <= i < u.placements.len() implies audit::answers(
            u,
            #[trigger] u.placements[i],
        ) by {
            if i < t.placements.len() {
                assert(audit::answers(t, t.placements[i]));
                let k = choose|k: int|
                    0 <= k < t.members.len() && !(#[trigger] t.members[k]).remote
                        && t.members[k].workspace_id == t.placements[i].target
                        && t.members[k].project_id == t.placements[i].key;
                assert(u.members[k] == t.members[k]);
                assert(!u.members[k].remote);
            } else {
                let k = t.members.len() as int;
                assert(u.members[k] == m);
                assert(!u.members[k].remote);
            }
        }
    }
}

proof fn lemma_dissolve_in_step(t: Tables, w: Text)
    requires
        model::unique_links(t.placements),
        in_step(t),
    ensures
        in_step(t.dissolve(w)),
{
    let u = t.dissolve(w);
    let keep_link = |l: Link| l.target != w;
    let keep_member = |m: Member| m.workspace_id != w;
    upkeep::lemma_filter(t.placements, keep_link);
    upkeep::lemma_filter(t.members, keep_member);
    assert forall|i: int|
        0 <= i < u.members.len() && !(#[trigger] u.members[i]).remote implies audit::placed(
        u,
        u.members[i],
    ) by {
        assert(keep_member(u.members[i]));
        assert(t.members.contains(u.members[i]));
        let k = choose|k: int| 0 <= k < t.members.len() && t.members[k] == u.members[i];
        assert(audit::placed(t, t.members[k]));
        upkeep::lemma_drop_target(t.placements, w, u.members[i].project_id);
    }
    assert forall|i: int| 0 <= i < u.placements.len() implies audit::answers(
        u,
        #[trigger] u.placements[i],
    ) by {
        assert(keep_link(u.placements[i]));
        assert(t.placements.contains(u.placements[i]));
        let p = choose|p: int| 0 <= p < t.placements.len() && t.placements[p] == u.placements[i];
        assert(audit::answers(t, t.placements[p]));
        let k = choose|k: int|
            0 <= k < t.members.len() && !(#[trigger] t.members[k]).remote
                && t.members[k].workspace_id == t.placements[p].target && t.members[k].project_id
                == t.placements[p].key;
        assert(keep_member(t.members[k]));
        assert(u.members.contains(t.members[k]));
        let n = choose|n: int| 0 <= n < u.members.len() && u.members[n] == t.members[k];
        assert(!u.members[n].remote);
    }
}

proof fn lemma_withdraw_in_step(t: Tables, id: Text, successor: Option<Text>, now: i64)
    requires
        model::unique_links(t.placements),
        in_step(t),
    ensures
        in_step(t.withdraw(id, successor, now)),
{
    let u = t.withdraw(id, successor, now);
    let keep_link = |l: Link| l.key != id;
    let keep_member = |m: Member| m.remote || m.project_id != id;
    upkeep::lemma_filter(t.placements, keep_link);
    upkeep::lemma_filter(t.members, keep_member);
    assert forall|i: int|
        0 <= i < u.members.len() && !(#[trigger] u.members[i]).remote implies audit::placed(
        u,
        u.members[i],
    ) by {
        assert(keep_member(u.members[i]));
        assert(t.members.contains(u.members[i]));
        let k = choose|k: int| 0 <= k < t.members.len() && t.members[k] == u.members[i];
        assert(audit::placed(t, t.members[k]));
        upkeep::lemma_drop_key(t.placements, id, u.members[i].project_id);
    }
    assert forall|i: int| 0 <= i < u.placements.len() implies audit::answers(
        u,
        #[trigger] u.placements[i],
    ) by {
        assert(keep_link(u.placements[i]));
        assert(t.placements.contains(u.placements[i]));
        let p = choose|p: int| 0 <= p < t.placements.len() && t.placements[p] == u.placements[i];
        assert(audit::answers(t, t.placements[p]));
        let k = choose|k: int|
            0 <= k < t.members.len() && !(#[trigger] t.members[k]).remote
                && t.members[k].workspace_id == t.placements[p].target && t.members[k].project_id
                == t.placements[p].key;
        assert(keep_member(t.members[k]));
        assert(u.members.contains(t.members[k]));
        let n = choose|n: int| 0 <= n < u.members.len() && u.members[n] == t.members[k];
        assert(!u.members[n].remote);
    }
}

proof fn lemma_settled_in_step(t: Tables, id: Text, workspace_id: Option<Text>, now: i64)
    requires
        model::unique_links(t.placements),
        model::sound_members(t.members),
        in_step(t),
    ensures
        in_step(register::settled_in(t, id, workspace_id, now)),
{
    if let Some(w) = workspace_id {
        let a = t.open_workspace(w, w, now);
        lemma_elsewhere(t, a);
        lemma_place_in_step(a, id, w);
    }
}

proof fn lemma_registered_in_step(t: Tables, r: Register, id: Text, now: i64)
    requires
        t.sound(),
        in_step(t),
    ensures
        in_step(register::registered(t, r, id, now)),
{
    let a = register::named(t, id, r.name, now).claim_roots(r.roots, id, now).claim_parents(
        r.parents,
        id,
    );
    lemma_elsewhere(t, a);
    lemma_settled_in_step(a, id, r.workspace_id, now);
}

proof fn lemma_assigned_in_step(t: Tables, r: Assign, now: i64)
    requires
        t.sound(),
        in_step(t),
    ensures
        in_step(mutations::assigned(t, r, now)),
{
    let name = match r.workspace_name {
        Some(n) => n,
        None => r.workspace_id,
    };
    let a = t.open_workspace(r.workspace_id, name, now);
    lemma_elsewhere(t, a);
    lemma_place_in_step(a, r.project_id, r.workspace_id);
}

proof fn lemma_upgraded_in_step(t: Tables, r: Upgrade, id: Text, now: i64)
    requires
        t.sound(),
        in_step(t),
    ensures
        in_step(mutations::upgraded(t, r, id, now)),
{
    let a = register::named(t, id, r.name, now).claim_roots(r.roots, id, now).point(
        r.implicit_id,
        id,
        now,
    );
    lemma_elsewhere(t, a);
    lemma_settled_in_step(a, id, r.workspace_id, now);
}

/// A registration keeps the two records in step.
pub proof fn law_registering_keeps_placements_in_step(before: Registry, r: Register, now: i64)
    requires
        before.sound(),
        in_step(before.tables),
    ensures
        in_step(register::register_deed(before, r, now).registry.tables),
{
    if let Ok(id) = register::registrant(before.tables, r) {
        lemma_registered_in_step(before.tables, r, id, now);
    }
}

/// A placement keeps the two records in step; while they are, it is never
/// refused for a reference that is taken.
pub proof fn law_assigning_keeps_placements_in_step(before: Registry, r: Assign, now: i64)
    requires
        before.sound(),
        in_step(before.tables),
    ensures
        in_step(mutations::assign_deed(before, r, now).registry.tables),
        frame::append_failure(before.journal, r.request_key) is None
            ==> mutations::assign_deed(before, r, now).result !is Err
            || mutations::assign_deed(before, r, now).result->Err_0 is Domain,
{
    let t = before.tables;
    let m = model::local_member(r.workspace_id, r.project_id);
    lemma_assigned_in_step(t, r, now);
    if !model::has(t.placements, r.project_id) && model::referenced(t.members, m) {
        let k = choose|k: int|
            0 <= k < t.members.len() && model::same_reference(#[trigger] t.members[k], m);
        assert(audit::placed(t, t.members[k]));
    }
}

/// An upgrade keeps the two records in step.
pub proof fn law_upgrading_keeps_placements_in_step(before: Registry, r: Upgrade, now: i64)
    requires
        before.sound(),
        in_step(before.tables),
    ensures
        in_step(mutations::upgrade_deed(before, r, now).registry.tables),
{
    lemma_upgraded_in_step(before.tables, r, mutations::upgrade_id(r), now);
}

/// A removal keeps the two records in step.
pub proof fn law_removing_keeps_placements_in_step(before: Registry, r: Remove, now: i64)
    requires
        before.sound(),
        in_step(before.tables),
    ensures
        in_step(mutations::remove_deed(before, r, now).registry.tables),
{
    let t = before.tables;
    if let Some(w) = r.workspace_id {
        lemma_dissolve_in_step(t, w);
    } else if let Some(id) = r.project_id {
        lemma_withdraw_in_step(t, id, r.successor, now);
    }
}

proof fn lemma_titles_in_step(t: Tables, titles: Seq<(Text, Text)>, now: i64)
    requires
        in_step(t),
    ensures
        ({
            let u = seed::import_titles(t, titles, now).0;
            in_step(u) && u.placements == t.placements && u.members == t.members
        }),
    decreases titles.len(),
{
    if titles.len() > 0 {
        lemma_titles_in_step(t, titles.drop_last(), now);
        lemma_elsewhere(t, seed::import_titles(t, titles, now).0);
    }
}

proof fn lemma_group_in_step(t: Tables, req: Seed, identity: Text, rows: Seq<Pair>, now: i64)
    requires
        t.sound(),
        in_step(t),
    ensures
        in_step(seed::import_group(t, req, identity, rows, now).tables),
{
    if let Some(project) = seed::landing(t, identity).0 {
        let free = seed::free_roots(t, rows);
        let u = seed::moved_in(
            t,
            project,
            seed::import_name(req.names, identity, rows),
            identity,
            free,
            now,
        );
        lemma_elsewhere(t, u);
        let places = seed::claimed(req.claims, identity);
        lemma_place_in_step(u, project, places[0]);
    }
}

proof fn lemma_groups_in_step(
    start: Progress,
    req: Seed,
    roots: Seq<Text>,
    identities: Seq<Text>,
    now: i64,
)
    requires
        start.tables.sound(),
        in_step(start.tables),
    ensures
        in_step(seed::import_groups(start, req, roots, identities, now).tables),
        seed::import_groups(start, req, roots, identities, now).tables.sound(),
    decreases identities.len(),
{
    if identities.len() > 0 {
        lemma_groups_in_step(start, req, roots, identities.drop_last(), now);
        let p = seed::import_groups(start, req, roots, identities.drop_last(), now);
        let identity = identities.last();
        let rows = seed::group(req.pairs, roots, identity);
        lemma_group_in_step(p.tables, req, identity, rows, now);
        seed::lemma_import_group(p.tables, req, identity, rows, now);
    }
}

proof fn lemma_imported_in_step(t: Tables, r: Seed, now: i64)
    requires
        t.sound(),
        in_step(t),
    ensures
        in_step(seed::imported(t, r, now).tables),
{
    let roots = order::sorted_set(seed::roots_of(r.pairs));
    let (u, changed) = seed::import_titles(t, r.workspaces, now);
    lemma_titles_in_step(t, r.workspaces, now);
    seed::lemma_import_titles(t, r.workspaces, now);
    lemma_groups_in_step(
        Progress {
            tables: u,
            lines: seed::roots_lines(r.pairs, roots),
            changed,
            failure: None,
        },
        r,
        roots,
        order::sorted_set(seed::winners(r.pairs, roots)),
        now,
    );
}

/// An import keeps the two records in step.
pub proof fn law_importing_keeps_placements_in_step(before: Registry, r: Seed, now: i64)
    requires
        before.sound(),
        in_step(before.tables),
    ensures
        in_step(seed::seed_deed(before, r, now).registry.tables),
{
    lemma_imported_in_step(before.tables, r, now);
}

/// Replaying an entry keeps the two records in step.
pub proof fn lemma_replayed_in_step(t: Tables, record: Record, now: i64)
    requires
        t.sound(),
        in_step(t),
    ensures
        replay::replayed(t, record, now) matches Ok(u) ==> in_step(u) && u.sound(),
{
    replay::lemma_replayed(t, record, now);
    match record {
        Record::Register(r) => {
            if let Ok(id) = register::registrant(t, r) {
                lemma_registered_in_step(t, r, id, now);
            }
        },
        Record::Assign(r) => {
            lemma_assigned_in_step(t, r, now);
        },
        Record::Upgrade(r) => {
            lemma_upgraded_in_step(t, r, mutations::upgrade_id(r), now);
        },
        Record::Seed(r) => {
            lemma_imported_in_step(t, r, now);
        },
        Record::Remove(r) => {
            if let Some(w) = r.workspace_id {
                lemma_dissolve_in_step(t, w);
            } else if let Some(id) = r.project_id {
                lemma_withdraw_in_step(t, id, r.successor, now);
            }
        },
        _ => {},
    }
}

/// Tables that are rebuilt from a journal are sound, and an audit of them finds
/// nothing.
pub proof fn law_rebuilt_tables_pass_their_audit(journal: Seq<Entry>)
    ensures
        replay::replay_all(journal) matches Ok(t) ==> t.sound() && in_step(t)
            && audit::mismatches(t).len() == 0,
    decreases journal.len(),
{
    if journal.len() == 0 {
        assert(in_step(Tables::empty()));
        replay::lemma_empty_sound();
        law_audits_find_what_is_out_of_step(Tables::empty());
    } else {
        law_rebuilt_tables_pass_their_audit(journal.drop_last());
        if let Ok(t) = replay::replay_all(journal.drop_last()) {
            lemma_replayed_in_step(t, journal.last().record, journal.last().created_at);
            if let Ok(u) = replay::replay_all(journal) {
                law_audits_find_what_is_out_of_step(u);
            }
        }
    }
}

proof fn lemma_nothing_differs<V>(table: Text, a: Seq<V>, b: Seq<V>, tell: spec_fn(V) -> Text)
    ensures
        differences::differing(table, a, b, tell).len() == 0 <==> a == b,
{
    if a == b {
        let stray = |x: V| !b.contains(x);
        let left = differences::strays(a, b);
        upkeep::lemma_filter(a, stray);
        if left.len() > 0 {
            assert(stray(left[0]));
            assert(a.contains(left[0]));
        }
    }
}

/// An audit finds nothing exactly where the two records are in step and the tables
/// are those that the journal leads to.
pub proof fn law_audits_hold_tables_against_the_journal(reg: Registry)
    ensures
        audit::findings(reg).len() == 0 <==> in_step(reg.tables) && laws_replay::rebuilds(reg),
{
    let t = reg.tables;
    law_audits_find_what_is_out_of_step(t);
    replay::lemma_retold(reg.journal);
    if let Ok(u) = replay::retold(reg.journal) {
        lemma_nothing_differs(
            "workspace"@,
            t.workspaces,
            u.workspaces,
            |w: Workspace| differences::workspace_told(w),
        );
        lemma_nothing_differs(
            "workspace_member"@,
            t.members,
            u.members,
            |m: Member| differences::member_told(m),
        );
        lemma_nothing_differs(
            "project"@,
            t.projects,
            u.projects,
            |p: Project| differences::project_told(p),
        );
        let tell = |l: Link| differences::link_told(l);
        lemma_nothing_differs("project_workspace"@, t.placements, u.placements, tell);
        lemma_nothing_differs("project_root"@, t.roots, u.roots, tell);
        lemma_nothing_differs("derived_root_parent"@, t.parents, u.parents, tell);
        lemma_nothing_differs("project_alias"@, t.aliases, u.aliases, tell);
    }
}

/// An audit finds nothing in tables that the journal leads to.
pub proof fn law_audits_pass_what_can_be_rebuilt(reg: Registry)
    requires
        laws_replay::rebuilds(reg),
    ensures
        audit::findings(reg).len() == 0,
{
    law_rebuilt_tables_pass_their_audit(reg.journal);
    law_audits_hold_tables_against_the_journal(reg);
}

} // verus!
