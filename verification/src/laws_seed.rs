//! What holds of imports: they add and never take away, and doing one again
//! changes nothing.
use vstd::prelude::*;

use crate::model::{Link, Pair, Registry, Seed, Tables, Workspace};
use crate::seed::{Line, Progress};
use crate::text::Text;
use crate::{effects, ids, model, order, seed, upkeep};

verus! {

/// Whether everything registered stays as it is: projects, and what roots,
/// parents, aliases and placements lead to.
pub open spec fn grows(t: Tables, u: Tables) -> bool {
    &&& forall|id: Text|
        model::live(t.projects, id) ==> #[trigger] model::project(u.projects, id)
            == model::project(t.projects, id)
    &&& forall|key: Text|
        model::has(t.roots, key) ==> #[trigger] model::target(u.roots, key) == model::target(
            t.roots,
            key,
        )
    &&& forall|key: Text|
        model::has(t.aliases, key) ==> #[trigger] model::target(u.aliases, key) == model::target(
            t.aliases,
            key,
        )
    &&& forall|key: Text|
        model::has(t.placements, key) ==> #[trigger] model::target(u.placements, key)
            == model::target(t.placements, key)
    &&& u.parents == t.parents
}

proof fn lemma_grows_transitive(a: Tables, b: Tables, c: Tables)
    requires
        grows(a, b),
        grows(b, c),
    ensures
        grows(a, c),
{
    assert forall|id: Text| model::live(a.projects, id) implies #[trigger] model::project(
        c.projects,
        id,
    ) == model::project(a.projects, id) by {
        assert(model::project(b.projects, id) == model::project(a.projects, id));
    }
    assert forall|key: Text| model::has(a.roots, key) implies #[trigger] model::target(
        c.roots,
        key,
    ) == model::target(a.roots, key) by {
        assert(model::target(b.roots, key) == model::target(a.roots, key));
    }
    assert forall|key: Text| model::has(a.aliases, key) implies #[trigger] model::target(
        c.aliases,
        key,
    ) == model::target(a.aliases, key) by {
        assert(model::target(b.aliases, key) == model::target(a.aliases, key));
    }
    assert forall|key: Text| model::has(a.placements, key) implies #[trigger] model::target(
        c.placements,
        key,
    ) == model::target(a.placements, key) by {
        assert(model::target(b.placements, key) == model::target(a.placements, key));
    }
}

proof fn lemma_moved_in_grows(
    t: Tables,
    project: Text,
    name: Text,
    identity: Text,
    free: Seq<Text>,
    now: i64,
)
    requires
        t.sound(),
    ensures
        grows(t, seed::moved_in(t, project, name, identity, free, now)),
{
    let u = seed::moved_in(t, project, name, identity, free, now);
    let row = effects::new_project(project, name, Some(identity), now);
    assert forall|id: Text| model::live(t.projects, id) implies #[trigger] model::project(
        u.projects,
        id,
    ) == model::project(t.projects, id) by {
        upkeep::lemma_add_project(t.projects, row, id);
    }
    assert forall|key: Text| model::has(t.roots, key) implies #[trigger] model::target(
        u.roots,
        key,
    ) == model::target(t.roots, key) by {
        effects::lemma_add_links(t.roots, free, project, now, key);
    }
    assert forall|key: Text| model::has(t.aliases, key) implies #[trigger] model::target(
        u.aliases,
        key,
    ) == model::target(t.aliases, key) by {
        effects::lemma_add_links(t.aliases, effects::implicit_ids(free), project, now, key);
    }
}

proof fn lemma_group_grows(t: Tables, req: Seed, identity: Text, rows: Seq<Pair>, now: i64)
    requires
        t.sound(),
    ensures
        grows(t, seed::import_group(t, req, identity, rows, now).tables),
        seed::import_group(t, req, identity, rows, now).tables.workspaces == t.workspaces,
{
    if let Some(project) = seed::landing(t, identity).0 {
        let name = seed::import_name(req.names, identity, rows);
        let free = seed::free_roots(t, rows);
        lemma_moved_in_grows(t, project, name, identity, free, now);
        let u = seed::moved_in(t, project, name, identity, free, now);
        let places = seed::claimed(req.claims, identity);
        let v = u.place(project, places[0]);
        assert forall|key: Text| model::has(u.placements, key) implies #[trigger] model::target(
            v.placements,
            key,
        ) == model::target(u.placements, key) by {
            upkeep::lemma_add_link(
                u.placements,
                Link { key: project, target: places[0], at: 0 },
                key,
            );
        }
        assert(grows(u, v));
        lemma_grows_transitive(t, u, v);
    }
}

proof fn lemma_groups_grow(
    start: Progress,
    req: Seed,
    roots: Seq<Text>,
    identities: Seq<Text>,
    now: i64,
)
    requires
        start.tables.sound(),
    ensures
        ({
            let u = seed::import_groups(start, req, roots, identities, now).tables;
            u.sound() && grows(start.tables, u) && u.workspaces == start.tables.workspaces
        }),
    decreases identities.len(),
{
    if identities.len() > 0 {
        lemma_groups_grow(start, req, roots, identities.drop_last(), now);
        let p = seed::import_groups(start, req, roots, identities.drop_last(), now);
        let identity = identities.last();
        let rows = seed::group(req.pairs, roots, identity);
        lemma_group_grows(p.tables, req, identity, rows, now);
        seed::lemma_import_group(p.tables, req, identity, rows, now);
        let u = seed::import_groups(start, req, roots, identities, now).tables;
        if p.failure is None {
            lemma_grows_transitive(start.tables, p.tables, u);
        }
    }
}

/// Importing workspaces changes workspaces alone.
pub proof fn lemma_titles_grow(t: Tables, titles: Seq<(Text, Text)>, now: i64)
    ensures
        ({
            let u = seed::import_titles(t, titles, now).0;
            u == (Tables { workspaces: u.workspaces, ..t })
        }),
    decreases titles.len(),
{
    if titles.len() > 0 {
        lemma_titles_grow(t, titles.drop_last(), now);
    }
}

/// An import takes nothing from anyone: projects, roots, parents, aliases and
/// placements that were registered stay as they were.
pub proof fn law_imports_take_nothing_away(before: Registry, r: Seed, now: i64)
    requires
        before.sound(),
    ensures
        grows(before.tables, seed::seed_deed(before, r, now).registry.tables),
{
    let t = before.tables;
    let roots = order::sorted_set(seed::roots_of(r.pairs));
    let (u, changed) = seed::import_titles(t, r.workspaces, now);
    lemma_titles_grow(t, r.workspaces, now);
    seed::lemma_import_titles(t, r.workspaces, now);
    lemma_groups_grow(
        Progress {
            tables: u,
            lines: seed::roots_lines(r.pairs, roots),
            changed,
            failure: None,
        },
        r,
        roots,
        order::sorted_set(seed::winners(r.pairs, roots)),
        now,
    );
    lemma_grows_transitive(t, u, seed::seed_deed(before, r, now).registry.tables);
}

/// Whether importing an identity has nothing left to do: it lands nowhere, or
/// its project is there and all its roots are registered.
spec fn done_with(t: Tables, identity: Text, rows: Seq<Pair>) -> bool {
    match seed::landing(t, identity).0 {
        None => true,
        Some(project) => model::live(t.projects, project) && forall|i: int|
            0 <= i < rows.len() ==> model::has(t.roots, (#[trigger] rows[i]).root),
    }
}

proof fn lemma_done_is_noop(t: Tables, req: Seed, identity: Text, rows: Seq<Pair>, now: i64)
    requires
        done_with(t, identity, rows),
    ensures
        ({
            let p = seed::import_group(t, req, identity, rows, now);
            p.tables == t && !p.changed && p.failure is None
        }),
{
    if let Some(project) = seed::landing(t, identity).0 {
        let free = seed::free_roots(t, rows);
        let keep = |root: Text| !model::has(t.roots, root);
        upkeep::lemma_filter(seed::roots_of(rows), keep);
        if free.len() > 0 {
            assert(keep(free[0]));
            assert(seed::roots_of(rows).contains(free[0]));
            let i = choose|i: int|
                0 <= i < seed::roots_of(rows).len() && seed::roots_of(rows)[i] == free[0];
            assert(model::has(t.roots, rows[i].root));
        }
    }
}

proof fn lemma_group_is_done(t: Tables, req: Seed, identity: Text, rows: Seq<Pair>, now: i64)
    requires
        t.sound(),
        seed::import_group(t, req, identity, rows, now).failure is None,
    ensures
        done_with(seed::import_group(t, req, identity, rows, now).tables, identity, rows),
{
    let u = seed::import_group(t, req, identity, rows, now).tables;
    if let Some(project) = seed::landing(t, identity).0 {
        let name = seed::import_name(req.names, identity, rows);
        let free = seed::free_roots(t, rows);
        let row = effects::new_project(project, name, Some(identity), now);
        upkeep::lemma_add_project(t.projects, row, project);
        assert(project == ids::seeded_id(identity));
        assert(model::live(u.projects, project));
        assert(seed::landing(u, identity).0 == Some(project));
        let keep = |root: Text| !model::has(t.roots, root);
        let all = seed::roots_of(rows);
        upkeep::lemma_filter(all, keep);
        assert forall|i: int| 0 <= i < rows.len() implies model::has(
            u.roots,
            (#[trigger] rows[i]).root,
        ) by {
            let root = rows[i].root;
            assert(all[i] == root);
            if !model::has(t.roots, root) {
                assert(keep(all[i]));
                assert(free.contains(root));
            }
            effects::lemma_add_links(t.roots, free, project, now, root);
        }
    }
}

proof fn lemma_group_keeps_done(
    t: Tables,
    req: Seed,
    identity: Text,
    rows: Seq<Pair>,
    now: i64,
    other: Text,
    other_rows: Seq<Pair>,
)
    requires
        t.sound(),
        done_with(t, other, other_rows),
    ensures
        done_with(seed::import_group(t, req, identity, rows, now).tables, other, other_rows),
{
    let u = seed::import_group(t, req, identity, rows, now).tables;
    lemma_group_grows(t, req, identity, rows, now);
    let minted = ids::seeded_id(other);
    if model::live(t.projects, minted) {
        assert(model::project(u.projects, minted) == model::project(t.projects, minted));
        if seed::landing(t, other).0 is Some {
            assert forall|i: int| 0 <= i < other_rows.len() implies model::has(
                u.roots,
                (#[trigger] other_rows[i]).root,
            ) by {
                assert(model::has(t.roots, other_rows[i].root));
                assert(model::target(u.roots, other_rows[i].root) == model::target(
                    t.roots,
                    other_rows[i].root,
                ));
            }
        }
    } else {
        assert(seed::landing(t, other).0 is None);
        assert(model::has(t.aliases, minted));
        assert(model::target(u.aliases, minted) == model::target(t.aliases, minted));
        if let Some(project) = seed::landing(t, identity).0 {
            assert(project == ids::seeded_id(identity));
            if project == minted {
                assert(seed::landing(t, identity).0 is None);
            }
            let name = seed::import_name(req.names, identity, rows);
            upkeep::lemma_add_project(
                t.projects,
                effects::new_project(project, name, Some(identity), now),
                minted,
            );
        }
        assert(!model::live(u.projects, minted));
    }
}

proof fn lemma_groups_are_done(
    start: Progress,
    req: Seed,
    roots: Seq<Text>,
    identities: Seq<Text>,
    now: i64,
)
    requires
        start.tables.sound(),
        seed::import_groups(start, req, roots, identities, now).failure is None,
    ensures
        forall|i: int|
            0 <= i < identities.len() ==> done_with(
                seed::import_groups(start, req, roots, identities, now).tables,
                #[trigger] identities[i],
                seed::group(req.pairs, roots, identities[i]),
            ),
    decreases identities.len(),
{
    if identities.len() > 0 {
        let head = identities.drop_last();
        let p = seed::import_groups(start, req, roots, head, now);
        assert(p.failure is None);
        lemma_groups_are_done(start, req, roots, head, now);
        lemma_groups_grow(start, req, roots, head, now);
        let identity = identities.last();
        let rows = seed::group(req.pairs, roots, identity);
        lemma_group_is_done(p.tables, req, identity, rows, now);
        let u = seed::import_groups(start, req, roots, identities, now).tables;
        assert forall|i: int| 0 <= i < identities.len() implies done_with(
            u,
            #[trigger] identities[i],
            seed::group(req.pairs, roots, identities[i]),
        ) by {
            if i < head.len() {
                assert(head[i] == identities[i]);
                lemma_group_keeps_done(
                    p.tables,
                    req,
                    identity,
                    rows,
                    now,
                    identities[i],
                    seed::group(req.pairs, roots, identities[i]),
                );
            }
        }
    }
}

proof fn lemma_done_groups_are_noops(
    start: Progress,
    req: Seed,
    roots: Seq<Text>,
    identities: Seq<Text>,
    now: i64,
)
    requires
        !start.changed,
        start.failure is None,
        forall|i: int|
            0 <= i < identities.len() ==> done_with(
                start.tables,
                #[trigger] identities[i],
                seed::group(req.pairs, roots, identities[i]),
            ),
    ensures
        ({
            let p = seed::import_groups(start, req, roots, identities, now);
            p.tables == start.tables && !p.changed && p.failure is None
        }),
    decreases identities.len(),
{
    if identities.len() > 0 {
        let head = identities.drop_last();
        assert forall|i: int| 0 <= i < head.len() implies done_with(
            start.tables,
            #[trigger] head[i],
            seed::group(req.pairs, roots, head[i]),
        ) by {
            assert(head[i] == identities[i]);
        }
        lemma_done_groups_are_noops(start, req, roots, head, now);
        let identity = identities[identities.len() - 1];
        lemma_done_is_noop(
            start.tables,
            req,
            identity,
            seed::group(req.pairs, roots, identity),
            now,
        );
    }
}

/// Whether no two workspaces of an import have one id and different names.
pub open spec fn agreeing(titles: Seq<(Text, Text)>) -> bool {
    forall|i: int, j: int|
        0 <= i < j < titles.len() && (#[trigger] titles[i]).0 == (#[trigger] titles[j]).0
            ==> titles[i].1 == titles[j].1
}

/// Whether every workspace of an import is there under its name.
spec fn titled(t: Tables, titles: Seq<(Text, Text)>) -> bool {
    forall|i: int|
        0 <= i < titles.len() ==> (model::workspace(
            t.workspaces,
            (#[trigger] titles[i]).0,
        ) matches Some(w) && w.name == titles[i].1)
}

proof fn lemma_titles_are_titled(t: Tables, titles: Seq<(Text, Text)>, now: i64)
    requires
        t.sound(),
        agreeing(titles),
    ensures
        titled(seed::import_titles(t, titles, now).0, titles),
    decreases titles.len(),
{
    if titles.len() > 0 {
        let head = titles.drop_last();
        assert forall|i: int, j: int|
            0 <= i < j < head.len() && (#[trigger] head[i]).0 == (
            #[trigger] head[j]).0 implies head[i].1 == head[j].1 by {
            assert(titles[i].0 == titles[j].0);
        }
        lemma_titles_are_titled(t, head, now);
        seed::lemma_import_titles(t, head, now);
        let m = seed::import_titles(t, head, now).0;
        let u = seed::import_titles(t, titles, now).0;
        let (id, name) = titles.last();
        assert forall|i: int| 0 <= i < titles.len() implies (model::workspace(
            u.workspaces,
            (#[trigger] titles[i]).0,
        ) matches Some(w) && w.name == titles[i].1) by {
            let at = titles[i].0;
            upkeep::lemma_known(m.workspaces, at);
            upkeep::lemma_rename_workspace(m.workspaces, id, name, now, at);
            upkeep::lemma_add_workspace(
                m.workspaces,
                Workspace { workspace_id: id, name, created_at: now, updated_at: now },
                at,
            );
            if i < head.len() {
                assert(head[i] == titles[i]);
                if at == id {
                    assert(titles[i].0 == titles[titles.len() - 1].0);
                }
            }
        }
    }
}

proof fn lemma_titled_is_noop(t: Tables, titles: Seq<(Text, Text)>, now: i64)
    requires
        titled(t, titles),
    ensures
        seed::import_titles(t, titles, now) == (t, false),
    decreases titles.len(),
{
    if titles.len() > 0 {
        let head = titles.drop_last();
        assert forall|i: int| 0 <= i < head.len() implies (model::workspace(
            t.workspaces,
            (#[trigger] head[i]).0,
        ) matches Some(w) && w.name == head[i].1) by {
            assert(head[i] == titles[i]);
        }
        lemma_titled_is_noop(t, head, now);
        assert(titles[titles.len() - 1] == titles.last());
    }
}

pub proof fn lemma_titles_unchanged(t: Tables, titles: Seq<(Text, Text)>, now: i64)
    ensures
        !seed::import_titles(t, titles, now).1 ==> seed::import_titles(t, titles, now).0 == t,
    decreases titles.len(),
{
    if titles.len() > 0 {
        lemma_titles_unchanged(t, titles.drop_last(), now);
    }
}

pub proof fn lemma_groups_unchanged(
    start: Progress,
    req: Seed,
    roots: Seq<Text>,
    identities: Seq<Text>,
    now: i64,
)
    ensures
        ({
            let p = seed::import_groups(start, req, roots, identities, now);
            !p.changed ==> !start.changed && p.tables == start.tables
        }),
    decreases identities.len(),
{
    if identities.len() > 0 {
        lemma_groups_unchanged(start, req, roots, identities.drop_last(), now);
    }
}

/// The line on an identity that is imported into the project it was imported into
/// before.
pub open spec fn rejoined_line(identity: Text) -> Line {
    Line {
        project_id: Some(ids::seeded_id(identity)),
        ..seed::line("rejoined"@, identity)
    }
}

/// The identities that an import imports or refuses, one by one.
pub open spec fn contestants(r: Seed) -> Seq<Text> {
    seed::winners(r.pairs, order::sorted_set(seed::roots_of(r.pairs)))
}

proof fn lemma_group_rejoins(t: Tables, req: Seed, identity: Text, rows: Seq<Pair>, now: i64)
    requires
        done_with(t, identity, rows),
        seed::landing(t, identity).0 is Some,
    ensures
        seed::import_group(t, req, identity, rows, now).lines.contains(rejoined_line(identity)),
{
    let lines = seed::import_group(t, req, identity, rows, now).lines;
    assert(seed::landing(t, identity).1 =~= seq![rejoined_line(identity)]);
    assert(lines[0] == rejoined_line(identity));
}

proof fn lemma_groups_rejoin(
    start: Progress,
    req: Seed,
    roots: Seq<Text>,
    identities: Seq<Text>,
    now: i64,
    k: int,
)
    requires
        !start.changed,
        start.failure is None,
        0 <= k < identities.len(),
        seed::landing(start.tables, identities[k]).0 is Some,
        forall|i: int|
            0 <= i < identities.len() ==> done_with(
                start.tables,
                #[trigger] identities[i],
                seed::group(req.pairs, roots, identities[i]),
            ),
    ensures
        seed::import_groups(start, req, roots, identities, now).lines.contains(
            rejoined_line(identities[k]),
        ),
    decreases identities.len(),
{
    let head = identities.drop_last();
    let last = identities.len() - 1;
    let line = rejoined_line(identities[k]);
    assert forall|i: int| 0 <= i < head.len() implies done_with(
        start.tables,
        #[trigger] head[i],
        seed::group(req.pairs, roots, head[i]),
    ) by {
        assert(head[i] == identities[i]);
    }
    lemma_done_groups_are_noops(start, req, roots, head, now);
    let p = seed::import_groups(start, req, roots, head, now);
    let rows = seed::group(req.pairs, roots, identities[last]);
    let q = seed::import_group(p.tables, req, identities[last], rows, now);
    let all = p.lines + q.lines;
    if k < last {
        lemma_groups_rejoin(start, req, roots, head, now, k);
        let i = choose|i: int| 0 <= i < p.lines.len() && p.lines[i] == line;
        assert(all[i] == line);
    } else {
        lemma_group_rejoins(p.tables, req, identities[k], rows, now);
        let i = choose|i: int| 0 <= i < q.lines.len() && q.lines[i] == line;
        assert(all[p.lines.len() + i] == line);
    }
}

/// An import that went through and is done again changes nothing, where its
/// workspaces agree on their names, and reports each identity that has its project
/// as rejoined.
pub proof fn law_importing_again_changes_nothing(before: Registry, r: Seed, now: i64, later: i64)
    requires
        before.sound(),
        agreeing(r.workspaces),
        seed::seed_deed(before, r, now).result is Ok,
    ensures
        ({
            let after = seed::seed_deed(before, r, now).registry;
            let again = seed::seed_deed(after, r, later);
            let lines = seed::imported(after.tables, r, later).lines;
            &&& again.registry == after
            &&& again.result matches Ok(d) && !d.changed && d.fields == seed::seed_fields(lines)
            &&& forall|x: Text| #[trigger]
                contestants(r).contains(x) && seed::landing(after.tables, x).0 is Some
                    ==> lines.contains(rejoined_line(x))
            &&& forall|x: Text| #[trigger]
                contestants(r).contains(x) && seed::landing(after.tables, x).0 is Some
                    ==> (model::project(after.tables.projects, ids::seeded_id(x)) matches Some(p)
                    && p.seed_identity == Some(x))
        }),
{
    let t = before.tables;
    let roots = order::sorted_set(seed::roots_of(r.pairs));
    let identities = order::sorted_set(seed::winners(r.pairs, roots));
    let (u, changed) = seed::import_titles(t, r.workspaces, now);
    lemma_titles_are_titled(t, r.workspaces, now);
    seed::lemma_import_titles(t, r.workspaces, now);
    let start = Progress {
        tables: u,
        lines: seed::roots_lines(r.pairs, roots),
        changed,
        failure: None,
    };
    lemma_groups_are_done(start, r, roots, identities, now);
    lemma_groups_grow(start, r, roots, identities, now);
    let v = seed::import_groups(start, r, roots, identities, now).tables;
    lemma_titles_unchanged(t, r.workspaces, now);
    lemma_groups_unchanged(start, r, roots, identities, now);
    assert(seed::seed_deed(before, r, now).registry.tables == v);
    assert(titled(v, r.workspaces));
    lemma_titled_is_noop(v, r.workspaces, later);
    let restart = Progress {
        tables: v,
        lines: seed::roots_lines(r.pairs, roots),
        changed: false,
        failure: None,
    };
    lemma_done_groups_are_noops(restart, r, roots, identities, later);
    order::law_sorted_set(seed::winners(r.pairs, roots));
    assert forall|x: Text| #[trigger]
        contestants(r).contains(x) && seed::landing(v, x).0 is Some implies seed::imported(
        v,
        r,
        later,
    ).lines.contains(rejoined_line(x)) && (model::project(v.projects, ids::seeded_id(x)) matches Some(
        p,
    ) && p.seed_identity == Some(x)) by {
        assert(identities.contains(x));
        let k = choose|k: int| 0 <= k < identities.len() && identities[k] == x;
        assert(done_with(v, identities[k], seed::group(r.pairs, roots, identities[k])));
        lemma_groups_rejoin(restart, r, roots, identities, later, k);
    }
}

} // verus!
