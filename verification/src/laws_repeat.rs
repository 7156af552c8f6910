//! What holds when a request is made again without a key: it finds everything
//! done and changes nothing.
use vstd::prelude::*;

use crate::model::{Assign, Link, Register, Registry, Tables, Upgrade};
use crate::text::Text;
use crate::{effects, laws_registration, laws_resolution, model, mutations, order, register, upkeep};

verus! {

proof fn lemma_found_all(t: Seq<Link>, keys: Seq<Text>, id: Text)
    requires
        forall|i: int| 0 <= i < keys.len() ==> #[trigger] model::target(t, keys[i]) == Some(id),
    ensures
        register::found(t, keys).len() == keys.len(),
        forall|i: int| 0 <= i < keys.len() ==> #[trigger] register::found(t, keys)[i] == id,
    decreases keys.len(),
{
    if keys.len() > 0 {
        let head = keys.drop_last();
        assert forall|i: int| 0 <= i < head.len() implies #[trigger] model::target(t, head[i])
            == Some(id) by {
            assert(head[i] == keys[i]);
            assert(model::target(t, keys[i]) == Some(id));
        }
        lemma_found_all(t, head, id);
        assert(model::target(t, keys[keys.len() - 1]) == Some(id));
    }
}

proof fn lemma_found_holds(t: Seq<Link>, keys: Seq<Text>, i: int)
    requires
        0 <= i < keys.len(),
        model::has(t, keys[i]),
    ensures
        register::found(t, keys).contains(model::target(t, keys[i]).unwrap()),
    decreases keys.len(),
{
    let to = model::target(t, keys[i]).unwrap();
    let head = keys.drop_last();
    let before = register::found(t, head);
    let all = register::found(t, keys);
    if i < head.len() {
        lemma_found_holds(t, head, i);
        let k = choose|k: int| 0 <= k < before.len() && before[k] == to;
        assert(all[k] == to);
    } else {
        assert(all[before.len() as int] == to);
    }
}

/// Where a request names no project, each of its paths is free or held by the
/// project that it registers.
proof fn lemma_holders(t: Tables, r: Register, id: Text)
    requires
        t.sound(),
        r.project_id is None,
        register::registrant(t, r) == Ok::<Text, crate::error::Failure>(id),
    ensures
        forall|i: int|
            0 <= i < r.roots.len() ==> register::foreign(t.roots, #[trigger] r.roots[i], id) is None,
        forall|i: int|
            0 <= i < r.parents.len() ==> register::foreign(
                t.parents,
                #[trigger] r.parents[i],
                id,
            ) is None,
{
    let a = register::found(t.roots, r.roots);
    let b = register::found(t.parents, r.parents);
    let all = a + b;
    let holders = register::owners(t, r);
    order::law_sorted_set(all);
    assert forall|i: int| 0 <= i < r.roots.len() implies register::foreign(
        t.roots,
        #[trigger] r.roots[i],
        id,
    ) is None by {
        if model::has(t.roots, r.roots[i]) {
            lemma_found_holds(t.roots, r.roots, i);
            let to = model::target(t.roots, r.roots[i]).unwrap();
            let k = choose|k: int| 0 <= k < a.len() && a[k] == to;
            assert(all[k] == to);
            assert(all.contains(to));
            assert(holders.contains(to));
        }
    }
    assert forall|i: int| 0 <= i < r.parents.len() implies register::foreign(
        t.parents,
        #[trigger] r.parents[i],
        id,
    ) is None by {
        if model::has(t.parents, r.parents[i]) {
            lemma_found_holds(t.parents, r.parents, i);
            let to = model::target(t.parents, r.parents[i]).unwrap();
            let k = choose|k: int| 0 <= k < b.len() && b[k] == to;
            assert(all[a.len() + k] == to);
            assert(all.contains(to));
            assert(holders.contains(to));
        }
    }
}

proof fn lemma_root_clashes_none(t: Tables, id: Text, roots: Seq<Text>)
    requires
        forall|i: int|
            0 <= i < roots.len() ==> register::root_clash(t, id, #[trigger] roots[i]) is None,
    ensures
        register::root_clashes(t, id, roots) is None,
    decreases roots.len(),
{
    if roots.len() > 0 {
        let rest = roots.drop_first();
        assert forall|i: int| 0 <= i < rest.len() implies register::root_clash(
            t,
            id,
            #[trigger] rest[i],
        ) is None by {
            assert(rest[i] == roots[i + 1]);
        }
        assert(register::root_clash(t, id, roots[0]) is None);
        lemma_root_clashes_none(t, id, rest);
    }
}

proof fn lemma_parent_clash_grows(rows: Seq<Link>, more: Seq<Link>, id: Text, parent: Text)
    requires
        forall|i: int|
            0 <= i < more.len() ==> (#[trigger] more[i]).target == id || rows.contains(more[i]),
        register::parent_clash(rows, id, parent) is None,
    ensures
        register::parent_clash(more, id, parent) is None,
    decreases more.len(),
{
    if more.len() > 0 {
        let rest = more.drop_first();
        assert forall|i: int| 0 <= i < rest.len() implies (#[trigger] rest[i]).target == id
            || rows.contains(rest[i]) by {
            assert(rest[i] == more[i + 1]);
        }
        lemma_parent_clash_grows(rows, rest, id, parent);
        if more[0].target != id {
            let k = choose|k: int| 0 <= k < rows.len() && rows[k] == more[0];
            laws_resolution::lemma_no_parent_clash(rows, id, parent, k);
        }
    }
}

proof fn lemma_parent_clashes_grow(
    rows: Seq<Link>,
    more: Seq<Link>,
    id: Text,
    parents: Seq<Text>,
)
    requires
        forall|i: int|
            0 <= i < more.len() ==> (#[trigger] more[i]).target == id || rows.contains(more[i]),
        register::parent_clashes(rows, id, parents) is None,
    ensures
        register::parent_clashes(more, id, parents) is None,
    decreases parents.len(),
{
    if parents.len() > 0 {
        lemma_parent_clash_grows(rows, more, id, parents[0]);
        lemma_parent_clashes_grow(rows, more, id, parents.drop_first());
    }
}

proof fn lemma_shelter_clash_grows(rows: Seq<Link>, more: Seq<Link>, id: Text, root: Text)
    requires
        forall|i: int|
            0 <= i < more.len() ==> (#[trigger] more[i]).target == id || rows.contains(more[i]),
        register::shelter_clash(rows, id, root) is None,
    ensures
        register::shelter_clash(more, id, root) is None,
    decreases more.len(),
{
    if more.len() > 0 {
        let rest = more.drop_first();
        assert forall|i: int| 0 <= i < rest.len() implies (#[trigger] rest[i]).target == id
            || rows.contains(rest[i]) by {
            assert(rest[i] == more[i + 1]);
        }
        lemma_shelter_clash_grows(rows, rest, id, root);
        if more[0].target != id {
            let k = choose|k: int| 0 <= k < rows.len() && rows[k] == more[0];
            laws_resolution::lemma_no_shelter_clash(rows, id, root, k);
        }
    }
}

proof fn lemma_shelter_clashes_grow(rows: Seq<Link>, more: Seq<Link>, id: Text, roots: Seq<Text>)
    requires
        forall|i: int|
            0 <= i < more.len() ==> (#[trigger] more[i]).target == id || rows.contains(more[i]),
        register::shelter_clashes(rows, id, roots) is None,
    ensures
        register::shelter_clashes(more, id, roots) is None,
    decreases roots.len(),
{
    if roots.len() > 0 {
        lemma_shelter_clash_grows(rows, more, id, roots[0]);
        lemma_shelter_clashes_grow(rows, more, id, roots.drop_first());
    }
}

proof fn lemma_added_rows(t: Seq<Link>, keys: Seq<Text>, to: Text, at: i64, i: int)
    requires
        0 <= i < effects::add_links(t, keys, to, at).len(),
    ensures
        effects::add_links(t, keys, to, at)[i].target == to || t.contains(
            effects::add_links(t, keys, to, at)[i],
        ),
    decreases keys.len(),
{
    if keys.len() > 0 {
        let head = effects::add_links(t, keys.drop_last(), to, at);
        if i < head.len() {
            lemma_added_rows(t, keys.drop_last(), to, at, i);
        }
    } else {
        assert(t[i] == effects::add_links(t, keys, to, at)[i]);
    }
}

/// A registration that went through and is made again finds the same project and
/// changes nothing.
pub proof fn law_registering_again_changes_nothing(
    before: Registry,
    r: Register,
    id: Text,
    now: i64,
    later: i64,
)
    requires
        before.sound(),
        laws_registration::goes_through(before, r, id, now),
    ensures
        ({
            let after = register::register_deed(before, r, now).registry;
            let again = register::register_deed(after, r, later);
            &&& register::registrant(after.tables, r) == Ok::<Text, crate::error::Failure>(id)
            &&& again.registry == after
            &&& again.result matches Ok(d) && !d.changed
        }),
{
    let t = before.tables;
    if register::register_changes(t, r, id) {
        let u = register::registered(t, r, id, now);
        let all = effects::implicit_ids(r.roots);
        register::lemma_named(t, id, r.name, now);
        // The rows that are there now.
        assert forall|i: int| 0 <= i < r.roots.len() implies #[trigger] model::target(
            u.roots,
            r.roots[i],
        ) == Some(id) && register::root_clash(u, id, r.roots[i]) is None by {
            laws_resolution::lemma_no_root_clash(t, id, r.roots, i);
            effects::lemma_add_links(t.roots, r.roots, id, now, r.roots[i]);
            effects::lemma_add_links(t.parents, r.parents, id, 0, r.roots[i]);
        }
        assert forall|i: int| 0 <= i < r.roots.len() implies register::root_clash(
            u,
            id,
            #[trigger] r.roots[i],
        ) is None by {
            assert(model::target(u.roots, r.roots[i]) == Some(id));
        }
        lemma_root_clashes_none(u, id, r.roots);
        assert forall|i: int| 0 <= i < u.roots.len() implies (#[trigger] u.roots[i]).target == id
            || t.roots.contains(u.roots[i]) by {
            lemma_added_rows(t.roots, r.roots, id, now, i);
        }
        assert forall|i: int| 0 <= i < u.parents.len() implies (
        #[trigger] u.parents[i]).target == id || t.parents.contains(u.parents[i]) by {
            lemma_added_rows(t.parents, r.parents, id, 0, i);
        }
        lemma_parent_clashes_grow(t.roots, u.roots, id, r.parents);
        lemma_shelter_clashes_grow(t.parents, u.parents, id, r.roots);
        if let Some(w) = r.workspace_id {
            upkeep::lemma_add_link(t.placements, Link { key: id, target: w, at: 0 }, id);
        }
        // Whom the request registers.
        if r.project_id is None {
            lemma_holders(t, r, id);
            assert forall|i: int| 0 <= i < r.parents.len() implies #[trigger] model::target(
                u.parents,
                r.parents[i],
            ) == Some(id) by {
                effects::lemma_add_links(t.parents, r.parents, id, 0, r.parents[i]);
                assert(register::foreign(t.parents, r.parents[i], id) is None);
            }
            lemma_found_all(u.roots, r.roots, id);
            lemma_found_all(u.parents, r.parents, id);
            let a = register::found(u.roots, r.roots);
            let b = register::found(u.parents, r.parents);
            assert forall|i: int| 0 <= i < (a + b).len() implies #[trigger] (a + b)[i] == id by {
                if i < a.len() {
                    assert(a[i] == id);
                } else {
                    assert(b[i - a.len()] == id);
                }
            }
            order::lemma_one_text(a + b, id);
            if r.roots.len() + r.parents.len() == 0 {
                assert(register::found(t.roots, r.roots) + register::found(t.parents, r.parents)
                    =~= Seq::empty());
                order::lemma_one_text(Seq::empty(), id);
            }
        }
        // Nothing is left to change.
        if model::live(t.projects, id) {
            upkeep::lemma_rename_project(t.projects, id, r.name, now, id);
            upkeep::lemma_live(t.projects, id);
        } else {
            upkeep::lemma_add_project(
                t.projects,
                effects::new_project(id, r.name, None, now),
                id,
            );
        }
        assert(register::registered_as(u, id, r.name));
        assert forall|i: int| 0 <= i < r.roots.len() implies model::has(
            u.roots,
            #[trigger] r.roots[i],
        ) by {
            assert(model::target(u.roots, r.roots[i]) == Some(id));
        }
        assert forall|i: int| 0 <= i < r.parents.len() implies model::has(
            u.parents,
            #[trigger] r.parents[i],
        ) by {
            effects::lemma_add_links(t.parents, r.parents, id, 0, r.parents[i]);
        }
        assert forall|i: int| 0 <= i < all.len() implies model::has(
            u.aliases,
            #[trigger] all[i],
        ) by {
            effects::lemma_add_links(t.aliases, all, id, now, all[i]);
        }
        assert(!register::register_changes(u, r, id));
        assert(register::register_refusal(u, r, id) is None);
    }
}

/// A placement that went through and is made again changes nothing.
pub proof fn law_assigning_again_changes_nothing(
    before: Registry,
    r: Assign,
    now: i64,
    later: i64,
)
    requires
        before.sound(),
        mutations::assign_deed(before, r, now).result is Ok,
    ensures
        ({
            let after = mutations::assign_deed(before, r, now).registry;
            let again = mutations::assign_deed(after, r, later);
            &&& again.registry == after
            &&& again.result matches Ok(d) && !d.changed
        }),
{
    let t = before.tables;
    upkeep::lemma_add_link(
        t.placements,
        Link { key: r.project_id, target: r.workspace_id, at: 0 },
        r.project_id,
    );
}

/// An upgrade that went through and is made again changes nothing.
pub proof fn law_upgrading_again_changes_nothing(
    before: Registry,
    r: Upgrade,
    now: i64,
    later: i64,
)
    requires
        before.sound(),
        mutations::upgrade_deed(before, r, now).result is Ok,
    ensures
        ({
            let after = mutations::upgrade_deed(before, r, now).registry;
            let again = mutations::upgrade_deed(after, r, later);
            &&& again.registry == after
            &&& again.result matches Ok(d) && !d.changed
        }),
{
    let t = before.tables;
    let id = mutations::upgrade_id(r);
    if mutations::upgrade_changes(t, r, id) {
        let u = mutations::upgraded(t, r, id, now);
        let claimed = effects::add_links(t.aliases, effects::implicit_ids(r.roots), id, now);
        effects::lemma_add_links(
            t.aliases,
            effects::implicit_ids(r.roots),
            id,
            now,
            r.implicit_id,
        );
        upkeep::lemma_put_link(
            claimed,
            Link { key: r.implicit_id, target: id, at: now },
            r.implicit_id,
        );
        if model::live(t.projects, id) {
            upkeep::lemma_rename_project(t.projects, id, r.name, now, id);
            upkeep::lemma_live(t.projects, id);
        } else {
            upkeep::lemma_add_project(
                t.projects,
                effects::new_project(id, r.name, None, now),
                id,
            );
        }
        assert forall|i: int| 0 <= i < r.roots.len() implies model::has(
            u.roots,
            #[trigger] r.roots[i],
        ) by {
            effects::lemma_add_links(t.roots, r.roots, id, now, r.roots[i]);
        }
    }
}

} // verus!
