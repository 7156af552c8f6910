//! What holds between mutations and the queries after them.
use vstd::prelude::*;

use crate::model::{Entry, Link, Member, Project, Register, Registry, Remove, Tables, Upgrade};
use crate::text::Text;
use crate::{effects, ids, model, mutations, order, paths, queries, register, upkeep};

verus! {

/// Where no root clashes, none of them does.
pub proof fn lemma_no_root_clash(t: Tables, id: Text, roots: Seq<Text>, i: int)
    requires
        register::root_clashes(t, id, roots) is None,
        0 <= i < roots.len(),
    ensures
        register::root_clash(t, id, roots[i]) is None,
    decreases roots.len(),
{
    if i > 0 {
        lemma_no_root_clash(t, id, roots.drop_first(), i - 1);
        assert(roots.drop_first()[i - 1] == roots[i]);
    }
}

/// Where a parent does not clash, no root of another project lies in it.
pub proof fn lemma_no_parent_clash(rows: Seq<Link>, id: Text, parent: Text, i: int)
    requires
        register::parent_clash(rows, id, parent) is None,
        0 <= i < rows.len(),
    ensures
        rows[i].target == id || !paths::contains_path(parent, rows[i].key),
    decreases rows.len(),
{
    if i > 0 {
        lemma_no_parent_clash(rows.drop_first(), id, parent, i - 1);
        assert(rows.drop_first()[i - 1] == rows[i]);
    }
}

proof fn lemma_no_parent_clashes(rows: Seq<Link>, id: Text, parents: Seq<Text>, i: int)
    requires
        register::parent_clashes(rows, id, parents) is None,
        0 <= i < parents.len(),
    ensures
        register::parent_clash(rows, id, parents[i]) is None,
    decreases parents.len(),
{
    if i > 0 {
        lemma_no_parent_clashes(rows, id, parents.drop_first(), i - 1);
        assert(parents.drop_first()[i - 1] == parents[i]);
    }
}

/// Where a root does not clash, it lies in no parent of another project.
pub proof fn lemma_no_shelter_clash(rows: Seq<Link>, id: Text, root: Text, i: int)
    requires
        register::shelter_clash(rows, id, root) is None,
        0 <= i < rows.len(),
    ensures
        rows[i].target == id || !paths::contains_path(rows[i].key, root),
    decreases rows.len(),
{
    if i > 0 {
        lemma_no_shelter_clash(rows.drop_first(), id, root, i - 1);
        assert(rows.drop_first()[i - 1] == rows[i]);
    }
}

proof fn lemma_no_shelter_clashes(rows: Seq<Link>, id: Text, roots: Seq<Text>, i: int)
    requires
        register::shelter_clashes(rows, id, roots) is None,
        0 <= i < roots.len(),
    ensures
        register::shelter_clash(rows, id, roots[i]) is None,
    decreases roots.len(),
{
    if i > 0 {
        lemma_no_shelter_clashes(rows, id, roots.drop_first(), i - 1);
        assert(roots.drop_first()[i - 1] == roots[i]);
    }
}

/// After an upgrade that goes through, the old id leads to the project, unless
/// it is a registered project itself.
pub proof fn law_upgraded_ids_stay_aliases(before: Registry, r: Upgrade, now: i64)
    requires
        before.sound(),
        mutations::upgrade_deed(before, r, now).result is Ok,
        r.implicit_id != mutations::upgrade_id(r),
        !model::live(before.tables.projects, r.implicit_id),
    ensures
        ({
            let after = mutations::upgrade_deed(before, r, now).registry;
            let found = queries::trace(after, r.implicit_id);
            found.project_id == mutations::upgrade_id(r) && found.via == "alias"@ && !found.gone
        }),
{
    let t = before.tables;
    let id = mutations::upgrade_id(r);
    register::lemma_named(t, id, r.name, now);
    let a = register::named(t, id, r.name, now).claim_roots(r.roots, id, now);
    effects::lemma_add_links(t.aliases, effects::implicit_ids(r.roots), id, now, r.implicit_id);
    upkeep::lemma_put_link(
        a.aliases,
        Link { key: r.implicit_id, target: id, at: now },
        r.implicit_id,
    );
}

/// Whether a removal is of a project and goes through.
pub open spec fn withdraws(before: Registry, r: Remove, id: Text, now: i64) -> bool {
    &&& r.workspace_id is None
    &&& r.project_id == Some(id)
    &&& mutations::remove_deed(before, r, now).result is Ok
}

/// A project that is removed is gone: it is not registered, nothing leads to it,
/// and it is placed nowhere. What was known of it on other devices stays.
pub proof fn law_removed_projects_are_gone(before: Registry, r: Remove, id: Text, now: i64)
    requires
        before.sound(),
        withdraws(before, r, id, now),
    ensures
        ({
            let after = mutations::remove_deed(before, r, now).registry.tables;
            &&& !model::live(after.projects, id)
            &&& !model::has(after.placements, id)
            &&& forall|path: Text| #[trigger] model::target(after.roots, path) != Some(id)
            &&& forall|path: Text| #[trigger] model::target(after.parents, path) != Some(id)
            &&& forall|old: Text| #[trigger] model::target(after.aliases, old) != Some(id)
            &&& forall|i: int|
                0 <= i < after.members.len() ==> (#[trigger] after.members[i]).remote
                    || after.members[i].project_id != id
            &&& forall|i: int|
                0 <= i < before.tables.members.len() && (#[trigger] before.tables.members[i]).remote
                    ==> after.members.contains(before.tables.members[i])
        }),
{
    let t = before.tables;
    let after = mutations::remove_deed(before, r, now).registry.tables;
    effects::lemma_withdraw(t, id, r.successor, now);
    upkeep::lemma_leads(after.roots, after.projects);
    upkeep::lemma_leads(after.parents, after.projects);
    upkeep::lemma_leads(after.aliases, after.projects);
    upkeep::lemma_drop_key(t.placements, id, id);
    assert forall|path: Text| #[trigger] model::target(after.roots, path) != Some(id) by {
        if model::target(after.roots, path) == Some(id) {
            assert(model::has(after.roots, path));
            assert(model::live(after.projects, id));
        }
    }
    assert forall|path: Text| #[trigger] model::target(after.parents, path) != Some(id) by {
        if model::target(after.parents, path) == Some(id) {
            assert(model::has(after.parents, path));
            assert(model::live(after.projects, id));
        }
    }
    assert forall|old: Text| #[trigger] model::target(after.aliases, old) != Some(id) by {
        if model::target(after.aliases, old) == Some(id) {
            assert(model::has(after.aliases, old));
            assert(model::live(after.projects, id));
        }
    }
    let keep = |m: Member| m.remote || m.project_id != id;
    upkeep::lemma_filter(t.members, keep);
    assert forall|i: int| 0 <= i < after.members.len() implies (#[trigger] after.members[i]).remote
        || after.members[i].project_id != id by {
        assert(keep(after.members[i]));
    }
    assert forall|i: int|
        0 <= i < t.members.len() && (
        #[trigger] t.members[i]).remote implies after.members.contains(t.members[i]) by {
        assert(keep(t.members[i]));
    }
}

/// The id of a project that is removed without a successor stops resolving.
pub proof fn law_removed_ids_stop_resolving(before: Registry, r: Remove, id: Text, now: i64)
    requires
        before.sound(),
        withdraws(before, r, id, now),
        r.successor is None,
    ensures
        ({
            let after = mutations::remove_deed(before, r, now).registry;
            let found = queries::trace(after, id);
            found.project_id == id && found.via == "gone"@ && found.gone
        }),
{
    let t = before.tables;
    effects::lemma_withdraw(t, id, r.successor, now);
    upkeep::lemma_drop_target(t.aliases, id, id);
    upkeep::lemma_drop_key(model::drop_target(t.aliases, id), id, id);
}

/// A successor inherits what led to the removed project: its id, its aliases,
/// its roots and its parents.
pub proof fn law_successors_inherit(
    before: Registry,
    r: Remove,
    id: Text,
    s: Text,
    now: i64,
    path: Text,
    old: Text,
)
    requires
        before.sound(),
        withdraws(before, r, id, now),
        r.successor == Some(s),
    ensures
        ({
            let after = mutations::remove_deed(before, r, now).registry;
            let found = queries::trace(after, id);
            &&& found.project_id == s && found.via == "alias"@ && !found.gone
            &&& model::target(before.tables.roots, path) == Some(id) ==> model::target(
                after.tables.roots,
                path,
            ) == Some(s)
            &&& model::target(before.tables.parents, path) == Some(id) ==> model::target(
                after.tables.parents,
                path,
            ) == Some(s)
            &&& model::target(before.tables.aliases, old) == Some(id) ==> model::target(
                after.tables.aliases,
                old,
            ) == Some(s)
        }),
{
    let t = before.tables;
    effects::lemma_withdraw(t, id, r.successor, now);
    let row = Link { key: id, target: s, at: now };
    let mid = model::retarget(t.aliases, id, s);
    upkeep::lemma_retarget(t.aliases, id, s, id);
    upkeep::lemma_retarget(t.aliases, id, s, old);
    upkeep::lemma_put_link(mid, row, id);
    upkeep::lemma_put_link(mid, row, old);
    upkeep::lemma_retarget(t.roots, id, s, path);
    upkeep::lemma_retarget(t.parents, id, s, path);
}

/// A workspace that is removed is gone, and no project is in it.
pub proof fn law_removed_workspaces_are_empty(before: Registry, r: Remove, w: Text, now: i64)
    requires
        before.sound(),
        r.workspace_id == Some(w),
        mutations::remove_deed(before, r, now).result is Ok,
    ensures
        ({
            let after = mutations::remove_deed(before, r, now).registry;
            &&& !model::known(after.tables.workspaces, w)
            &&& forall|id: Text| #[trigger] model::target(after.tables.placements, id) != Some(w)
            &&& queries::listing(after, Some(w)).workspaces.len() == 0
            &&& queries::listing(after, Some(w)).projects.len() == 0
            &&& after.tables.projects == before.tables.projects
        }),
{
    let t = before.tables;
    let after = mutations::remove_deed(before, r, now).registry;
    upkeep::lemma_drop_workspace(t.workspaces, w, w);
    assert forall|id: Text| #[trigger] model::target(after.tables.placements, id) != Some(w) by {
        upkeep::lemma_drop_target(t.placements, w, id);
    }
    let keep = |m: Member| m.workspace_id != w;
    let members = after.tables.members;
    let of_it = members.filter(|m: Member| m.workspace_id == w);
    upkeep::lemma_filter(t.members, keep);
    upkeep::lemma_filter(members, |m: Member| m.workspace_id == w);
    if of_it.len() > 0 {
        assert(members.contains(of_it[0]));
        let a = choose|a: int| 0 <= a < members.len() && members[a] == of_it[0];
        assert(keep(members[a]));
    }
    let keys = of_it.map_values(
        |m: Member| seq![queries::ref_kind(m), m.device, m.project_id],
    );
    order::law_sorting_is_stable(keys);
}

/// What resolves by root or by containment is a registered project, and its name
/// and workspace are told; anything else gets an implicit id, which lies in the
/// namespace kept for those.
pub proof fn law_resolution_names_registered_projects(
    reg: Registry,
    path: Text,
    exists_there: bool,
    device: Option<u64>,
    devices: Seq<Option<u64>>,
)
    requires
        reg.sound(),
        devices.len() == reg.tables.parents.len(),
    ensures
        ({
            let found = queries::resolution(reg, path, exists_there, device, devices);
            &&& found.via == "root"@ || found.via == "containment"@ || found.via == "implicit"@
            &&& found.via != "implicit"@ ==> model::live(reg.tables.projects, found.project_id)
                && found.project_name is Some && found.workspace_id == model::target(
                reg.tables.placements,
                found.project_id,
            )
            &&& found.via == "implicit"@ ==> ids::is_reserved(found.project_id)
                && found.project_name is None && found.workspace_id is None
            &&& found.gone == !exists_there && found.generation == reg.generation()
                && found.canonical_root == Some(path)
        }),
{
    reveal_strlit("root");
    reveal_strlit("containment");
    reveal_strlit("implicit");
    assert("root"@.len() != "implicit"@.len());
    assert("containment"@.len() != "implicit"@.len());
    let t = reg.tables;
    let used = if exists_there {
        device
    } else {
        None
    };
    upkeep::lemma_leads(t.roots, t.projects);
    ids::law_implicit_ids_are_reserved(path);
    match model::target(t.roots, path) {
        Some(id) => {
            assert(model::has(t.roots, path));
        },
        None => {
            if let Some(id) = queries::container(t.parents, path, used, devices) {
                let i = choose|i: int| queries::is_nearest(t.parents, path, used, devices, i);
                assert(model::live(t.projects, t.parents[i].target));
            }
        },
    }
}

/// Of the places up to `n` that qualify, one goes before all others, where of
/// any two one goes before the other.
proof fn lemma_first_exists(
    n: int,
    qualifies: spec_fn(int) -> bool,
    before: spec_fn(int, int) -> bool,
) -> (best: int)
    requires
        exists|j: int| 0 <= j < n && #[trigger] qualifies(j),
        forall|i: int, j: int|
            0 <= i < n && 0 <= j < n && i != j ==> #[trigger] before(i, j) || before(j, i),
        forall|i: int, j: int, k: int|
            #![trigger before(i, j), before(j, k)]
            before(i, j) && before(j, k) ==> before(i, k),
    ensures
        0 <= best < n,
        qualifies(best),
        forall|j: int| 0 <= j < n && j != best && #[trigger] qualifies(j) ==> before(best, j),
    decreases n,
{
    let m = n - 1;
    if exists|j: int| 0 <= j < m && #[trigger] qualifies(j) {
        let b = lemma_first_exists(m, qualifies, before);
        assert(before(m, b) || before(b, m));
        if qualifies(m) && before(m, b) {
            assert forall|j: int| 0 <= j < n && j != m && #[trigger] qualifies(j) implies before(
                m,
                j,
            ) by {
                if j != b {
                    assert(before(b, j));
                }
            }
            m
        } else {
            b
        }
    } else {
        m
    }
}

pub proof fn lemma_nearest_exists(
    parents: Seq<Link>,
    path: Text,
    device: Option<u64>,
    devices: Seq<Option<u64>>,
) -> (i: int)
    requires
        model::unique_links(parents),
        exists|j: int|
            0 <= j < parents.len() && queries::fits(#[trigger] parents[j], path, device, devices[j]),
    ensures
        queries::is_nearest(parents, path, device, devices, i),
{
    let n = parents.len() as int;
    let qualifies = |j: int| queries::fits(parents[j], path, device, devices[j]);
    let before = |i: int, j: int| queries::nearer(parents[i], parents[j]);
    let j = choose|j: int|
        0 <= j < n && queries::fits(#[trigger] parents[j], path, device, devices[j]);
    assert(qualifies(j));
    assert forall|i: int, j: int| 0 <= i < n && 0 <= j < n && i != j implies #[trigger] before(
        i,
        j,
    ) || before(j, i) by {
        if i < j {
            assert(parents[i].key != parents[j].key);
        } else {
            assert(parents[j].key != parents[i].key);
        }
        queries::lemma_nearer(parents[i], parents[j], parents[i]);
    }
    assert forall|i: int, j: int, k: int|
        #![trigger before(i, j), before(j, k)]
        before(i, j) && before(j, k) implies before(i, k) by {
        queries::lemma_nearer(parents[i], parents[j], parents[k]);
    }
    let best = lemma_first_exists(n, qualifies, before);
    assert forall|j: int|
        0 <= j < n && j != best && queries::fits(
            #[trigger] parents[j],
            path,
            device,
            devices[j],
        ) implies queries::nearer(parents[best], parents[j]) by {
        assert(qualifies(j));
        assert(before(best, j));
    }
    best
}

/// A path is contained exactly where some parent fits it, and then by the
/// deepest that does.
pub proof fn law_containment_takes_the_deepest_parent(
    parents: Seq<Link>,
    path: Text,
    device: Option<u64>,
    devices: Seq<Option<u64>>,
)
    requires
        model::unique_links(parents),
        devices.len() == parents.len(),
    ensures
        queries::container(parents, path, device, devices) is Some <==> exists|j: int|
            0 <= j < parents.len() && queries::fits(#[trigger] parents[j], path, device, devices[j]),
        queries::container(parents, path, device, devices) matches Some(id) ==> exists|i: int|
            0 <= i < parents.len() && (#[trigger] parents[i]).target == id && queries::fits(
                parents[i],
                path,
                device,
                devices[i],
            ) && forall|j: int|
                0 <= j < parents.len() && queries::fits(
                    #[trigger] parents[j],
                    path,
                    device,
                    devices[j],
                ) ==> paths::components(parents[j].key).len() <= paths::components(
                    parents[i].key,
                ).len(),
{
    let n = parents.len() as int;
    if exists|j: int|
        0 <= j < n && queries::fits(#[trigger] parents[j], path, device, devices[j]) {
        let i = lemma_nearest_exists(parents, path, device, devices);
        queries::lemma_container(parents, path, device, devices, i);
        assert(parents[i].target == queries::container(parents, path, device, devices).unwrap());
    } else {
        assert forall|k: int| !queries::is_nearest(parents, path, device, devices, k) by {}
    }
}

/// Containment goes by whole components: every path contains itself, what a
/// contained path contains is contained, and two paths that contain each other
/// have the same components.
pub proof fn law_containment_is_an_order(a: Text, b: Text, c: Text)
    ensures
        paths::contains_path(a, a),
        paths::contains_path(a, b) && paths::contains_path(b, c) ==> paths::contains_path(a, c),
        paths::contains_path(a, b) && paths::contains_path(b, a) ==> paths::components(a)
            == paths::components(b),
{
    let x = paths::components(a);
    let y = paths::components(b);
    let z = paths::components(c);
    assert(x.take(x.len() as int) =~= x);
    if paths::contains_path(a, b) && paths::contains_path(b, c) {
        assert(z.take(x.len() as int) =~= z.take(y.len() as int).take(x.len() as int));
    }
    if paths::contains_path(a, b) && paths::contains_path(b, a) {
        assert(x.take(y.len() as int) =~= x);
        assert(y.take(x.len() as int) =~= y);
    }
}

/// A project id that leads anywhere leads to a registered project.
pub proof fn law_traced_ids_are_registered(reg: Registry, id: Text)
    requires
        reg.sound(),
    ensures
        ({
            let found = queries::trace(reg, id);
            &&& !found.gone ==> model::live(reg.tables.projects, found.project_id)
            &&& found.gone <==> !model::live(reg.tables.projects, id) && !model::has(
                reg.tables.aliases,
                id,
            )
            &&& model::live(reg.tables.projects, id) ==> found.project_id == id
        }),
{
    upkeep::lemma_leads(reg.tables.aliases, reg.tables.projects);
    if model::has(reg.tables.aliases, id) {
        assert(model::live(
            reg.tables.projects,
            model::target(reg.tables.aliases, id).unwrap(),
        ));
    }
}

/// Resolving a root and enumerating agree: the project that a root resolves to
/// is enumerated once among the local ones, with the same name and workspace,
/// and with that root.
pub proof fn law_resolve_and_enumerate_agree(
    reg: Registry,
    path: Text,
    id: Text,
    p: Project,
    exists_there: bool,
    device: Option<u64>,
    devices: Seq<Option<u64>>,
)
    requires
        reg.sound(),
        model::target(reg.tables.roots, path) == Some(id),
        model::project(reg.tables.projects, id) == Some(p),
    ensures
        ({
            let found = queries::resolution(reg, path, exists_there, device, devices);
            let seen = queries::shown_project(reg.tables, p);
            &&& found.project_id == seen.project_id
            &&& found.project_name == Some(seen.name)
            &&& found.workspace_id == seen.workspace_id
            &&& seen.roots.contains(path)
            &&& queries::listing(reg, None).projects.contains(seen)
        }),
{
    let t = reg.tables;
    upkeep::lemma_live(t.projects, id);
    let keep = |l: Link| l.target == id;
    let mine = t.roots.filter(keep);
    let keys = mine.map_values(|l: Link| l.key);
    upkeep::lemma_target(t.roots, path);
    let i = choose|i: int|
        0 <= i < t.roots.len() && (#[trigger] t.roots[i]).key == path && t.roots[i].target == id;
    upkeep::lemma_filter(t.roots, keep);
    assert(keep(t.roots[i]));
    assert(mine.contains(t.roots[i]));
    let a = choose|a: int| 0 <= a < mine.len() && mine[a] == t.roots[i];
    assert(keys[a] == path);
    order::lemma_sorted(keys, path);
    lemma_project_row(t.projects, id, p);
    let k = choose|k: int| 0 <= k < t.projects.len() && t.projects[k] == p;
    let sort_keys = t.projects.map_values(|q: Project| seq![q.project_id]);
    let order = order::order_of(sort_keys);
    order::lemma_order_covers(sort_keys, sort_keys.len(), k);
    let place = choose|place: int| 0 <= place < order.len() && order[place] == k;
    let by_id = queries::projects_by_id(t.projects);
    assert(by_id[place] == p);
    let local = by_id.map_values(|q: Project| queries::shown_project(t, q));
    assert(local[place] == queries::shown_project(t, p));
    assert(queries::listing(reg, None).projects[place] == queries::shown_project(t, p));
}

proof fn lemma_project_row(t: Seq<Project>, id: Text, p: Project)
    requires
        model::project(t, id) == Some(p),
    ensures
        t.contains(p),
    decreases t.len(),
{
    if t[0].project_id == id {
        assert(t[0] == p);
    } else {
        lemma_project_row(t.drop_first(), id, p);
        let i = choose|i: int| 0 <= i < t.drop_first().len() && t.drop_first()[i] == p;
        assert(t[i + 1] == p);
    }
}

/// A tail of the journal is what it says: the newest entries after the point,
/// oldest first, at most as many as allowed, and none left out behind the first of
/// them. Where there is an entry after the point, the journal head is told.
pub proof fn law_tails_are_contiguous(journal: Seq<Entry>, after: i64, limit: i64)
    requires
        model::sound_journal(journal),
    ensures
        ({
            let told = queries::tail(journal, after, limit);
            &&& told.len() <= queries::tail_limit(limit)
            &&& forall|i: int| 0 <= i < told.len() ==> (#[trigger] told[i]).seq > after
            &&& forall|i: int, j: int|
                0 <= i < j < told.len() ==> (#[trigger] told[i]).seq < (#[trigger] told[j]).seq
            &&& forall|i: int|
                0 <= i < journal.len() && (#[trigger] journal[i]).seq > after && (told.len()
                    < queries::tail_limit(limit) || journal[i].seq >= told[0].seq) ==> told.contains(
                    queries::tell(journal[i]),
                )
            &&& journal.len() > 0 && model::generation(journal) > after ==> told.len() > 0
                && told.last() == queries::tell(journal.last()) && told.last().seq
                == model::generation(journal)
        }),
{
    let keep = |e: Entry| e.seq > after;
    let all = queries::later(journal, after);
    upkeep::lemma_filter(journal, keep);
    let told = queries::tail(journal, after, limit);
    let first = all.len() - told.len();
    assert forall|i: int| 0 <= i < told.len() implies (#[trigger] told[i]).seq > after by {
        assert(keep(all[i + first]));
        assert(told[i] == queries::tell(all[i + first]));
    }
    assert forall|i: int, j: int| 0 <= i < j < all.len() implies (#[trigger] all[i]).seq < (
    #[trigger] all[j]).seq by {
        let (a, b) = choose|a: int, b: int|
            #![trigger journal[a], journal[b]]
            0 <= a < b < journal.len() && journal[a] == all[i] && journal[b] == all[j];
        assert(journal[a].seq < journal[b].seq);
    }
    assert forall|i: int, j: int| 0 <= i < j < told.len() implies (#[trigger] told[i]).seq < (
    #[trigger] told[j]).seq by {
        assert(all[i + first].seq < all[j + first].seq);
    }
    assert forall|i: int|
        0 <= i < journal.len() && (#[trigger] journal[i]).seq > after && (told.len()
            < queries::tail_limit(limit) || journal[i].seq >= told[0].seq) implies told.contains(
        queries::tell(journal[i]),
    ) by {
        assert(keep(journal[i]));
        let a = choose|a: int| 0 <= a < all.len() && all[a] == journal[i];
        if a < first {
            assert(all[a].seq < all[first].seq);
            assert(told[0] == queries::tell(all[first]));
        }
        assert(told[a - first] == queries::tell(journal[i]));
    }
    if journal.len() > 0 && model::generation(journal) > after {
        let last = journal.len() - 1;
        assert(keep(journal[last]));
        let a = choose|a: int| 0 <= a < all.len() && all[a] == journal[last];
        if a < all.len() - 1 {
            assert(all[a].seq < all[all.len() - 1].seq);
            assert(journal.contains(all[all.len() - 1]));
            let k = choose|k: int| 0 <= k < journal.len() && journal[k] == all[all.len() - 1];
            assert(k == last || journal[k].seq < journal[last].seq);
        }
        assert(told[told.len() - 1] == queries::tell(all[all.len() - 1]));
    }
}

/// Whether no root of one project lies in a parent of another.
pub open spec fn apart(t: Tables) -> bool {
    forall|parent: Text, root: Text|
        model::has(t.parents, parent) && model::has(t.roots, root) && #[trigger]
        paths::contains_path(parent, root) ==> model::target(t.parents, parent) == model::target(
            t.roots,
            root,
        )
}

/// Registering keeps projects apart: no root comes to lie in a parent of another
/// project.
pub proof fn law_registering_keeps_projects_apart(before: Registry, r: Register, now: i64)
    requires
        before.sound(),
        apart(before.tables),
    ensures
        apart(register::register_deed(before, r, now).registry.tables),
{
    let t = before.tables;
    let deed = register::register_deed(before, r, now);
    if deed.result matches Ok(d) && d.changed {
        let id = register::registrant(t, r)->Ok_0;
        let after = deed.registry.tables;
        assert forall|parent: Text, root: Text|
            model::has(after.parents, parent) && model::has(after.roots, root) && #[trigger]
            paths::contains_path(parent, root) implies model::target(after.parents, parent)
            == model::target(after.roots, root) by {
            effects::lemma_add_links(t.roots, r.roots, id, now, root);
            effects::lemma_add_links(t.parents, r.parents, id, 0, parent);
            let new_root = !model::has(t.roots, root);
            let new_parent = !model::has(t.parents, parent);
            if new_root && !new_parent {
                let k = choose|k: int| 0 <= k < r.roots.len() && r.roots[k] == root;
                lemma_no_shelter_clashes(t.parents, id, r.roots, k);
                upkeep::lemma_target(t.parents, parent);
                let i = choose|i: int|
                    0 <= i < t.parents.len() && (#[trigger] t.parents[i]).key == parent
                        && t.parents[i].target == model::target(t.parents, parent).unwrap();
                lemma_no_shelter_clash(t.parents, id, root, i);
            }
            if !new_root && new_parent {
                let k = choose|k: int| 0 <= k < r.parents.len() && r.parents[k] == parent;
                lemma_no_parent_clashes(t.roots, id, r.parents, k);
                upkeep::lemma_target(t.roots, root);
                let i = choose|i: int|
                    0 <= i < t.roots.len() && (#[trigger] t.roots[i]).key == root
                        && t.roots[i].target == model::target(t.roots, root).unwrap();
                lemma_no_parent_clash(t.roots, id, parent, i);
            }
        }
    }
}

/// Removing keeps projects apart.
pub proof fn law_removing_keeps_projects_apart(before: Registry, r: Remove, now: i64)
    requires
        before.sound(),
        apart(before.tables),
    ensures
        apart(mutations::remove_deed(before, r, now).registry.tables),
{
    let t = before.tables;
    let deed = mutations::remove_deed(before, r, now);
    if deed.result is Ok && r.workspace_id is None {
        let id = r.project_id.unwrap();
        let after = deed.registry.tables;
        assert forall|parent: Text, root: Text|
            model::has(after.parents, parent) && model::has(after.roots, root) && #[trigger]
            paths::contains_path(parent, root) implies model::target(after.parents, parent)
            == model::target(after.roots, root) by {
            match r.successor {
                Some(s) => {
                    upkeep::lemma_retarget(t.roots, id, s, root);
                    upkeep::lemma_retarget(t.parents, id, s, parent);
                },
                None => {
                    upkeep::lemma_drop_target(t.roots, id, root);
                    upkeep::lemma_drop_target(t.parents, id, parent);
                },
            }
        }
    }
}

} // verus!
