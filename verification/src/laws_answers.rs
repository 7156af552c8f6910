//! What queries answer, in terms of the rows that they are answered from.
use vstd::prelude::*;
use vstd::string::*;

use crate::membership::{entered, leads, opened, taken};
use crate::model::{Entry, Link, Member, Project, Registry, Tables, Workspace};
use crate::queries::{Shown, Told};
use crate::text::Text;
use crate::{ids, laws_resolution, membership, model, observed, order, paths, queries, upkeep};

verus! {

/// Whether a parent can answer for a path: it contains the path, and the two are not
/// known to lie on different devices. The device of a path that is gone is not known.
pub open spec fn shelters(
    parent: Text,
    at: Option<u64>,
    path: Text,
    exists_there: bool,
    device: Option<u64>,
) -> bool {
    &&& paths::contains_path(parent, path)
    &&& exists_there && device is Some && at is Some ==> device == at
}

/// Whether some parent can answer for a path.
pub open spec fn sheltered(
    parents: Seq<Link>,
    devices: Seq<Option<u64>>,
    path: Text,
    exists_there: bool,
    device: Option<u64>,
) -> bool {
    exists|i: int|
        0 <= i < parents.len() && shelters(
            (#[trigger] parents[i]).key,
            devices[i],
            path,
            exists_there,
            device,
        )
}

/// Whether a project has a parent that can answer for a path and lies in every other
/// one that can.
pub open spec fn shelters_deepest(
    parents: Seq<Link>,
    devices: Seq<Option<u64>>,
    path: Text,
    exists_there: bool,
    device: Option<u64>,
    id: Text,
) -> bool {
    exists|i: int|
        0 <= i < parents.len() && (#[trigger] parents[i]).target == id && shelters(
            parents[i].key,
            devices[i],
            path,
            exists_there,
            device,
        ) && forall|j: int|
            0 <= j < parents.len() && shelters(
                (#[trigger] parents[j]).key,
                devices[j],
                path,
                exists_there,
                device,
            ) ==> paths::contains_path(parents[j].key, parents[i].key)
}

/// Whether the name and the workspace are those of a project.
pub open spec fn describes(
    t: Tables,
    id: Text,
    name: Option<Text>,
    workspace_id: Option<Text>,
) -> bool {
    &&& forall|p: Project| #[trigger]
        t.projects.contains(p) && p.project_id == id ==> name == Some(p.name)
    &&& forall|w: Text| #[trigger] leads(t.placements, id, w) <==> workspace_id == Some(w)
}

proof fn lemma_describes(t: Tables, id: Text)
    requires
        t.sound(),
    ensures
        describes(t, id, queries::project_name(t, id), model::target(t.placements, id)),
{
    assert forall|p: Project| #[trigger]
        t.projects.contains(p) && p.project_id == id implies queries::project_name(t, id) == Some(
        p.name,
    ) by {
        membership::lemma_project(t.projects, id, p);
    }
    assert forall|w: Text| #[trigger]
        leads(t.placements, id, w) <==> model::target(t.placements, id) == Some(w) by {
        membership::lemma_lookup(t.placements, id, w);
    }
}

/// A path leads to the project that has it for a root. Else, whether or not it still
/// exists, it leads to the project of the deepest parent that contains it, among those
/// not known to lie on another device. It has an implicit id only where there is
/// neither. The name and the workspace are those of the project.
pub proof fn law_paths_lead_to_their_projects(
    reg: Registry,
    path: Text,
    exists_there: bool,
    device: Option<u64>,
    devices: Seq<Option<u64>>,
)
    requires
        reg.sound(),
        devices.len() == reg.tables.parents.len(),
    ensures
        ({
            let t = reg.tables;
            let found = queries::resolution(reg, path, exists_there, device, devices);
            &&& if taken(t.roots, path) {
                &&& found.via == "root"@
                &&& leads(t.roots, path, found.project_id)
                &&& describes(t, found.project_id, found.project_name, found.workspace_id)
            } else if sheltered(t.parents, devices, path, exists_there, device) {
                &&& found.via == "containment"@
                &&& shelters_deepest(
                    t.parents,
                    devices,
                    path,
                    exists_there,
                    device,
                    found.project_id,
                )
                &&& describes(t, found.project_id, found.project_name, found.workspace_id)
            } else {
                &&& found.via == "implicit"@
                &&& found.project_id == ids::implicit_id(path)
                &&& found.project_name is None && found.workspace_id is None
            }
            &&& found.gone == !exists_there
            &&& found.canonical_root == Some(path)
            &&& found.generation == reg.generation()
        }),
{
    let t = reg.tables;
    let found = queries::resolution(reg, path, exists_there, device, devices);
    let usable = if exists_there {
        device
    } else {
        None
    };
    upkeep::lemma_target(t.roots, path);
    lemma_describes(t, found.project_id);
    assert forall|i: int| 0 <= i < t.parents.len() implies shelters(
        (#[trigger] t.parents[i]).key,
        devices[i],
        path,
        exists_there,
        device,
    ) == queries::fits(t.parents[i], path, usable, devices[i]) by {}
    if taken(t.roots, path) {
        membership::lemma_lookup(t.roots, path, found.project_id);
    } else if sheltered(t.parents, devices, path, exists_there, device) {
        let j = choose|j: int|
            0 <= j < t.parents.len() && shelters(
                (#[trigger] t.parents[j]).key,
                devices[j],
                path,
                exists_there,
                device,
            );
        assert(queries::fits(t.parents[j], path, usable, devices[j]));
        let i = laws_resolution::lemma_nearest_exists(t.parents, path, usable, devices);
        queries::lemma_container(t.parents, path, usable, devices, i);
        assert(t.parents[i].target == found.project_id);
        let c = paths::components(path);
        let d = paths::components(t.parents[i].key);
        assert forall|j: int|
            0 <= j < t.parents.len() && shelters(
                (#[trigger] t.parents[j]).key,
                devices[j],
                path,
                exists_there,
                device,
            ) implies paths::contains_path(t.parents[j].key, t.parents[i].key) by {
            let e = paths::components(t.parents[j].key);
            assert(queries::fits(t.parents[j], path, usable, devices[j]));
            if j != i {
                assert(queries::nearer(t.parents[i], t.parents[j]));
            }
            assert(e.len() <= d.len());
            assert(d.take(e.len() as int) =~= e) by {
                assert(c.take(e.len() as int) == e);
                assert(c.take(d.len() as int) == d);
                assert forall|k: int| 0 <= k < e.len() implies d[k] == e[k] by {
                    assert(c.take(e.len() as int)[k] == c[k]);
                    assert(c.take(d.len() as int)[k] == c[k]);
                }
            }
        }
    } else {
        assert forall|k: int| !queries::is_nearest(t.parents, path, usable, devices, k) by {
            if queries::is_nearest(t.parents, path, usable, devices, k) {
                assert(queries::fits(t.parents[k], path, usable, devices[k]));
            }
        }
    }
}

/// A project id leads to itself while its project is registered, else to the project
/// that it is an alias of, and else nowhere.
pub proof fn law_ids_lead_to_their_projects(reg: Registry, id: Text)
    requires
        reg.sound(),
    ensures
        ({
            let t = reg.tables;
            let found = queries::trace(reg, id);
            &&& if entered(t.projects, id) {
                found.via == "current"@ && found.project_id == id && !found.gone
            } else if taken(t.aliases, id) {
                found.via == "alias"@ && leads(t.aliases, id, found.project_id) && entered(
                    t.projects,
                    found.project_id,
                ) && !found.gone
            } else {
                found.via == "gone"@ && found.project_id == id && found.gone
            }
            &&& found.generation == reg.generation()
        }),
{
    let t = reg.tables;
    let found = queries::trace(reg, id);
    upkeep::lemma_live(t.projects, id);
    upkeep::lemma_live(t.projects, found.project_id);
    membership::lemma_lookup(t.aliases, id, found.project_id);
    laws_resolution::law_traced_ids_are_registered(reg, id);
}

/// Whether a project is shown as it is: with exactly the roots that lead to it, in
/// ascending order, and in the workspace that it is placed in.
pub open spec fn shows(t: Tables, s: Shown) -> bool {
    &&& order::strictly_ascends(s.roots)
    &&& forall|path: Text| #[trigger] s.roots.contains(path) <==> leads(t.roots, path, s.project_id)
    &&& forall|w: Text| #[trigger] leads(t.placements, s.project_id, w) <==> s.workspace_id == Some(
        w,
    )
    &&& s.activity is None
}

/// Whether a registered project is shown under its own name.
pub open spec fn shows_registered(t: Tables, s: Shown) -> bool {
    exists|p: Project| #[trigger]
        t.projects.contains(p) && p.project_id == s.project_id && p.name == s.name && p.implicit
            == s.implicit
}

proof fn lemma_roots(t: Tables, id: Text)
    requires
        t.sound(),
    ensures
        order::strictly_ascends(queries::project_roots(t, id)),
        forall|path: Text| #[trigger]
            queries::project_roots(t, id).contains(path) <==> leads(t.roots, path, id),
{
    let keep = |l: Link| l.target == id;
    let mine = t.roots.filter(keep);
    let keys = mine.map_values(|l: Link| l.key);
    let all = queries::project_roots(t, id);
    upkeep::lemma_filter(t.roots, keep);
    assert forall|path: Text| #[trigger] all.contains(path) <==> leads(t.roots, path, id) by {
        order::lemma_sorted(keys, path);
        if keys.contains(path) {
            let i = choose|i: int| 0 <= i < keys.len() && keys[i] == path;
            assert(keep(mine[i]));
            assert(t.roots.contains(mine[i]));
            let k = choose|k: int| 0 <= k < t.roots.len() && t.roots[k] == mine[i];
            assert(t.roots[k].key == path && t.roots[k].target == id);
        }
        if leads(t.roots, path, id) {
            let k = choose|k: int|
                0 <= k < t.roots.len() && (#[trigger] t.roots[k]).key == path && t.roots[k].target
                    == id;
            assert(keep(t.roots[k]));
            let i = choose|i: int| 0 <= i < mine.len() && mine[i] == t.roots[k];
            assert(keys[i] == path);
        }
    }
    let cols = order::single_keys(keys);
    let places = order::order_of(cols);
    order::law_sorting_is_stable(cols);
    order::lemma_sorted(keys, Seq::empty());
    assert forall|i: int, j: int| 0 <= i < j < all.len() implies order::text_lt(
        #[trigger] all[i],
        #[trigger] all[j],
    ) by {
        let (a, b) = (places[i], places[j]);
        assert(a != b);
        assert(all[i] == keys[a] && all[j] == keys[b]);
        if all[i] == all[j] {
            if a < b {
                let (x, y) = choose|x: int, y: int|
                    #![trigger t.roots[x], t.roots[y]]
                    0 <= x < y < t.roots.len() && t.roots[x] == mine[a] && t.roots[y] == mine[b];
                assert(t.roots[x].key != t.roots[y].key);
            } else {
                let (x, y) = choose|x: int, y: int|
                    #![trigger t.roots[x], t.roots[y]]
                    0 <= x < y < t.roots.len() && t.roots[x] == mine[b] && t.roots[y] == mine[a];
                assert(t.roots[x].key != t.roots[y].key);
            }
        }
    }
}

proof fn lemma_shows(
    t: Tables,
    id: Text,
    name: Text,
    implicit: bool,
    kind: Text,
    device: Option<Text>,
)
    requires
        t.sound(),
    ensures
        shows(t, queries::shown(t, id, name, implicit, kind, device)),
{
    lemma_roots(t, id);
    lemma_describes(t, id);
}

/// Whether a project is shown that is registered here.
pub open spec fn local_row(s: Shown) -> bool {
    s.ref_kind == "local"@ && s.device is None
}

/// Whether a reference to another device is shown.
pub open spec fn remote_row(s: Shown, m: Member) -> bool {
    s.ref_kind == "remote"@ && s.device == Some(m.device) && s.project_id == m.project_id
}

/// Whether a reference to another device is shown, under the id of its project.
pub open spec fn shows_remote(t: Tables, s: Shown) -> bool {
    exists|m: Member| #[trigger]
        t.members.contains(m) && m.remote && remote_row(s, m) && s.name == m.project_id
            && !s.implicit
}

/// A full enumeration shows every registered project once and in order, each under its
/// own name; behind them it shows every reference to another device, and nothing else.
/// What it shows of each are the roots that lead to it and the workspace it is in.
pub proof fn law_everything_is_listed(reg: Registry)
    requires
        reg.sound(),
    ensures
        ({
            let t = reg.tables;
            let l = queries::listing(reg, None);
            let n = t.projects.len() as int;
            &&& l.generation == reg.generation()
            &&& l.projects.len() >= n
            &&& forall|i: int| 0 <= i < l.projects.len() ==> shows(t, #[trigger] l.projects[i])
            &&& forall|i: int|
                0 <= i < n ==> local_row(#[trigger] l.projects[i]) && shows_registered(
                    t,
                    l.projects[i],
                )
            &&& forall|i: int, j: int|
                0 <= i < j < n ==> order::text_lt(
                    (#[trigger] l.projects[i]).project_id,
                    (#[trigger] l.projects[j]).project_id,
                )
            &&& forall|p: Project| #[trigger]
                t.projects.contains(p) ==> exists|i: int|
                    0 <= i < n && (#[trigger] l.projects[i]).project_id == p.project_id
            &&& forall|i: int|
                n <= i < l.projects.len() ==> shows_remote(t, #[trigger] l.projects[i])
            &&& forall|m: Member| #[trigger]
                t.members.contains(m) && m.remote ==> exists|i: int|
                    n <= i < l.projects.len() && remote_row(#[trigger] l.projects[i], m)
        }),
{
    let t = reg.tables;
    let l = queries::listing(reg, None);
    let n = t.projects.len() as int;
    let cols = t.projects.map_values(|p: Project| seq![p.project_id]);
    let places = order::order_of(cols);
    let mine = queries::projects_by_id(t.projects);
    let local = mine.map_values(|p: Project| queries::shown_project(t, p));
    let keep = |m: Member| m.remote;
    let far = t.members.filter(keep);
    let away = queries::remotes(t.members);
    let remote = away.map_values(|m: Member| queries::shown_remote(t, m));
    let fcols = far.map_values(|m: Member| seq![m.device, m.project_id]);
    order::law_sorting_is_stable(cols);
    order::law_sorting_is_stable(fcols);
    assert(l.projects == local + remote);
    assert forall|i: int| 0 <= i < n implies (#[trigger] l.projects[i]) == queries::shown_project(
        t,
        t.projects[places[i]],
    ) by {
        assert(l.projects[i] == local[i]);
        assert(mine[i] == t.projects[places[i]]);
    }
    assert forall|i: int| 0 <= i < n implies local_row(#[trigger] l.projects[i])
        && shows_registered(t, l.projects[i]) by {
        assert(t.projects.contains(t.projects[places[i]]));
    }
    assert forall|i: int| n <= i < l.projects.len() implies (#[trigger] l.projects[i])
        == queries::shown_remote(t, away[i - n]) by {
        assert(l.projects[i] == remote[i - n]);
    }
    assert forall|i: int| 0 <= i < l.projects.len() implies shows(t, #[trigger] l.projects[i]) by {
        if i < n {
            let p = t.projects[places[i]];
            lemma_shows(t, p.project_id, p.name, p.implicit, "local"@, None);
        } else {
            let m = away[i - n];
            lemma_shows(t, m.project_id, m.project_id, false, "remote"@, Some(m.device));
        }
    }
    assert forall|i: int, j: int| 0 <= i < j < n implies order::text_lt(
        (#[trigger] l.projects[i]).project_id,
        (#[trigger] l.projects[j]).project_id,
    ) by {
        let (a, b) = (places[i], places[j]);
        assert(a != b);
        if a < b {
            assert(t.projects[a].project_id != t.projects[b].project_id);
        } else {
            assert(t.projects[b].project_id != t.projects[a].project_id);
        }
        assert(order::keys_lt(cols[a], cols[b]) || cols[a] == cols[b]);
        assert(cols[a][0] == t.projects[a].project_id && cols[b][0] == t.projects[b].project_id);
    }
    assert forall|p: Project| #[trigger] t.projects.contains(p) implies exists|i: int|
        0 <= i < n && (#[trigger] l.projects[i]).project_id == p.project_id by {
        observed::lemma_picked(t.projects, cols, p);
        let i = choose|i: int| 0 <= i < mine.len() && mine[i] == p;
        assert(l.projects[i].project_id == p.project_id);
    }
    assert forall|i: int| n <= i < l.projects.len() implies shows_remote(
        t,
        #[trigger] l.projects[i],
    ) by {
        let m = away[i - n];
        assert(l.projects[i] == queries::shown_remote(t, m));
        assert(away.contains(m));
        observed::lemma_picked(far, fcols, m);
        membership::lemma_kept(t.members, keep, m);
        assert(t.members.contains(m));
    }
    assert forall|m: Member| #[trigger] t.members.contains(m) && m.remote implies exists|i: int|
        n <= i < l.projects.len() && remote_row(#[trigger] l.projects[i], m) by {
        membership::lemma_kept(t.members, keep, m);
        observed::lemma_picked(far, fcols, m);
        let k = choose|k: int| 0 <= k < away.len() && away[k] == m;
        assert(l.projects[n + k] == queries::shown_remote(t, m));
    }
}

/// The workspaces of a full enumeration are those that are known, each once by its id
/// and under its name, in order. That of one workspace lists it where it is known.
pub proof fn law_workspaces_are_listed(reg: Registry, w: Text)
    requires
        reg.sound(),
    ensures
        ({
            let t = reg.tables;
            let all = queries::listing(reg, None).workspaces;
            let one = queries::listing(reg, Some(w)).workspaces;
            &&& all.len() == t.workspaces.len()
            &&& forall|i: int, j: int|
                0 <= i < j < all.len() ==> order::text_lt((#[trigger] all[i]).0, (#[trigger] all[j]).0)
            &&& forall|x: Workspace| #[trigger]
                t.workspaces.contains(x) ==> all.contains((x.workspace_id, x.name))
            &&& forall|x: Workspace| #[trigger]
                t.workspaces.contains(x) && x.workspace_id == w ==> one == seq![(w, x.name)]
            &&& !opened(t.workspaces, w) ==> one.len() == 0
        }),
{
    let t = reg.tables;
    let all = queries::listing(reg, None).workspaces;
    let cols = t.workspaces.map_values(|x: Workspace| seq![x.workspace_id]);
    let places = order::order_of(cols);
    let mine = queries::workspaces_by_id(t.workspaces);
    order::law_sorting_is_stable(cols);
    assert forall|i: int| 0 <= i < all.len() implies (#[trigger] all[i]) == (
        t.workspaces[places[i]].workspace_id,
        t.workspaces[places[i]].name,
    ) by {
        assert(mine[i] == t.workspaces[places[i]]);
    }
    assert forall|i: int, j: int| 0 <= i < j < all.len() implies order::text_lt(
        (#[trigger] all[i]).0,
        (#[trigger] all[j]).0,
    ) by {
        let (a, b) = (places[i], places[j]);
        assert(a != b);
        if a < b {
            assert(t.workspaces[a].workspace_id != t.workspaces[b].workspace_id);
        } else {
            assert(t.workspaces[b].workspace_id != t.workspaces[a].workspace_id);
        }
        assert(order::keys_lt(cols[a], cols[b]) || cols[a] == cols[b]);
        assert(cols[a][0] == t.workspaces[a].workspace_id && cols[b][0]
            == t.workspaces[b].workspace_id);
    }
    assert forall|x: Workspace| #[trigger] t.workspaces.contains(x) implies all.contains(
        (x.workspace_id, x.name),
    ) by {
        observed::lemma_picked(t.workspaces, cols, x);
        let i = choose|i: int| 0 <= i < mine.len() && mine[i] == x;
        assert(all[i] == (x.workspace_id, x.name));
    }
    assert forall|x: Workspace| #[trigger]
        t.workspaces.contains(x) && x.workspace_id == w implies queries::listing(
        reg,
        Some(w),
    ).workspaces == seq![(w, x.name)] by {
        membership::lemma_workspace(t.workspaces, w, x);
    }
    upkeep::lemma_known(t.workspaces, w);
}

/// Whether a reference is shown as what it is: by kind and device, and under the name
/// of the project where it is registered here, else under its id.
pub open spec fn shows_member(t: Tables, s: Shown, m: Member) -> bool {
    &&& s.project_id == m.project_id
    &&& s.ref_kind == (if m.remote {
        "remote"@
    } else {
        "local"@
    })
    &&& s.device == (if m.remote {
        Some(m.device)
    } else {
        None
    })
    &&& if entered(t.projects, m.project_id) {
        shows_registered(t, s)
    } else {
        s.name == m.project_id && !s.implicit
    }
}

/// Whether a reference of the workspace is shown as what it is.
pub open spec fn shows_reference(t: Tables, s: Shown, w: Text) -> bool {
    exists|m: Member| #[trigger]
        t.members.contains(m) && m.workspace_id == w && shows_member(t, s, m)
}

/// The enumeration of a workspace shows each of its references once, and nothing else:
/// those on this device before those on others, and then by device and project. What it
/// shows of each are the roots that lead to it and the workspace it is in.
pub proof fn law_references_are_listed(reg: Registry, w: Text)
    requires
        reg.sound(),
    ensures
        ({
            let t = reg.tables;
            let l = queries::listing(reg, Some(w));
            &&& l.generation == reg.generation()
            &&& forall|i: int| 0 <= i < l.projects.len() ==> shows(t, #[trigger] l.projects[i])
            &&& forall|i: int|
                0 <= i < l.projects.len() ==> shows_reference(t, #[trigger] l.projects[i], w)
            &&& forall|m: Member| #[trigger]
                t.members.contains(m) && m.workspace_id == w ==> exists|i: int|
                    0 <= i < l.projects.len() && shows_member(t, #[trigger] l.projects[i], m)
            &&& forall|i: int, j: int|
                0 <= i < j < l.projects.len() ==> goes_before(
                    #[trigger] l.projects[i],
                    #[trigger] l.projects[j],
                )
        }),
{
    let t = reg.tables;
    let l = queries::listing(reg, Some(w));
    let mine = queries::roster(t.members, w);
    assert forall|i: int| 0 <= i < l.projects.len() implies shows(t, #[trigger] l.projects[i])
        && shows_reference(t, l.projects[i], w) by {
        lemma_roster_row(t, w, i);
        lemma_shows_member(t, mine[i]);
        assert(l.projects[i] == queries::shown_member(t, mine[i]));
        assert(t.members.contains(mine[i]));
    }
    assert forall|m: Member| #[trigger]
        t.members.contains(m) && m.workspace_id == w implies exists|i: int|
        0 <= i < l.projects.len() && shows_member(t, #[trigger] l.projects[i], m) by {
        let i = lemma_roster_covers(t, w, m);
        lemma_shows_member(t, m);
        assert(l.projects[i] == queries::shown_member(t, m));
    }
    assert forall|i: int, j: int| 0 <= i < j < l.projects.len() implies goes_before(
        #[trigger] l.projects[i],
        #[trigger] l.projects[j],
    ) by {
        lemma_roster_order(t, w, i, j);
        lemma_member_order(t, mine[i], mine[j]);
        assert(l.projects[i] == queries::shown_member(t, mine[i]));
        assert(l.projects[j] == queries::shown_member(t, mine[j]));
    }
}

proof fn lemma_shows_member(t: Tables, m: Member)
    requires
        t.sound(),
    ensures
        shows(t, queries::shown_member(t, m)),
        shows_member(t, queries::shown_member(t, m), m),
{
    let device = if m.remote {
        Some(m.device)
    } else {
        None
    };
    upkeep::lemma_live(t.projects, m.project_id);
    match model::project(t.projects, m.project_id) {
        Some(p) => {
            membership::lemma_project(t.projects, m.project_id, p);
            assert(t.projects.contains(p));
            lemma_shows(t, m.project_id, p.name, p.implicit, queries::ref_kind(m), device);
        },
        None => {
            lemma_shows(t, m.project_id, m.project_id, false, queries::ref_kind(m), device);
        },
    }
}

proof fn lemma_roster_row(t: Tables, w: Text, i: int)
    requires
        0 <= i < queries::roster(t.members, w).len(),
    ensures
        t.members.contains(queries::roster(t.members, w)[i]),
        queries::roster(t.members, w)[i].workspace_id == w,
{
    let keep = |m: Member| m.workspace_id == w;
    let of_it = t.members.filter(keep);
    let cols = of_it.map_values(|m: Member| seq![queries::ref_kind(m), m.device, m.project_id]);
    let mine = queries::roster(t.members, w);
    assert(mine.contains(mine[i]));
    observed::lemma_picked(of_it, cols, mine[i]);
    membership::lemma_kept(t.members, keep, mine[i]);
}

proof fn lemma_roster_covers(t: Tables, w: Text, m: Member) -> (i: int)
    requires
        t.members.contains(m),
        m.workspace_id == w,
    ensures
        0 <= i < queries::roster(t.members, w).len(),
        queries::roster(t.members, w)[i] == m,
{
    let keep = |m: Member| m.workspace_id == w;
    let of_it = t.members.filter(keep);
    let cols = of_it.map_values(|m: Member| seq![queries::ref_kind(m), m.device, m.project_id]);
    let mine = queries::roster(t.members, w);
    membership::lemma_kept(t.members, keep, m);
    observed::lemma_picked(of_it, cols, m);
    choose|i: int| 0 <= i < mine.len() && mine[i] == m
}

proof fn lemma_roster_order(t: Tables, w: Text, i: int, j: int)
    requires
        t.sound(),
        0 <= i < j < queries::roster(t.members, w).len(),
    ensures
        ({
            let m = queries::roster(t.members, w)[i];
            let o = queries::roster(t.members, w)[j];
            let p = seq![queries::ref_kind(m), m.device, m.project_id];
            let q = seq![queries::ref_kind(o), o.device, o.project_id];
            &&& order::keys_lt(p, q) || p == q
            &&& !model::same_reference(m, o)
            &&& m.remote == (m.device.len() > 0)
            &&& o.remote == (o.device.len() > 0)
        }),
{
    let of_it = t.members.filter(|m: Member| m.workspace_id == w);
    let cols = of_it.map_values(|m: Member| seq![queries::ref_kind(m), m.device, m.project_id]);
    let places = order::order_of(cols);
    order::law_sorting_is_stable(cols);
    let (a, b) = (places[i], places[j]);
    assert(a != b);
    lemma_different(t, w, a, b);
    assert(queries::roster(t.members, w)[i] == of_it[a]);
    assert(queries::roster(t.members, w)[j] == of_it[b]);
}

/// Two references of a workspace are to different projects, and each has a device
/// exactly where it is remote.
proof fn lemma_different(t: Tables, w: Text, a: int, b: int)
    requires
        t.sound(),
        a != b,
        0 <= a < t.members.filter(|m: Member| m.workspace_id == w).len(),
        0 <= b < t.members.filter(|m: Member| m.workspace_id == w).len(),
    ensures
        ({
            let of_it = t.members.filter(|m: Member| m.workspace_id == w);
            let (m, o) = (of_it[a], of_it[b]);
            &&& !model::same_reference(m, o)
            &&& m.remote == (m.device.len() > 0)
            &&& o.remote == (o.device.len() > 0)
        }),
{
    let keep = |m: Member| m.workspace_id == w;
    let of_it = t.members.filter(keep);
    upkeep::lemma_filter(t.members, keep);
    let (x, y) = if a < b {
        (a, b)
    } else {
        (b, a)
    };
    let (c, d) = choose|c: int, d: int|
        #![trigger t.members[c], t.members[d]]
        0 <= c < d < t.members.len() && t.members[c] == of_it[x] && t.members[d] == of_it[y];
    assert(!model::same_reference(t.members[c], t.members[d]));
    assert(t.members[c].remote == (t.members[c].device.len() > 0));
    assert(t.members[d].remote == (t.members[d].device.len() > 0));
}

proof fn lemma_member_order(t: Tables, m: Member, o: Member)
    requires
        !model::same_reference(m, o),
        m.remote == (m.device.len() > 0),
        o.remote == (o.device.len() > 0),
        ({
            let p = seq![queries::ref_kind(m), m.device, m.project_id];
            let q = seq![queries::ref_kind(o), o.device, o.project_id];
            order::keys_lt(p, q) || p == q
        }),
    ensures
        goes_before(queries::shown_member(t, m), queries::shown_member(t, o)),
{
    let p = seq![queries::ref_kind(m), m.device, m.project_id];
    let q = seq![queries::ref_kind(o), o.device, o.project_id];
    order::lemma_local_before_remote();
    if !m.remote {
        assert(m.device =~= Seq::empty());
    }
    if !o.remote {
        assert(o.device =~= Seq::empty());
    }
    assert(p[0] == queries::ref_kind(m) && p[1] == m.device && p[2] == m.project_id);
    assert(q[0] == queries::ref_kind(o) && q[1] == o.device && q[2] == o.project_id);
    if p == q {
        assert(model::same_reference(m, o));
    } else {
        lemma_columns(p, q);
    }
}

/// Whether one row of a workspace's enumeration goes before another.
pub open spec fn goes_before(a: Shown, b: Shown) -> bool {
    match (a.device, b.device) {
        (None, None) => order::text_lt(a.project_id, b.project_id),
        (None, Some(_)) => true,
        (Some(_), None) => false,
        (Some(x), Some(y)) => order::text_lt(x, y) || x == y && order::text_lt(
            a.project_id,
            b.project_id,
        ),
    }
}

proof fn lemma_columns(p: Seq<Text>, q: Seq<Text>)
    requires
        p.len() == 3,
        q.len() == 3,
        order::keys_lt(p, q),
    ensures
        if p[0] != q[0] {
            order::text_lt(p[0], q[0])
        } else if p[1] != q[1] {
            order::text_lt(p[1], q[1])
        } else {
            order::text_lt(p[2], q[2])
        },
{
    reveal_with_fuel(order::keys_lt, 5);
    let (p1, q1) = (p.drop_first(), q.drop_first());
    let (p2, q2) = (p1.drop_first(), q1.drop_first());
    assert(p1[0] == p[1] && q1[0] == q[1] && p2[0] == p[2] && q2[0] == q[2]);
    assert(p2.drop_first().len() == 0 && q2.drop_first().len() == 0);
}

/// Whether a tail tells a journal entry as it is.
pub open spec fn told_as(e: Entry, told: Told) -> bool {
    told.seq == e.seq && told.op == e.op && told.payload == e.payload && told.actor == e.actor
        && told.request_key == e.request_key && told.created_at == e.created_at
}

proof fn lemma_tail_ascends(journal: Seq<Entry>, after: i64, limit: i64)
    requires
        model::sound_journal(journal),
    ensures
        ({
            let told = queries::tail(journal, after, limit);
            &&& told.len() <= queries::tail_limit(limit)
            &&& forall|i: int, j: int|
                0 <= i < j < told.len() ==> (#[trigger] told[i]).seq < (#[trigger] told[j]).seq
        }),
{
    laws_resolution::law_tails_are_contiguous(journal, after, limit);
}

proof fn lemma_left_out(journal: Seq<Entry>, after: i64, limit: i64, k: int)
    requires
        model::sound_journal(journal),
        0 <= k < journal.len(),
        journal[k].seq > after,
    ensures
        ({
            let told = queries::tail(journal, after, limit);
            (exists|i: int| 0 <= i < told.len() && told_as(journal[k], #[trigger] told[i]))
                || told.len() == queries::tail_limit(limit) && told[0].seq > journal[k].seq
        }),
{
    let told = queries::tail(journal, after, limit);
    let keep = |e: Entry| e.seq > after;
    let all = queries::later(journal, after);
    let n = queries::tail_limit(limit);
    let from = if all.len() > n {
        all.len() - n
    } else {
        0
    };
    upkeep::lemma_filter(journal, keep);
    assert(keep(journal[k]));
    assert(all.contains(journal[k]));
    let a = choose|a: int| 0 <= a < all.len() && all[a] == journal[k];
    if a >= from {
        assert(all.skip(from)[a - from] == all[a]);
        assert(told[a - from] == queries::tell(all[a]));
        assert(told_as(journal[k], told[a - from]));
    } else {
        assert(all.skip(from)[0] == all[from]);
        assert(told[0] == queries::tell(all[from]));
        let (x, y) = choose|x: int, y: int|
            #![trigger journal[x], journal[y]]
            0 <= x < y < journal.len() && journal[x] == all[a] && journal[y] == all[from];
        assert(journal[x].seq < journal[y].seq);
    }
}

/// A tail tells entries as they are, oldest first, and only such as come after the
/// point. At most as many as asked for, which is never less than one nor more than a
/// thousand; an entry after the point is left out only where that many newer ones are
/// told.
pub proof fn law_tails_tell_the_newest(journal: Seq<Entry>, after: i64, limit: i64)
    requires
        model::sound_journal(journal),
    ensures
        ({
            let told = queries::tail(journal, after, limit);
            let most = if limit < 1 {
                1
            } else if limit > 1000 {
                1000
            } else {
                limit as int
            };
            &&& told.len() <= most
            &&& forall|i: int|
                0 <= i < told.len() ==> (#[trigger] told[i]).seq > after && exists|k: int|
                    0 <= k < journal.len() && told_as(#[trigger] journal[k], told[i])
            &&& forall|i: int, j: int|
                0 <= i < j < told.len() ==> (#[trigger] told[i]).seq < (#[trigger] told[j]).seq
            &&& forall|k: int|
                0 <= k < journal.len() && (#[trigger] journal[k]).seq > after ==> (exists|i: int|
                    0 <= i < told.len() && told_as(journal[k], #[trigger] told[i])) || told.len()
                    == most && told[0].seq > journal[k].seq
        }),
{
    let told = queries::tail(journal, after, limit);
    let keep = |e: Entry| e.seq > after;
    let all = queries::later(journal, after);
    let n = queries::tail_limit(limit);
    let from = if all.len() > n {
        all.len() - n
    } else {
        0
    };
    upkeep::lemma_filter(journal, keep);
    lemma_tail_ascends(journal, after, limit);
    assert forall|i: int| 0 <= i < told.len() implies (#[trigger] told[i]) == queries::tell(
        all[from + i],
    ) by {
        assert(all.skip(from)[i] == all[from + i]);
    }
    assert forall|i: int| 0 <= i < told.len() implies (#[trigger] told[i]).seq > after && exists|
        k: int,
    |
        0 <= k < journal.len() && told_as(#[trigger] journal[k], told[i]) by {
        assert(told[i] == queries::tell(all[from + i]));
        assert(journal.contains(all[from + i]));
        let k = choose|k: int| 0 <= k < journal.len() && journal[k] == all[from + i];
        assert(told_as(journal[k], told[i]));
    }
    assert forall|k: int| 0 <= k < journal.len() && (#[trigger] journal[k]).seq > after implies (
    exists|i: int| 0 <= i < told.len() && told_as(journal[k], #[trigger] told[i])) || told.len()
        == n && told[0].seq > journal[k].seq by {
        lemma_left_out(journal, after, limit, k);
    }
}

/// The two enumerations agree: what a workspace's enumeration shows of a project that is
/// registered here, the full one shows too, with the same name, roots and workspace.
pub proof fn law_enumerations_agree(reg: Registry, w: Text, i: int)
    requires
        reg.sound(),
        0 <= i < queries::listing(reg, Some(w)).projects.len(),
        queries::listing(reg, Some(w)).projects[i].device is None,
        entered(reg.tables.projects, queries::listing(reg, Some(w)).projects[i].project_id),
    ensures
        queries::listing(reg, None).projects.contains(queries::listing(reg, Some(w)).projects[i]),
{
    let t = reg.tables;
    let one = queries::listing(reg, Some(w));
    let all = queries::listing(reg, None);
    let n = t.projects.len() as int;
    let m = queries::roster(t.members, w)[i];
    assert(one.projects[i] == queries::shown_member(t, m));
    upkeep::lemma_live(t.projects, m.project_id);
    let p = model::project(t.projects, m.project_id)->Some_0;
    membership::lemma_project(t.projects, m.project_id, p);
    let cols = t.projects.map_values(|p: Project| seq![p.project_id]);
    let mine = queries::projects_by_id(t.projects);
    observed::lemma_picked(t.projects, cols, p);
    let k = choose|k: int| 0 <= k < mine.len() && mine[k] == p;
    let local = mine.map_values(|p: Project| queries::shown_project(t, p));
    assert(local[k] == queries::shown_project(t, p));
    assert(all.projects[k] == local[k]);
    assert(all.projects[k] == one.projects[i]);
}

/// References to other devices are shown behind all else, by device and then by project,
/// each once.
pub proof fn law_remote_references_go_in_order(reg: Registry, i: int, j: int)
    requires
        reg.sound(),
        reg.tables.projects.len() <= i < j < queries::listing(reg, None).projects.len(),
    ensures
        ({
            let a = queries::listing(reg, None).projects[i];
            let b = queries::listing(reg, None).projects[j];
            &&& a.device is Some && b.device is Some
            &&& order::text_lt(a.device->Some_0, b.device->Some_0) || a.device == b.device
                && order::text_lt(a.project_id, b.project_id)
        }),
{
    let t = reg.tables;
    let l = queries::listing(reg, None);
    let n = t.projects.len() as int;
    let keep = |m: Member| m.remote;
    let far = t.members.filter(keep);
    let cols = far.map_values(|m: Member| seq![m.device, m.project_id]);
    let places = order::order_of(cols);
    let away = queries::remotes(t.members);
    let mine = queries::projects_by_id(t.projects);
    let pcols = t.projects.map_values(|p: Project| seq![p.project_id]);
    order::law_sorting_is_stable(pcols);
    order::law_sorting_is_stable(cols);
    let local = mine.map_values(|p: Project| queries::shown_project(t, p));
    let remote = away.map_values(|m: Member| queries::shown_remote(t, m));
    assert(l.projects == local + remote);
    let (a, b) = (places[i - n], places[j - n]);
    assert(a != b);
    let (m, o) = (far[a], far[b]);
    assert(l.projects[i] == queries::shown_remote(t, m));
    assert(l.projects[j] == queries::shown_remote(t, o));
    assert(m.device != o.device || m.project_id != o.project_id) by {
        upkeep::lemma_filter(t.members, keep);
        let (x, y) = if a < b {
            (a, b)
        } else {
            (b, a)
        };
        let (c, d) = choose|c: int, d: int|
            #![trigger t.members[c], t.members[d]]
            0 <= c < d < t.members.len() && t.members[c] == far[x] && t.members[d] == far[y];
        assert(!model::same_reference(t.members[c], t.members[d]));
        assert(keep(far[x]) && keep(far[y]));
    }
    let (p, q) = (cols[a], cols[b]);
    assert(p == seq![m.device, m.project_id] && q == seq![o.device, o.project_id]);
    assert(p[0] == m.device && p[1] == m.project_id && q[0] == o.device && q[1] == o.project_id);
    assert(order::keys_lt(p, q) || p == q);
    reveal_with_fuel(order::keys_lt, 4);
    assert(p.drop_first()[0] == p[1] && q.drop_first()[0] == q[1]);
    assert(p.drop_first().drop_first().len() == 0 && q.drop_first().drop_first().len() == 0);
}

} // verus!
