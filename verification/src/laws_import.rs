//! Which rows an import adds, and that it adds no others.
use vstd::prelude::*;
use vstd::string::*;

use crate::laws_rows::{journals, ran};
use crate::membership::{entered, leads, opened, referred, taken};
use crate::model::{Claim, Link, Member, Pair, Project, Registry, Seed, Tables, Workspace};
use crate::observed::{claims_only, sole, stands};
use crate::paths::RootFact;
use crate::seed::Progress;
use crate::text::Text;
use crate::{
    effects, ids, laws_rows, laws_seed, membership, model, observed, order, paths, seed, upkeep,
};

verus! {

/// Whether a project was imported as the identity.
pub open spec fn imported_as(t: Seq<Project>, id: Text, identity: Text) -> bool {
    exists|p: Project| #[trigger]
        t.contains(p) && p.project_id == id && p.seed_identity == Some(identity)
}

/// Whether a project is new, or has a root that is.
pub open spec fn touched(before: Tables, after: Tables, id: Text) -> bool {
    ||| !entered(before.projects, id) && entered(after.projects, id)
    ||| exists|root: Text| #[trigger]
        leads(after.roots, root, id) && !taken(before.roots, root)
}

/// Whether the claims for what a project was imported as name this workspace, and no
/// other.
pub open spec fn claimed_for(t: Seq<Project>, claims: Seq<Claim>, id: Text, w: Text) -> bool {
    exists|identity: Text| #[trigger]
        imported_as(t, id, identity) && claims_only(claims, identity, w)
}

/// Whether an alias is new and that of a new root of the project.
pub open spec fn new_alias(before: Tables, after: Tables, l: Link, now: i64) -> bool {
    l.at == now && !taken(before.aliases, l.key) && exists|root: Text| #[trigger]
        leads(after.roots, root, l.target) && !taken(before.roots, root) && l.key
            == ids::implicit_id(root)
}

/// Whether a root is new and that of the project of the one identity that has it to
/// itself.
pub open spec fn new_root(
    before: Tables,
    after: Tables,
    pairs: Seq<Pair>,
    l: Link,
    now: i64,
) -> bool {
    l.at == now && !taken(before.roots, l.key) && exists|identity: Text| #[trigger]
        sole(pairs, l.key, identity) && l.target == ids::seeded_id(identity) && imported_as(
            after.projects,
            l.target,
            identity,
        )
}

/// Whether a placement is new, of a project that the import touched, and in the one
/// workspace that is claimed for it.
pub open spec fn new_place(before: Tables, after: Tables, claims: Seq<Claim>, l: Link) -> bool {
    l.at == 0 && !taken(before.placements, l.key) && touched(before, after, l.key) && claimed_for(
        after.projects,
        claims,
        l.key,
        l.target,
    )
}

/// Whether a local reference is new, to a project that the import touched, and from the
/// one workspace that is claimed for it.
pub open spec fn new_reference(
    before: Tables,
    after: Tables,
    claims: Seq<Claim>,
    m: Member,
) -> bool {
    !m.remote && m.device.len() == 0 && !referred(before.members, m.project_id) && touched(
        before,
        after,
        m.project_id,
    ) && claimed_for(after.projects, claims, m.project_id, m.workspace_id)
}

/// The project that an identity gets where it has none.
pub open spec fn newcomer(req: Seed, roots: Seq<Text>, identity: Text, now: i64) -> Project {
    effects::new_project(
        ids::seeded_id(identity),
        seed::import_name(req.names, identity, seed::group(req.pairs, roots, identity)),
        Some(identity),
        now,
    )
}

/// What holds of projects while identities are imported.
pub open spec fn projects_hold(
    t: Tables,
    u: Tables,
    req: Seed,
    roots: Seq<Text>,
    done: Seq<Text>,
    now: i64,
) -> bool {
    &&& forall|p: Project| #[trigger]
        u.projects.contains(p) ==> t.projects.contains(p) || !entered(t.projects, p.project_id)
            && exists|x: Text| #[trigger]
            done.contains(x) && p == newcomer(req, roots, x, now)
    &&& forall|p: Project| #[trigger] t.projects.contains(p) ==> u.projects.contains(p)
    &&& forall|x: Text| #[trigger]
        done.contains(x) ==> entered(u.projects, ids::seeded_id(x)) || taken(
            t.aliases,
            ids::seeded_id(x),
        )
}

/// What holds of roots while identities are imported.
pub open spec fn roots_hold(t: Tables, u: Tables, pairs: Seq<Pair>, done: Seq<Text>, now: i64) -> bool {
    forall|l: Link| #[trigger]
        u.roots.contains(l) <==> t.roots.contains(l) || l.at == now && !taken(t.roots, l.key)
            && exists|x: Text| #[trigger]
            done.contains(x) && sole(pairs, l.key, x) && l.target == ids::seeded_id(x)
                && imported_as(u.projects, l.target, x)
}

/// What holds of aliases while identities are imported.
pub open spec fn aliases_hold(t: Tables, u: Tables, now: i64) -> bool {
    &&& forall|l: Link| #[trigger]
        u.aliases.contains(l) ==> t.aliases.contains(l) || new_alias(t, u, l, now)
    &&& forall|l: Link| #[trigger] t.aliases.contains(l) ==> u.aliases.contains(l)
    &&& forall|root: Text, id: Text| #[trigger]
        leads(u.roots, root, id) && !taken(t.roots, root) ==> taken(
            u.aliases,
            ids::implicit_id(root),
        )
}

/// What holds of placements while identities are imported.
pub open spec fn places_hold(t: Tables, u: Tables, claims: Seq<Claim>) -> bool {
    &&& forall|l: Link| #[trigger]
        u.placements.contains(l) <==> t.placements.contains(l) || new_place(t, u, claims, l)
    &&& forall|m: Member| #[trigger]
        u.members.contains(m) <==> t.members.contains(m) || new_reference(t, u, claims, m)
}

proof fn lemma_taken_row(t: Seq<Link>, l: Link)
    requires
        t.contains(l),
    ensures
        taken(t, l.key),
        leads(t, l.key, l.target),
{
    let i = choose|i: int| 0 <= i < t.len() && t[i] == l;
    assert(t[i].key == l.key);
}

proof fn lemma_entered_row(t: Seq<Project>, p: Project)
    requires
        t.contains(p),
    ensures
        entered(t, p.project_id),
{
    let i = choose|i: int| 0 <= i < t.len() && t[i] == p;
    assert(t[i].project_id == p.project_id);
}

proof fn lemma_entered_has(t: Seq<Project>, id: Text) -> (p: Project)
    requires
        entered(t, id),
    ensures
        t.contains(p),
        p.project_id == id,
{
    let i = choose|i: int| 0 <= i < t.len() && (#[trigger] t[i]).project_id == id;
    assert(t.contains(t[i]));
    t[i]
}

proof fn lemma_taken_has(t: Seq<Link>, key: Text) -> (l: Link)
    requires
        taken(t, key),
    ensures
        t.contains(l),
        l.key == key,
{
    let i = choose|i: int| 0 <= i < t.len() && (#[trigger] t[i]).key == key;
    assert(t.contains(t[i]));
    t[i]
}

proof fn lemma_leads_has(t: Seq<Link>, key: Text, to: Text) -> (l: Link)
    requires
        leads(t, key, to),
    ensures
        t.contains(l),
        l.key == key,
        l.target == to,
{
    let i = choose|i: int| 0 <= i < t.len() && (#[trigger] t[i]).key == key && t[i].target == to;
    assert(t.contains(t[i]));
    t[i]
}

/// Two projects with one id are one.
proof fn lemma_one_project(t: Seq<Project>, p: Project, q: Project)
    requires
        model::unique_projects(t),
        t.contains(p),
        t.contains(q),
        p.project_id == q.project_id,
    ensures
        p == q,
{
    membership::lemma_project(t, p.project_id, p);
    membership::lemma_project(t, p.project_id, q);
}

/// An id minted for an import is never an implicit one.
proof fn lemma_never_implicit(identity: Text, root: Text)
    ensures
        ids::seeded_id(identity) != ids::implicit_id(root),
{
    ids::law_seeded_ids_are_not_reserved(identity);
    ids::law_implicit_ids_are_reserved(root);
}

/// An import adds no alias for an id that it mints.
proof fn lemma_minted_aliases(t: Tables, u: Tables, identity: Text, now: i64)
    requires
        aliases_hold(t, u, now),
    ensures
        taken(u.aliases, ids::seeded_id(identity)) <==> taken(t.aliases, ids::seeded_id(identity)),
{
    let id = ids::seeded_id(identity);
    if taken(t.aliases, id) {
        let l = lemma_taken_has(t.aliases, id);
        assert(u.aliases.contains(l));
        lemma_taken_row(u.aliases, l);
    }
    if taken(u.aliases, id) {
        let l = lemma_taken_has(u.aliases, id);
        if t.aliases.contains(l) {
            lemma_taken_row(t.aliases, l);
        } else {
            assert(new_alias(t, u, l, now));
            let root = choose|root: Text| #[trigger]
                leads(u.roots, root, l.target) && !taken(t.roots, root) && l.key
                    == ids::implicit_id(root);
            lemma_never_implicit(identity, root);
        }
    }
}

/// What landing means.
pub proof fn lemma_landing(u: Tables, identity: Text)
    requires
        u.sound(),
    ensures
        ({
            let id = ids::seeded_id(identity);
            match seed::landing(u, identity).0 {
                Some(project) => project == id && (entered(u.projects, id) <==> imported_as(
                    u.projects,
                    id,
                    identity,
                )) && (!entered(u.projects, id) ==> !taken(u.aliases, id)),
                None => !imported_as(u.projects, id, identity) && (entered(u.projects, id) || taken(
                    u.aliases,
                    id,
                )),
            }
        }),
{
    let id = ids::seeded_id(identity);
    upkeep::lemma_live(u.projects, id);
    upkeep::lemma_target(u.aliases, id);
    if let Some(p) = model::project(u.projects, id) {
        membership::lemma_project(u.projects, id, p);
        assert(u.projects.contains(p));
        if imported_as(u.projects, id, identity) {
            let q = choose|q: Project| #[trigger]
                u.projects.contains(q) && q.project_id == id && q.seed_identity == Some(identity);
            lemma_one_project(u.projects, p, q);
        }
    } else if imported_as(u.projects, id, identity) {
        let q = choose|q: Project| #[trigger]
            u.projects.contains(q) && q.project_id == id && q.seed_identity == Some(identity);
        lemma_entered_row(u.projects, q);
    }
}

/// Where an identity lands, nothing was done to its project before.
proof fn lemma_untouched(
    t: Tables,
    u: Tables,
    req: Seed,
    roots: Seq<Text>,
    done: Seq<Text>,
    now: i64,
    y: Text,
)
    requires
        t.sound(),
        u.sound(),
        projects_hold(t, u, req, roots, done, now),
        roots_hold(t, u, req.pairs, done, now),
        !done.contains(y),
        seed::landing(u, y).0 is Some,
    ensures
        !touched(t, u, ids::seeded_id(y)),
{
    let id = ids::seeded_id(y);
    lemma_landing(u, y);
    if !entered(t.projects, id) && entered(u.projects, id) {
        let p = lemma_entered_has(u.projects, id);
        if t.projects.contains(p) {
            lemma_entered_row(t.projects, p);
        }
        let x = choose|x: Text| #[trigger]
            done.contains(x) && p == newcomer(req, roots, x, now);
        let q = choose|q: Project| #[trigger]
            u.projects.contains(q) && q.project_id == id && q.seed_identity == Some(y);
        lemma_one_project(u.projects, p, q);
    }
    if exists|root: Text| #[trigger] leads(u.roots, root, id) && !taken(t.roots, root) {
        let root = choose|root: Text| #[trigger] leads(u.roots, root, id) && !taken(t.roots, root);
        let l = lemma_leads_has(u.roots, root, id);
        if t.roots.contains(l) {
            lemma_taken_row(t.roots, l);
        }
        let x = choose|x: Text| #[trigger]
            done.contains(x) && sole(req.pairs, l.key, x) && l.target == ids::seeded_id(x)
                && imported_as(u.projects, l.target, x);
        let p = choose|p: Project| #[trigger]
            u.projects.contains(p) && p.project_id == id && p.seed_identity == Some(x);
        lemma_entered_row(u.projects, p);
        let q = choose|q: Project| #[trigger]
            u.projects.contains(q) && q.project_id == id && q.seed_identity == Some(y);
        lemma_one_project(u.projects, p, q);
    }
}

/// A root that an identity has to itself is taken where it was before the import.
pub proof fn lemma_own_roots(
    t: Tables,
    u: Tables,
    pairs: Seq<Pair>,
    done: Seq<Text>,
    now: i64,
    y: Text,
    root: Text,
)
    requires
        roots_hold(t, u, pairs, done, now),
        !done.contains(y),
        sole(pairs, root, y),
    ensures
        taken(u.roots, root) <==> taken(t.roots, root),
{
    if taken(t.roots, root) {
        let l = lemma_taken_has(t.roots, root);
        assert(u.roots.contains(l));
        lemma_taken_row(u.roots, l);
    }
    if taken(u.roots, root) {
        let l = lemma_taken_has(u.roots, root);
        if t.roots.contains(l) {
            lemma_taken_row(t.roots, l);
        } else {
            let x = choose|x: Text| #[trigger]
                done.contains(x) && sole(pairs, l.key, x) && l.target == ids::seeded_id(x)
                    && imported_as(u.projects, l.target, x);
            assert(observed::observed(pairs, root, x));
            assert(x == y);
        }
    }
}

/// Which roots an identity gains.
pub proof fn lemma_free(
    t: Tables,
    u: Tables,
    req: Seed,
    roots: Seq<Text>,
    done: Seq<Text>,
    now: i64,
    y: Text,
    root: Text,
)
    requires
        u.sound(),
        roots_hold(t, u, req.pairs, done, now),
        roots == order::sorted_set(seed::roots_of(req.pairs)),
        !done.contains(y),
    ensures
        seed::free_roots(u, seed::group(req.pairs, roots, y)).contains(root) <==> sole(
            req.pairs,
            root,
            y,
        ) && !taken(t.roots, root),
{
    let rows = seed::group(req.pairs, roots, y);
    let keep = |r: Text| !model::has(u.roots, r);
    order::law_sorted_set(seed::roots_of(req.pairs));
    observed::lemma_group(req.pairs, roots, y);
    membership::lemma_kept(seed::roots_of(rows), keep, root);
    upkeep::lemma_target(u.roots, root);
    if sole(req.pairs, root, y) {
        lemma_own_roots(t, u, req.pairs, done, now, y, root);
        let i = choose|i: int|
            0 <= i < req.pairs.len() && (#[trigger] req.pairs[i]).root == root
                && req.pairs[i].identity == y && stands(req.pairs, req.pairs[i]);
        assert(seed::roots_of(req.pairs)[i] == root);
        assert(seed::roots_of(req.pairs).contains(root));
        assert(roots.contains(root));
    }
}

proof fn lemma_done_more(done: Seq<Text>, y: Text, x: Text)
    ensures
        done.push(y).contains(x) <==> done.contains(x) || x == y,
{
    membership::lemma_pushed(done, y, x);
}

/// An identity that does not land changes nothing, and nothing is missing.
proof fn lemma_step_refused(
    t: Tables,
    u: Tables,
    req: Seed,
    roots: Seq<Text>,
    done: Seq<Text>,
    now: i64,
    y: Text,
)
    requires
        t.sound(),
        u.sound(),
        projects_hold(t, u, req, roots, done, now),
        roots_hold(t, u, req.pairs, done, now),
        aliases_hold(t, u, now),
        !done.contains(y),
        seed::landing(u, y).0 is None,
    ensures
        projects_hold(t, u, req, roots, done.push(y), now),
        roots_hold(t, u, req.pairs, done.push(y), now),
{
    let more = done.push(y);
    lemma_landing(u, y);
    lemma_minted_aliases(t, u, y, now);
    assert forall|x: Text| #[trigger] more.contains(x) <==> done.contains(x) || x == y by {
        lemma_done_more(done, y, x);
    }
    assert forall|p: Project| #[trigger] u.projects.contains(p) implies t.projects.contains(p)
        || !entered(t.projects, p.project_id) && exists|x: Text| #[trigger]
        more.contains(x) && p == newcomer(req, roots, x, now) by {
        if !t.projects.contains(p) {
            let x = choose|x: Text| #[trigger]
                done.contains(x) && p == newcomer(req, roots, x, now);
            assert(more.contains(x));
        }
    }
    assert forall|l: Link| #[trigger] u.roots.contains(l) <==> t.roots.contains(l) || l.at == now
        && !taken(t.roots, l.key) && exists|x: Text| #[trigger]
        more.contains(x) && sole(req.pairs, l.key, x) && l.target == ids::seeded_id(x)
            && imported_as(u.projects, l.target, x) by {
        if u.roots.contains(l) && !t.roots.contains(l) {
            let x = choose|x: Text| #[trigger]
                done.contains(x) && sole(req.pairs, l.key, x) && l.target == ids::seeded_id(x)
                    && imported_as(u.projects, l.target, x);
            assert(more.contains(x));
        }
        if l.at == now && !taken(t.roots, l.key) && exists|x: Text| #[trigger]
            more.contains(x) && sole(req.pairs, l.key, x) && l.target == ids::seeded_id(x)
                && imported_as(u.projects, l.target, x) {
            let x = choose|x: Text| #[trigger]
                more.contains(x) && sole(req.pairs, l.key, x) && l.target == ids::seeded_id(x)
                    && imported_as(u.projects, l.target, x);
            assert(x != y);
            assert(done.contains(x));
        }
    }
}

/// Projects after an identity lands.
proof fn lemma_step_projects(
    t: Tables,
    u: Tables,
    req: Seed,
    roots: Seq<Text>,
    done: Seq<Text>,
    now: i64,
    y: Text,
    v: Tables,
)
    requires
        t.sound(),
        u.sound(),
        projects_hold(t, u, req, roots, done, now),
        !done.contains(y),
        v.projects == model::add_project(u.projects, newcomer(req, roots, y, now)),
    ensures
        projects_hold(t, v, req, roots, done.push(y), now),
        forall|p: Project| #[trigger]
            v.projects.contains(p) <==> u.projects.contains(p) || p == newcomer(req, roots, y, now)
                && !entered(u.projects, ids::seeded_id(y)),
        entered(v.projects, ids::seeded_id(y)),
{
    let more = done.push(y);
    let row = newcomer(req, roots, y, now);
    let id = ids::seeded_id(y);
    assert forall|x: Text| #[trigger] more.contains(x) <==> done.contains(x) || x == y by {
        lemma_done_more(done, y, x);
    }
    assert forall|p: Project| #[trigger] v.projects.contains(p) <==> u.projects.contains(p) || p
        == row && !entered(u.projects, id) by {
        membership::lemma_project_added(u.projects, row, p);
    }
    assert(entered(v.projects, id)) by {
        if entered(u.projects, id) {
            let p = lemma_entered_has(u.projects, id);
            assert(v.projects.contains(p));
            lemma_entered_row(v.projects, p);
        } else {
            assert(v.projects.contains(row));
            lemma_entered_row(v.projects, row);
        }
    }
    assert forall|p: Project| #[trigger] v.projects.contains(p) implies t.projects.contains(p)
        || !entered(t.projects, p.project_id) && exists|x: Text| #[trigger]
        more.contains(x) && p == newcomer(req, roots, x, now) by {
        if u.projects.contains(p) {
            if !t.projects.contains(p) {
                let x = choose|x: Text| #[trigger]
                    done.contains(x) && p == newcomer(req, roots, x, now);
                assert(more.contains(x));
            }
        } else {
            assert(more.contains(y));
            if entered(t.projects, id) {
                let q = lemma_entered_has(t.projects, id);
                assert(u.projects.contains(q));
                lemma_entered_row(u.projects, q);
            }
        }
    }
    assert forall|p: Project| #[trigger] t.projects.contains(p) implies v.projects.contains(p) by {
        assert(u.projects.contains(p));
    }
    assert forall|x: Text| #[trigger] more.contains(x) implies entered(
        v.projects,
        ids::seeded_id(x),
    ) || taken(t.aliases, ids::seeded_id(x)) by {
        if x != y {
            assert(done.contains(x));
            if entered(u.projects, ids::seeded_id(x)) {
                let p = lemma_entered_has(u.projects, ids::seeded_id(x));
                assert(v.projects.contains(p));
                lemma_entered_row(v.projects, p);
            }
        }
    }
}

/// Who a project was imported as does not change, but for the one that lands.
proof fn lemma_step_seeds(
    u: Tables,
    req: Seed,
    roots: Seq<Text>,
    now: i64,
    y: Text,
    v: Tables,
    id: Text,
    x: Text,
)
    requires
        u.sound(),
        seed::landing(u, y).0 is Some,
        forall|p: Project| #[trigger]
            v.projects.contains(p) <==> u.projects.contains(p) || p == newcomer(req, roots, y, now)
                && !entered(u.projects, ids::seeded_id(y)),
    ensures
        imported_as(v.projects, id, x) <==> imported_as(u.projects, id, x) || id == ids::seeded_id(
            y,
        ) && x == y,
        id != ids::seeded_id(y) ==> (entered(v.projects, id) <==> entered(u.projects, id)),
        imported_as(v.projects, ids::seeded_id(y), x) ==> x == y,
{
    let mine = ids::seeded_id(y);
    let row = newcomer(req, roots, y, now);
    lemma_landing(u, y);
    if imported_as(u.projects, id, x) {
        let p = choose|p: Project| #[trigger]
            u.projects.contains(p) && p.project_id == id && p.seed_identity == Some(x);
        assert(v.projects.contains(p));
    }
    if imported_as(v.projects, id, x) {
        let p = choose|p: Project| #[trigger]
            v.projects.contains(p) && p.project_id == id && p.seed_identity == Some(x);
        if !u.projects.contains(p) {
            assert(p == row);
        }
    }
    if entered(u.projects, mine) {
        assert(imported_as(u.projects, mine, y));
        let q = choose|q: Project| #[trigger]
            u.projects.contains(q) && q.project_id == mine && q.seed_identity == Some(y);
        assert(v.projects.contains(q));
        assert(imported_as(v.projects, mine, y));
        if imported_as(v.projects, mine, x) {
            let p = choose|p: Project| #[trigger]
                v.projects.contains(p) && p.project_id == mine && p.seed_identity == Some(x);
            assert(u.projects.contains(p));
            lemma_one_project(u.projects, p, q);
        }
    } else {
        assert(v.projects.contains(row));
        assert(imported_as(v.projects, mine, y));
        if imported_as(v.projects, mine, x) {
            let p = choose|p: Project| #[trigger]
                v.projects.contains(p) && p.project_id == mine && p.seed_identity == Some(x);
            if u.projects.contains(p) {
                lemma_entered_row(u.projects, p);
            }
        }
    }
    if id != mine {
        if entered(u.projects, id) {
            let p = lemma_entered_has(u.projects, id);
            assert(v.projects.contains(p));
            lemma_entered_row(v.projects, p);
        }
        if entered(v.projects, id) {
            let p = lemma_entered_has(v.projects, id);
            assert(u.projects.contains(p));
            lemma_entered_row(u.projects, p);
        }
    }
}

/// Roots after an identity lands.
proof fn lemma_step_roots(
    t: Tables,
    u: Tables,
    req: Seed,
    roots: Seq<Text>,
    done: Seq<Text>,
    now: i64,
    y: Text,
    v: Tables,
)
    requires
        u.sound(),
        roots == order::sorted_set(seed::roots_of(req.pairs)),
        roots_hold(t, u, req.pairs, done, now),
        !done.contains(y),
        seed::landing(u, y).0 is Some,
        forall|p: Project| #[trigger]
            v.projects.contains(p) <==> u.projects.contains(p) || p == newcomer(req, roots, y, now)
                && !entered(u.projects, ids::seeded_id(y)),
        v.roots == effects::add_links(
            u.roots,
            seed::free_roots(u, seed::group(req.pairs, roots, y)),
            ids::seeded_id(y),
            now,
        ),
    ensures
        roots_hold(t, v, req.pairs, done.push(y), now),
        forall|l: Link| #[trigger]
            v.roots.contains(l) <==> u.roots.contains(l) || l.at == now && l.target
                == ids::seeded_id(y) && sole(req.pairs, l.key, y) && !taken(t.roots, l.key),
{
    let more = done.push(y);
    let id = ids::seeded_id(y);
    let free = seed::free_roots(u, seed::group(req.pairs, roots, y));
    assert forall|x: Text| #[trigger] more.contains(x) <==> done.contains(x) || x == y by {
        lemma_done_more(done, y, x);
    }
    assert forall|l: Link| #[trigger] v.roots.contains(l) <==> u.roots.contains(l) || l.at == now
        && l.target == id && sole(req.pairs, l.key, y) && !taken(t.roots, l.key) by {
        membership::lemma_all_added(u.roots, free, id, now, l);
        lemma_free(t, u, req, roots, done, now, y, l.key);
        if sole(req.pairs, l.key, y) {
            lemma_own_roots(t, u, req.pairs, done, now, y, l.key);
        }
    }
    assert forall|l: Link| #[trigger] v.roots.contains(l) <==> t.roots.contains(l) || l.at == now
        && !taken(t.roots, l.key) && exists|x: Text| #[trigger]
        more.contains(x) && sole(req.pairs, l.key, x) && l.target == ids::seeded_id(x)
            && imported_as(v.projects, l.target, x) by {
        if u.roots.contains(l) && !t.roots.contains(l) {
            let x = choose|x: Text| #[trigger]
                done.contains(x) && sole(req.pairs, l.key, x) && l.target == ids::seeded_id(x)
                    && imported_as(u.projects, l.target, x);
            assert(more.contains(x));
            lemma_step_seeds(u, req, roots, now, y, v, l.target, x);
        } else if v.roots.contains(l) && !u.roots.contains(l) {
            assert(more.contains(y));
            lemma_step_seeds(u, req, roots, now, y, v, l.target, y);
        }
        if l.at == now && !taken(t.roots, l.key) && exists|x: Text| #[trigger]
            more.contains(x) && sole(req.pairs, l.key, x) && l.target == ids::seeded_id(x)
                && imported_as(v.projects, l.target, x) {
            let x = choose|x: Text| #[trigger]
                more.contains(x) && sole(req.pairs, l.key, x) && l.target == ids::seeded_id(x)
                    && imported_as(v.projects, l.target, x);
            if x != y {
                assert(done.contains(x));
                lemma_step_seeds(u, req, roots, now, y, v, l.target, x);
                assert(u.roots.contains(l));
            }
        }
    }
}

proof fn lemma_more_leads(a: Seq<Link>, b: Seq<Link>, key: Text, to: Text)
    requires
        forall|l: Link| #[trigger] a.contains(l) ==> b.contains(l),
        leads(a, key, to),
    ensures
        leads(b, key, to),
{
    let l = lemma_leads_has(a, key, to);
    assert(b.contains(l));
    lemma_taken_row(b, l);
}

/// Aliases after an identity lands.
proof fn lemma_step_aliases(
    t: Tables,
    u: Tables,
    req: Seed,
    free: Seq<Text>,
    now: i64,
    id: Text,
    v: Tables,
)
    requires
        aliases_hold(t, u, now),
        forall|root: Text| #[trigger] free.contains(root) ==> !taken(t.roots, root),
        forall|root: Text| #[trigger]
            free.contains(root) ==> leads(v.roots, root, id),
        forall|l: Link| #[trigger]
            v.roots.contains(l) ==> u.roots.contains(l) || free.contains(l.key),
        forall|l: Link| #[trigger] u.roots.contains(l) ==> v.roots.contains(l),
        v.aliases == effects::add_links(u.aliases, effects::implicit_ids(free), id, now),
    ensures
        aliases_hold(t, v, now),
{
    let keys = effects::implicit_ids(free);
    assert forall|l: Link| #[trigger] v.aliases.contains(l) implies t.aliases.contains(l)
        || new_alias(t, v, l, now) by {
        membership::lemma_all_added(u.aliases, keys, id, now, l);
        if u.aliases.contains(l) {
            if !t.aliases.contains(l) {
                assert(new_alias(t, u, l, now));
                let root = choose|root: Text| #[trigger]
                    leads(u.roots, root, l.target) && !taken(t.roots, root) && l.key
                        == ids::implicit_id(root);
                lemma_more_leads(u.roots, v.roots, root, l.target);
                assert(leads(v.roots, root, l.target));
            }
        } else {
            let i = choose|i: int| 0 <= i < keys.len() && keys[i] == l.key;
            assert(free.contains(free[i]));
            assert(keys[i] == ids::implicit_id(free[i]));
            assert(leads(v.roots, free[i], l.target) && !taken(t.roots, free[i]));
            if taken(t.aliases, l.key) {
                let m = lemma_taken_has(t.aliases, l.key);
                assert(u.aliases.contains(m));
                lemma_taken_row(u.aliases, m);
            }
        }
    }
    assert forall|l: Link| #[trigger] t.aliases.contains(l) implies v.aliases.contains(l) by {
        assert(u.aliases.contains(l));
        membership::lemma_all_added(u.aliases, keys, id, now, l);
    }
    assert forall|root: Text, to: Text| #[trigger]
        leads(v.roots, root, to) && !taken(t.roots, root) implies taken(
        v.aliases,
        ids::implicit_id(root),
    ) by {
        let l = lemma_leads_has(v.roots, root, to);
        membership::lemma_all_added(u.aliases, keys, id, now, l);
        if u.roots.contains(l) {
            lemma_taken_row(u.roots, l);
            assert(leads(u.roots, root, to));
            assert(taken(u.aliases, ids::implicit_id(root)));
        } else {
            let i = choose|i: int| 0 <= i < free.len() && free[i] == root;
            assert(keys[i] == ids::implicit_id(root));
            assert(keys.contains(ids::implicit_id(root)));
        }
        assert(taken(v.aliases, ids::implicit_id(root)));
    }
}

/// Which projects are touched after an identity lands.
proof fn lemma_step_touched(
    t: Tables,
    u: Tables,
    req: Seed,
    roots: Seq<Text>,
    now: i64,
    y: Text,
    v: Tables,
    z: Text,
)
    requires
        u.sound(),
        seed::landing(u, y).0 is Some,
        forall|p: Project| #[trigger]
            v.projects.contains(p) <==> u.projects.contains(p) || p == newcomer(req, roots, y, now)
                && !entered(u.projects, ids::seeded_id(y)),
        forall|l: Link| #[trigger]
            v.roots.contains(l) <==> u.roots.contains(l) || l.at == now && l.target
                == ids::seeded_id(y) && sole(req.pairs, l.key, y) && !taken(t.roots, l.key),
        z != ids::seeded_id(y),
    ensures
        touched(t, v, z) <==> touched(t, u, z),
{
    lemma_step_seeds(u, req, roots, now, y, v, z, y);
    if exists|root: Text| #[trigger] leads(v.roots, root, z) && !taken(t.roots, root) {
        let root = choose|root: Text| #[trigger] leads(v.roots, root, z) && !taken(t.roots, root);
        let l = lemma_leads_has(v.roots, root, z);
        assert(u.roots.contains(l));
        lemma_taken_row(u.roots, l);
        assert(leads(u.roots, root, z));
    }
    if exists|root: Text| #[trigger] leads(u.roots, root, z) && !taken(t.roots, root) {
        let root = choose|root: Text| #[trigger] leads(u.roots, root, z) && !taken(t.roots, root);
        lemma_more_leads(u.roots, v.roots, root, z);
    }
}

/// Placements and references after an identity lands.
proof fn lemma_step_places(
    t: Tables,
    u: Tables,
    req: Seed,
    roots: Seq<Text>,
    now: i64,
    y: Text,
    v: Tables,
)
    requires
        u.sound(),
        places_hold(t, u, req.claims),
        seed::landing(u, y).0 is Some,
        !touched(t, u, ids::seeded_id(y)),
        touched(t, v, ids::seeded_id(y)),
        forall|p: Project| #[trigger]
            v.projects.contains(p) <==> u.projects.contains(p) || p == newcomer(req, roots, y, now)
                && !entered(u.projects, ids::seeded_id(y)),
        forall|l: Link| #[trigger]
            v.roots.contains(l) <==> u.roots.contains(l) || l.at == now && l.target
                == ids::seeded_id(y) && sole(req.pairs, l.key, y) && !taken(t.roots, l.key),
        ({
            let id = ids::seeded_id(y);
            let places = seed::claimed(req.claims, y);
            if places.len() == 1 {
                v.placements == model::add_link(
                    u.placements,
                    Link { key: id, target: places[0], at: 0 },
                ) && v.members == model::add_member(
                    u.members,
                    model::local_member(places[0], id),
                )
            } else {
                v.placements == u.placements && v.members == u.members
            }
        }),
    ensures
        places_hold(t, v, req.claims),
{
    let id = ids::seeded_id(y);
    let places = seed::claimed(req.claims, y);
    assert forall|w: Text| claimed_for(v.projects, req.claims, id, w) <==> places.len() == 1
        && places[0] == w by {
        observed::lemma_claimed(req.claims, y, w);
        lemma_step_seeds(u, req, roots, now, y, v, id, y);
        if claimed_for(v.projects, req.claims, id, w) {
            let x = choose|x: Text| #[trigger]
                imported_as(v.projects, id, x) && claims_only(req.claims, x, w);
            lemma_step_seeds(u, req, roots, now, y, v, id, x);
        }
    }
    assert forall|z: Text, w: Text| z != id implies (claimed_for(v.projects, req.claims, z, w)
        <==> claimed_for(u.projects, req.claims, z, w)) by {
        if claimed_for(v.projects, req.claims, z, w) {
            let x = choose|x: Text| #[trigger]
                imported_as(v.projects, z, x) && claims_only(req.claims, x, w);
            lemma_step_seeds(u, req, roots, now, y, v, z, x);
            assert(imported_as(u.projects, z, x));
        }
        if claimed_for(u.projects, req.claims, z, w) {
            let x = choose|x: Text| #[trigger]
                imported_as(u.projects, z, x) && claims_only(req.claims, x, w);
            lemma_step_seeds(u, req, roots, now, y, v, z, x);
            assert(imported_as(v.projects, z, x));
        }
    }
    assert(taken(u.placements, id) <==> taken(t.placements, id)) by {
        if taken(u.placements, id) {
            let l = lemma_taken_has(u.placements, id);
            assert(!new_place(t, u, req.claims, l));
            lemma_taken_row(t.placements, l);
        }
        if taken(t.placements, id) {
            let l = lemma_taken_has(t.placements, id);
            assert(u.placements.contains(l));
            lemma_taken_row(u.placements, l);
        }
    }
    assert(referred(u.members, id) <==> referred(t.members, id)) by {
        if referred(u.members, id) {
            let i = choose|i: int|
                0 <= i < u.members.len() && !(#[trigger] u.members[i]).remote
                    && u.members[i].device.len() == 0 && u.members[i].project_id == id;
            assert(u.members.contains(u.members[i]));
            assert(!new_reference(t, u, req.claims, u.members[i]));
            let k = choose|k: int| 0 <= k < t.members.len() && t.members[k] == u.members[i];
            assert(!t.members[k].remote);
        }
        if referred(t.members, id) {
            let i = choose|i: int|
                0 <= i < t.members.len() && !(#[trigger] t.members[i]).remote
                    && t.members[i].device.len() == 0 && t.members[i].project_id == id;
            assert(t.members.contains(t.members[i]));
            assert(u.members.contains(t.members[i]));
            let k = choose|k: int| 0 <= k < u.members.len() && u.members[k] == t.members[i];
            assert(!u.members[k].remote);
        }
    }
    assert forall|l: Link| #[trigger] v.placements.contains(l) <==> t.placements.contains(l)
        || new_place(t, v, req.claims, l) by {
        assert(u.placements.contains(l) <==> t.placements.contains(l) || new_place(
            t,
            u,
            req.claims,
            l,
        ));
        if places.len() == 1 {
            membership::lemma_added(
                u.placements,
                Link { key: id, target: places[0], at: 0 },
                l,
            );
        }
        if l.key != id {
            lemma_step_touched(t, u, req, roots, now, y, v, l.key);
        }
    }
    assert forall|m: Member| #[trigger] v.members.contains(m) <==> t.members.contains(m)
        || new_reference(t, v, req.claims, m) by {
        assert(u.members.contains(m) <==> t.members.contains(m) || new_reference(
            t,
            u,
            req.claims,
            m,
        ));
        if places.len() == 1 {
            membership::lemma_member_added(u.members, places[0], id, m);
            if m.device.len() == 0 {
                assert(m.device =~= Seq::empty());
            }
        }
        if m.project_id != id {
            lemma_step_touched(t, u, req, roots, now, y, v, m.project_id);
        }
    }
}

/// What holds of the tables `u` after the identities in `done` were imported to `t`.
pub open spec fn holds(
    t: Tables,
    u: Tables,
    req: Seed,
    roots: Seq<Text>,
    done: Seq<Text>,
    now: i64,
) -> bool {
    &&& u.sound()
    &&& projects_hold(t, u, req, roots, done, now)
    &&& roots_hold(t, u, req.pairs, done, now)
    &&& aliases_hold(t, u, now)
    &&& places_hold(t, u, req.claims)
    &&& u.parents == t.parents
    &&& u.workspaces == t.workspaces
}

proof fn lemma_step(
    t: Tables,
    u: Tables,
    req: Seed,
    roots: Seq<Text>,
    done: Seq<Text>,
    now: i64,
    y: Text,
)
    requires
        t.sound(),
        roots == order::sorted_set(seed::roots_of(req.pairs)),
        holds(t, u, req, roots, done, now),
        !done.contains(y),
        seed::import_group(u, req, y, seed::group(req.pairs, roots, y), now).failure is None,
    ensures
        holds(
            t,
            seed::import_group(u, req, y, seed::group(req.pairs, roots, y), now).tables,
            req,
            roots,
            done.push(y),
            now,
        ),
{
    let rows = seed::group(req.pairs, roots, y);
    let v = seed::import_group(u, req, y, rows, now).tables;
    let id = ids::seeded_id(y);
    seed::lemma_import_group(u, req, y, rows, now);
    if seed::landing(u, y).0 is None {
        lemma_step_refused(t, u, req, roots, done, now, y);
    } else {
        lemma_landing(u, y);
        lemma_untouched(t, u, req, roots, done, now, y);
        let free = seed::free_roots(u, rows);
        let row = newcomer(req, roots, y, now);
        upkeep::lemma_live(u.projects, id);
        assert forall|root: Text| #[trigger] free.contains(root) <==> sole(req.pairs, root, y)
            && !taken(t.roots, root) by {
            lemma_free(t, u, req, roots, done, now, y, root);
        }
        if free.len() == 0 && model::live(u.projects, id) {
            assert(v == u);
            assert(model::add_project(u.projects, row) == u.projects);
            assert(effects::add_links(u.roots, free, id, now) == u.roots);
            lemma_step_projects(t, u, req, roots, done, now, y, v);
            lemma_step_roots(t, u, req, roots, done, now, y, v);
        } else {
            lemma_step_projects(t, u, req, roots, done, now, y, v);
            lemma_step_roots(t, u, req, roots, done, now, y, v);
            assert forall|root: Text| #[trigger] free.contains(root) implies leads(
                v.roots,
                root,
                id,
            ) by {
                let l = Link { key: root, target: id, at: now };
                assert(v.roots.contains(l));
                lemma_taken_row(v.roots, l);
            }
            assert forall|l: Link| #[trigger] v.roots.contains(l) implies u.roots.contains(l)
                || free.contains(l.key) by {}
            lemma_step_aliases(t, u, req, free, now, id, v);
            assert(touched(t, v, id)) by {
                if free.len() > 0 {
                    assert(free.contains(free[0]));
                    assert(leads(v.roots, free[0], id));
                } else {
                    if entered(t.projects, id) {
                        let p = lemma_entered_has(t.projects, id);
                        assert(u.projects.contains(p));
                        lemma_entered_row(u.projects, p);
                    }
                }
            }
            lemma_step_places(t, u, req, roots, now, y, v);
        }
    }
}

proof fn lemma_none_new(t: Tables, req: Seed, roots: Seq<Text>, now: i64)
    requires
        t.sound(),
    ensures
        holds(t, t, req, roots, Seq::empty(), now),
{
    let none = Seq::<Text>::empty();
    assert forall|id: Text| !touched(t, t, id) by {
        assert forall|root: Text| !(#[trigger] leads(t.roots, root, id) && !taken(t.roots, root)) by {
            if leads(t.roots, root, id) {
                let l = lemma_leads_has(t.roots, root, id);
                lemma_taken_row(t.roots, l);
            }
        }
    }
    assert forall|root: Text, id: Text| #[trigger]
        leads(t.roots, root, id) && !taken(t.roots, root) implies taken(
        t.aliases,
        ids::implicit_id(root),
    ) by {
        let l = lemma_leads_has(t.roots, root, id);
        lemma_taken_row(t.roots, l);
    }
    assert forall|x: Text| !(#[trigger] none.contains(x)) by {}
}

pub proof fn lemma_all_groups(
    start: Progress,
    req: Seed,
    roots: Seq<Text>,
    identities: Seq<Text>,
    now: i64,
)
    requires
        start.tables.sound(),
        roots == order::sorted_set(seed::roots_of(req.pairs)),
        order::strictly_ascends(identities),
        seed::import_groups(start, req, roots, identities, now).failure is None,
    ensures
        holds(
            start.tables,
            seed::import_groups(start, req, roots, identities, now).tables,
            req,
            roots,
            identities,
            now,
        ),
    decreases identities.len(),
{
    if identities.len() == 0 {
        lemma_none_new(start.tables, req, roots, now);
        assert(identities =~= Seq::empty());
    } else {
        let head = identities.drop_last();
        let y = identities.last();
        assert forall|i: int, j: int| 0 <= i < j < head.len() implies order::text_lt(
            #[trigger] head[i],
            #[trigger] head[j],
        ) by {
            assert(order::text_lt(identities[i], identities[j]));
        }
        lemma_all_groups(start, req, roots, head, now);
        assert(!head.contains(y)) by {
            if head.contains(y) {
                let i = choose|i: int| 0 <= i < head.len() && head[i] == y;
                assert(order::text_lt(identities[i], identities[identities.len() - 1]));
                order::lemma_text_irreflexive(y);
            }
        }
        let u = seed::import_groups(start, req, roots, head, now).tables;
        lemma_step(start.tables, u, req, roots, head, now, y);
        assert(head.push(y) =~= identities);
    }
}

/// What an identity that is imported finds, and what it leaves.
pub proof fn lemma_step_own(
    t: Tables,
    u: Tables,
    req: Seed,
    roots: Seq<Text>,
    done: Seq<Text>,
    now: i64,
    y: Text,
)
    requires
        t.sound(),
        roots == order::sorted_set(seed::roots_of(req.pairs)),
        holds(t, u, req, roots, done, now),
        !done.contains(y),
    ensures
        ({
            let rows = seed::group(req.pairs, roots, y);
            let v = seed::import_group(u, req, y, rows, now).tables;
            let id = ids::seeded_id(y);
            let landed = seed::landing(u, y).0;
            &&& landed is Some <==> imported_as(v.projects, id, y)
            &&& landed matches Some(p) ==> p == id
            &&& imported_as(u.projects, id, y) <==> imported_as(t.projects, id, y)
            &&& landed is Some ==> (touched(t, v, id) <==> !(seed::free_roots(u, rows).len() == 0
                && model::live(u.projects, id)))
            &&& landed is None ==> (entered(v.projects, id) <==> entered(u.projects, id))
            &&& landed is None ==> entered(u.projects, id) || taken(t.aliases, id)
            &&& landed is Some ==> entered(v.projects, id)
        }),
{
    let rows = seed::group(req.pairs, roots, y);
    let v = seed::import_group(u, req, y, rows, now).tables;
    let id = ids::seeded_id(y);
    let free = seed::free_roots(u, rows);
    lemma_landing(u, y);
    lemma_minted_aliases(t, u, y, now);
    if imported_as(t.projects, id, y) {
        let p = choose|p: Project| #[trigger]
            t.projects.contains(p) && p.project_id == id && p.seed_identity == Some(y);
        assert(u.projects.contains(p));
    }
    if imported_as(u.projects, id, y) {
        let p = choose|p: Project| #[trigger]
            u.projects.contains(p) && p.project_id == id && p.seed_identity == Some(y);
        if !t.projects.contains(p) {
            let x = choose|x: Text| #[trigger]
                done.contains(x) && p == newcomer(req, roots, x, now);
            assert(x == y);
        }
    }
    if seed::landing(u, y).0 is Some {
        upkeep::lemma_live(u.projects, id);
        lemma_untouched(t, u, req, roots, done, now, y);
        let row = newcomer(req, roots, y, now);
        if free.len() == 0 && model::live(u.projects, id) {
            assert(v == u);
        } else {
            lemma_step_projects(t, u, req, roots, done, now, y, v);
            lemma_step_seeds(u, req, roots, now, y, v, id, y);
            assert forall|root: Text| #[trigger] free.contains(root) <==> sole(
                req.pairs,
                root,
                y,
            ) && !taken(t.roots, root) by {
                lemma_free(t, u, req, roots, done, now, y, root);
            }
            lemma_step_roots(t, u, req, roots, done, now, y, v);
            if free.len() > 0 {
                let l = Link { key: free[0], target: id, at: now };
                assert(free.contains(free[0]));
                assert(v.roots.contains(l));
                lemma_taken_row(v.roots, l);
                assert(leads(v.roots, free[0], id));
            } else if entered(t.projects, id) {
                let p = lemma_entered_has(t.projects, id);
                assert(u.projects.contains(p));
                lemma_entered_row(u.projects, p);
            }
        }
    }
}

/// What was found of an identity stays as it is while others are imported.
pub proof fn lemma_step_stable(
    t: Tables,
    u: Tables,
    req: Seed,
    roots: Seq<Text>,
    done: Seq<Text>,
    now: i64,
    y: Text,
    x: Text,
)
    requires
        t.sound(),
        roots == order::sorted_set(seed::roots_of(req.pairs)),
        holds(t, u, req, roots, done, now),
        !done.contains(y),
        done.contains(x),
    ensures
        ({
            let v = seed::import_group(u, req, y, seed::group(req.pairs, roots, y), now).tables;
            let id = ids::seeded_id(x);
            &&& imported_as(v.projects, id, x) <==> imported_as(u.projects, id, x)
            &&& entered(v.projects, id) <==> entered(u.projects, id)
            &&& imported_as(u.projects, id, x) ==> (touched(t, v, id) <==> touched(t, u, id))
        }),
{
    let rows = seed::group(req.pairs, roots, y);
    let v = seed::import_group(u, req, y, rows, now).tables;
    let id = ids::seeded_id(x);
    let own = ids::seeded_id(y);
    let free = seed::free_roots(u, rows);
    if seed::landing(u, y).0 is Some {
        lemma_landing(u, y);
        lemma_minted_aliases(t, u, x, now);
        upkeep::lemma_live(u.projects, own);
        if !(free.len() == 0 && model::live(u.projects, own)) {
            lemma_step_projects(t, u, req, roots, done, now, y, v);
            lemma_step_seeds(u, req, roots, now, y, v, id, x);
            lemma_step_roots(t, u, req, roots, done, now, y, v);
            if id != own {
                lemma_step_touched(t, u, req, roots, now, y, v, id);
            } else {
                if imported_as(u.projects, id, x) {
                    let p = choose|p: Project| #[trigger]
                        u.projects.contains(p) && p.project_id == id && p.seed_identity == Some(x);
                    lemma_entered_row(u.projects, p);
                    assert(v.projects.contains(p));
                    assert(imported_as(v.projects, own, x));
                }
                assert(entered(u.projects, id) || taken(t.aliases, id));
                assert(entered(u.projects, id));
            }
        }
    }
}

/// Whether a name is the last one given for an identity.
pub open spec fn given(names: Seq<(Text, Text)>, identity: Text, name: Text) -> bool {
    exists|k: int|
        0 <= k < names.len() && (#[trigger] names[k]).0 == identity && names[k].1 == name
            && forall|j: int| k < j < names.len() ==> (#[trigger] names[j]).0 != identity
}

/// Whether no name is given for an identity.
pub open spec fn nameless(names: Seq<(Text, Text)>, identity: Text) -> bool {
    forall|k: int| 0 <= k < names.len() ==> (#[trigger] names[k]).0 != identity
}

/// Whether a name comes from an observation of the least root that an identity has to
/// itself: the name that goes with it, else the last part of the root, else the
/// identity.
pub open spec fn taken_from(pairs: Seq<Pair>, identity: Text, name: Text) -> bool {
    exists|p: Pair| #[trigger]
        pairs.contains(p) && p.identity == identity && stands(pairs, p) && sole(
            pairs,
            p.root,
            identity,
        ) && least(pairs, p.root, identity) && name == (match p.name {
            Some(n) => n,
            None => match paths::file_name_of(p.root) {
                Some(n) => n,
                None => identity,
            },
        })
}

/// Whether a root goes before all others that an identity has to itself.
pub open spec fn least(pairs: Seq<Pair>, root: Text, identity: Text) -> bool {
    forall|other: Text| #[trigger]
        sole(pairs, other, identity) ==> root == other || order::text_lt(root, other)
}

/// Whether an identity has some root to itself.
pub open spec fn has_root(pairs: Seq<Pair>, identity: Text) -> bool {
    exists|root: Text| #[trigger] sole(pairs, root, identity)
}

/// Whether a project is the new one of an identity that has a root to itself.
pub open spec fn new_project(req: Seed, p: Project, identity: Text, now: i64) -> bool {
    &&& has_root(req.pairs, identity)
    &&& p.project_id == ids::seeded_id(identity)
    &&& p.seed_identity == Some(identity)
    &&& !p.implicit
    &&& p.created_at == now && p.updated_at == now
    &&& given(req.names, identity, p.name) || nameless(req.names, identity) && taken_from(
        req.pairs,
        identity,
        p.name,
    )
}

proof fn lemma_given(names: Seq<(Text, Text)>, identity: Text)
    ensures
        match seed::given_name(names, identity) {
            Some(n) => given(names, identity, n),
            None => nameless(names, identity),
        },
    decreases names.len(),
{
    if names.len() > 0 {
        let head = names.drop_last();
        let last = names.len() - 1;
        assert(names[last] == names.last());
        if names.last().0 == identity {
            assert(given(names, identity, names[last].1));
        } else {
            lemma_given(head, identity);
            match seed::given_name(head, identity) {
                Some(n) => {
                    let k = choose|k: int|
                        0 <= k < head.len() && (#[trigger] head[k]).0 == identity && head[k].1 == n
                            && forall|j: int|
                            k < j < head.len() ==> (#[trigger] head[j]).0 != identity;
                    assert(names[k] == head[k]);
                    assert forall|j: int| k < j < names.len() implies (#[trigger] names[j]).0
                        != identity by {
                        if j < head.len() {
                            assert(head[j] == names[j]);
                        }
                    }
                },
                None => {
                    assert forall|k: int| 0 <= k < names.len() implies (#[trigger] names[k]).0
                        != identity by {
                        if k < head.len() {
                            assert(head[k] == names[k]);
                        }
                    }
                },
            }
        }
    }
}

/// An identity that has a root to itself has it among the roots that were observed.
pub proof fn lemma_sole_is_observed(pairs: Seq<Pair>, root: Text, identity: Text)
    requires
        sole(pairs, root, identity),
    ensures
        order::sorted_set(seed::roots_of(pairs)).contains(root),
{
    order::law_sorted_set(seed::roots_of(pairs));
    let i = choose|i: int|
        0 <= i < pairs.len() && (#[trigger] pairs[i]).root == root && pairs[i].identity == identity
            && stands(pairs, pairs[i]);
    assert(seed::roots_of(pairs)[i] == root);
    assert(seed::roots_of(pairs).contains(root));
}

proof fn lemma_newcomer(req: Seed, pairs: Seq<Pair>, identity: Text, now: i64)
    requires
        req.pairs == seed::tidy_pairs(pairs),
        has_root(pairs, identity),
    ensures
        new_project(
            Seed { pairs, ..req },
            newcomer(req, order::sorted_set(seed::roots_of(req.pairs)), identity, now),
            identity,
            now,
        ),
{
    let roots = order::sorted_set(seed::roots_of(req.pairs));
    let rows = seed::group(req.pairs, roots, identity);
    observed::lemma_tidy(pairs);
    order::law_sorted_set(seed::roots_of(req.pairs));
    observed::lemma_group(req.pairs, roots, identity);
    lemma_given(req.names, identity);
    let root = choose|root: Text| #[trigger] sole(pairs, root, identity);
    assert(sole(req.pairs, root, identity));
    lemma_sole_is_observed(req.pairs, root, identity);
    assert(seed::roots_of(rows).contains(root));
    assert(rows.len() > 0);
    let p = rows[0];
    assert(seed::roots_of(rows)[0] == p.root);
    assert(seed::roots_of(rows).contains(p.root));
    assert(req.pairs.contains(p));
    assert(pairs.contains(p));
    assert(stands(pairs, p)) by {
        assert(seen_alike(req.pairs, pairs, p.root));
    }
    assert(sole(pairs, p.root, identity)) by {
        assert(sole(req.pairs, p.root, identity));
    }
    assert(least(pairs, p.root, identity)) by {
        assert forall|other: Text| #[trigger] sole(pairs, other, identity) implies p.root == other
            || order::text_lt(p.root, other) by {
            assert(sole(req.pairs, other, identity));
            lemma_sole_is_observed(req.pairs, other, identity);
        }
    }
    let name = newcomer(req, roots, identity, now).name;
    if seed::given_name(req.names, identity) is None {
        assert(taken_from(pairs, identity, name));
    }
}

spec fn seen_alike(a: Seq<Pair>, b: Seq<Pair>, root: Text) -> bool {
    observed::seen_git(a, root) == observed::seen_git(b, root)
}

/// An import that runs adds exactly this. Each identity that has a root to itself gets
/// the project that its id is minted for, unless that id is taken. That project gets the
/// roots which the identity has to itself and nobody has, and their aliases where those
/// are free. Where it is new or got a root, was placed nowhere, and the claims for it
/// name one workspace and no other, it is placed there. Parents are never touched, and
/// every row that was there stays.
pub proof fn law_importing_adds_these_rows(
    before: Registry,
    req: Seed,
    roots: Seq<RootFact>,
    now: i64,
)
    requires
        before.sound(),
        ran(before, req.request_key, seed::seed_outcome(before, req, roots, now)),
    ensures
        ({
            let o = seed::seed_outcome(before, req, roots, now);
            let t = before.tables;
            let u = o.registry.tables;
            &&& forall|p: Project| #[trigger] t.projects.contains(p) ==> u.projects.contains(p)
            &&& forall|p: Project| #[trigger]
                u.projects.contains(p) ==> t.projects.contains(p) || !entered(
                    t.projects,
                    p.project_id,
                ) && exists|x: Text| #[trigger] new_project(req, p, x, now)
            &&& forall|x: Text| #[trigger]
                has_root(req.pairs, x) ==> entered(u.projects, ids::seeded_id(x)) || taken(
                    t.aliases,
                    ids::seeded_id(x),
                )
            &&& forall|l: Link| #[trigger]
                u.roots.contains(l) <==> t.roots.contains(l) || new_root(t, u, req.pairs, l, now)
            &&& forall|l: Link| #[trigger]
                u.aliases.contains(l) ==> t.aliases.contains(l) || new_alias(t, u, l, now)
            &&& forall|l: Link| #[trigger] t.aliases.contains(l) ==> u.aliases.contains(l)
            &&& forall|root: Text, id: Text| #[trigger]
                leads(u.roots, root, id) && !taken(t.roots, root) ==> taken(
                    u.aliases,
                    ids::implicit_id(root),
                )
            &&& forall|l: Link| #[trigger]
                u.placements.contains(l) <==> t.placements.contains(l) || new_place(
                    t,
                    u,
                    req.claims,
                    l,
                )
            &&& forall|m: Member| #[trigger]
                u.members.contains(m) <==> t.members.contains(m) || new_reference(
                    t,
                    u,
                    req.claims,
                    m,
                )
            &&& u.parents == t.parents
            &&& o.registry == before || journals(
                before,
                o,
                "seed_import"@,
                req.actor,
                "seed_import"@,
                req.request_key,
                now,
            )
        }),
{
    let t = before.tables;
    let o = seed::seed_outcome(before, req, roots, now);
    let r = seed::seed_settled(req, roots)->Ok_0;
    let deed = seed::seed_deed(before, r, now);
    laws_rows::lemma_ran(before, req.request_key, deed);
    let u = o.registry.tables;
    let places = order::sorted_set(seed::roots_of(r.pairs));
    let identities = order::sorted_set(seed::winners(r.pairs, places));
    let (start, changed) = seed::import_titles(t, r.workspaces, now);
    let progress = Progress {
        tables: start,
        lines: seed::roots_lines(r.pairs, places),
        changed,
        failure: None,
    };
    laws_seed::lemma_titles_grow(t, r.workspaces, now);
    seed::lemma_import_titles(t, r.workspaces, now);
    order::law_sorted_set(seed::winners(r.pairs, places));
    lemma_all_groups(progress, r, places, identities, now);
    laws_seed::lemma_titles_unchanged(t, r.workspaces, now);
    laws_seed::lemma_groups_unchanged(progress, r, places, identities, now);
    let end = seed::import_groups(progress, r, places, identities, now).tables;
    assert(u == end);
    observed::lemma_tidy(req.pairs);
    assert forall|x: Text| #[trigger] identities.contains(x) <==> has_root(req.pairs, x) by {
        observed::lemma_winners(r.pairs, places, x);
        if has_root(req.pairs, x) {
            let root = choose|root: Text| #[trigger] sole(req.pairs, root, x);
            assert(sole(r.pairs, root, x));
            lemma_sole_is_observed(r.pairs, root, x);
        }
        if identities.contains(x) {
            let root = choose|root: Text|
                places.contains(root) && #[trigger] sole(r.pairs, root, x);
            assert(sole(req.pairs, root, x));
        }
    }
    assert forall|p: Project| #[trigger] u.projects.contains(p) implies t.projects.contains(p)
        || !entered(t.projects, p.project_id) && exists|x: Text| #[trigger]
        new_project(req, p, x, now) by {
        if !t.projects.contains(p) {
            let x = choose|x: Text| #[trigger]
                identities.contains(x) && p == newcomer(r, places, x, now);
            lemma_newcomer(r, req.pairs, x, now);
            assert(new_project(req, p, x, now));
        }
    }
    assert forall|x: Text| #[trigger] has_root(req.pairs, x) implies entered(
        u.projects,
        ids::seeded_id(x),
    ) || taken(t.aliases, ids::seeded_id(x)) by {
        assert(identities.contains(x));
    }
    assert forall|l: Link| #[trigger] u.roots.contains(l) <==> t.roots.contains(l) || new_root(
        t,
        u,
        req.pairs,
        l,
        now,
    ) by {
        if u.roots.contains(l) && !t.roots.contains(l) {
            let x = choose|x: Text| #[trigger]
                identities.contains(x) && sole(r.pairs, l.key, x) && l.target == ids::seeded_id(x)
                    && imported_as(u.projects, l.target, x);
            assert(sole(req.pairs, l.key, x));
        }
        if new_root(t, u, req.pairs, l, now) {
            let x = choose|x: Text| #[trigger]
                sole(req.pairs, l.key, x) && l.target == ids::seeded_id(x) && imported_as(
                    u.projects,
                    l.target,
                    x,
                );
            assert(has_root(req.pairs, x));
            assert(identities.contains(x));
            assert(sole(r.pairs, l.key, x));
        }
    }
    if deed.result->Ok_0.changed {
        laws_rows::lemma_journals(before, req.request_key, deed, seed::seed_note(r, now));
    }
}

/// Whether all names given for an id are this one.
pub open spec fn given_nothing_but(names: Seq<(Text, Text)>, id: Text, name: Text) -> bool {
    forall|k: int| 0 <= k < names.len() && (#[trigger] names[k]).0 == id ==> names[k].1 == name
}

proof fn lemma_title(t: Tables, titles: Seq<(Text, Text)>, now: i64, id: Text, name: Text)
    requires
        t.sound(),
    ensures
        ({
            let u = seed::import_titles(t, titles, now).0;
            let was = model::workspace(t.workspaces, id);
            let is = model::workspace(u.workspaces, id);
            &&& nameless(titles, id) ==> is == was
            &&& given(titles, id, name) ==> (is matches Some(w) && w.name == name && (match was {
                Some(v) => w.created_at == v.created_at && (w == v || w.updated_at == now),
                None => w.created_at == now && w.updated_at == now,
            }))
            &&& was matches Some(v) ==> given_nothing_but(titles, id, v.name) ==> is == was
        }),
    decreases titles.len(),
{
    if titles.len() > 0 {
        let head = titles.drop_last();
        let last = titles.len() - 1;
        let m = seed::import_titles(t, head, now).0;
        let (at, called) = titles.last();
        let was = model::workspace(t.workspaces, id);
        let row = Workspace {
            workspace_id: at,
            name: called,
            created_at: now,
            updated_at: now,
        };
        seed::lemma_import_titles(t, head, now);
        lemma_title(t, head, now, id, name);
        upkeep::lemma_known(m.workspaces, id);
        upkeep::lemma_rename_workspace(m.workspaces, at, called, now, id);
        upkeep::lemma_add_workspace(m.workspaces, row, id);
        assert(titles[last] == titles.last());
        if nameless(titles, id) {
            assert(nameless(head, id)) by {
                assert forall|k: int| 0 <= k < head.len() implies (#[trigger] head[k]).0 != id by {
                    assert(titles[k].0 != id);
                }
            }
        }
        if at != id {
            if given(titles, id, name) {
                let k = choose|k: int|
                    0 <= k < titles.len() && (#[trigger] titles[k]).0 == id && titles[k].1 == name
                        && forall|j: int| k < j < titles.len() ==> (#[trigger] titles[j]).0 != id;
                assert(head[k] == titles[k]);
                assert forall|j: int| k < j < head.len() implies (#[trigger] head[j]).0 != id by {
                    assert(titles[j].0 != id);
                }
                assert(given(head, id, name));
            }
        } else {
            if given(titles, id, name) {
                let k = choose|k: int|
                    0 <= k < titles.len() && (#[trigger] titles[k]).0 == id && titles[k].1 == name
                        && forall|j: int| k < j < titles.len() ==> (#[trigger] titles[j]).0 != id;
                if k < last {
                    assert(titles[last].0 != id);
                }
                assert(called == name);
                lemma_given(head, id);
                match seed::given_name(head, id) {
                    Some(n) => {
                        lemma_title(t, head, now, id, n);
                    },
                    None => {},
                }
            }
        }
        if let Some(v) = was {
            if given_nothing_but(titles, id, v.name) {
                assert forall|k: int|
                    0 <= k < head.len() && (#[trigger] head[k]).0 == id implies head[k].1
                    == v.name by {
                    assert(titles[k].1 == v.name);
                }
                assert(given_nothing_but(head, id, v.name));
            }
        }
    }
}

/// The workspaces after an import that runs: one that the import names goes by the last
/// name that it gives, and is otherwise as it was or new; one that it does not name, or
/// names as it is named, is as it was.
pub proof fn law_importing_names_these_workspaces(
    before: Registry,
    req: Seed,
    roots: Seq<RootFact>,
    now: i64,
    w: Workspace,
)
    requires
        before.sound(),
        ran(before, req.request_key, seed::seed_outcome(before, req, roots, now)),
    ensures
        ({
            let t = before.tables.workspaces;
            let u = seed::seed_outcome(before, req, roots, now).registry.tables.workspaces;
            let id = w.workspace_id;
            &&& nameless(req.workspaces, id) ==> (u.contains(w) <==> t.contains(w))
            &&& t.contains(w) && given_nothing_but(req.workspaces, id, w.name) ==> u.contains(w)
            &&& !nameless(req.workspaces, id) ==> opened(u, id)
            &&& u.contains(w) && !nameless(req.workspaces, id) ==> {
                &&& given(req.workspaces, id, w.name)
                &&& !opened(t, id) ==> w.created_at == now && w.updated_at == now
                &&& forall|v: Workspace| #[trigger]
                    t.contains(v) && v.workspace_id == id ==> w.created_at == v.created_at && (w == v
                        || w.updated_at == now)
            }
        }),
{
    let t = before.tables;
    let o = seed::seed_outcome(before, req, roots, now);
    let r = seed::seed_settled(req, roots)->Ok_0;
    let deed = seed::seed_deed(before, r, now);
    laws_rows::lemma_ran(before, req.request_key, deed);
    let u = o.registry.tables;
    let places = order::sorted_set(seed::roots_of(r.pairs));
    let identities = order::sorted_set(seed::winners(r.pairs, places));
    let (start, changed) = seed::import_titles(t, r.workspaces, now);
    let progress = Progress {
        tables: start,
        lines: seed::roots_lines(r.pairs, places),
        changed,
        failure: None,
    };
    seed::lemma_import_titles(t, r.workspaces, now);
    order::law_sorted_set(seed::winners(r.pairs, places));
    lemma_all_groups(progress, r, places, identities, now);
    laws_seed::lemma_titles_unchanged(t, r.workspaces, now);
    laws_seed::lemma_groups_unchanged(progress, r, places, identities, now);
    let end = seed::import_groups(progress, r, places, identities, now).tables;
    assert(u == end);
    assert(u.workspaces == start.workspaces);
    let id = w.workspace_id;
    membership::lemma_workspace(t.workspaces, id, w);
    membership::lemma_workspace(u.workspaces, id, w);
    lemma_given(req.workspaces, id);
    lemma_title(t, req.workspaces, now, id, w.name);
    match seed::given_name(req.workspaces, id) {
        Some(n) => {
            lemma_title(t, req.workspaces, now, id, n);
            assert(!nameless(req.workspaces, id)) by {
                let k = choose|k: int|
                    0 <= k < req.workspaces.len() && (#[trigger] req.workspaces[k]).0 == id
                        && req.workspaces[k].1 == n && forall|j: int|
                        k < j < req.workspaces.len() ==> (#[trigger] req.workspaces[j]).0 != id;
                assert(req.workspaces[k].0 == id);
            }
        },
        None => {},
    }
    assert forall|v: Workspace| #[trigger]
        t.workspaces.contains(v) && v.workspace_id == id implies model::workspace(
        t.workspaces,
        id,
    ) == Some(v) by {
        membership::lemma_workspace(t.workspaces, id, v);
    }
}

/// A project that an import placed is in the one workspace that is claimed for what it
/// was imported as. Where two are claimed, it stays in none, and nothing on this device
/// refers to it.
pub proof fn law_contested_projects_stay_detached(
    before: Registry,
    req: Seed,
    roots: Seq<RootFact>,
    now: i64,
    p: Project,
    identity: Text,
    w: Text,
)
    requires
        before.sound(),
        ran(before, req.request_key, seed::seed_outcome(before, req, roots, now)),
        seed::seed_outcome(before, req, roots, now).registry.tables.projects.contains(p),
        p.seed_identity == Some(identity),
        !taken(before.tables.placements, p.project_id),
    ensures
        ({
            let t = before.tables;
            let u = seed::seed_outcome(before, req, roots, now).registry.tables;
            let contested = exists|i: int, j: int|
                0 <= i < req.claims.len() && 0 <= j < req.claims.len() && (
                #[trigger] req.claims[i]).identity == identity && (
                #[trigger] req.claims[j]).identity == identity && req.claims[i].workspace_id
                    != req.claims[j].workspace_id;
            &&& leads(u.placements, p.project_id, w) ==> claims_only(req.claims, identity, w)
            &&& contested ==> !taken(u.placements, p.project_id)
            &&& contested && !referred(t.members, p.project_id) ==> !referred(
                u.members,
                p.project_id,
            )
            &&& claims_only(req.claims, identity, w) && !entered(t.projects, p.project_id) ==> leads(
                u.placements,
                p.project_id,
                w,
            )
        }),
{
    let t = before.tables;
    let o = seed::seed_outcome(before, req, roots, now);
    let u = o.registry.tables;
    let id = p.project_id;
    law_importing_adds_these_rows(before, req, roots, now);
    lemma_import_sound(before, req, roots, now);
    assert forall|x: Text| imported_as(u.projects, id, x) <==> x == identity by {
        assert(u.projects.contains(p));
        if imported_as(u.projects, id, x) {
            let q = choose|q: Project| #[trigger]
                u.projects.contains(q) && q.project_id == id && q.seed_identity == Some(x);
            lemma_one_project(u.projects, p, q);
        }
    }
    assert forall|v: Text| claimed_for(u.projects, req.claims, id, v) <==> claims_only(
        req.claims,
        identity,
        v,
    ) by {
        if claims_only(req.claims, identity, v) {
            assert(imported_as(u.projects, id, identity));
        }
    }
    assert forall|v: Text| leads(u.placements, id, v) implies claims_only(
        req.claims,
        identity,
        v,
    ) by {
        let l = lemma_leads_has(u.placements, id, v);
        if t.placements.contains(l) {
            lemma_taken_row(t.placements, l);
        }
    }
    if taken(u.placements, id) {
        let l = lemma_taken_has(u.placements, id);
        lemma_taken_row(u.placements, l);
        assert(claims_only(req.claims, identity, l.target));
    }
    if referred(u.members, id) && !referred(t.members, id) {
        let i = choose|i: int|
            0 <= i < u.members.len() && !(#[trigger] u.members[i]).remote
                && u.members[i].device.len() == 0 && u.members[i].project_id == id;
        let m = u.members[i];
        assert(u.members.contains(m));
        if t.members.contains(m) {
            let k = choose|k: int| 0 <= k < t.members.len() && t.members[k] == m;
            assert(!t.members[k].remote);
        }
        assert(new_reference(t, u, req.claims, m));
        assert(claims_only(req.claims, identity, m.workspace_id));
    }
    if claims_only(req.claims, identity, w) && !entered(t.projects, id) {
        lemma_entered_row(u.projects, p);
        let l = Link { key: id, target: w, at: 0 };
        assert(new_place(t, u, req.claims, l));
        assert(u.placements.contains(l));
        lemma_taken_row(u.placements, l);
    }
}

proof fn lemma_import_sound(before: Registry, req: Seed, roots: Seq<RootFact>, now: i64)
    requires
        before.sound(),
    ensures
        seed::seed_outcome(before, req, roots, now).registry.tables.sound(),
{
    if let Ok(r) = seed::seed_settled(req, roots) {
        seed::lemma_imported(before.tables, r, now);
    }
}

} // verus!
