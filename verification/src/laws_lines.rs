//! What the report on an import says, and that it leaves nothing out.
use vstd::prelude::*;
use vstd::string::*;

use crate::laws_import::{
    has_root, holds, imported_as, lemma_all_groups, lemma_free, lemma_landing, lemma_own_roots,
    lemma_sole_is_observed, lemma_step_own, lemma_step_stable, touched,
};
use crate::laws_rows::ran;
use crate::membership::{entered, leads, taken};
use crate::model::{Claim, Pair, Registry, Seed, Tables};
use crate::observed::{observed, sole, stands};
use crate::paths::RootFact;
use crate::seed::{Line, Progress};
use crate::text::Text;
use crate::{
    ids, laws_rows, laws_seed, membership, model, observed, order, register, seed, upkeep,
};

verus! {

/// A line with these parts.
pub open spec fn says(
    kind: Text,
    identity: Text,
    root: Option<Text>,
    project_id: Option<Text>,
    owner: Option<Text>,
    new_project: Option<Text>,
    reason: Option<Text>,
) -> Line {
    Line {
        kind,
        identity: Some(identity),
        root,
        project_id,
        owner,
        new_project,
        roots: None,
        reason,
    }
}

/// Whether a line is on an observation of a directory that gives way to a git identity.
pub open spec fn on_precedence(pairs: Seq<Pair>, l: Line) -> bool {
    exists|p: Pair| #[trigger]
        pairs.contains(p) && !stands(pairs, p) && l == says(
            "identity_class_precedence"@,
            p.identity,
            Some(p.root),
            None,
            None,
            None,
            Some("git identity wins"@),
        )
}

/// Whether a line is on one of several identities of a root.
pub open spec fn on_contest(pairs: Seq<Pair>, l: Line) -> bool {
    exists|root: Text, identity: Text| #[trigger]
        observed(pairs, root, identity) && !sole(pairs, root, identity) && l == says(
            "conflicted"@,
            identity,
            Some(root),
            None,
            None,
            None,
            Some("one root observed under multiple identities"@),
        )
}

/// The project that an identity was imported into, if any.
pub open spec fn landed(u: Tables, identity: Text) -> Option<Text> {
    if imported_as(u.projects, ids::seeded_id(identity), identity) {
        Some(ids::seeded_id(identity))
    } else {
        None
    }
}

/// Whether a line is on an identity whose project was there.
pub open spec fn on_return(t: Tables, identity: Text, l: Line) -> bool {
    let id = ids::seeded_id(identity);
    imported_as(t.projects, id, identity) && l == says(
        "rejoined"@,
        identity,
        None,
        Some(id),
        None,
        None,
        None,
    )
}

/// Whether a line is on an identity whose id is that of another project.
pub open spec fn on_occupied(u: Tables, identity: Text, l: Line) -> bool {
    let id = ids::seeded_id(identity);
    entered(u.projects, id) && !imported_as(u.projects, id, identity) && l == says(
        "conflicted"@,
        identity,
        None,
        Some(id),
        None,
        None,
        Some("minted id occupied by another project"@),
    )
}

/// Whether a line is on an identity whose id is an alias.
pub open spec fn on_alias(t: Tables, u: Tables, identity: Text, l: Line) -> bool {
    let id = ids::seeded_id(identity);
    !entered(u.projects, id) && exists|owner: Text| #[trigger]
        leads(t.aliases, id, owner) && l == says(
            "alias_occupied"@,
            identity,
            None,
            None,
            Some(owner),
            None,
            Some("minted id is an alias key"@),
        )
}

/// Whether a line is on a root of an identity that somebody has.
pub open spec fn on_taken_root(
    t: Tables,
    u: Tables,
    pairs: Seq<Pair>,
    identity: Text,
    l: Line,
) -> bool {
    exists|root: Text, owner: Text| #[trigger]
        leads(t.roots, root, owner) && sole(pairs, root, identity) && l == says(
            "skipped"@,
            identity,
            Some(root),
            None,
            Some(owner),
            landed(u, identity),
            Some("root already registered"@),
        )
}

/// Whether somebody has a root of an identity.
pub open spec fn has_owner(t: Tables, pairs: Seq<Pair>, identity: Text, owner: Text) -> bool {
    exists|root: Text| #[trigger] sole(pairs, root, identity) && leads(t.roots, root, owner)
}

/// Whether the roots of an identity go to different projects.
pub open spec fn divided(t: Tables, u: Tables, pairs: Seq<Pair>, identity: Text) -> bool {
    ||| exists|a: Text, b: Text| #[trigger]
        has_owner(t, pairs, identity, a) && #[trigger] has_owner(t, pairs, identity, b) && a != b
    ||| landed(u, identity) is Some && (exists|a: Text| has_owner(t, pairs, identity, a)) && (exists|
        root: Text,
    | #[trigger] sole(pairs, root, identity) && !taken(t.roots, root))
}

/// Whether a line is on an identity whose roots go to different projects, and lists those
/// that its own project got.
pub open spec fn on_division(
    t: Tables,
    u: Tables,
    pairs: Seq<Pair>,
    identity: Text,
    l: Line,
) -> bool {
    &&& divided(t, u, pairs, identity)
    &&& l.roots is Some
    &&& forall|root: Text| #[trigger]
        l.roots->Some_0.contains(root) <==> landed(u, identity) is Some && sole(
            pairs,
            root,
            identity,
        ) && !taken(t.roots, root)
    &&& Line { roots: None, ..l } == says(
        "identity_split"@,
        identity,
        None,
        None,
        None,
        landed(u, identity),
        None,
    )
}

/// Whether claims name two different workspaces for an identity.
pub open spec fn claimed_twice(claims: Seq<Claim>, identity: Text) -> bool {
    exists|i: int, j: int|
        0 <= i < claims.len() && 0 <= j < claims.len() && (#[trigger] claims[i]).identity == identity
            && (#[trigger] claims[j]).identity == identity && claims[i].workspace_id
            != claims[j].workspace_id
}

/// Whether a line is on a project that was left detached.
pub open spec fn on_detached(
    t: Tables,
    u: Tables,
    claims: Seq<Claim>,
    identity: Text,
    l: Line,
) -> bool {
    let id = ids::seeded_id(identity);
    imported_as(u.projects, id, identity) && touched(t, u, id) && claimed_twice(claims, identity)
        && l == says(
        "multi_workspace"@,
        identity,
        None,
        Some(id),
        None,
        None,
        Some("detached because export claimed multiple workspaces"@),
    )
}

/// Whether a line is due on an identity.
pub open spec fn due(t: Tables, u: Tables, req: Seed, identity: Text, l: Line) -> bool {
    ||| on_return(t, identity, l)
    ||| on_occupied(u, identity, l)
    ||| on_alias(t, u, identity, l)
    ||| on_taken_root(t, u, req.pairs, identity, l)
    ||| on_division(t, u, req.pairs, identity, l)
    ||| on_detached(t, u, req.claims, identity, l)
}

proof fn lemma_concat<T>(a: Seq<T>, b: Seq<T>, x: T)
    ensures
        (a + b).contains(x) <==> a.contains(x) || b.contains(x),
{
    if (a + b).contains(x) {
        let i = choose|i: int| 0 <= i < (a + b).len() && (a + b)[i] == x;
        if i < a.len() {
            assert(a[i] == x);
        } else {
            assert(b[i - a.len()] == x);
        }
    }
    if a.contains(x) {
        let i = choose|i: int| 0 <= i < a.len() && a[i] == x;
        assert((a + b)[i] == x);
    }
    if b.contains(x) {
        let i = choose|i: int| 0 <= i < b.len() && b[i] == x;
        assert((a + b)[a.len() + i] == x);
    }
}

proof fn lemma_root_lines(pairs: Seq<Pair>, root: Text, l: Line)
    ensures
        seed::root_lines(root, seed::pairs_at(pairs, root)).contains(l) <==> (exists|p: Pair|
            #[trigger] pairs.contains(p) && p.root == root && !stands(pairs, p) && l
                == seed::precedence_line(p)) || (exists|x: Text| #[trigger]
            observed(pairs, root, x) && !sole(pairs, root, x) && l == seed::contest_line(x, root)),
{
    let rows = seed::pairs_at(pairs, root);
    let lost = seed::losers(rows);
    let a = lost.map_values(|p: Pair| seed::precedence_line(p));
    let left = seed::contenders(rows);
    let b = left.map_values(|id: Text| seed::contest_line(id, root));
    observed::lemma_standing(pairs, root);
    lemma_concat(a, b, l);
    assert(a.contains(l) <==> exists|p: Pair| #[trigger]
        pairs.contains(p) && p.root == root && !stands(pairs, p) && l == seed::precedence_line(
            p,
        )) by {
        if a.contains(l) {
            let i = choose|i: int| 0 <= i < a.len() && a[i] == l;
            assert(lost.contains(lost[i]));
            assert(pairs.contains(lost[i]));
        }
        if exists|p: Pair| #[trigger]
            pairs.contains(p) && p.root == root && !stands(pairs, p) && l == seed::precedence_line(
                p,
            ) {
            let p = choose|p: Pair| #[trigger]
                pairs.contains(p) && p.root == root && !stands(pairs, p) && l
                    == seed::precedence_line(p);
            assert(lost.contains(p));
            let i = choose|i: int| 0 <= i < lost.len() && lost[i] == p;
            assert(a[i] == l);
        }
    }
    assert forall|x: Text| #[trigger] observed(pairs, root, x) <==> left.contains(x) by {
        observed::lemma_contenders(pairs, root, x);
    }
    assert forall|x: Text| #[trigger]
        observed(pairs, root, x) implies (!sole(pairs, root, x) <==> left.len() > 1) by {
        observed::lemma_contenders(pairs, root, x);
        assert(left.contains(x));
        if left.len() == 1 {
            assert(left[0] == x);
        }
    }
    if left.len() > 1 {
        if b.contains(l) {
            let i = choose|i: int| 0 <= i < b.len() && b[i] == l;
            assert(left.contains(left[i]));
            assert(observed(pairs, root, left[i]));
        }
        if exists|x: Text| #[trigger]
            observed(pairs, root, x) && !sole(pairs, root, x) && l == seed::contest_line(x, root) {
            let x = choose|x: Text| #[trigger]
                observed(pairs, root, x) && !sole(pairs, root, x) && l == seed::contest_line(
                    x,
                    root,
                );
            assert(left.contains(x));
            let i = choose|i: int| 0 <= i < left.len() && left[i] == x;
            assert(b[i] == l);
        }
    }
}

proof fn lemma_roots_lines(pairs: Seq<Pair>, roots: Seq<Text>, l: Line)
    ensures
        seed::roots_lines(pairs, roots).contains(l) <==> exists|root: Text| #[trigger]
            roots.contains(root) && seed::root_lines(root, seed::pairs_at(pairs, root)).contains(l),
    decreases roots.len(),
{
    if roots.len() > 0 {
        let head = roots.drop_last();
        let last = roots.last();
        lemma_roots_lines(pairs, head, l);
        lemma_concat(
            seed::roots_lines(pairs, head),
            seed::root_lines(last, seed::pairs_at(pairs, last)),
            l,
        );
        assert forall|root: Text| roots.contains(root) <==> head.contains(root) || root == last by {
            membership::lemma_pushed(head, last, root);
            assert(head.push(last) =~= roots);
        }
        if exists|root: Text| #[trigger]
            head.contains(root) && seed::root_lines(root, seed::pairs_at(pairs, root)).contains(
                l,
            ) {
            let root = choose|root: Text| #[trigger]
                head.contains(root) && seed::root_lines(
                    root,
                    seed::pairs_at(pairs, root),
                ).contains(l);
            assert(roots.contains(root));
        }
        if seed::root_lines(last, seed::pairs_at(pairs, last)).contains(l) {
            assert(roots.contains(last));
        }
    }
}

proof fn lemma_opening_lines(pairs: Seq<Pair>, l: Line)
    ensures
        seed::roots_lines(pairs, order::sorted_set(seed::roots_of(pairs))).contains(l)
            <==> on_precedence(pairs, l) || on_contest(pairs, l),
{
    let all = seed::roots_of(pairs);
    let roots = order::sorted_set(all);
    lemma_roots_lines(pairs, roots, l);
    order::law_sorted_set(all);
    if seed::roots_lines(pairs, roots).contains(l) {
        let root = choose|root: Text| #[trigger]
            roots.contains(root) && seed::root_lines(root, seed::pairs_at(pairs, root)).contains(l);
        lemma_root_lines(pairs, root, l);
        if exists|p: Pair| #[trigger]
            pairs.contains(p) && p.root == root && !stands(pairs, p) && l == seed::precedence_line(
                p,
            ) {
            let p = choose|p: Pair| #[trigger]
                pairs.contains(p) && p.root == root && !stands(pairs, p) && l
                    == seed::precedence_line(p);
            assert(pairs.contains(p));
            assert(on_precedence(pairs, l));
        } else {
            let x = choose|x: Text| #[trigger]
                observed(pairs, root, x) && !sole(pairs, root, x) && l == seed::contest_line(
                    x,
                    root,
                );
            assert(observed(pairs, root, x));
            assert(on_contest(pairs, l));
        }
    }
    if on_precedence(pairs, l) {
        let p = choose|p: Pair| #[trigger]
            pairs.contains(p) && !stands(pairs, p) && l == says(
                "identity_class_precedence"@,
                p.identity,
                Some(p.root),
                None,
                None,
                None,
                Some("git identity wins"@),
            );
        let i = choose|i: int| 0 <= i < pairs.len() && pairs[i] == p;
        assert(all[i] == p.root);
        assert(all.contains(p.root));
        assert(roots.contains(p.root));
        assert(l == seed::precedence_line(p));
        lemma_root_lines(pairs, p.root, l);
    }
    if on_contest(pairs, l) {
        let (root, x) = choose|root: Text, x: Text| #[trigger]
            observed(pairs, root, x) && !sole(pairs, root, x) && l == says(
                "conflicted"@,
                x,
                Some(root),
                None,
                None,
                None,
                Some("one root observed under multiple identities"@),
            );
        let i = choose|i: int|
            0 <= i < pairs.len() && (#[trigger] pairs[i]).root == root && pairs[i].identity == x
                && stands(pairs, pairs[i]);
        assert(all[i] == root);
        assert(all.contains(root));
        assert(roots.contains(root));
        assert(l == seed::contest_line(x, root));
        lemma_root_lines(pairs, root, l);
    }
}

proof fn lemma_skipped_lines(
    u: Tables,
    identity: Text,
    rows: Seq<Pair>,
    project: Option<Text>,
    l: Line,
)
    requires
        model::unique_links(u.roots),
    ensures
        seed::skipped_lines(u, identity, rows, project).contains(l) <==> exists|
            root: Text,
            owner: Text,
        | #[trigger]
            leads(u.roots, root, owner) && seed::roots_of(rows).contains(root) && l == says(
                "skipped"@,
                identity,
                Some(root),
                None,
                Some(owner),
                project,
                Some("root already registered"@),
            ),
    decreases rows.len(),
{
    if rows.len() > 0 {
        let head = rows.drop_last();
        let root = rows.last().root;
        let before = seed::skipped_lines(u, identity, head, project);
        lemma_skipped_lines(u, identity, head, project, l);
        assert(seed::roots_of(head).push(root) =~= seed::roots_of(rows));
        assert forall|r: Text| seed::roots_of(rows).contains(r) <==> seed::roots_of(head).contains(
            r,
        ) || r == root by {
            membership::lemma_pushed(seed::roots_of(head), root, r);
        }
        assert forall|owner: Text| leads(u.roots, root, owner) <==> model::target(u.roots, root)
            == Some(owner) by {
            membership::lemma_lookup(u.roots, root, owner);
        }
        if let Some(owner) = model::target(u.roots, root) {
            let row = Line {
                root: Some(root),
                owner: Some(owner),
                new_project: project,
                reason: Some("root already registered"@),
                ..seed::line("skipped"@, identity)
            };
            membership::lemma_pushed(before, row, l);
            assert(leads(u.roots, root, owner));
        }
        if before.contains(l) {
            let (r, owner) = choose|r: Text, owner: Text| #[trigger]
                leads(u.roots, r, owner) && seed::roots_of(head).contains(r) && l == says(
                    "skipped"@,
                    identity,
                    Some(r),
                    None,
                    Some(owner),
                    project,
                    Some("root already registered"@),
                );
            assert(leads(u.roots, r, owner) && seed::roots_of(rows).contains(r));
        }
    }
}

/// The lines on one identity are those that are due on it.
proof fn lemma_group_lines(
    t: Tables,
    u: Tables,
    req: Seed,
    roots: Seq<Text>,
    done: Seq<Text>,
    now: i64,
    y: Text,
    l: Line,
)
    requires
        t.sound(),
        roots == order::sorted_set(seed::roots_of(req.pairs)),
        holds(t, u, req, roots, done, now),
        !done.contains(y),
        seed::import_group(u, req, y, seed::group(req.pairs, roots, y), now).failure is None,
    ensures
        ({
            let p = seed::import_group(u, req, y, seed::group(req.pairs, roots, y), now);
            &&& p.lines.contains(l) ==> due(t, p.tables, req, y, l)
            &&& due(t, p.tables, req, y, l) ==> p.lines.contains(l) || l.roots is Some
            &&& divided(t, p.tables, req.pairs, y) ==> exists|m: Line| #[trigger]
                p.lines.contains(m) && on_division(t, p.tables, req.pairs, y, m)
        }),
{
    let rows = seed::group(req.pairs, roots, y);
    let p = seed::import_group(u, req, y, rows, now);
    let v = p.tables;
    let id = ids::seeded_id(y);
    let project = seed::landing(u, y).0;
    let opening = seed::landing(u, y).1;
    let owners = order::sorted_set(register::found(u.roots, seed::roots_of(rows)));
    let free = if project is Some {
        seed::free_roots(u, rows)
    } else {
        Seq::empty()
    };
    let skipped = seed::skipped_lines(u, y, rows, project);
    let splitting = seed::split_lines(y, project, owners, free);
    lemma_step_own(t, u, req, roots, done, now, y);
    assert(project == landed(v, y));
    lemma_opening(t, u, req, roots, done, now, y, l);
    lemma_skipping(t, u, req, roots, done, now, y, l);
    lemma_splitting(t, u, req, roots, done, now, y, l);
    lemma_concat(opening, skipped, l);
    lemma_concat(opening + skipped, splitting, l);
    let firsts = opening + skipped + splitting;
    match project {
        None => {
            assert(p.lines == firsts);
        },
        Some(q) => {
            let more = seed::import_into(u, req, y, q, rows, free, now).lines;
            assert(p.lines == firsts + more);
            lemma_concat(firsts, more, l);
            lemma_detached(t, u, req, roots, done, now, y, l);
        },
    }
    if divided(t, v, req.pairs, y) {
        let m = splitting[0];
        assert(splitting.contains(m));
        lemma_splitting(t, u, req, roots, done, now, y, m);
        lemma_concat(opening + skipped, splitting, m);
        assert(firsts.contains(m));
        if let Some(q) = project {
            let more = seed::import_into(u, req, y, q, rows, free, now).lines;
            lemma_concat(firsts, more, m);
        }
        assert(p.lines.contains(m));
    }
}

proof fn lemma_opening(
    t: Tables,
    u: Tables,
    req: Seed,
    roots: Seq<Text>,
    done: Seq<Text>,
    now: i64,
    y: Text,
    l: Line,
)
    requires
        t.sound(),
        roots == order::sorted_set(seed::roots_of(req.pairs)),
        holds(t, u, req, roots, done, now),
        !done.contains(y),
    ensures
        ({
            let v = seed::import_group(u, req, y, seed::group(req.pairs, roots, y), now).tables;
            seed::landing(u, y).1.contains(l) <==> on_return(t, y, l) || on_occupied(v, y, l)
                || on_alias(t, v, y, l)
        }),
{
    let v = seed::import_group(u, req, y, seed::group(req.pairs, roots, y), now).tables;
    let id = ids::seeded_id(y);
    let opening = seed::landing(u, y).1;
    lemma_step_own(t, u, req, roots, done, now, y);
    lemma_landing(u, y);
    upkeep::lemma_live(u.projects, id);
    lemma_alias_rows(t, u, req, roots, done, now, y);
    if let Some(q) = model::project(u.projects, id) {
        membership::lemma_project(u.projects, id, q);
        if q.seed_identity == Some(y) {
            let row = Line { project_id: Some(id), ..seed::line("rejoined"@, y) };
            assert(opening == seq![row]);
            assert(opening[0] == row);
            assert(row == says("rejoined"@, y, None, Some(id), None, None, None));
            assert(u.projects.contains(q));
            assert(imported_as(u.projects, id, y));
        } else {
            let row = Line {
                project_id: Some(id),
                reason: Some("minted id occupied by another project"@),
                ..seed::line("conflicted"@, y)
            };
            assert(opening == seq![row]);
            assert(opening[0] == row);
        }
    } else {
        match model::target(u.aliases, id) {
            Some(owner) => {
                let row = Line {
                    owner: Some(owner),
                    reason: Some("minted id is an alias key"@),
                    ..seed::line("alias_occupied"@, y)
                };
                assert(opening == seq![row]);
                assert(opening[0] == row);
                assert(leads(t.aliases, id, owner));
            },
            None => {
                assert(opening.len() == 0);
            },
        }
    }
}

/// An alias for a minted id is one that was there before.
proof fn lemma_alias_rows(
    t: Tables,
    u: Tables,
    req: Seed,
    roots: Seq<Text>,
    done: Seq<Text>,
    now: i64,
    y: Text,
)
    requires
        t.sound(),
        holds(t, u, req, roots, done, now),
    ensures
        forall|owner: Text| #[trigger]
            leads(t.aliases, ids::seeded_id(y), owner) <==> model::target(
                u.aliases,
                ids::seeded_id(y),
            ) == Some(owner),
{
    let id = ids::seeded_id(y);
    assert forall|owner: Text| #[trigger] leads(t.aliases, id, owner) <==> model::target(
        u.aliases,
        id,
    ) == Some(owner) by {
        membership::lemma_lookup(u.aliases, id, owner);
        if leads(t.aliases, id, owner) {
            let i = choose|i: int|
                0 <= i < t.aliases.len() && (#[trigger] t.aliases[i]).key == id
                    && t.aliases[i].target == owner;
            assert(t.aliases.contains(t.aliases[i]));
            assert(u.aliases.contains(t.aliases[i]));
            let j = choose|j: int| 0 <= j < u.aliases.len() && u.aliases[j] == t.aliases[i];
            assert(u.aliases[j].key == id);
        }
        if leads(u.aliases, id, owner) {
            let i = choose|i: int|
                0 <= i < u.aliases.len() && (#[trigger] u.aliases[i]).key == id
                    && u.aliases[i].target == owner;
            let l = u.aliases[i];
            assert(u.aliases.contains(l));
            if !t.aliases.contains(l) {
                let root = choose|root: Text| #[trigger]
                    leads(u.roots, root, l.target) && !taken(t.roots, root) && l.key
                        == ids::implicit_id(root);
                ids::law_seeded_ids_are_not_reserved(y);
                ids::law_implicit_ids_are_reserved(root);
            }
            let j = choose|j: int| 0 <= j < t.aliases.len() && t.aliases[j] == l;
            assert(t.aliases[j].key == id);
        }
    }
}

/// A root that an identity has to itself leads where it led before the import.
proof fn lemma_own_owner(
    t: Tables,
    u: Tables,
    req: Seed,
    roots: Seq<Text>,
    done: Seq<Text>,
    now: i64,
    y: Text,
    root: Text,
    owner: Text,
)
    requires
        holds(t, u, req, roots, done, now),
        !done.contains(y),
        sole(req.pairs, root, y),
    ensures
        leads(u.roots, root, owner) <==> leads(t.roots, root, owner),
{
    if leads(t.roots, root, owner) {
        let i = choose|i: int|
            0 <= i < t.roots.len() && (#[trigger] t.roots[i]).key == root && t.roots[i].target
                == owner;
        assert(t.roots.contains(t.roots[i]));
        assert(u.roots.contains(t.roots[i]));
        let j = choose|j: int| 0 <= j < u.roots.len() && u.roots[j] == t.roots[i];
        assert(u.roots[j].key == root);
    }
    if leads(u.roots, root, owner) {
        let i = choose|i: int|
            0 <= i < u.roots.len() && (#[trigger] u.roots[i]).key == root && u.roots[i].target
                == owner;
        let l = u.roots[i];
        assert(u.roots.contains(l));
        lemma_own_roots(t, u, req.pairs, done, now, y, root);
        assert(taken(u.roots, root));
        if !t.roots.contains(l) {
            assert(!taken(t.roots, l.key));
        }
        let j = choose|j: int| 0 <= j < t.roots.len() && t.roots[j] == l;
        assert(t.roots[j].key == root);
    }
}

proof fn lemma_skipping(
    t: Tables,
    u: Tables,
    req: Seed,
    roots: Seq<Text>,
    done: Seq<Text>,
    now: i64,
    y: Text,
    l: Line,
)
    requires
        t.sound(),
        roots == order::sorted_set(seed::roots_of(req.pairs)),
        holds(t, u, req, roots, done, now),
        !done.contains(y),
    ensures
        ({
            let rows = seed::group(req.pairs, roots, y);
            let v = seed::import_group(u, req, y, rows, now).tables;
            seed::skipped_lines(u, y, rows, seed::landing(u, y).0).contains(l) <==> on_taken_root(
                t,
                v,
                req.pairs,
                y,
                l,
            )
        }),
{
    let rows = seed::group(req.pairs, roots, y);
    let v = seed::import_group(u, req, y, rows, now).tables;
    let project = seed::landing(u, y).0;
    let skipped = seed::skipped_lines(u, y, rows, project);
    lemma_step_own(t, u, req, roots, done, now, y);
    assert(project == landed(v, y));
    lemma_skipped_lines(u, y, rows, project, l);
    order::law_sorted_set(seed::roots_of(req.pairs));
    observed::lemma_group(req.pairs, roots, y);
    if skipped.contains(l) {
        let (root, owner) = choose|root: Text, owner: Text| #[trigger]
            leads(u.roots, root, owner) && seed::roots_of(rows).contains(root) && l == says(
                "skipped"@,
                y,
                Some(root),
                None,
                Some(owner),
                project,
                Some("root already registered"@),
            );
        lemma_own_owner(t, u, req, roots, done, now, y, root, owner);
        assert(leads(t.roots, root, owner));
    }
    if on_taken_root(t, v, req.pairs, y, l) {
        let (root, owner) = choose|root: Text, owner: Text| #[trigger]
            leads(t.roots, root, owner) && sole(req.pairs, root, y) && l == says(
                "skipped"@,
                y,
                Some(root),
                None,
                Some(owner),
                landed(v, y),
                Some("root already registered"@),
            );
        lemma_own_owner(t, u, req, roots, done, now, y, root, owner);
        lemma_sole_is_observed(req.pairs, root, y);
        assert(leads(u.roots, root, owner) && seed::roots_of(rows).contains(root));
    }
}

proof fn lemma_splitting(
    t: Tables,
    u: Tables,
    req: Seed,
    roots: Seq<Text>,
    done: Seq<Text>,
    now: i64,
    y: Text,
    l: Line,
)
    requires
        t.sound(),
        roots == order::sorted_set(seed::roots_of(req.pairs)),
        holds(t, u, req, roots, done, now),
        !done.contains(y),
    ensures
        ({
            let rows = seed::group(req.pairs, roots, y);
            let v = seed::import_group(u, req, y, rows, now).tables;
            let project = seed::landing(u, y).0;
            let owners = order::sorted_set(register::found(u.roots, seed::roots_of(rows)));
            let free = if project is Some {
                seed::free_roots(u, rows)
            } else {
                Seq::empty()
            };
            let splitting = seed::split_lines(y, project, owners, free);
            &&& splitting.contains(l) ==> on_division(t, v, req.pairs, y, l)
            &&& divided(t, v, req.pairs, y) <==> splitting.len() == 1
            &&& on_division(t, v, req.pairs, y, l) ==> l.roots is Some
        }),
{
    let rows = seed::group(req.pairs, roots, y);
    let v = seed::import_group(u, req, y, rows, now).tables;
    let project = seed::landing(u, y).0;
    let held = register::found(u.roots, seed::roots_of(rows));
    let owners = order::sorted_set(held);
    let free = if project is Some {
        seed::free_roots(u, rows)
    } else {
        Seq::empty()
    };
    let splitting = seed::split_lines(y, project, owners, free);
    lemma_step_own(t, u, req, roots, done, now, y);
    assert(project == landed(v, y));
    order::law_sorted_set(held);
    order::law_sorted_set(seed::roots_of(req.pairs));
    observed::lemma_group(req.pairs, roots, y);
    assert forall|owner: Text| #[trigger] owners.contains(owner) <==> has_owner(
        t,
        req.pairs,
        y,
        owner,
    ) by {
        crate::laws_refusals::lemma_found(u.roots, seed::roots_of(rows), owner);
        if held.contains(owner) {
            let key = choose|key: Text| #[trigger]
                seed::roots_of(rows).contains(key) && leads(u.roots, key, owner);
            lemma_own_owner(t, u, req, roots, done, now, y, key, owner);
            assert(sole(req.pairs, key, y) && leads(t.roots, key, owner));
        }
        if has_owner(t, req.pairs, y, owner) {
            let root = choose|root: Text| #[trigger]
                sole(req.pairs, root, y) && leads(t.roots, root, owner);
            lemma_own_owner(t, u, req, roots, done, now, y, root, owner);
            lemma_sole_is_observed(req.pairs, root, y);
            assert(seed::roots_of(rows).contains(root) && leads(u.roots, root, owner));
        }
    }
    assert forall|root: Text| #[trigger] free.contains(root) <==> project is Some && sole(
        req.pairs,
        root,
        y,
    ) && !taken(t.roots, root) by {
        if project is Some {
            lemma_free(t, u, req, roots, done, now, y, root);
        }
    }
    if owners.len() > 0 {
        assert(owners.contains(owners[0]));
        assert(has_owner(t, req.pairs, y, owners[0]));
    }
    if owners.len() > 1 {
        assert(owners.contains(owners[1]));
        assert(order::text_lt(owners[0], owners[1]));
        order::lemma_text_irreflexive(owners[0]);
        assert(has_owner(t, req.pairs, y, owners[0]) && has_owner(t, req.pairs, y, owners[1]));
    }
    if free.len() > 0 {
        assert(free.contains(free[0]));
        assert(sole(req.pairs, free[0], y));
    }
    if divided(t, v, req.pairs, y) {
        if exists|a: Text, b: Text| #[trigger]
            has_owner(t, req.pairs, y, a) && #[trigger] has_owner(t, req.pairs, y, b) && a != b {
            let (a, b) = choose|a: Text, b: Text| #[trigger]
                has_owner(t, req.pairs, y, a) && #[trigger] has_owner(t, req.pairs, y, b) && a != b;
            assert(owners.contains(a) && owners.contains(b));
            if owners.len() == 1 {
                assert(a == owners[0] && b == owners[0]);
            }
        } else {
            let a = choose|a: Text| has_owner(t, req.pairs, y, a);
            assert(owners.contains(a));
            let root = choose|root: Text| #[trigger]
                sole(req.pairs, root, y) && !taken(t.roots, root);
            assert(free.contains(root));
        }
    }
    if splitting.contains(l) {
        let i = choose|i: int| 0 <= i < splitting.len() && splitting[i] == l;
        assert(l.roots == Some(free));
    }
}

proof fn lemma_claimed_twice(claims: Seq<Claim>, identity: Text)
    ensures
        seed::claimed(claims, identity).len() > 1 <==> claimed_twice(claims, identity),
{
    let places = seed::claimed(claims, identity);
    order::law_sorted_set(seed::claims_of(claims, identity));
    assert forall|w: Text| #[trigger] places.contains(w) <==> exists|i: int|
        0 <= i < claims.len() && (#[trigger] claims[i]).identity == identity
            && claims[i].workspace_id == w by {
        observed::lemma_claimed(claims, identity, w);
    }
    if places.len() > 1 {
        assert(places.contains(places[0]) && places.contains(places[1]));
        assert(order::text_lt(places[0], places[1]));
        order::lemma_text_irreflexive(places[0]);
        let i = choose|i: int|
            0 <= i < claims.len() && (#[trigger] claims[i]).identity == identity
                && claims[i].workspace_id == places[0];
        let j = choose|j: int|
            0 <= j < claims.len() && (#[trigger] claims[j]).identity == identity
                && claims[j].workspace_id == places[1];
        assert(claims[i].identity == identity && claims[j].identity == identity);
    }
    if claimed_twice(claims, identity) {
        let (i, j) = choose|i: int, j: int|
            0 <= i < claims.len() && 0 <= j < claims.len() && (#[trigger] claims[i]).identity
                == identity && (#[trigger] claims[j]).identity == identity && claims[i].workspace_id
                != claims[j].workspace_id;
        assert(places.contains(claims[i].workspace_id));
        assert(places.contains(claims[j].workspace_id));
        if places.len() == 1 {
            assert(claims[i].workspace_id == places[0] && claims[j].workspace_id == places[0]);
        }
    }
}

proof fn lemma_detached(
    t: Tables,
    u: Tables,
    req: Seed,
    roots: Seq<Text>,
    done: Seq<Text>,
    now: i64,
    y: Text,
    l: Line,
)
    requires
        t.sound(),
        roots == order::sorted_set(seed::roots_of(req.pairs)),
        holds(t, u, req, roots, done, now),
        !done.contains(y),
        seed::landing(u, y).0 is Some,
    ensures
        ({
            let rows = seed::group(req.pairs, roots, y);
            let v = seed::import_group(u, req, y, rows, now).tables;
            let free = seed::free_roots(u, rows);
            seed::import_into(u, req, y, ids::seeded_id(y), rows, free, now).lines.contains(l)
                <==> on_detached(t, v, req.claims, y, l)
        }),
{
    let rows = seed::group(req.pairs, roots, y);
    let v = seed::import_group(u, req, y, rows, now).tables;
    let free = seed::free_roots(u, rows);
    let id = ids::seeded_id(y);
    let lines = seed::import_into(u, req, y, id, rows, free, now).lines;
    lemma_step_own(t, u, req, roots, done, now, y);
    lemma_claimed_twice(req.claims, y);
    let row = Line {
        project_id: Some(id),
        reason: Some("detached because export claimed multiple workspaces"@),
        ..seed::line("multi_workspace"@, y)
    };
    if lines.len() > 0 {
        assert(lines == seq![row]);
        assert(lines[0] == row);
    }
}

/// What is due on an identity stays due while others are imported.
proof fn lemma_due_stable(
    t: Tables,
    u: Tables,
    req: Seed,
    roots: Seq<Text>,
    done: Seq<Text>,
    now: i64,
    y: Text,
    x: Text,
    l: Line,
)
    requires
        t.sound(),
        roots == order::sorted_set(seed::roots_of(req.pairs)),
        holds(t, u, req, roots, done, now),
        !done.contains(y),
        done.contains(x),
    ensures
        ({
            let v = seed::import_group(u, req, y, seed::group(req.pairs, roots, y), now).tables;
            &&& due(t, v, req, x, l) <==> due(t, u, req, x, l)
            &&& divided(t, v, req.pairs, x) <==> divided(t, u, req.pairs, x)
            &&& on_division(t, v, req.pairs, x, l) <==> on_division(t, u, req.pairs, x, l)
        }),
{
    let v = seed::import_group(u, req, y, seed::group(req.pairs, roots, y), now).tables;
    lemma_step_stable(t, u, req, roots, done, now, y, x);
    assert(landed(v, x) == landed(u, x));
    assert(divided(t, v, req.pairs, x) <==> divided(t, u, req.pairs, x));
    assert(on_taken_root(t, v, req.pairs, x, l) <==> on_taken_root(t, u, req.pairs, x, l)) by {
        if on_taken_root(t, v, req.pairs, x, l) {
            let (root, owner) = choose|root: Text, owner: Text| #[trigger]
                leads(t.roots, root, owner) && sole(req.pairs, root, x) && l == says(
                    "skipped"@,
                    x,
                    Some(root),
                    None,
                    Some(owner),
                    landed(v, x),
                    Some("root already registered"@),
                );
            assert(leads(t.roots, root, owner));
        }
        if on_taken_root(t, u, req.pairs, x, l) {
            let (root, owner) = choose|root: Text, owner: Text| #[trigger]
                leads(t.roots, root, owner) && sole(req.pairs, root, x) && l == says(
                    "skipped"@,
                    x,
                    Some(root),
                    None,
                    Some(owner),
                    landed(u, x),
                    Some("root already registered"@),
                );
            assert(leads(t.roots, root, owner));
        }
    }
}

/// Whether a line is due on one of the identities.
spec fn due_on_some(t: Tables, u: Tables, req: Seed, done: Seq<Text>, l: Line) -> bool {
    exists|x: Text| #[trigger] done.contains(x) && due(t, u, req, x, l)
}

/// Whether each of the identities whose roots are divided has its line.
spec fn divisions_told(t: Tables, u: Tables, req: Seed, done: Seq<Text>, lines: Seq<Line>) -> bool {
    forall|x: Text| #[trigger]
        done.contains(x) && divided(t, u, req.pairs, x) ==> exists|m: Line| #[trigger]
            lines.contains(m) && on_division(t, u, req.pairs, x, m)
}

proof fn lemma_all_lines(
    start: Progress,
    req: Seed,
    roots: Seq<Text>,
    identities: Seq<Text>,
    now: i64,
)
    requires
        start.tables.sound(),
        roots == order::sorted_set(seed::roots_of(req.pairs)),
        order::strictly_ascends(identities),
        seed::import_groups(start, req, roots, identities, now).failure is None,
    ensures
        ({
            let p = seed::import_groups(start, req, roots, identities, now);
            &&& forall|l: Line| #[trigger]
                p.lines.contains(l) ==> start.lines.contains(l) || due_on_some(
                    start.tables,
                    p.tables,
                    req,
                    identities,
                    l,
                )
            &&& forall|l: Line|
                start.lines.contains(l) || l.roots is None && due_on_some(
                    start.tables,
                    p.tables,
                    req,
                    identities,
                    l,
                ) ==> #[trigger] p.lines.contains(l)
            &&& divisions_told(start.tables, p.tables, req, identities, p.lines)
        }),
    decreases identities.len(),
{
    let t = start.tables;
    let p = seed::import_groups(start, req, roots, identities, now);
    if identities.len() > 0 {
        let head = identities.drop_last();
        let y = identities.last();
        assert forall|i: int, j: int| 0 <= i < j < head.len() implies order::text_lt(
            #[trigger] head[i],
            #[trigger] head[j],
        ) by {
            assert(order::text_lt(identities[i], identities[j]));
        }
        assert(!head.contains(y)) by {
            if head.contains(y) {
                let i = choose|i: int| 0 <= i < head.len() && head[i] == y;
                assert(order::text_lt(identities[i], identities[identities.len() - 1]));
                order::lemma_text_irreflexive(y);
            }
        }
        let q = seed::import_groups(start, req, roots, head, now);
        let u = q.tables;
        lemma_all_lines(start, req, roots, head, now);
        lemma_all_groups(start, req, roots, head, now);
        let g = seed::import_group(u, req, y, seed::group(req.pairs, roots, y), now);
        assert(p.lines == q.lines + g.lines && p.tables == g.tables);
        assert forall|x: Text| #[trigger] identities.contains(x) <==> head.contains(x) || x == y by {
            membership::lemma_pushed(head, y, x);
            assert(head.push(y) =~= identities);
        }
        assert forall|l: Line| #[trigger] p.lines.contains(l) implies start.lines.contains(l)
            || due_on_some(t, p.tables, req, identities, l) by {
            lemma_concat(q.lines, g.lines, l);
            if q.lines.contains(l) {
                if !start.lines.contains(l) {
                    let x = choose|x: Text| #[trigger] head.contains(x) && due(t, u, req, x, l);
                    lemma_due_stable(t, u, req, roots, head, now, y, x, l);
                    assert(identities.contains(x) && due(t, p.tables, req, x, l));
                }
            } else {
                lemma_group_lines(t, u, req, roots, head, now, y, l);
                assert(identities.contains(y) && due(t, p.tables, req, y, l));
            }
        }
        assert forall|l: Line|
            start.lines.contains(l) || l.roots is None && due_on_some(
                t,
                p.tables,
                req,
                identities,
                l,
            ) implies #[trigger] p.lines.contains(l) by {
            lemma_concat(q.lines, g.lines, l);
            if start.lines.contains(l) {
                assert(q.lines.contains(l));
            } else {
                let x = choose|x: Text| #[trigger]
                    identities.contains(x) && due(t, p.tables, req, x, l);
                if x == y {
                    lemma_group_lines(t, u, req, roots, head, now, y, l);
                } else {
                    assert(head.contains(x));
                    lemma_due_stable(t, u, req, roots, head, now, y, x, l);
                    assert(due_on_some(t, u, req, head, l));
                    assert(q.lines.contains(l));
                }
            }
        }
        assert forall|x: Text| #[trigger]
            identities.contains(x) && divided(t, p.tables, req.pairs, x) implies exists|m: Line|
            #[trigger] p.lines.contains(m) && on_division(t, p.tables, req.pairs, x, m) by {
            if x == y {
                let any = seed::line(Seq::empty(), y);
                lemma_group_lines(t, u, req, roots, head, now, y, any);
                let m = choose|m: Line| #[trigger]
                    g.lines.contains(m) && on_division(t, g.tables, req.pairs, y, m);
                lemma_concat(q.lines, g.lines, m);
                assert(p.lines.contains(m));
            } else {
                let any = seed::line(Seq::empty(), y);
                assert(head.contains(x));
                lemma_due_stable(t, u, req, roots, head, now, y, x, any);
                let m = choose|m: Line| #[trigger]
                    q.lines.contains(m) && on_division(t, u, req.pairs, x, m);
                lemma_due_stable(t, u, req, roots, head, now, y, x, m);
                lemma_concat(q.lines, g.lines, m);
                assert(p.lines.contains(m));
            }
        }
    }
}

/// What the report on an import that ran says. Of every observation that gives way, of
/// every identity that shares a root with another, and of every identity that is imported
/// and returns, is refused, finds a root taken, has its roots divided or is left detached,
/// there is a line; and there is no other line.
pub proof fn law_reports_say_what_was_done(
    before: Registry,
    req: Seed,
    roots: Seq<RootFact>,
    now: i64,
)
    requires
        before.sound(),
        ran(before, req.request_key, seed::seed_outcome(before, req, roots, now)),
    ensures
        ({
            let t = before.tables;
            let u = seed::seed_outcome(before, req, roots, now).registry.tables;
            let lines = seed::imported(
                t,
                Seed { pairs: seed::tidy_pairs(req.pairs), ..req },
                now,
            ).lines;
            &&& forall|l: Line| #[trigger]
                lines.contains(l) ==> on_precedence(req.pairs, l) || on_contest(req.pairs, l)
                    || due_on_any(t, u, req, l)
            &&& forall|l: Line|
                on_precedence(req.pairs, l) || on_contest(req.pairs, l) || l.roots is None
                    && due_on_any(t, u, req, l) ==> #[trigger] lines.contains(l)
            &&& forall|x: Text| #[trigger]
                has_root(req.pairs, x) && divided(t, u, req.pairs, x) ==> exists|m: Line|
                    #[trigger] lines.contains(m) && on_division(t, u, req.pairs, x, m)
        }),
{
    let t = before.tables;
    let o = seed::seed_outcome(before, req, roots, now);
    let r = seed::seed_settled(req, roots)->Ok_0;
    let deed = seed::seed_deed(before, r, now);
    laws_rows::lemma_ran(before, req.request_key, deed);
    let u = o.registry.tables;
    let places = order::sorted_set(seed::roots_of(r.pairs));
    let identities = order::sorted_set(seed::winners(r.pairs, places));
    let (start, changed) = seed::import_titles(t, r.workspaces, now);
    let progress = Progress {
        tables: start,
        lines: seed::roots_lines(r.pairs, places),
        changed,
        failure: None,
    };
    laws_seed::lemma_titles_grow(t, r.workspaces, now);
    seed::lemma_import_titles(t, r.workspaces, now);
    order::law_sorted_set(seed::winners(r.pairs, places));
    lemma_all_lines(progress, r, places, identities, now);
    laws_seed::lemma_titles_unchanged(t, r.workspaces, now);
    laws_seed::lemma_groups_unchanged(progress, r, places, identities, now);
    let p = seed::import_groups(progress, r, places, identities, now);
    let lines = p.lines;
    assert(u == p.tables);
    observed::lemma_tidy(req.pairs);
    assert forall|x: Text| #[trigger] identities.contains(x) <==> has_root(req.pairs, x) by {
        observed::lemma_winners(r.pairs, places, x);
        if has_root(req.pairs, x) {
            let root = choose|root: Text| #[trigger] sole(req.pairs, root, x);
            assert(sole(r.pairs, root, x));
            lemma_sole_is_observed(r.pairs, root, x);
        }
        if identities.contains(x) {
            let root = choose|root: Text|
                places.contains(root) && #[trigger] sole(r.pairs, root, x);
            assert(sole(req.pairs, root, x));
        }
    }
    assert forall|l: Line| progress.lines.contains(l) <==> on_precedence(req.pairs, l)
        || on_contest(req.pairs, l) by {
        lemma_opening_lines(r.pairs, l);
        lemma_tidy_openings(req.pairs, l);
    }
    assert forall|x: Text, l: Line| #[trigger] due(start, u, r, x, l) <==> due(
        t,
        u,
        req,
        x,
        l,
    ) by {
        lemma_tidy_due(t, start, u, r, req, x, l);
    }
    assert forall|l: Line| due_on_some(start, u, r, identities, l) <==> due_on_any(
        t,
        u,
        req,
        l,
    ) by {
        if due_on_some(start, u, r, identities, l) {
            let x = choose|x: Text| #[trigger] identities.contains(x) && due(start, u, r, x, l);
            assert(due(t, u, req, x, l));
            assert(has_root(req.pairs, x));
        }
        if due_on_any(t, u, req, l) {
            let x = choose|x: Text| #[trigger] has_root(req.pairs, x) && due(t, u, req, x, l);
            assert(due(start, u, r, x, l));
            assert(identities.contains(x));
        }
    }
    assert forall|x: Text| #[trigger]
        has_root(req.pairs, x) && divided(t, u, req.pairs, x) implies exists|m: Line| #[trigger]
        lines.contains(m) && on_division(t, u, req.pairs, x, m) by {
        let any = seed::line(Seq::empty(), x);
        lemma_tidy_due(t, start, u, r, req, x, any);
        assert(identities.contains(x));
        let m = choose|m: Line| #[trigger]
            lines.contains(m) && on_division(start, u, r.pairs, x, m);
        lemma_tidy_due(t, start, u, r, req, x, m);
        assert(lines.contains(m) && on_division(t, u, req.pairs, x, m));
    }
}

/// Whether a line is due on an identity that has a root to itself.
pub open spec fn due_on_any(t: Tables, u: Tables, req: Seed, l: Line) -> bool {
    exists|x: Text| #[trigger] has_root(req.pairs, x) && due(t, u, req, x, l)
}

proof fn lemma_tidy_openings(pairs: Seq<Pair>, l: Line)
    ensures
        on_precedence(seed::tidy_pairs(pairs), l) <==> on_precedence(pairs, l),
        on_contest(seed::tidy_pairs(pairs), l) <==> on_contest(pairs, l),
{
    let tidy = seed::tidy_pairs(pairs);
    observed::lemma_tidy(pairs);
    if on_precedence(tidy, l) {
        let p = choose|p: Pair| #[trigger]
            tidy.contains(p) && !stands(tidy, p) && l == says(
                "identity_class_precedence"@,
                p.identity,
                Some(p.root),
                None,
                None,
                None,
                Some("git identity wins"@),
            );
        assert(pairs.contains(p));
        assert(observed::seen_git(tidy, p.root) <==> observed::seen_git(pairs, p.root));
        assert(!stands(pairs, p));
    }
    if on_precedence(pairs, l) {
        let p = choose|p: Pair| #[trigger]
            pairs.contains(p) && !stands(pairs, p) && l == says(
                "identity_class_precedence"@,
                p.identity,
                Some(p.root),
                None,
                None,
                None,
                Some("git identity wins"@),
            );
        let q = observed::lemma_tidy_has(pairs, p);
        assert(tidy.contains(q));
        assert(observed::seen_git(tidy, q.root) <==> observed::seen_git(pairs, q.root));
        assert(!stands(tidy, q));
    }
    if on_contest(tidy, l) {
        let (root, x) = choose|root: Text, x: Text| #[trigger]
            observed(tidy, root, x) && !sole(tidy, root, x) && l == says(
                "conflicted"@,
                x,
                Some(root),
                None,
                None,
                None,
                Some("one root observed under multiple identities"@),
            );
        assert(sole(tidy, root, x) <==> sole(pairs, root, x));
        assert(observed(pairs, root, x));
    }
    if on_contest(pairs, l) {
        let (root, x) = choose|root: Text, x: Text| #[trigger]
            observed(pairs, root, x) && !sole(pairs, root, x) && l == says(
                "conflicted"@,
                x,
                Some(root),
                None,
                None,
                None,
                Some("one root observed under multiple identities"@),
            );
        assert(sole(tidy, root, x) <==> sole(pairs, root, x));
        assert(observed(tidy, root, x));
    }
}

/// What is due goes by what is observed, and not by how.
proof fn lemma_tidy_due(
    t: Tables,
    start: Tables,
    u: Tables,
    r: Seed,
    req: Seed,
    x: Text,
    l: Line,
)
    requires
        start == (Tables { workspaces: start.workspaces, ..t }),
        r.claims == req.claims,
        forall|root: Text, y: Text| #[trigger] sole(r.pairs, root, y) <==> sole(req.pairs, root, y),
    ensures
        due(start, u, r, x, l) <==> due(t, u, req, x, l),
        divided(start, u, r.pairs, x) <==> divided(t, u, req.pairs, x),
        on_division(start, u, r.pairs, x, l) <==> on_division(t, u, req.pairs, x, l),
{
    assert forall|owner: Text| #[trigger] has_owner(start, r.pairs, x, owner) <==> has_owner(
        t,
        req.pairs,
        x,
        owner,
    ) by {
        if has_owner(start, r.pairs, x, owner) {
            let root = choose|root: Text| #[trigger]
                sole(r.pairs, root, x) && leads(start.roots, root, owner);
            assert(sole(req.pairs, root, x));
        }
        if has_owner(t, req.pairs, x, owner) {
            let root = choose|root: Text| #[trigger]
                sole(req.pairs, root, x) && leads(t.roots, root, owner);
            assert(sole(r.pairs, root, x));
        }
    }
    assert(divided(start, u, r.pairs, x) <==> divided(t, u, req.pairs, x)) by {
        if divided(start, u, r.pairs, x) {
            if exists|a: Text, b: Text| #[trigger]
                has_owner(start, r.pairs, x, a) && #[trigger] has_owner(start, r.pairs, x, b) && a
                    != b {
                let (a, b) = choose|a: Text, b: Text| #[trigger]
                    has_owner(start, r.pairs, x, a) && #[trigger] has_owner(start, r.pairs, x, b)
                        && a != b;
                assert(has_owner(t, req.pairs, x, a) && has_owner(t, req.pairs, x, b));
            } else {
                let a = choose|a: Text| has_owner(start, r.pairs, x, a);
                assert(has_owner(t, req.pairs, x, a));
                let root = choose|root: Text| #[trigger]
                    sole(r.pairs, root, x) && !taken(start.roots, root);
                assert(sole(req.pairs, root, x));
            }
        }
        if divided(t, u, req.pairs, x) {
            if exists|a: Text, b: Text| #[trigger]
                has_owner(t, req.pairs, x, a) && #[trigger] has_owner(t, req.pairs, x, b) && a
                    != b {
                let (a, b) = choose|a: Text, b: Text| #[trigger]
                    has_owner(t, req.pairs, x, a) && #[trigger] has_owner(t, req.pairs, x, b) && a
                        != b;
                assert(has_owner(start, r.pairs, x, a) && has_owner(start, r.pairs, x, b));
            } else {
                let a = choose|a: Text| has_owner(t, req.pairs, x, a);
                assert(has_owner(start, r.pairs, x, a));
                let root = choose|root: Text| #[trigger]
                    sole(req.pairs, root, x) && !taken(t.roots, root);
                assert(sole(r.pairs, root, x));
            }
        }
    }
    if on_taken_root(start, u, r.pairs, x, l) {
        let (root, owner) = choose|root: Text, owner: Text| #[trigger]
            leads(start.roots, root, owner) && sole(r.pairs, root, x) && l == says(
                "skipped"@,
                x,
                Some(root),
                None,
                Some(owner),
                landed(u, x),
                Some("root already registered"@),
            );
        assert(sole(req.pairs, root, x));
        assert(leads(t.roots, root, owner));
    }
    if on_taken_root(t, u, req.pairs, x, l) {
        let (root, owner) = choose|root: Text, owner: Text| #[trigger]
            leads(t.roots, root, owner) && sole(req.pairs, root, x) && l == says(
                "skipped"@,
                x,
                Some(root),
                None,
                Some(owner),
                landed(u, x),
                Some("root already registered"@),
            );
        assert(sole(r.pairs, root, x));
        assert(leads(start.roots, root, owner));
    }
    let id = ids::seeded_id(x);
    assert(touched(start, u, id) <==> touched(t, u, id));
    assert(on_taken_root(start, u, r.pairs, x, l) <==> on_taken_root(t, u, req.pairs, x, l));
    assert(on_division(start, u, r.pairs, x, l) <==> on_division(t, u, req.pairs, x, l)) by {
        assert forall|root: Text| sole(r.pairs, root, x) <==> sole(req.pairs, root, x) by {}
        assert(start.roots == t.roots);
    }
    assert(on_alias(start, u, x, l) <==> on_alias(t, u, x, l)) by {
        assert(start.aliases == t.aliases);
    }
    assert(on_return(start, x, l) <==> on_return(t, x, l));
    assert(on_detached(start, u, r.claims, x, l) <==> on_detached(t, u, req.claims, x, l));
}

/// Whether a text goes before another or is the same.
pub open spec fn no_later(a: Text, b: Text) -> bool {
    a == b || order::text_lt(a, b)
}

/// Whether lines are on roots, in ascending order of these.
pub open spec fn by_root(lines: Seq<Line>) -> bool {
    &&& forall|i: int| 0 <= i < lines.len() ==> (#[trigger] lines[i]).root is Some
    &&& forall|i: int, j: int|
        0 <= i < j < lines.len() ==> no_later(
            (#[trigger] lines[i]).root->Some_0,
            (#[trigger] lines[j]).root->Some_0,
        )
}

/// Whether lines are on identities, in ascending order of these.
pub open spec fn by_identity(lines: Seq<Line>) -> bool {
    &&& forall|i: int| 0 <= i < lines.len() ==> (#[trigger] lines[i]).identity is Some
    &&& forall|i: int, j: int|
        0 <= i < j < lines.len() ==> no_later(
            (#[trigger] lines[i]).identity->Some_0,
            (#[trigger] lines[j]).identity->Some_0,
        )
}

proof fn lemma_roots_in_order(pairs: Seq<Pair>, roots: Seq<Text>)
    requires
        order::strictly_ascends(roots),
    ensures
        by_root(seed::roots_lines(pairs, roots)),
        forall|i: int|
            0 <= i < seed::roots_lines(pairs, roots).len() ==> {
                let l = #[trigger] seed::roots_lines(pairs, roots)[i];
                l.root is Some && roots.contains(l.root->Some_0)
            },
    decreases roots.len(),
{
    if roots.len() > 0 {
        let head = roots.drop_last();
        let last = roots.last();
        let rows = seed::pairs_at(pairs, last);
        assert forall|i: int, j: int| 0 <= i < j < head.len() implies order::text_lt(
            #[trigger] head[i],
            #[trigger] head[j],
        ) by {
            assert(order::text_lt(roots[i], roots[j]));
        }
        lemma_roots_in_order(pairs, head);
        let a = seed::roots_lines(pairs, head);
        let b = seed::root_lines(last, rows);
        let all = a + b;
        let lost = seed::losers(rows);
        let x = lost.map_values(|p: Pair| seed::precedence_line(p));
        observed::lemma_standing(pairs, last);
        assert forall|i: int| 0 <= i < b.len() implies (#[trigger] b[i]).root == Some(last) by {
            if i < x.len() {
                assert(b[i] == x[i]);
                assert(lost.contains(lost[i]));
            }
        }
        assert(seed::roots_lines(pairs, roots) == all);
        assert forall|i: int| 0 <= i < all.len() implies ({
            let l = #[trigger] all[i];
            l.root is Some && roots.contains(l.root->Some_0)
        }) by {
            if i < a.len() {
                assert(all[i] == a[i]);
                let k = choose|k: int| 0 <= k < head.len() && head[k] == a[i].root->Some_0;
                assert(roots[k] == a[i].root->Some_0);
            } else {
                assert(all[i] == b[i - a.len()]);
                assert(roots[roots.len() - 1] == last);
            }
        }
        assert forall|i: int, j: int| 0 <= i < j < all.len() implies no_later(
            (#[trigger] all[i]).root->Some_0,
            (#[trigger] all[j]).root->Some_0,
        ) by {
            if j < a.len() {
                assert(all[i] == a[i] && all[j] == a[j]);
            } else {
                assert(all[j] == b[j - a.len()]);
                if i < a.len() {
                    assert(all[i] == a[i]);
                    let k = choose|k: int| 0 <= k < head.len() && head[k] == a[i].root->Some_0;
                    assert(order::text_lt(roots[k], roots[roots.len() - 1]));
                } else {
                    assert(all[i] == b[i - a.len()]);
                }
            }
        }
    }
}

proof fn lemma_group_identity(
    u: Tables,
    req: Seed,
    identity: Text,
    rows: Seq<Pair>,
    now: i64,
    i: int,
)
    requires
        0 <= i < seed::import_group(u, req, identity, rows, now).lines.len(),
    ensures
        seed::import_group(u, req, identity, rows, now).lines[i].identity == Some(identity),
{
    let project = seed::landing(u, identity).0;
    let opening = seed::landing(u, identity).1;
    let skipped = seed::skipped_lines(u, identity, rows, project);
    let n = opening.len() as int;
    if n <= i < n + skipped.len() {
        lemma_skipped_identity(u, identity, rows, project, i - n);
    }
}

proof fn lemma_skipped_identity(
    u: Tables,
    identity: Text,
    rows: Seq<Pair>,
    project: Option<Text>,
    i: int,
)
    requires
        0 <= i < seed::skipped_lines(u, identity, rows, project).len(),
    ensures
        seed::skipped_lines(u, identity, rows, project)[i].identity == Some(identity),
    decreases rows.len(),
{
    if rows.len() > 0 {
        let head = seed::skipped_lines(u, identity, rows.drop_last(), project);
        if i < head.len() {
            lemma_skipped_identity(u, identity, rows.drop_last(), project, i);
        }
    }
}

proof fn lemma_groups_in_order(
    start: Progress,
    req: Seed,
    roots: Seq<Text>,
    identities: Seq<Text>,
    now: i64,
)
    requires
        order::strictly_ascends(identities),
        seed::import_groups(start, req, roots, identities, now).failure is None,
    ensures
        ({
            let lines = seed::import_groups(start, req, roots, identities, now).lines;
            let n = start.lines.len() as int;
            &&& n <= lines.len()
            &&& lines.take(n) == start.lines
            &&& by_identity(lines.skip(n))
            &&& forall|i: int|
                n <= i < lines.len() ==> {
                    let l = #[trigger] lines[i];
                    l.identity is Some && identities.contains(l.identity->Some_0)
                }
        }),
    decreases identities.len(),
{
    let lines = seed::import_groups(start, req, roots, identities, now).lines;
    let n = start.lines.len() as int;
    if identities.len() == 0 {
        assert(lines.take(n) =~= start.lines);
    } else {
        let head = identities.drop_last();
        let y = identities.last();
        assert forall|i: int, j: int| 0 <= i < j < head.len() implies order::text_lt(
            #[trigger] head[i],
            #[trigger] head[j],
        ) by {
            assert(order::text_lt(identities[i], identities[j]));
        }
        let q = seed::import_groups(start, req, roots, head, now);
        assert(q.failure is None);
        lemma_groups_in_order(start, req, roots, head, now);
        let rows = seed::group(req.pairs, roots, y);
        let g = seed::import_group(q.tables, req, y, rows, now);
        let a = q.lines;
        assert(lines == a + g.lines);
        assert(lines.take(n) =~= start.lines) by {
            assert(a.take(n) =~= start.lines);
        }
        assert forall|i: int| n <= i < lines.len() implies ({
            let l = #[trigger] lines[i];
            l.identity is Some && identities.contains(l.identity->Some_0)
        }) by {
            if i < a.len() {
                assert(lines[i] == a[i]);
                let k = choose|k: int| 0 <= k < head.len() && head[k] == a[i].identity->Some_0;
                assert(identities[k] == a[i].identity->Some_0);
            } else {
                lemma_group_identity(q.tables, req, y, rows, now, i - a.len());
                assert(lines[i] == g.lines[i - a.len()]);
                assert(identities[identities.len() - 1] == y);
            }
        }
        let tail = lines.skip(n);
        assert forall|i: int, j: int| 0 <= i < j < tail.len() implies no_later(
            (#[trigger] tail[i]).identity->Some_0,
            (#[trigger] tail[j]).identity->Some_0,
        ) by {
            let (c, d) = (n + i, n + j);
            assert(tail[i] == lines[c] && tail[j] == lines[d]);
            if d < a.len() {
                assert(a.skip(n)[i] == a[c] && a.skip(n)[j] == a[d]);
                assert(lines[c] == a[c] && lines[d] == a[d]);
            } else {
                lemma_group_identity(q.tables, req, y, rows, now, d - a.len());
                assert(lines[d] == g.lines[d - a.len()]);
                if c < a.len() {
                    assert(lines[c] == a[c]);
                    let k = choose|k: int| 0 <= k < head.len() && head[k] == a[c].identity->Some_0;
                    assert(order::text_lt(identities[k], identities[identities.len() - 1]));
                } else {
                    lemma_group_identity(q.tables, req, y, rows, now, c - a.len());
                    assert(lines[c] == g.lines[c - a.len()]);
                }
            }
        }
        assert forall|i: int| 0 <= i < tail.len() implies (#[trigger] tail[i]).identity is Some by {
            assert(tail[i] == lines[n + i]);
        }
    }
}

/// The report on an import that ran goes in order: first what there is to say of roots, by
/// root, and then what there is to say of identities that are imported, by identity.
pub proof fn law_reports_go_in_order(
    before: Registry,
    req: Seed,
    roots: Seq<RootFact>,
    now: i64,
) -> (n: int)
    requires
        before.sound(),
        ran(before, req.request_key, seed::seed_outcome(before, req, roots, now)),
    ensures
        ({
            let lines = seed::imported(
                before.tables,
                Seed { pairs: seed::tidy_pairs(req.pairs), ..req },
                now,
            ).lines;
            &&& 0 <= n <= lines.len()
            &&& by_root(lines.take(n))
            &&& forall|i: int|
                0 <= i < n ==> on_precedence(req.pairs, #[trigger] lines[i]) || on_contest(
                    req.pairs,
                    lines[i],
                )
            &&& by_identity(lines.skip(n))
        }),
{
    let t = before.tables;
    let r = seed::seed_settled(req, roots)->Ok_0;
    let deed = seed::seed_deed(before, r, now);
    laws_rows::lemma_ran(before, req.request_key, deed);
    let places = order::sorted_set(seed::roots_of(r.pairs));
    let identities = order::sorted_set(seed::winners(r.pairs, places));
    let (start, changed) = seed::import_titles(t, r.workspaces, now);
    let opening = seed::roots_lines(r.pairs, places);
    let progress = Progress { tables: start, lines: opening, changed, failure: None };
    order::law_sorted_set(seed::roots_of(r.pairs));
    order::law_sorted_set(seed::winners(r.pairs, places));
    lemma_roots_in_order(r.pairs, places);
    lemma_groups_in_order(progress, r, places, identities, now);
    let n = opening.len() as int;
    let lines = seed::import_groups(progress, r, places, identities, now).lines;
    assert forall|i: int| 0 <= i < n implies on_precedence(req.pairs, #[trigger] lines[i])
        || on_contest(req.pairs, lines[i]) by {
        assert(lines.take(n)[i] == lines[i]);
        assert(opening.contains(opening[i]));
        lemma_opening_lines(r.pairs, lines[i]);
        lemma_tidy_openings(req.pairs, lines[i]);
    }
    n
}

} // verus!
