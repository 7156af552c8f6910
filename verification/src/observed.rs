//! What the observations of an import say of a root, whatever their order and however
//! often they say it.
use vstd::prelude::*;
use vstd::string::*;

use crate::membership;
use crate::model::{Claim, Pair};
use crate::text::Text;
use crate::{order, seed, text};

verus! {

/// Whether some observation of a root is of a git identity.
pub open spec fn seen_git(pairs: Seq<Pair>, root: Text) -> bool {
    exists|i: int|
        0 <= i < pairs.len() && (#[trigger] pairs[i]).root == root && (pairs[i].class == Some(
            "git"@,
        ) || text::begins_with(pairs[i].identity, "git:"@))
}

/// Whether an observation stands: one of a directory gives way where the root was seen
/// under a git identity.
pub open spec fn stands(pairs: Seq<Pair>, p: Pair) -> bool {
    !(p.class == Some("dir"@) && seen_git(pairs, p.root))
}

/// Whether an observation of the root under the identity stands.
pub open spec fn observed(pairs: Seq<Pair>, root: Text, identity: Text) -> bool {
    exists|i: int|
        0 <= i < pairs.len() && (#[trigger] pairs[i]).root == root && pairs[i].identity == identity
            && stands(pairs, pairs[i])
}

/// Whether an identity has a root to itself.
pub open spec fn sole(pairs: Seq<Pair>, root: Text, identity: Text) -> bool {
    observed(pairs, root, identity) && forall|other: Text| #[trigger]
        observed(pairs, root, other) ==> other == identity
}

/// Whether some observation says what this one says.
#[verifier::opaque]
spec fn says(pairs: Seq<Pair>, p: Pair) -> bool {
    exists|j: int| 0 <= j < pairs.len() && seed::same_pair(#[trigger] pairs[j], p)
}

/// Whether one list of observations says all that another does.
spec fn covers(a: Seq<Pair>, b: Seq<Pair>) -> bool {
    forall|i: int| 0 <= i < b.len() ==> says(a, #[trigger] b[i])
}

proof fn lemma_covered_git(a: Seq<Pair>, b: Seq<Pair>, root: Text)
    requires
        covers(b, a),
        seen_git(a, root),
    ensures
        seen_git(b, root),
{
    let i = choose|i: int|
        0 <= i < a.len() && (#[trigger] a[i]).root == root && (a[i].class == Some("git"@)
            || text::begins_with(a[i].identity, "git:"@));
    assert(says(b, a[i]));
    reveal(says);
    let j = choose|j: int| 0 <= j < b.len() && seed::same_pair(#[trigger] b[j], a[i]);
    assert(b[j].root == root);
}

proof fn lemma_covered_observed(a: Seq<Pair>, b: Seq<Pair>, root: Text, identity: Text)
    requires
        covers(b, a),
        seen_git(b, root) ==> seen_git(a, root),
        observed(a, root, identity),
    ensures
        observed(b, root, identity),
{
    let i = choose|i: int|
        0 <= i < a.len() && (#[trigger] a[i]).root == root && a[i].identity == identity && stands(
            a,
            a[i],
        );
    assert(says(b, a[i]));
    reveal(says);
    let j = choose|j: int| 0 <= j < b.len() && seed::same_pair(#[trigger] b[j], a[i]);
    assert(b[j].root == root && b[j].identity == identity && stands(b, b[j]));
}

proof fn lemma_first_pairs(pairs: Seq<Pair>)
    ensures
        covers(seed::first_pairs(pairs), pairs),
        forall|j: int|
            0 <= j < seed::first_pairs(pairs).len() ==> pairs.contains(
                #[trigger] seed::first_pairs(pairs)[j],
            ),
    decreases pairs.len(),
{
    if pairs.len() > 0 {
        let head = pairs.drop_last();
        let f = seed::first_pairs(head);
        let all = seed::first_pairs(pairs);
        lemma_first_pairs(head);
        assert forall|i: int| 0 <= i < pairs.len() implies says(all, #[trigger] pairs[i]) by {
            if i < head.len() {
                assert(head[i] == pairs[i]);
                assert(says(f, head[i]));
                reveal(says);
                let j = choose|j: int| 0 <= j < f.len() && seed::same_pair(#[trigger] f[j], head[i]);
                assert(all[j] == f[j]);
            } else if exists|k: int|
                0 <= k < f.len() && seed::same_pair(#[trigger] f[k], pairs.last()) {
                let k = choose|k: int|
                    0 <= k < f.len() && seed::same_pair(#[trigger] f[k], pairs.last());
                assert(all[k] == f[k]);
                reveal(says);
            } else {
                assert(all[f.len() as int] == pairs.last());
                assert(seed::same_pair(all[f.len() as int], pairs[i]));
                reveal(says);
            }
        }
        assert forall|j: int| 0 <= j < all.len() implies pairs.contains(#[trigger] all[j]) by {
            if j < f.len() {
                assert(head.contains(f[j]));
                let i = choose|i: int| 0 <= i < head.len() && head[i] == f[j];
                assert(pairs[i] == all[j]);
            } else {
                assert(pairs[pairs.len() - 1] == all[j]);
            }
        }
    }
}

/// Picking the elements of a sequence in order keeps every one of them.
pub proof fn lemma_picked<T>(s: Seq<T>, keys: Seq<Seq<Text>>, x: T)
    requires
        keys.len() == s.len(),
    ensures
        order::pick(s, order::order_of(keys)).len() == s.len(),
        order::pick(s, order::order_of(keys)).contains(x) <==> s.contains(x),
{
    let places = order::order_of(keys);
    let all = order::pick(s, places);
    order::law_sorting_is_stable(keys);
    if all.contains(x) {
        let i = choose|i: int| 0 <= i < all.len() && all[i] == x;
        assert(all[i] == s[places[i]]);
    }
    if s.contains(x) {
        let k = choose|k: int| 0 <= k < s.len() && s[k] == x;
        order::lemma_order_covers(keys, keys.len(), k);
        let i = choose|i: int| 0 <= i < places.len() && places[i] == k;
        assert(all[i] == x);
    }
}

proof fn lemma_tidy_covers(pairs: Seq<Pair>)
    ensures
        covers(seed::tidy_pairs(pairs), pairs),
        covers(pairs, seed::tidy_pairs(pairs)),
{
    let keys = seed::pair_keys(pairs);
    let ranked = order::pick(pairs, order::order_of(keys));
    let tidy = seed::tidy_pairs(pairs);
    lemma_first_pairs(ranked);
    assert forall|i: int| 0 <= i < tidy.len() implies says(pairs, #[trigger] tidy[i]) by {
        assert(ranked.contains(tidy[i]));
        lemma_picked(pairs, keys, tidy[i]);
        let j = choose|j: int| 0 <= j < pairs.len() && pairs[j] == tidy[i];
        assert(seed::same_pair(pairs[j], tidy[i]));
        reveal(says);
    }
    assert forall|i: int| 0 <= i < pairs.len() implies says(tidy, #[trigger] pairs[i]) by {
        assert(pairs.contains(pairs[i]));
        lemma_picked(pairs, keys, pairs[i]);
        let k = choose|k: int| 0 <= k < ranked.len() && ranked[k] == pairs[i];
        assert(says(tidy, ranked[k]));
    }
}

/// Tidying keeps an observation that says the same.
pub proof fn lemma_tidy_has(pairs: Seq<Pair>, p: Pair) -> (q: Pair)
    requires
        pairs.contains(p),
    ensures
        seed::tidy_pairs(pairs).contains(q),
        seed::same_pair(q, p),
{
    let tidy = seed::tidy_pairs(pairs);
    lemma_tidy_covers(pairs);
    let i = choose|i: int| 0 <= i < pairs.len() && pairs[i] == p;
    assert(says(tidy, pairs[i]));
    reveal(says);
    let j = choose|j: int| 0 <= j < tidy.len() && seed::same_pair(#[trigger] tidy[j], p);
    assert(tidy.contains(tidy[j]));
    tidy[j]
}

/// Tidying keeps what is said.
pub proof fn lemma_tidy(pairs: Seq<Pair>)
    ensures
        forall|p: Pair| #[trigger] seed::tidy_pairs(pairs).contains(p) ==> pairs.contains(p),
        forall|root: Text, identity: Text| #[trigger]
            observed(seed::tidy_pairs(pairs), root, identity) <==> observed(pairs, root, identity),
        forall|root: Text, identity: Text| #[trigger]
            sole(seed::tidy_pairs(pairs), root, identity) <==> sole(pairs, root, identity),
        forall|root: Text| #[trigger]
            seen_git(seed::tidy_pairs(pairs), root) <==> seen_git(pairs, root),
{
    let keys = seed::pair_keys(pairs);
    let ranked = order::pick(pairs, order::order_of(keys));
    let tidy = seed::tidy_pairs(pairs);
    lemma_first_pairs(ranked);
    assert forall|p: Pair| #[trigger] tidy.contains(p) implies pairs.contains(p) by {
        let j = choose|j: int| 0 <= j < tidy.len() && tidy[j] == p;
        assert(ranked.contains(tidy[j]));
        lemma_picked(pairs, keys, p);
    }
    lemma_tidy_covers(pairs);
    assert forall|root: Text| #[trigger] seen_git(tidy, root) <==> seen_git(pairs, root) by {
        if seen_git(tidy, root) {
            lemma_covered_git(tidy, pairs, root);
        }
        if seen_git(pairs, root) {
            lemma_covered_git(pairs, tidy, root);
        }
    }
    assert forall|root: Text, identity: Text| #[trigger]
        observed(tidy, root, identity) <==> observed(pairs, root, identity) by {
        assert(seen_git(tidy, root) <==> seen_git(pairs, root));
        if observed(tidy, root, identity) {
            lemma_covered_observed(tidy, pairs, root, identity);
        }
        if observed(pairs, root, identity) {
            lemma_covered_observed(pairs, tidy, root, identity);
        }
    }
    assert forall|root: Text, identity: Text| #[trigger]
        sole(tidy, root, identity) <==> sole(pairs, root, identity) by {
        if sole(tidy, root, identity) {
            assert(observed(tidy, root, identity));
            assert forall|other: Text| #[trigger] observed(pairs, root, other) implies other
                == identity by {
                assert(observed(tidy, root, other));
            }
        }
        if sole(pairs, root, identity) {
            assert(observed(tidy, root, identity));
            assert forall|other: Text| #[trigger] observed(tidy, root, other) implies other
                == identity by {
                assert(observed(pairs, root, other));
            }
        }
    }
}

/// The observations of a root that stand are those that are not of a directory where it
/// was seen under a git identity.
pub proof fn lemma_standing(pairs: Seq<Pair>, root: Text)
    ensures
        seed::any_git(seed::pairs_at(pairs, root)) <==> seen_git(pairs, root),
        forall|p: Pair| #[trigger]
            seed::standing(seed::pairs_at(pairs, root)).contains(p) <==> pairs.contains(p) && p.root
                == root && stands(pairs, p),
        forall|p: Pair| #[trigger]
            seed::losers(seed::pairs_at(pairs, root)).contains(p) <==> pairs.contains(p) && p.root
                == root && !stands(pairs, p),
{
    let at = |p: Pair| p.root == root;
    let rows = seed::pairs_at(pairs, root);
    let git = seed::any_git(rows);
    assert(git <==> seen_git(pairs, root)) by {
        if git {
            let i = choose|i: int| 0 <= i < rows.len() && seed::is_git(#[trigger] rows[i]);
            assert(rows.contains(rows[i]));
            membership::lemma_kept(pairs, at, rows[i]);
            let j = choose|j: int| 0 <= j < pairs.len() && pairs[j] == rows[i];
            assert(pairs[j].root == root);
        }
        if seen_git(pairs, root) {
            let i = choose|i: int|
                0 <= i < pairs.len() && (#[trigger] pairs[i]).root == root && (pairs[i].class
                    == Some("git"@) || text::begins_with(pairs[i].identity, "git:"@));
            assert(pairs.contains(pairs[i]));
            membership::lemma_kept(pairs, at, pairs[i]);
            let j = choose|j: int| 0 <= j < rows.len() && rows[j] == pairs[i];
            assert(seed::is_git(rows[j]));
        }
    }
    assert forall|p: Pair| #[trigger] seed::standing(rows).contains(p) <==> pairs.contains(p)
        && p.root == root && stands(pairs, p) by {
        membership::lemma_kept(rows, |q: Pair| !seed::sidelined(q, git), p);
        membership::lemma_kept(pairs, at, p);
    }
    assert forall|p: Pair| #[trigger] seed::losers(rows).contains(p) <==> pairs.contains(p)
        && p.root == root && !stands(pairs, p) by {
        membership::lemma_kept(rows, |q: Pair| seed::sidelined(q, git), p);
        membership::lemma_kept(pairs, at, p);
    }
}

/// The contenders for a root are the identities it was observed under.
pub proof fn lemma_contenders(pairs: Seq<Pair>, root: Text, identity: Text)
    ensures
        seed::contenders(seed::pairs_at(pairs, root)).contains(identity) <==> observed(
            pairs,
            root,
            identity,
        ),
        seed::contenders(seed::pairs_at(pairs, root)).len() == 1 && seed::contenders(
            seed::pairs_at(pairs, root),
        )[0] == identity <==> sole(pairs, root, identity),
{
    let up = seed::standing(seed::pairs_at(pairs, root));
    let all = seed::identities_of(up);
    let left = seed::contenders(seed::pairs_at(pairs, root));
    lemma_standing(pairs, root);
    order::law_sorted_set(all);
    assert forall|x: Text| #[trigger] left.contains(x) <==> observed(pairs, root, x) by {
        if all.contains(x) {
            let i = choose|i: int| 0 <= i < all.len() && all[i] == x;
            assert(up.contains(up[i]));
            let j = choose|j: int| 0 <= j < pairs.len() && pairs[j] == up[i];
            assert(pairs[j].root == root && pairs[j].identity == x);
        }
        if observed(pairs, root, x) {
            let i = choose|i: int|
                0 <= i < pairs.len() && (#[trigger] pairs[i]).root == root && pairs[i].identity == x
                    && stands(pairs, pairs[i]);
            assert(pairs.contains(pairs[i]));
            assert(up.contains(pairs[i]));
            let j = choose|j: int| 0 <= j < up.len() && up[j] == pairs[i];
            assert(all[j] == x);
        }
    }
    if left.len() == 1 && left[0] == identity {
        assert(left.contains(identity));
        assert forall|other: Text| #[trigger] observed(pairs, root, other) implies other
            == identity by {
            assert(left.contains(other));
        }
    }
    if sole(pairs, root, identity) {
        assert(left.contains(identity));
        if left.len() > 1 {
            assert(left.contains(left[0]) && left.contains(left[1]));
            assert(observed(pairs, root, left[0]) && observed(pairs, root, left[1]));
            assert(order::text_lt(left[0], left[1]));
            order::lemma_text_irreflexive(left[0]);
        }
        assert(left.contains(left[0]));
        assert(observed(pairs, root, left[0]));
    }
}

/// The observations that an identity is imported by are those of the roots that it has
/// to itself, from the least root on.
pub proof fn lemma_group(pairs: Seq<Pair>, roots: Seq<Text>, identity: Text)
    requires
        order::strictly_ascends(roots),
    ensures
        forall|root: Text| #[trigger]
            seed::roots_of(seed::group(pairs, roots, identity)).contains(root) <==> roots.contains(
                root,
            ) && sole(pairs, root, identity),
        forall|i: int|
            0 <= i < seed::group(pairs, roots, identity).len() ==> {
                let p = #[trigger] seed::group(pairs, roots, identity)[i];
                pairs.contains(p) && p.identity == identity && stands(pairs, p)
            },
        seed::group(pairs, roots, identity).len() > 0 ==> forall|root: Text|
            roots.contains(root) && #[trigger] sole(pairs, root, identity) ==> {
                let first = seed::group(pairs, roots, identity)[0].root;
                first == root || order::text_lt(first, root)
            },
    decreases roots.len(),
{
    let all = seed::group(pairs, roots, identity);
    if roots.len() > 0 {
        let head = roots.drop_last();
        let g = seed::group(pairs, head, identity);
        let last = roots.last();
        let rows = seed::pairs_at(pairs, last);
        let up = seed::standing(rows);
        assert(order::strictly_ascends(head)) by {
            assert forall|i: int, j: int| 0 <= i < j < head.len() implies order::text_lt(
                #[trigger] head[i],
                #[trigger] head[j],
            ) by {
                assert(order::text_lt(roots[i], roots[j]));
            }
        }
        lemma_group(pairs, head, identity);
        lemma_contenders(pairs, last, identity);
        lemma_standing(pairs, last);
        assert forall|root: Text| roots.contains(root) <==> head.contains(root) || root == last by {
            membership::lemma_pushed(head, last, root);
            assert(head.push(last) =~= roots);
        }
        if sole(pairs, last, identity) {
            assert(all == g + up);
            assert forall|i: int| 0 <= i < up.len() implies (#[trigger] up[i]).root == last
                && up[i].identity == identity && pairs.contains(up[i]) && stands(pairs, up[i]) by {
                assert(up.contains(up[i]));
                let j = choose|j: int| 0 <= j < pairs.len() && pairs[j] == up[i];
                assert(pairs[j].root == last && stands(pairs, pairs[j]));
                assert(observed(pairs, last, pairs[j].identity));
            }
            assert(up.len() > 0) by {
                assert(observed(pairs, last, identity));
                let i = choose|i: int|
                    0 <= i < pairs.len() && (#[trigger] pairs[i]).root == last && pairs[i].identity
                        == identity && stands(pairs, pairs[i]);
                assert(pairs.contains(pairs[i]));
                assert(up.contains(pairs[i]));
            }
        } else {
            assert(all == g);
        }
        let told = seed::roots_of(all);
        assert forall|root: Text| #[trigger] told.contains(root) <==> roots.contains(root) && sole(
            pairs,
            root,
            identity,
        ) by {
            if told.contains(root) {
                let i = choose|i: int| 0 <= i < told.len() && told[i] == root;
                if i < g.len() {
                    assert(seed::roots_of(g)[i] == root);
                    assert(seed::roots_of(g).contains(root));
                } else {
                    assert(all[i] == up[i - g.len()]);
                }
            }
            if head.contains(root) && sole(pairs, root, identity) {
                assert(seed::roots_of(g).contains(root));
                let i = choose|i: int|
                    0 <= i < seed::roots_of(g).len() && seed::roots_of(g)[i] == root;
                assert(told[i] == root);
            }
            if root == last && sole(pairs, last, identity) {
                assert(told[g.len() as int] == up[0].root);
            }
        }
        assert forall|i: int| 0 <= i < all.len() implies ({
            let p = #[trigger] all[i];
            pairs.contains(p) && p.identity == identity && stands(pairs, p)
        }) by {
            if i < g.len() {
                assert(all[i] == g[i]);
            } else {
                assert(all[i] == up[i - g.len()]);
            }
        }
        if all.len() > 0 {
            assert forall|root: Text|
                roots.contains(root) && #[trigger] sole(pairs, root, identity) implies ({
                let first = all[0].root;
                first == root || order::text_lt(first, root)
            }) by {
                if g.len() > 0 {
                    assert(all[0] == g[0]);
                    assert(seed::roots_of(g)[0] == g[0].root);
                    assert(seed::roots_of(g).contains(g[0].root));
                    if root == last {
                        let k = choose|k: int| 0 <= k < head.len() && head[k] == g[0].root;
                        assert(order::text_lt(roots[k], roots[roots.len() - 1]));
                    }
                } else {
                    assert(all[0] == up[0]);
                    if head.contains(root) {
                        assert(seed::roots_of(g).contains(root));
                    }
                }
            }
        }
    }
}

/// The identities that are imported are those that have a root to themselves.
pub proof fn lemma_winners(pairs: Seq<Pair>, roots: Seq<Text>, identity: Text)
    ensures
        seed::winners(pairs, roots).contains(identity) <==> exists|root: Text|
            roots.contains(root) && #[trigger] sole(pairs, root, identity),
    decreases roots.len(),
{
    if roots.len() > 0 {
        let head = roots.drop_last();
        let last = roots.last();
        let before = seed::winners(pairs, head);
        let left = seed::contenders(seed::pairs_at(pairs, last));
        lemma_winners(pairs, head, identity);
        lemma_contenders(pairs, last, identity);
        assert forall|root: Text| roots.contains(root) <==> head.contains(root) || root == last by {
            membership::lemma_pushed(head, last, root);
            assert(head.push(last) =~= roots);
        }
        if left.len() == 1 {
            membership::lemma_pushed(before, left[0], identity);
        }
        if exists|root: Text| head.contains(root) && #[trigger] sole(pairs, root, identity) {
            let root = choose|root: Text|
                head.contains(root) && #[trigger] sole(pairs, root, identity);
            assert(roots.contains(root) && sole(pairs, root, identity));
        }
        if sole(pairs, last, identity) {
            assert(roots.contains(last));
        }
    }
}

/// Whether claims name a workspace for an identity, and no other.
pub open spec fn claims_only(claims: Seq<Claim>, identity: Text, w: Text) -> bool {
    &&& exists|i: int|
        0 <= i < claims.len() && (#[trigger] claims[i]).identity == identity
            && claims[i].workspace_id == w
    &&& forall|i: int|
        0 <= i < claims.len() && (#[trigger] claims[i]).identity == identity
            ==> claims[i].workspace_id == w
}

/// One workspace is claimed for an identity exactly where claims name it and no other.
pub proof fn lemma_claimed(claims: Seq<Claim>, identity: Text, w: Text)
    ensures
        seed::claimed(claims, identity).len() == 1 && seed::claimed(claims, identity)[0] == w
            <==> claims_only(claims, identity, w),
        seed::claimed(claims, identity).contains(w) <==> exists|i: int|
            0 <= i < claims.len() && (#[trigger] claims[i]).identity == identity
                && claims[i].workspace_id == w,
{
    let keep = |c: Claim| c.identity == identity;
    let mine = claims.filter(keep);
    let all = seed::claims_of(claims, identity);
    let places = seed::claimed(claims, identity);
    order::law_sorted_set(all);
    assert forall|v: Text| #[trigger] places.contains(v) <==> exists|i: int|
        0 <= i < claims.len() && (#[trigger] claims[i]).identity == identity
            && claims[i].workspace_id == v by {
        if all.contains(v) {
            let k = choose|k: int| 0 <= k < all.len() && all[k] == v;
            assert(mine.contains(mine[k]));
            membership::lemma_kept(claims, keep, mine[k]);
            let i = choose|i: int| 0 <= i < claims.len() && claims[i] == mine[k];
            assert(claims[i].workspace_id == v);
        }
        if exists|i: int|
            0 <= i < claims.len() && (#[trigger] claims[i]).identity == identity
                && claims[i].workspace_id == v {
            let i = choose|i: int|
                0 <= i < claims.len() && (#[trigger] claims[i]).identity == identity
                    && claims[i].workspace_id == v;
            assert(claims.contains(claims[i]));
            membership::lemma_kept(claims, keep, claims[i]);
            let k = choose|k: int| 0 <= k < mine.len() && mine[k] == claims[i];
            assert(all[k] == v);
        }
    }
    if places.len() == 1 && places[0] == w {
        assert(places.contains(w));
        assert forall|i: int|
            0 <= i < claims.len() && (
            #[trigger] claims[i]).identity == identity implies claims[i].workspace_id == w by {
            assert(places.contains(claims[i].workspace_id));
        }
    }
    if claims_only(claims, identity, w) {
        assert(places.contains(w));
        if places.len() > 1 {
            assert(places.contains(places[0]) && places.contains(places[1]));
            assert(order::text_lt(places[0], places[1]));
            order::lemma_text_irreflexive(places[0]);
        }
        assert(places.contains(places[0]));
    }
}

} // verus!
