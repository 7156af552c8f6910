//! What paths mean, in terms of the names they are spelled with.
use vstd::prelude::*;

use crate::error::Failure;
use crate::paths::Probe;
use crate::text::Text;
use crate::{paths, text};

verus! {

/// Whether a text can stand between two slashes and name something.
pub open spec fn names_something(n: Text) -> bool {
    n.len() > 0 && !n.contains('/') && n != seq!['.']
}

/// Whether every text can stand between two slashes and name something.
pub open spec fn all_name(names: Seq<Text>) -> bool {
    forall|i: int| 0 <= i < names.len() ==> names_something(#[trigger] names[i])
}

/// Whether every text is a name, and none the one for a parent.
pub open spec fn plain_names(names: Seq<Text>) -> bool {
    all_name(names) && forall|i: int| 0 <= i < names.len() ==> #[trigger] names[i] != seq!['.', '.']
}

/// The names with a slash before each.
pub open spec fn below(names: Seq<Text>) -> Text
    decreases names.len(),
{
    if names.len() == 0 {
        Seq::empty()
    } else {
        below(names.drop_last()) + seq!['/'] + names.last()
    }
}

/// The absolute path of these names.
pub open spec fn absolute(names: Seq<Text>) -> Text {
    if names.len() == 0 {
        seq!['/']
    } else {
        below(names)
    }
}

proof fn lemma_split_last(a: Text, b: Text)
    requires
        !b.contains('/'),
    ensures
        text::split(a + seq!['/'] + b, '/') == text::split(a, '/').push(b),
    decreases b.len(),
{
    let all = a + seq!['/'] + b;
    if b.len() == 0 {
        assert(b =~= Seq::empty());
        assert(all.drop_last() =~= a);
        assert(all.last() == '/');
    } else {
        let c = b.drop_last();
        assert(b[b.len() - 1] == b.last());
        assert(b.contains(b.last()));
        assert forall|x: char| c.contains(x) implies b.contains(x) by {
            let i = choose|i: int| 0 <= i < c.len() && c[i] == x;
            assert(b[i] == x);
        }
        lemma_split_last(a, c);
        assert(all.drop_last() =~= a + seq!['/'] + c);
        assert(all.last() == b.last());
        let head = text::split(a, '/').push(c);
        assert(head.drop_last() =~= text::split(a, '/'));
        assert(c.push(b.last()) =~= b);
    }
}

proof fn lemma_split_below(names: Seq<Text>)
    requires
        all_name(names),
    ensures
        text::split(below(names), '/') == seq![Seq::<char>::empty()] + names,
    decreases names.len(),
{
    if names.len() == 0 {
        assert(seq![Seq::<char>::empty()] + names =~= seq![below(names)]);
    } else {
        let head = names.drop_last();
        assert forall|i: int| 0 <= i < head.len() implies names_something(#[trigger] head[i]) by {
            assert(names_something(names[i]));
        }
        assert(names_something(names[names.len() - 1]));
        lemma_split_below(head);
        lemma_split_last(below(head), names.last());
        assert((seq![Seq::<char>::empty()] + head).push(names.last()) =~= seq![
            Seq::<char>::empty(),
        ] + names);
    }
}

proof fn lemma_named_pieces(names: Seq<Text>)
    requires
        all_name(names),
    ensures
        paths::named_pieces(seq![Seq::<char>::empty()] + names) == names,
        paths::named_pieces(names) == names,
    decreases names.len(),
{
    reveal(Seq::filter);
    let keep = |t: Text| t.len() > 0 && t != seq!['.'];
    let all = seq![Seq::<char>::empty()] + names;
    if names.len() == 0 {
        assert(all.drop_last() =~= Seq::<Text>::empty());
        assert(all.last() == Seq::<char>::empty());
        assert(all.drop_last().filter(keep) =~= Seq::<Text>::empty());
        assert(all.filter(keep) =~= names);
        assert(names.filter(keep) =~= names);
    } else {
        let head = names.drop_last();
        assert forall|i: int| 0 <= i < head.len() implies names_something(#[trigger] head[i]) by {
            assert(names_something(names[i]));
        }
        assert(names_something(names[names.len() - 1]));
        lemma_named_pieces(head);
        assert(all.drop_last() =~= seq![Seq::<char>::empty()] + head);
        assert(all.last() == names.last());
        assert(head.push(names.last()) =~= names);
    }
}

proof fn lemma_below_rooted(names: Seq<Text>)
    requires
        names.len() > 0,
    ensures
        below(names).len() > 0,
        below(names)[0] == '/',
    decreases names.len(),
{
    if names.len() > 1 {
        lemma_below_rooted(names.drop_last());
    } else {
        assert(below(names.drop_last()) =~= Seq::empty());
    }
}

/// The components of an absolute path are the root and its names.
pub proof fn law_components_are_the_names(names: Seq<Text>)
    requires
        all_name(names),
    ensures
        paths::components(absolute(names)) == seq![seq!['/']] + names,
{
    lemma_named_pieces(names);
    if names.len() == 0 {
        let root = seq!['/'];
        let none = Seq::<char>::empty();
        assert(root =~= none + seq!['/'] + none);
        lemma_split_last(none, none);
        assert(text::split(none, '/') == seq![none]);
        reveal(Seq::filter);
        let keep = |t: Text| t.len() > 0 && t != seq!['.'];
        let pieces = seq![none].push(none);
        assert(pieces.drop_last() =~= seq![none]);
        assert(pieces.drop_last().drop_last() =~= Seq::<Text>::empty());
        assert(paths::named_pieces(pieces) =~= names);
    } else {
        lemma_split_below(names);
        lemma_below_rooted(names);
    }
}

/// One absolute path contains another exactly where its names begin those of the
/// other.
pub proof fn law_containment_goes_by_names(a: Seq<Text>, b: Seq<Text>)
    requires
        all_name(a),
        all_name(b),
    ensures
        paths::contains_path(absolute(a), absolute(b)) <==> a.len() <= b.len() && forall|i: int|
            0 <= i < a.len() ==> #[trigger] a[i] == b[i],
{
    law_components_are_the_names(a);
    law_components_are_the_names(b);
    let p = seq![seq!['/']] + a;
    let q = seq![seq!['/']] + b;
    if p.len() <= q.len() && q.take(p.len() as int) == p {
        assert forall|i: int| 0 <= i < a.len() implies #[trigger] a[i] == b[i] by {
            assert(q.take(p.len() as int)[i + 1] == p[i + 1]);
        }
    }
    if a.len() <= b.len() && forall|i: int| 0 <= i < a.len() ==> #[trigger] a[i] == b[i] {
        assert(q.take(p.len() as int) =~= p);
    }
}

proof fn lemma_settled(names: Seq<Text>)
    requires
        plain_names(names),
    ensures
        paths::settle(names) == names,
        paths::settle(seq![seq!['/']] + names) == names,
    decreases names.len(),
{
    let all = seq![seq!['/']] + names;
    if names.len() == 0 {
        assert(all.drop_last() =~= Seq::<Text>::empty());
        assert(all.last() == seq!['/']);
        assert(paths::settle(all.drop_last()) =~= Seq::<Text>::empty());
        assert(names =~= Seq::<Text>::empty());
    } else {
        let head = names.drop_last();
        assert(plain_names(head)) by {
            assert forall|i: int| 0 <= i < head.len() implies names_something(#[trigger] head[i])
                && head[i] != seq!['.', '.'] by {
                assert(names_something(names[i]));
            }
        }
        lemma_settled(head);
        let c = names.last();
        assert(c == names[names.len() - 1]);
        assert(names_something(c));
        if c == seq!['/'] {
            assert(c[0] == '/');
            assert(c.contains('/'));
        }
        assert(all.drop_last() =~= seq![seq!['/']] + head);
        assert(all.last() == c);
        assert(head.push(c) =~= names);
    }
}

proof fn lemma_spelled(names: Seq<Text>)
    ensures
        paths::spelled(true, names) == absolute(names),
        names.len() > 0 ==> seq!['/'] + text::join(names, seq!['/']) == below(names),
    decreases names.len(),
{
    let slash = seq!['/'];
    if names.len() == 0 {
        assert(slash + text::join(names, slash) =~= slash);
    } else if names.len() == 1 {
        assert(below(names.drop_last()) =~= Seq::empty());
        assert(slash + text::join(names, slash) =~= below(names));
    } else {
        let head = names.drop_last();
        lemma_spelled(head);
        assert(slash + text::join(names, slash) =~= (slash + text::join(head, slash)) + slash
            + names.last());
    }
}

/// An absolute path of plain names is the same path from everywhere. One level up
/// from it is the path without its last name.
pub proof fn law_lexical_paths(names: Seq<Text>, cwd: Text)
    requires
        plain_names(names),
    ensures
        paths::lexical(absolute(names), cwd) == absolute(names),
        paths::lexical(absolute(names.push(seq!['.', '.'])), cwd) == absolute(
            if names.len() > 0 {
                names.drop_last()
            } else {
                names
            },
        ),
{
    let up = names.push(seq!['.', '.']);
    assert(all_name(up)) by {
        assert forall|i: int| 0 <= i < up.len() implies names_something(#[trigger] up[i]) by {
            if i < names.len() {
                assert(names_something(names[i]));
            } else {
                assert(up[i] == seq!['.', '.']);
                assert(up[i].len() == 2);
            }
        }
    }
    if names.len() > 0 {
        lemma_below_rooted(names);
    }
    lemma_below_rooted(up);
    law_components_are_the_names(names);
    law_components_are_the_names(up);
    lemma_settled(names);
    lemma_spelled(names);
    let all = seq![seq!['/']] + up;
    assert(all.drop_last() =~= seq![seq!['/']] + names);
    assert(all.last() == seq!['.', '.']);
    assert(all.last().len() == 2);
    lemma_spelled(names.drop_last());
    assert(paths::settle(all) =~= if names.len() > 0 {
        names.drop_last()
    } else {
        names
    });
}

proof fn lemma_below_joined(a: Seq<Text>, b: Seq<Text>)
    ensures
        below(a + b) == below(a) + below(b),
    decreases b.len(),
{
    if b.len() == 0 {
        assert(a + b =~= a);
        assert(below(a) + below(b) =~= below(a));
    } else {
        lemma_below_joined(a, b.drop_last());
        assert((a + b).drop_last() =~= a + b.drop_last());
        assert(below(a + b) =~= below(a) + below(b));
    }
}

proof fn lemma_below_end(names: Seq<Text>)
    requires
        all_name(names),
        names.len() > 0,
    ensures
        below(names).len() > 0,
        below(names).last() != '/',
{
    let n = names.last();
    assert(n == names[names.len() - 1]);
    assert(names_something(n));
    assert(n.contains(n.last()));
    assert(below(names).last() == n.last());
}

/// A relative path of plain names leads below the working directory.
pub proof fn law_relative_paths(cwd: Seq<Text>, names: Seq<Text>)
    requires
        plain_names(cwd),
        plain_names(names),
        names.len() > 0,
    ensures
        paths::lexical(below(names).skip(1), absolute(cwd)) == absolute(cwd + names),
{
    let rel = below(names).skip(1);
    let all = cwd + names;
    lemma_below_rooted(names);
    assert(plain_names(all)) by {
        assert forall|i: int| 0 <= i < all.len() implies names_something(#[trigger] all[i])
            && all[i] != seq!['.', '.'] by {
            if i < cwd.len() {
                assert(names_something(cwd[i]));
            } else {
                assert(names_something(names[i - cwd.len()]));
            }
        }
    }
    assert(names_something(names[0]));
    lemma_below_first(names);
    assert(!paths::rooted(rel)) by {
        assert(names[0].contains(names[0][0]));
        assert(rel[0] == names[0][0]);
    }
    lemma_below_joined(cwd, names);
    if cwd.len() > 0 {
        lemma_below_end(cwd);
    }
    assert(paths::joined(absolute(cwd), rel) =~= absolute(all)) by {
        assert(seq!['/'] + rel =~= below(names));
        if cwd.len() == 0 {
            assert(all =~= names);
        } else {
            assert(below(cwd) + seq!['/'] + rel =~= below(cwd) + below(names));
        }
    }
    law_lexical_paths(all, absolute(cwd));
    lemma_below_rooted(all);
    assert(paths::joined(absolute(cwd), absolute(all)) == absolute(all));
}

proof fn lemma_below_first(names: Seq<Text>)
    requires
        all_name(names),
        names.len() > 0,
    ensures
        below(names).len() > 1,
        below(names)[1] == names[0][0],
    decreases names.len(),
{
    assert(names_something(names[0]));
    if names.len() == 1 {
        assert(below(names.drop_last()) =~= Seq::empty());
        assert(below(names) =~= seq!['/'] + names[0]);
    } else {
        let head = names.drop_last();
        assert forall|i: int| 0 <= i < head.len() implies names_something(#[trigger] head[i]) by {
            assert(names_something(names[i]));
        }
        lemma_below_first(head);
        assert(head[0] == names[0]);
    }
}

proof fn lemma_descend(base: Seq<Text>, tail: Seq<Text>)
    requires
        all_name(base),
        all_name(tail),
    ensures
        paths::descend(absolute(base), tail) == absolute(base + tail),
    decreases tail.len(),
{
    if tail.len() == 0 {
        assert(base + tail =~= base);
    } else {
        let head = tail.drop_last();
        assert forall|i: int| 0 <= i < head.len() implies names_something(#[trigger] head[i]) by {
            assert(names_something(tail[i]));
        }
        lemma_descend(base, head);
        let n = tail.last();
        assert(n == tail[tail.len() - 1]);
        assert(names_something(n));
        assert(n.contains(n[0]));
        let mid = base + head;
        assert(all_name(mid)) by {
            assert forall|i: int| 0 <= i < mid.len() implies names_something(#[trigger] mid[i]) by {
                if i < base.len() {
                    assert(names_something(base[i]));
                } else {
                    assert(names_something(head[i - base.len()]));
                }
            }
        }
        assert((base + tail).drop_last() =~= mid);
        assert((base + tail).last() == n);
        if mid.len() > 0 {
            lemma_below_end(mid);
            assert(absolute(mid) + seq!['/'] + n =~= below(base + tail));
        } else {
            assert(below(mid) =~= Seq::empty());
            assert(absolute(mid) + n =~= below(base + tail));
        }
    }
}

/// A query is answered by the path as the file system knows it: where the path itself
/// resolves, by what it resolves to, and it is there; where only a directory above it
/// does, by what that resolves to with the names below it, and it is gone; where
/// nothing does, by the path as it is spelled, and it is gone.
pub proof fn law_queries_go_by_what_is_there(
    names: Seq<Text>,
    resolved: Seq<Text>,
    climbed: usize,
    e: Text,
)
    requires
        plain_names(names),
        all_name(resolved),
        climbed <= names.len(),
    ensures
        paths::query_path(
            absolute(names),
            Probe::Found { climbed: climbed as int, resolved: absolute(resolved) },
        ) == Ok::<(Text, bool), Failure>(
            (absolute(resolved + names.skip(names.len() - climbed)), climbed == 0),
        ),
        paths::query_path(absolute(names), Probe::Missing) == Ok::<(Text, bool), Failure>(
            (absolute(names), false),
        ),
        paths::query_path(absolute(names), Probe::Unresolved(e)) == Err::<(Text, bool), Failure>(
            Failure::Path(e),
        ),
{
    law_components_are_the_names(names);
    lemma_settled(names);
    let tail = names.skip(names.len() - climbed);
    assert(all_name(tail)) by {
        assert forall|i: int| 0 <= i < tail.len() implies names_something(#[trigger] tail[i]) by {
            assert(names_something(names[names.len() - climbed + i]));
        }
    }
    lemma_descend(resolved, tail);
}

proof fn lemma_cancel(a: Seq<Text>, n: Text, b: Seq<Text>)
    requires
        n != seq!['/'],
        n != seq!['.'],
        n != seq!['.', '.'],
    ensures
        paths::settle(a + seq![n, seq!['.', '.']] + b) == paths::settle(a + b),
    decreases b.len(),
{
    let up = seq!['.', '.'];
    let pair = seq![n, up];
    let all = a + pair + b;
    reveal_with_fuel(paths::settle, 3);
    if b.len() == 0 {
        assert(a + b =~= a);
        assert(all =~= a.push(n).push(up));
        assert(a.push(n).push(up).drop_last() =~= a.push(n));
        assert(a.push(n).drop_last() =~= a);
        assert(up != seq!['/']) by {
            assert(up.len() == 2);
        }
        assert(up != seq!['.']) by {
            assert(up.len() == 2);
        }
        assert(paths::settle(a).push(n).drop_last() =~= paths::settle(a));
    } else {
        lemma_cancel(a, n, b.drop_last());
        assert(all.drop_last() =~= a + pair + b.drop_last());
        assert((a + b).drop_last() =~= a + b.drop_last());
        assert(all.last() == b.last() && (a + b).last() == b.last());
    }
}

/// A name and the step back up from it cancel, wherever they stand in a path.
pub proof fn law_steps_up_cancel(a: Seq<Text>, n: Text, b: Seq<Text>, cwd: Text)
    requires
        all_name(a),
        all_name(b),
        names_something(n),
        n != seq!['.', '.'],
    ensures
        paths::lexical(absolute(a + seq![n, seq!['.', '.']] + b), cwd) == paths::lexical(
            absolute(a + b),
            cwd,
        ),
{
    let up = seq!['.', '.'];
    let all = a + seq![n, up] + b;
    let short = a + b;
    assert(all_name(all)) by {
        assert forall|i: int| 0 <= i < all.len() implies names_something(#[trigger] all[i]) by {
            if i < a.len() {
                assert(names_something(a[i]));
            } else if i == a.len() {
                assert(all[i] == n);
            } else if i == a.len() + 1 {
                assert(all[i] == up);
                assert(up.len() == 2);
            } else {
                assert(names_something(b[i - a.len() - 2]));
            }
        }
    }
    assert(all_name(short)) by {
        assert forall|i: int| 0 <= i < short.len() implies names_something(#[trigger] short[i]) by {
            if i < a.len() {
                assert(names_something(a[i]));
            } else {
                assert(names_something(b[i - a.len()]));
            }
        }
    }
    law_components_are_the_names(all);
    law_components_are_the_names(short);
    lemma_below_rooted(all);
    if short.len() > 0 {
        lemma_below_rooted(short);
    }
    if n == seq!['/'] {
        assert(n[0] == '/');
        assert(n.contains('/'));
    }
    let root = seq![seq!['/']];
    lemma_cancel(root + a, n, b);
    assert(root + all =~= (root + a) + seq![n, up] + b);
    assert(root + short =~= (root + a) + b);
}

/// The ancestors of a path are the paths of its first names.
pub proof fn law_ancestors_have_fewer_names(names: Seq<Text>, k: int)
    requires
        plain_names(names),
        0 <= k <= names.len(),
    ensures
        paths::ancestor(absolute(names), k) == absolute(names.take(names.len() - k)),
        paths::climbable(absolute(names)) == names.len(),
{
    law_components_are_the_names(names);
    lemma_settled(names);
    lemma_spelled(names.take(names.len() - k));
    if names.len() > 0 {
        lemma_below_rooted(names);
    }
}

/// The file name of a path is its last name. The root has none.
pub proof fn law_file_names(dir: Seq<Text>, name: Text)
    requires
        all_name(dir),
        names_something(name),
        name != seq!['.', '.'],
    ensures
        paths::file_name_of(absolute(dir.push(name))) == Some(name),
        paths::file_name_of(seq!['/']) is None,
{
    let all = dir.push(name);
    assert(all_name(all)) by {
        assert forall|i: int| 0 <= i < all.len() implies names_something(#[trigger] all[i]) by {
            if i < dir.len() {
                assert(names_something(dir[i]));
            }
        }
    }
    law_components_are_the_names(all);
    let c = seq![seq!['/']] + all;
    assert(c.last() == name);
    if name == seq!['/'] {
        assert(name[0] == '/');
        assert(name.contains('/'));
    }
    let none = Seq::<Text>::empty();
    law_components_are_the_names(none);
    assert((seq![seq!['/']] + none).last() == seq!['/']);
}

} // verus!
