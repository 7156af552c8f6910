//! Ascending order of text, as the store and the standard library sort it: by
//! the bytes of the UTF-8 form.
use vstd::prelude::*;
use vstd::string::*;
use vstd::utf8::*;

use crate::text::Text;
use crate::text;

verus! {

/// Dictionary order of two byte strings.
pub open spec fn bytes_lt(x: Seq<u8>, y: Seq<u8>) -> bool
    decreases x.len(),
{
    if y.len() == 0 {
        false
    } else if x.len() == 0 {
        true
    } else if x[0] != y[0] {
        x[0] < y[0]
    } else {
        bytes_lt(x.drop_first(), y.drop_first())
    }
}

/// Whether `a` sorts before `b`.
pub open spec fn text_lt(a: Text, b: Text) -> bool {
    bytes_lt(encode_utf8(a), encode_utf8(b))
}

/// Dictionary order of two lists of sort columns.
pub open spec fn keys_lt(a: Seq<Text>, b: Seq<Text>) -> bool
    decreases a.len(),
{
    if b.len() == 0 {
        false
    } else if a.len() == 0 {
        true
    } else if a[0] != b[0] {
        text_lt(a[0], b[0])
    } else {
        keys_lt(a.drop_first(), b.drop_first())
    }
}

/// The sort columns of a vector of rows.
pub open spec fn key_rows(v: Seq<Vec<String>>) -> Seq<Seq<Text>> {
    v.map_values(|k: Vec<String>| text::texts(k@))
}

/// `order` with the row `n` put behind the last row that does not sort after it.
pub open spec fn insert_row(keys: Seq<Seq<Text>>, order: Seq<int>, n: int) -> Seq<int>
    decreases order.len(),
{
    if order.len() == 0 || !keys_lt(keys[n], keys[order.last()]) {
        order.push(n)
    } else {
        insert_row(keys, order.drop_last(), n).push(order.last())
    }
}

/// The first `n` rows in ascending order, equal rows in the order given.
pub open spec fn order_upto(keys: Seq<Seq<Text>>, n: nat) -> Seq<int>
    decreases n,
{
    if n == 0 {
        Seq::empty()
    } else {
        insert_row(keys, order_upto(keys, (n - 1) as nat), n - 1)
    }
}

/// All rows in ascending order, equal rows in the order given.
pub open spec fn order_of(keys: Seq<Seq<Text>>) -> Seq<int> {
    order_upto(keys, keys.len())
}

/// The elements of `s` at the places that `order` lists.
pub open spec fn pick<T>(s: Seq<T>, order: Seq<int>) -> Seq<T> {
    order.map_values(|i: int| s[i])
}

/// The places listed by a vector of indices.
pub open spec fn places(v: Seq<usize>) -> Seq<int> {
    v.map_values(|i: usize| i as int)
}

/// One sort column for each text.
pub open spec fn single_keys(s: Seq<Text>) -> Seq<Seq<Text>> {
    s.map_values(|t: Text| seq![t])
}

/// `s` in ascending order.
pub open spec fn sorted(s: Seq<Text>) -> Seq<Text> {
    pick(s, order_of(single_keys(s)))
}

/// `s` without the elements that repeat the one before them.
pub open spec fn dedup(s: Seq<Text>) -> Seq<Text>
    decreases s.len(),
{
    if s.len() == 0 {
        s
    } else {
        let head = dedup(s.drop_last());
        if head.len() > 0 && head.last() == s.last() {
            head
        } else {
            head.push(s.last())
        }
    }
}

/// The texts of `s` in ascending order, each once.
pub open spec fn sorted_set(s: Seq<Text>) -> Seq<Text> {
    dedup(sorted(s))
}

/// Whether `a` sorts before `b`.
pub fn str_lt(a: &str, b: &str) -> (r: bool)
    ensures
        r == text_lt(a@, b@),
{
    let x = a.as_bytes();
    let y = b.as_bytes();
    let mut i: usize = 0;
    assert(x@.skip(0) =~= x@);
    assert(y@.skip(0) =~= y@);
    while i < x.len() && i < y.len()
        invariant
            x@ == encode_utf8(a@),
            y@ == encode_utf8(b@),
            i <= x@.len(),
            i <= y@.len(),
            bytes_lt(x@, y@) == bytes_lt(x@.skip(i as int), y@.skip(i as int)),
        decreases x@.len() - i,
    {
        assert(x@.skip(i as int)[0] == x@[i as int]);
        assert(y@.skip(i as int)[0] == y@[i as int]);
        if x[i] != y[i] {
            return x[i] < y[i];
        }
        assert(x@.skip(i as int).drop_first() =~= x@.skip(i + 1));
        assert(y@.skip(i as int).drop_first() =~= y@.skip(i + 1));
        i = i + 1;
    }
    i < y.len()
}

proof fn lemma_bytes_irreflexive(x: Seq<u8>)
    ensures
        !bytes_lt(x, x),
    decreases x.len(),
{
    if x.len() > 0 {
        lemma_bytes_irreflexive(x.drop_first());
    }
}

proof fn lemma_bytes_total(x: Seq<u8>, y: Seq<u8>)
    ensures
        bytes_lt(x, y) || bytes_lt(y, x) || x == y,
    decreases x.len(),
{
    if x.len() > 0 && y.len() > 0 && x[0] == y[0] {
        lemma_bytes_total(x.drop_first(), y.drop_first());
        if x.drop_first() == y.drop_first() {
            assert(x =~= seq![x[0]] + x.drop_first());
            assert(y =~= seq![y[0]] + y.drop_first());
        }
    } else if x.len() == 0 && y.len() == 0 {
        assert(x =~= y);
    }
}

proof fn lemma_bytes_transitive(x: Seq<u8>, y: Seq<u8>, z: Seq<u8>)
    requires
        bytes_lt(x, y),
        bytes_lt(y, z),
    ensures
        bytes_lt(x, z),
    decreases x.len(),
{
    if x.len() > 0 && y.len() > 0 && z.len() > 0 && x[0] == y[0] && y[0] == z[0] {
        lemma_bytes_transitive(x.drop_first(), y.drop_first(), z.drop_first());
    }
}

/// No text sorts before itself.
pub proof fn lemma_text_irreflexive(a: Text)
    ensures
        !text_lt(a, a),
{
    lemma_bytes_irreflexive(encode_utf8(a));
}

/// Of two different texts one sorts before the other.
pub proof fn lemma_text_total(a: Text, b: Text)
    ensures
        text_lt(a, b) || text_lt(b, a) || a == b,
{
    lemma_bytes_total(encode_utf8(a), encode_utf8(b));
    text::lemma_bytes_identify_text(a, b);
}

/// The order of texts is transitive.
pub proof fn lemma_text_transitive(a: Text, b: Text, c: Text)
    requires
        text_lt(a, b),
        text_lt(b, c),
    ensures
        text_lt(a, c),
{
    lemma_bytes_transitive(encode_utf8(a), encode_utf8(b), encode_utf8(c));
}

proof fn lemma_keys_irreflexive(a: Seq<Text>)
    ensures
        !keys_lt(a, a),
    decreases a.len(),
{
    if a.len() > 0 {
        lemma_keys_irreflexive(a.drop_first());
    }
}

proof fn lemma_keys_total(a: Seq<Text>, b: Seq<Text>)
    ensures
        keys_lt(a, b) || keys_lt(b, a) || a == b,
    decreases a.len(),
{
    if a.len() > 0 && b.len() > 0 {
        if a[0] == b[0] {
            lemma_keys_total(a.drop_first(), b.drop_first());
            if a.drop_first() == b.drop_first() {
                assert(a =~= seq![a[0]] + a.drop_first());
                assert(b =~= seq![b[0]] + b.drop_first());
            }
        } else {
            lemma_text_total(a[0], b[0]);
        }
    } else if a.len() == 0 && b.len() == 0 {
        assert(a =~= b);
    }
}

proof fn lemma_keys_transitive(a: Seq<Text>, b: Seq<Text>, c: Seq<Text>)
    requires
        keys_lt(a, b),
        keys_lt(b, c),
    ensures
        keys_lt(a, c),
    decreases a.len(),
{
    if a.len() > 0 {
        if a[0] == b[0] && b[0] == c[0] {
            lemma_keys_transitive(a.drop_first(), b.drop_first(), c.drop_first());
        } else if a[0] != b[0] && b[0] != c[0] {
            lemma_text_transitive(a[0], b[0], c[0]);
            if a[0] == c[0] {
                lemma_text_irreflexive(a[0]);
            }
        }
    }
}

/// Whether the sort columns `a` come before the sort columns `b`.
pub fn columns_lt(a: &Vec<String>, b: &Vec<String>) -> (r: bool)
    ensures
        r == keys_lt(text::texts(a@), text::texts(b@)),
{
    let mut i: usize = 0;
    let ghost x = text::texts(a@);
    let ghost y = text::texts(b@);
    assert(x.skip(0) =~= x);
    assert(y.skip(0) =~= y);
    while i < a.len() && i < b.len()
        invariant
            x == text::texts(a@),
            y == text::texts(b@),
            i <= a@.len(),
            i <= b@.len(),
            keys_lt(x, y) == keys_lt(x.skip(i as int), y.skip(i as int)),
        decreases a@.len() - i,
    {
        assert(x.skip(i as int)[0] == a@[i as int]@);
        assert(y.skip(i as int)[0] == b@[i as int]@);
        if !(a[i] == b[i]) {
            return str_lt(a[i].as_str(), b[i].as_str());
        }
        assert(x.skip(i as int).drop_first() =~= x.skip(i + 1));
        assert(y.skip(i as int).drop_first() =~= y.skip(i + 1));
        i = i + 1;
    }
    i < b.len()
}

/// The order of the first `n` rows lists each of them once.
pub proof fn lemma_order_is_permutation(keys: Seq<Seq<Text>>, n: nat)
    ensures
        order_upto(keys, n).len() == n,
        forall|i: int| 0 <= i < n ==> 0 <= #[trigger] order_upto(keys, n)[i] < n,
        order_upto(keys, n).no_duplicates(),
    decreases n,
{
    if n > 0 {
        lemma_order_is_permutation(keys, (n - 1) as nat);
        lemma_insert_row_members(keys, order_upto(keys, (n - 1) as nat), n - 1);
    }
}

proof fn lemma_insert_row_members(keys: Seq<Seq<Text>>, order: Seq<int>, n: int)
    requires
        order.no_duplicates(),
        !order.contains(n),
    ensures
        insert_row(keys, order, n).len() == order.len() + 1,
        insert_row(keys, order, n).no_duplicates(),
        forall|i: int|
            0 <= i <= order.len() ==> #[trigger] insert_row(keys, order, n)[i] == n
                || order.contains(insert_row(keys, order, n)[i]),
    decreases order.len(),
{
    if order.len() == 0 || !keys_lt(keys[n], keys[order.last()]) {
        let r = order.push(n);
        assert forall|i: int| 0 <= i <= order.len() implies #[trigger] r[i] == n
            || order.contains(r[i]) by {
            if i < order.len() {
                assert(order[i] == r[i]);
            }
        }
        assert forall|i: int, j: int| 0 <= i < r.len() && 0 <= j < r.len() && i != j implies r[i]
            != r[j] by {
            if i < order.len() {
                assert(order.contains(order[i]));
            }
            if j < order.len() {
                assert(order.contains(order[j]));
            }
        }
    } else {
        let rest = order.drop_last();
        assert(!rest.contains(n)) by {
            if rest.contains(n) {
                let k = choose|k: int| 0 <= k < rest.len() && rest[k] == n;
                assert(order[k] == n);
            }
        }
        lemma_insert_row_members(keys, rest, n);
        let inner = insert_row(keys, rest, n);
        let r = inner.push(order.last());
        assert(order.contains(order.last()));
        assert forall|i: int| 0 <= i <= order.len() implies #[trigger] r[i] == n
            || order.contains(r[i]) by {
            if i < inner.len() {
                assert(inner[i] == r[i]);
                if rest.contains(inner[i]) {
                    let k = choose|k: int| 0 <= k < rest.len() && rest[k] == inner[i];
                    assert(order[k] == inner[i]);
                }
            }
        }
        assert forall|i: int, j: int| 0 <= i < r.len() && 0 <= j < r.len() && i != j implies r[i]
            != r[j] by {
            if i < inner.len() && j < inner.len() {
            } else {
                let m = if i < inner.len() {
                    i
                } else {
                    j
                };
                assert(inner[m] == n || rest.contains(inner[m]));
                if rest.contains(inner[m]) {
                    let k = choose|k: int| 0 <= k < rest.len() && rest[k] == inner[m];
                    assert(order[k] == inner[m]);
                    assert(order[order.len() - 1] == order.last());
                }
            }
        }
    }
}

/// The order in which rows with these sort columns are listed.
pub fn sort_order(keys: &Vec<Vec<String>>) -> (r: Vec<usize>)
    ensures
        places(r@) == order_of(key_rows(keys@)),
        r@.len() == keys@.len(),
        forall|i: int| 0 <= i < r@.len() ==> 0 <= #[trigger] r@[i] < keys@.len(),
{
    let ghost cols = key_rows(keys@);
    let mut order: Vec<usize> = Vec::new();
    let mut n: usize = 0;
    assert(places(order@) =~= order_upto(cols, 0));
    while n < keys.len()
        invariant
            cols == key_rows(keys@),
            n <= keys@.len(),
            order@.len() == n,
            places(order@) == order_upto(cols, n as nat),
        decreases keys@.len() - n,
    {
        let mut p: usize = order.len();
        proof {
            lemma_order_is_permutation(cols, n as nat);
            assert(places(order@).take(p as int) =~= places(order@));
            assert(places(order@).skip(p as int) =~= Seq::<int>::empty());
            assert(insert_row(cols, places(order@), n as int) =~= insert_row(
                cols,
                places(order@).take(p as int),
                n as int,
            ) + places(order@).skip(p as int));
        }
        let ghost full = places(order@);
        loop
            invariant
                cols == key_rows(keys@),
                n < keys@.len(),
                order@.len() == n,
                full == places(order@),
                forall|i: int| 0 <= i < n ==> 0 <= #[trigger] full[i] < n,
                p <= n,
                insert_row(cols, full, n as int) == insert_row(cols, full.take(p as int), n as int)
                    + full.skip(p as int),
            ensures
                p <= n,
                insert_row(cols, full, n as int) == full.take(p as int).push(n as int) + full.skip(
                    p as int,
                ),
            decreases p,
        {
            let ghost head = full.take(p as int);
            if p == 0 {
                break;
            }
            assert(head.last() == full[p - 1]);
            assert(full[p - 1] == order@[p - 1] as int);
            if !columns_lt(&keys[n], &keys[order[p - 1]]) {
                break;
            }
            assert(head.drop_last() =~= full.take(p - 1));
            assert(insert_row(cols, full.take(p - 1), n as int).push(head.last()) + full.skip(
                p as int,
            ) =~= insert_row(cols, full.take(p - 1), n as int) + full.skip(p - 1));
            p = p - 1;
        }
        order.insert(p, n);
        assert(places(order@) =~= full.take(p as int).push(n as int) + full.skip(p as int));
        n = n + 1;
    }
    proof {
        lemma_order_is_permutation(cols, n as nat);
        assert forall|i: int| 0 <= i < order@.len() implies 0 <= #[trigger] order@[i]
            < keys@.len() by {
            assert(places(order@)[i] == order@[i] as int);
        }
    }
    order
}

/// The texts of `v` in ascending order.
pub fn sort_strs(v: &Vec<String>) -> (r: Vec<String>)
    ensures
        text::texts(r@) == sorted(text::texts(v@)),
{
    let mut keys: Vec<Vec<String>> = Vec::new();
    let mut i: usize = 0;
    while i < v.len()
        invariant
            i <= v@.len(),
            keys@.len() == i,
            forall|j: int| 0 <= j < i ==> text::texts(#[trigger] keys@[j]@) == seq![v@[j]@],
        decreases v@.len() - i,
    {
        let mut key: Vec<String> = Vec::new();
        key.push(v[i].clone());
        assert(text::texts(key@) =~= seq![v@[i as int]@]);
        keys.push(key);
        i = i + 1;
    }
    let order = sort_order(&keys);
    let ghost all = text::texts(v@);
    assert(key_rows(keys@) =~= single_keys(all));
    let mut out: Vec<String> = Vec::new();
    let mut k: usize = 0;
    while k < order.len()
        invariant
            forall|j: int| 0 <= j < order@.len() ==> 0 <= #[trigger] order@[j] < v@.len(),
            k <= order@.len(),
            out@.len() == k,
            forall|j: int| 0 <= j < k ==> (#[trigger] out@[j])@ == v@[order@[j] as int]@,
        decreases order@.len() - k,
    {
        out.push(v[order[k]].clone());
        k = k + 1;
    }
    assert(text::texts(out@) =~= pick(all, places(order@)));
    out
}

/// The texts of `v` in ascending order, each once.
pub fn sort_dedup(v: &Vec<String>) -> (r: Vec<String>)
    ensures
        text::texts(r@) == sorted_set(text::texts(v@)),
{
    let ranked = sort_strs(v);
    let ghost all = text::texts(ranked@);
    let mut out: Vec<String> = Vec::new();
    let mut k: usize = 0;
    assert(all.take(0) =~= Seq::<Text>::empty());
    assert(text::texts(out@) =~= dedup(all.take(0)));
    while k < ranked.len()
        invariant
            all == text::texts(ranked@),
            k <= ranked@.len(),
            text::texts(out@) == dedup(all.take(k as int)),
        decreases ranked@.len() - k,
    {
        let t = &ranked[k];
        assert(all.take(k + 1).drop_last() =~= all.take(k as int));
        assert(all.take(k + 1).last() == t@);
        let n = out.len();
        let repeat = n > 0 && out[n - 1] == *t;
        if n > 0 {
            assert(text::texts(out@).last() == out@[n - 1]@);
        }
        if !repeat {
            let ghost before = text::texts(out@);
            out.push(t.clone());
            assert(text::texts(out@) =~= before.push(t@));
        }
        k = k + 1;
    }
    assert(all.take(k as int) =~= all);
    out
}

/// Whether an order lists rows so that keys ascend, and rows with one key keep
/// their places.
pub open spec fn ascends(keys: Seq<Seq<Text>>, order: Seq<int>) -> bool {
    forall|i: int, j: int|
        #![trigger order[i], order[j]]
        0 <= i < j < order.len() ==> keys_lt(keys[order[i]], keys[order[j]]) || keys[order[i]]
            == keys[order[j]] && order[i] < order[j]
}

proof fn lemma_insert_row_ascends(keys: Seq<Seq<Text>>, order: Seq<int>, n: int)
    requires
        ascends(keys, order),
        order.no_duplicates(),
        forall|i: int| 0 <= i < order.len() ==> #[trigger] order[i] < n,
    ensures
        ascends(keys, insert_row(keys, order, n)),
    decreases order.len(),
{
    let r = insert_row(keys, order, n);
    if order.contains(n) {
        let i = choose|i: int| 0 <= i < order.len() && order[i] == n;
        assert(order[i] < n);
    }
    if order.len() == 0 || !keys_lt(keys[n], keys[order.last()]) {
        assert forall|i: int, j: int|
            #![trigger r[i], r[j]]
            0 <= i < j < r.len() implies keys_lt(keys[r[i]], keys[r[j]]) || keys[r[i]]
            == keys[r[j]] && r[i] < r[j] by {
            if j < order.len() {
                assert(r[i] == order[i] && r[j] == order[j]);
            } else {
                let last = order[order.len() - 1];
                assert(r[i] == order[i]);
                lemma_keys_total(keys[last], keys[n]);
                if i < order.len() - 1 {
                    if keys_lt(keys[order[i]], keys[last]) && keys_lt(keys[last], keys[n]) {
                        lemma_keys_transitive(keys[order[i]], keys[last], keys[n]);
                    }
                }
            }
        }
    } else {
        let head = order.drop_last();
        let last = order.last();
        assert forall|i: int, j: int|
            #![trigger head[i], head[j]]
            0 <= i < j < head.len() implies keys_lt(keys[head[i]], keys[head[j]])
            || keys[head[i]] == keys[head[j]] && head[i] < head[j] by {
            assert(head[i] == order[i] && head[j] == order[j]);
        }
        assert(head.no_duplicates());
        assert forall|i: int| 0 <= i < head.len() implies #[trigger] head[i] < n by {
            assert(head[i] == order[i]);
        }
        assert(!head.contains(n)) by {
            if head.contains(n) {
                let i = choose|i: int| 0 <= i < head.len() && head[i] == n;
                assert(order[i] == n);
            }
        }
        lemma_insert_row_ascends(keys, head, n);
        lemma_insert_row_members(keys, head, n);
        let g = insert_row(keys, head, n);
        assert forall|i: int, j: int|
            #![trigger r[i], r[j]]
            0 <= i < j < r.len() implies keys_lt(keys[r[i]], keys[r[j]]) || keys[r[i]]
            == keys[r[j]] && r[i] < r[j] by {
            assert(r[i] == g[i]);
            if j < g.len() {
                assert(r[j] == g[j]);
            } else if g[i] != n {
                assert(head.contains(g[i]));
                let a = choose|a: int| 0 <= a < head.len() && head[a] == g[i];
                assert(order[a] == g[i] && order[order.len() - 1] == last);
            }
        }
    }
}

proof fn lemma_order_ascends(keys: Seq<Seq<Text>>, n: nat)
    ensures
        ascends(keys, order_upto(keys, n)),
    decreases n,
{
    if n > 0 {
        lemma_order_ascends(keys, (n - 1) as nat);
        lemma_order_is_permutation(keys, (n - 1) as nat);
        lemma_insert_row_ascends(keys, order_upto(keys, (n - 1) as nat), n - 1);
    }
}

/// Sorting lists every row once, in ascending order of the keys, and rows with
/// one key in the order they had.
pub proof fn law_sorting_is_stable(keys: Seq<Seq<Text>>)
    ensures
        order_of(keys).len() == keys.len(),
        order_of(keys).no_duplicates(),
        forall|i: int| 0 <= i < keys.len() ==> 0 <= #[trigger] order_of(keys)[i] < keys.len(),
        ascends(keys, order_of(keys)),
{
    lemma_order_is_permutation(keys, keys.len());
    lemma_order_ascends(keys, keys.len());
}

/// Whether each text is greater than those before it.
pub open spec fn strictly_ascends(s: Seq<Text>) -> bool {
    forall|i: int, j: int| 0 <= i < j < s.len() ==> text_lt(#[trigger] s[i], #[trigger] s[j])
}

/// Texts have one ascending order.
pub proof fn lemma_ascending_is_unique(a: Seq<Text>, b: Seq<Text>)
    requires
        strictly_ascends(a),
        strictly_ascends(b),
        forall|t: Text| a.contains(t) <==> b.contains(t),
    ensures
        a == b,
    decreases a.len(),
{
    if a.len() == 0 {
        if b.len() > 0 {
            assert(b.contains(b[0]));
            assert(a.contains(b[0]));
        }
        assert(a =~= b);
    } else {
        let x = a.last();
        assert(a[a.len() - 1] == x);
        assert(a.contains(x));
        assert(b.contains(x));
        let y = b.last();
        assert(b[b.len() - 1] == y);
        assert(b.contains(y));
        assert(a.contains(y));
        if x != y {
            let i = choose|i: int| 0 <= i < a.len() && a[i] == y;
            assert(text_lt(a[i], a[a.len() - 1]));
            let j = choose|j: int| 0 <= j < b.len() && b[j] == x;
            assert(text_lt(b[j], b[b.len() - 1]));
            lemma_text_transitive(x, y, x);
            lemma_text_irreflexive(x);
        }
        let p = a.drop_last();
        let q = b.drop_last();
        assert forall|i: int, j: int| 0 <= i < j < p.len() implies text_lt(
            #[trigger] p[i],
            #[trigger] p[j],
        ) by {
            assert(text_lt(a[i], a[j]));
        }
        assert forall|i: int, j: int| 0 <= i < j < q.len() implies text_lt(
            #[trigger] q[i],
            #[trigger] q[j],
        ) by {
            assert(text_lt(b[i], b[j]));
        }
        assert forall|t: Text| p.contains(t) <==> q.contains(t) by {
            lemma_without_last(a, t);
            lemma_without_last(b, t);
        }
        lemma_ascending_is_unique(p, q);
        assert(a =~= p.push(x));
        assert(b =~= q.push(y));
    }
}

proof fn lemma_without_last(s: Seq<Text>, t: Text)
    requires
        strictly_ascends(s),
        s.len() > 0,
    ensures
        s.drop_last().contains(t) <==> s.contains(t) && t != s.last(),
{
    let head = s.drop_last();
    if head.contains(t) {
        let i = choose|i: int| 0 <= i < head.len() && head[i] == t;
        assert(s[i] == t);
        assert(text_lt(s[i], s[s.len() - 1]));
        if t == s.last() {
            lemma_text_irreflexive(t);
        }
    }
    if s.contains(t) && t != s.last() {
        let i = choose|i: int| 0 <= i < s.len() && s[i] == t;
        assert(head[i] == t);
    }
}

proof fn lemma_insert_row_covers(keys: Seq<Seq<Text>>, order: Seq<int>, n: int, i: int)
    requires
        i == n || order.contains(i),
    ensures
        insert_row(keys, order, n).contains(i),
    decreases order.len(),
{
    let r = insert_row(keys, order, n);
    if order.len() == 0 || !keys_lt(keys[n], keys[order.last()]) {
        if i == n {
            assert(r[order.len() as int] == i);
        } else {
            let a = choose|a: int| 0 <= a < order.len() && order[a] == i;
            assert(r[a] == i);
        }
    } else {
        let head = order.drop_last();
        let g = insert_row(keys, head, n);
        if i != n && i == order.last() {
            assert(r[g.len() as int] == i);
        } else {
            if i != n {
                let a = choose|a: int| 0 <= a < order.len() && order[a] == i;
                assert(head[a] == i);
            }
            lemma_insert_row_covers(keys, head, n, i);
            let a = choose|a: int| 0 <= a < g.len() && g[a] == i;
            assert(r[a] == i);
        }
    }
}

/// The order lists every row.
pub proof fn lemma_order_covers(keys: Seq<Seq<Text>>, n: nat, i: int)
    requires
        0 <= i < n,
    ensures
        order_upto(keys, n).contains(i),
    decreases n,
{
    let before = order_upto(keys, (n - 1) as nat);
    if i < n - 1 {
        lemma_order_covers(keys, (n - 1) as nat, i);
    }
    lemma_insert_row_covers(keys, before, n - 1, i);
}

/// Sorting keeps the texts, and puts none before a smaller one.
pub proof fn lemma_sorted(s: Seq<Text>, t: Text)
    ensures
        sorted(s).contains(t) <==> s.contains(t),
        forall|i: int, j: int|
            0 <= i < j < sorted(s).len() ==> text_lt(
                #[trigger] sorted(s)[i],
                #[trigger] sorted(s)[j],
            ) || sorted(s)[i] == sorted(s)[j],
{
    let keys = single_keys(s);
    let order = order_of(keys);
    let r = sorted(s);
    law_sorting_is_stable(keys);
    if r.contains(t) {
        let i = choose|i: int| 0 <= i < r.len() && r[i] == t;
        assert(s[order[i]] == t);
    }
    if s.contains(t) {
        let i = choose|i: int| 0 <= i < s.len() && s[i] == t;
        lemma_order_covers(keys, keys.len(), i);
        let a = choose|a: int| 0 <= a < order.len() && order[a] == i;
        assert(r[a] == t);
    }
    assert forall|i: int, j: int| 0 <= i < j < r.len() implies text_lt(
        #[trigger] r[i],
        #[trigger] r[j],
    ) || r[i] == r[j] by {
        let x = keys[order[i]];
        let y = keys[order[j]];
        assert(x == seq![r[i]] && y == seq![r[j]]);
        assert(x[0] == r[i] && y[0] == r[j]);
        if x != y {
            assert(keys_lt(x, y));
            assert(x.drop_first() =~= Seq::<Text>::empty());
            assert(y.drop_first() =~= Seq::<Text>::empty());
            assert(!keys_lt(x.drop_first(), y.drop_first()));
        }
    }
}

proof fn lemma_dedup(s: Seq<Text>, t: Text)
    requires
        forall|i: int, j: int|
            0 <= i < j < s.len() ==> text_lt(#[trigger] s[i], #[trigger] s[j]) || s[i] == s[j],
    ensures
        strictly_ascends(dedup(s)),
        dedup(s).contains(t) <==> s.contains(t),
        s.len() > 0 ==> dedup(s).len() > 0 && dedup(s).last() == s.last(),
    decreases s.len(),
{
    if s.len() > 0 {
        let front = s.drop_last();
        assert forall|i: int, j: int| 0 <= i < j < front.len() implies text_lt(
            #[trigger] front[i],
            #[trigger] front[j],
        ) || front[i] == front[j] by {
            assert(text_lt(s[i], s[j]) || s[i] == s[j]);
        }
        lemma_dedup(front, t);
        let head = dedup(front);
        let d = dedup(s);
        let last = s.last();
        if head.len() > 0 && head.last() == last {
        } else {
            assert forall|i: int, j: int| 0 <= i < j < d.len() implies text_lt(
                #[trigger] d[i],
                #[trigger] d[j],
            ) by {
                if j < head.len() {
                    assert(text_lt(head[i], head[j]));
                } else {
                    assert(front.len() > 0);
                    assert(s[front.len() - 1] == head.last() && s[s.len() - 1] == last);
                    assert(text_lt(head.last(), last));
                    if i < head.len() - 1 {
                        assert(text_lt(head[i], head[head.len() - 1]));
                        lemma_text_transitive(head[i], head.last(), last);
                    }
                }
            }
        }
        if d.contains(t) {
            let i = choose|i: int| 0 <= i < d.len() && d[i] == t;
            if i < head.len() {
                assert(head[i] == t);
                assert(head.contains(t));
                let a = choose|a: int| 0 <= a < front.len() && front[a] == t;
                assert(s[a] == t);
            } else {
                assert(s[s.len() - 1] == t);
            }
        }
        if s.contains(t) {
            let i = choose|i: int| 0 <= i < s.len() && s[i] == t;
            if i < front.len() {
                assert(front[i] == t);
                assert(front.contains(t));
                assert(head.contains(t));
                let a = choose|a: int| 0 <= a < head.len() && head[a] == t;
                assert(d[a] == t);
            } else {
                assert(d[d.len() - 1] == t);
            }
        }
    }
}

/// Sorting with repeats dropped yields the same texts, each once, in ascending
/// order.
pub proof fn law_sorted_set(s: Seq<Text>)
    ensures
        strictly_ascends(sorted_set(s)),
        forall|t: Text| sorted_set(s).contains(t) <==> s.contains(t),
{
    lemma_sorted(s, Seq::empty());
    lemma_dedup(sorted(s), Seq::empty());
    assert forall|t: Text| sorted_set(s).contains(t) <==> s.contains(t) by {
        lemma_sorted(s, t);
        lemma_dedup(sorted(s), t);
    }
}

/// Texts that are all one make a set of one.
pub proof fn lemma_one_text(s: Seq<Text>, t: Text)
    requires
        forall|i: int| 0 <= i < s.len() ==> #[trigger] s[i] == t,
    ensures
        sorted_set(s).len() == (if s.len() == 0 {
            0nat
        } else {
            1nat
        }),
        s.len() > 0 ==> sorted_set(s)[0] == t,
{
    let r = sorted_set(s);
    law_sorted_set(s);
    if s.len() > 0 {
        assert(s[0] == t);
        assert(s.contains(t));
        assert(r.contains(t));
    }
    assert forall|i: int| 0 <= i < r.len() implies #[trigger] r[i] == t by {
        assert(r.contains(r[i]));
        assert(s.contains(r[i]));
    }
    if r.len() > 1 {
        assert(text_lt(r[0], r[1]));
        lemma_text_irreflexive(t);
    }
}

proof fn lemma_bytes_by_first_difference(x: Seq<u8>, y: Seq<u8>, k: int)
    requires
        0 <= k <= x.len(),
        k < y.len(),
        forall|i: int| 0 <= i < k ==> x[i] == y[i],
        k < x.len() ==> x[k] < y[k],
    ensures
        bytes_lt(x, y),
        !bytes_lt(y, x),
    decreases k,
{
    if k > 0 {
        lemma_bytes_by_first_difference(x.drop_first(), y.drop_first(), k - 1);
    }
}

/// Texts sort as their UTF-8 bytes do: by the first byte in which they differ, and a
/// text before everything that it begins.
pub proof fn law_texts_sort_by_bytes(a: Text, b: Text, k: int)
    requires
        0 <= k <= encode_utf8(a).len(),
        k < encode_utf8(b).len(),
        forall|i: int| 0 <= i < k ==> encode_utf8(a)[i] == encode_utf8(b)[i],
        k < encode_utf8(a).len() ==> encode_utf8(a)[k] < encode_utf8(b)[k],
    ensures
        text_lt(a, b),
        !text_lt(b, a),
{
    lemma_bytes_by_first_difference(encode_utf8(a), encode_utf8(b), k);
}

/// What is local sorts before what is remote.
pub proof fn lemma_local_before_remote()
    ensures
        text_lt("local"@, "remote"@),
        !text_lt("remote"@, "local"@),
        "local"@ != "remote"@,
{
    reveal_strlit("local");
    reveal_strlit("remote");
    is_ascii_chars_encode_utf8("local"@);
    is_ascii_chars_encode_utf8("remote"@);
    assert("local"@[0] == 'l' && "remote"@[0] == 'r');
    law_texts_sort_by_bytes("local"@, "remote"@, 0);
}

} // verus!
