//! Project ids: the implicit id that a path has of its own, the ids minted for
//! registered projects, and the namespace kept for the implicit ones.
use vstd::prelude::*;
use vstd::string::*;
use vstd::utf8::*;

use crate::text::{cat, chars_of, push_bytes, split_str, starts_with, Text};
use crate::{json, text};

verus! {

/// The 32-byte BLAKE3 digest of `input`.
pub uninterp spec fn blake3_digest(input: Seq<u8>) -> Seq<u8>;

/// `blake3::Hasher`: the digest of the bytes it was updated with.
#[verifier::external_body]
pub(crate) fn digest(input: &[u8]) -> (r: [u8; 32])
    ensures
        r@ == blake3_digest(input@),
{
    let mut hasher = blake3::Hasher::new();
    hasher.update(input);
    *hasher.finalize().as_bytes()
}

/// The lower-case hexadecimal digit for a value below sixteen.
pub open spec fn hex_digit(d: nat) -> char {
    if d < 10 {
        json::digit(d)
    } else if d == 10 {
        'a'
    } else if d == 11 {
        'b'
    } else if d == 12 {
        'c'
    } else if d == 13 {
        'd'
    } else if d == 14 {
        'e'
    } else {
        'f'
    }
}

/// Bytes in lower-case hexadecimal.
pub open spec fn hex(bytes: Seq<u8>) -> Text
    decreases bytes.len(),
{
    if bytes.len() == 0 {
        Seq::empty()
    } else {
        hex(bytes.drop_last()).push(hex_digit((bytes.last() / 16) as nat)).push(
            hex_digit((bytes.last() % 16) as nat),
        )
    }
}

/// The first eight bytes in lower-case hexadecimal.
pub open spec fn short_hex(bytes: Seq<u8>) -> Text {
    hex(bytes.take(if bytes.len() < 8 { bytes.len() as int } else { 8 }))
}

/// The id that the canonical path has without being registered.
pub open spec fn implicit_id(path: Text) -> Text {
    "pj-implicit1-"@ + short_hex(blake3_digest(encode_utf8(path)))
}

/// The bytes of the roots, each behind a zero byte.
pub open spec fn roots_bytes(roots: Seq<Text>) -> Seq<u8>
    decreases roots.len(),
{
    if roots.len() == 0 {
        Seq::empty()
    } else {
        roots_bytes(roots.drop_last()) + seq![0u8] + encode_utf8(roots.last())
    }
}

/// The id minted in a domain for a name and its roots.
pub open spec fn minted_id(domain: Text, name: Text, roots: Seq<Text>) -> Text {
    "pj-"@ + short_hex(
        blake3_digest(encode_utf8(domain) + seq![58u8] + encode_utf8(name) + roots_bytes(roots)),
    )
}

/// The id minted for an imported identity.
pub open spec fn seeded_id(identity: Text) -> Text {
    "pj-"@ + short_hex(blake3_digest(encode_utf8("seed1:"@) + encode_utf8(identity)))
}

/// Whether every character is a decimal digit.
pub open spec fn all_digits(s: Text) -> bool {
    forall|i: int| 0 <= i < s.len() ==> '0' <= #[trigger] s[i] <= '9'
}

/// Whether an id lies in the namespace kept for implicit ids: `pj-implicit`, a
/// version of one digit or more, and a hyphen.
pub open spec fn is_reserved(id: Text) -> bool {
    text::begins_with(id, "pj-implicit"@) && {
        let pieces = text::split(id.skip("pj-implicit"@.len() as int), '-');
        pieces.len() > 1 && pieces[0].len() > 0 && all_digits(pieces[0])
    }
}

/// Appends a hexadecimal digit.
pub fn push_hex(out: &mut String, d: u8)
    requires
        d < 16,
    ensures
        final(out)@ == old(out)@.push(hex_digit(d as nat)),
{
    proof {
        reveal_strlit("0");
        reveal_strlit("1");
        reveal_strlit("2");
        reveal_strlit("3");
        reveal_strlit("4");
        reveal_strlit("5");
        reveal_strlit("6");
        reveal_strlit("7");
        reveal_strlit("8");
        reveal_strlit("9");
        reveal_strlit("a");
        reveal_strlit("b");
        reveal_strlit("c");
        reveal_strlit("d");
        reveal_strlit("e");
        reveal_strlit("f");
    }
    let s = match d {
        0 => "0",
        1 => "1",
        2 => "2",
        3 => "3",
        4 => "4",
        5 => "5",
        6 => "6",
        7 => "7",
        8 => "8",
        9 => "9",
        10 => "a",
        11 => "b",
        12 => "c",
        13 => "d",
        14 => "e",
        _ => "f",
    };
    assert(s@ =~= seq![hex_digit(d as nat)]);
    out.append(s);
    assert(out@ =~= old(out)@.push(hex_digit(d as nat)));
}

/// The first eight bytes in lower-case hexadecimal.
pub fn hex_prefix(bytes: &[u8]) -> (r: String)
    ensures
        r@ == short_hex(bytes@),
{
    let mut out = String::new();
    let n: usize = if bytes.len() < 8 {
        bytes.len()
    } else {
        8
    };
    let mut i: usize = 0;
    assert(bytes@.take(0) =~= Seq::<u8>::empty());
    while i < n
        invariant
            i <= n <= bytes@.len(),
            out@ == hex(bytes@.take(i as int)),
        decreases n - i,
    {
        let b = bytes[i];
        assert(bytes@.take(i + 1).drop_last() =~= bytes@.take(i as int));
        assert(bytes@.take(i + 1).last() == b);
        push_hex(&mut out, b / 16);
        push_hex(&mut out, b % 16);
        i = i + 1;
    }
    out
}

proof fn lemma_hex_length(bytes: Seq<u8>)
    ensures
        hex(bytes).len() == 2 * bytes.len(),
    decreases bytes.len(),
{
    if bytes.len() > 0 {
        lemma_hex_length(bytes.drop_last());
    }
}

/// Derives the implicit id of a canonical path from its UTF-8 bytes.
pub fn implicit_project_id(canonical_path: &str) -> (r: String)
    ensures
        r@ == implicit_id(canonical_path@),
        r@.len() == 29,
{
    let hash = digest(canonical_path.as_bytes());
    proof {
        reveal_strlit("pj-implicit1-");
        lemma_hex_length(hash@.take(8));
    }
    cat("pj-implicit1-", hex_prefix(&hash).as_str())
}

/// Mints the id of a project from its name and roots.
pub fn mint(domain: &str, name: &str, roots: &Vec<String>) -> (r: String)
    ensures
        r@ == minted_id(domain@, name@, text::texts(roots@)),
        r@.len() == 19,
{
    let mut input: Vec<u8> = Vec::new();
    push_bytes(&mut input, domain);
    input.push(58);
    push_bytes(&mut input, name);
    let ghost head = encode_utf8(domain@) + seq![58u8] + encode_utf8(name@);
    assert(input@ =~= head);
    let ghost all = text::texts(roots@);
    let mut i: usize = 0;
    assert(all.take(0) =~= Seq::<Text>::empty());
    assert(input@ =~= head + roots_bytes(all.take(0)));
    while i < roots.len()
        invariant
            all == text::texts(roots@),
            i <= roots@.len(),
            input@ == head + roots_bytes(all.take(i as int)),
        decreases roots@.len() - i,
    {
        assert(all.take(i + 1).drop_last() =~= all.take(i as int));
        assert(all.take(i + 1).last() == roots@[i as int]@);
        input.push(0);
        push_bytes(&mut input, roots[i].as_str());
        i = i + 1;
        assert(input@ =~= head + roots_bytes(all.take(i as int)));
    }
    assert(all.take(i as int) =~= all);
    let hash = digest(input.as_slice());
    proof {
        reveal_strlit("pj-");
        lemma_hex_length(hash@.take(8));
    }
    cat("pj-", hex_prefix(&hash).as_str())
}

/// Mints the id of an imported identity.
pub fn seed_id(identity: &str) -> (r: String)
    ensures
        r@ == seeded_id(identity@),
        r@.len() == 19,
{
    let mut input: Vec<u8> = Vec::new();
    push_bytes(&mut input, "seed1:");
    push_bytes(&mut input, identity);
    assert(input@ =~= encode_utf8("seed1:"@) + encode_utf8(identity@));
    let hash = digest(input.as_slice());
    proof {
        reveal_strlit("pj-");
        lemma_hex_length(hash@.take(8));
    }
    cat("pj-", hex_prefix(&hash).as_str())
}

/// Whether an id lies in the namespace kept for implicit ids.
pub fn reserved(id: &str) -> (r: bool)
    ensures
        r == is_reserved(id@),
{
    if !starts_with(id, "pj-implicit") {
        return false;
    }
    proof {
        reveal_strlit("pj-implicit");
    }
    let n = id.unicode_len();
    let rest = id.substring_char(11, n);
    assert(rest@ =~= id@.skip("pj-implicit"@.len() as int));
    let pieces = split_str(rest, '-');
    let ghost all = text::split(rest@, '-');
    if pieces.len() < 2 {
        return false;
    }
    assert(all[0] == pieces@[0]@);
    let version = chars_of(pieces[0].as_str());
    if version.len() == 0 {
        return false;
    }
    let mut i: usize = 0;
    while i < version.len()
        invariant
            version@ == all[0],
            is_reserved(id@) == all_digits(version@),
            i <= version@.len(),
            forall|j: int| 0 <= j < i ==> '0' <= #[trigger] version@[j] <= '9',
        decreases version@.len() - i,
    {
        if version[i] < '0' || version[i] > '9' {
            return false;
        }
        i = i + 1;
    }
    true
}

proof fn lemma_split_head(a: Text, b: Text, sep: char)
    requires
        !a.contains(sep),
    ensures
        text::split(a + seq![sep] + b, sep).len() > 1,
        text::split(a + seq![sep] + b, sep)[0] == a,
    decreases b.len(),
{
    let s = a + seq![sep] + b;
    if b.len() == 0 {
        assert(s.drop_last() =~= a);
        assert(s.last() == sep);
        lemma_split_whole(a, sep);
    } else {
        assert(s.drop_last() =~= a + seq![sep] + b.drop_last());
        lemma_split_head(a, b.drop_last(), sep);
    }
}

proof fn lemma_split_whole(a: Text, sep: char)
    requires
        !a.contains(sep),
    ensures
        text::split(a, sep) == seq![a],
    decreases a.len(),
{
    if a.len() > 0 {
        assert(a[a.len() - 1] == a.last());
        assert(!a.drop_last().contains(sep)) by {
            if a.drop_last().contains(sep) {
                let i = choose|i: int| 0 <= i < a.drop_last().len() && a.drop_last()[i] == sep;
                assert(a[i] == sep);
            }
        }
        lemma_split_whole(a.drop_last(), sep);
        assert(a.drop_last().push(a.last()) =~= a);
        assert(text::split(a, sep) =~= seq![a]);
    }
}

proof fn lemma_hex_chars(bytes: Seq<u8>)
    ensures
        hex(bytes).len() == 2 * bytes.len(),
        forall|i: int| 0 <= i < hex(bytes).len() ==> #[trigger] hex(bytes)[i] != 'i',
    decreases bytes.len(),
{
    if bytes.len() > 0 {
        lemma_hex_chars(bytes.drop_last());
    }
}

/// Every implicit id lies in the reserved namespace, so no registration can
/// claim it.
pub proof fn law_implicit_ids_are_reserved(path: Text)
    ensures
        is_reserved(implicit_id(path)),
{
    reveal_strlit("pj-implicit1-");
    reveal_strlit("pj-implicit");
    let tail = short_hex(blake3_digest(encode_utf8(path)));
    let id = implicit_id(path);
    assert(id.take(11) =~= "pj-implicit"@);
    assert(id.skip(11) =~= seq!['1'] + seq!['-'] + tail);
    lemma_split_head(seq!['1'], tail, '-');
}

/// No minted id lies in the reserved namespace: a registered project is never
/// taken for an implicit one.
pub proof fn law_minted_ids_are_not_reserved(domain: Text, name: Text, roots: Seq<Text>)
    ensures
        !is_reserved(minted_id(domain, name, roots)),
{
    lemma_plain_id(encode_utf8(domain) + seq![58u8] + encode_utf8(name) + roots_bytes(roots));
}

/// No id minted for an import lies in the reserved namespace.
pub proof fn law_seeded_ids_are_not_reserved(identity: Text)
    ensures
        !is_reserved(seeded_id(identity)),
{
    lemma_plain_id(encode_utf8("seed1:"@) + encode_utf8(identity));
}

proof fn lemma_plain_id(input: Seq<u8>)
    ensures
        !text::begins_with("pj-"@ + short_hex(blake3_digest(input)), "pj-implicit"@),
{
    reveal_strlit("pj-");
    reveal_strlit("pj-implicit");
    let d = blake3_digest(input);
    let tail = d.take(if d.len() < 8 { d.len() as int } else { 8 });
    let id = "pj-"@ + hex(tail);
    lemma_hex_chars(tail);
    if text::begins_with(id, "pj-implicit"@) {
        assert(id.take(11)[3] == "pj-implicit"@[3]);
        assert(id[3] == hex(tail)[0]);
    }
}

/// An id is reserved exactly where it is `pj-implicit`, then decimal digits, at least one,
/// and then a hyphen, whatever follows.
pub proof fn law_reserved_ids(id: Text)
    ensures
        is_reserved(id) <==> exists|k: int|
            11 < k < id.len() && #[trigger] id[k] == '-' && id.take(11) == "pj-implicit"@
                && all_digits(id.subrange(11, k)),
{
    reveal_strlit("pj-implicit");
    assert("pj-implicit"@.len() == 11);
    if id.len() >= 11 {
        let rest = id.skip(11);
        if rest.contains('-') {
            let j = lemma_first(rest, '-');
            let head = rest.take(j);
            assert(rest =~= head + seq!['-'] + rest.skip(j + 1));
            lemma_split_head(head, rest.skip(j + 1), '-');
            assert(id.subrange(11, 11 + j) =~= head);
            assert(id[11 + j] == '-');
            if exists|k: int|
                11 < k < id.len() && #[trigger] id[k] == '-' && all_digits(id.subrange(11, k)) {
                let k = choose|k: int|
                    11 < k < id.len() && #[trigger] id[k] == '-' && all_digits(id.subrange(11, k));
                assert(rest[k - 11] == '-');
                if j < k - 11 {
                    assert(id.subrange(11, k)[j] == '-');
                }
                assert(j == k - 11);
            }
        } else {
            lemma_split_whole(rest, '-');
            assert forall|k: int| 11 < k < id.len() implies #[trigger] id[k] != '-' by {
                assert(rest[k - 11] == id[k]);
            }
        }
    }
}

proof fn lemma_first(s: Text, c: char) -> (j: int)
    requires
        s.contains(c),
    ensures
        0 <= j < s.len(),
        s[j] == c,
        !s.take(j).contains(c),
    decreases s.len(),
{
    let head = s.drop_last();
    if head.contains(c) {
        let j = lemma_first(head, c);
        assert(s.take(j) =~= head.take(j));
        j
    } else {
        let i = choose|i: int| 0 <= i < s.len() && s[i] == c;
        if i < s.len() - 1 {
            assert(head[i] == c);
        }
        assert(s.take(s.len() - 1) =~= head);
        s.len() - 1
    }
}

} // verus!
