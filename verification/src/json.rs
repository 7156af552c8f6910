//! JSON values as `serde_json` holds, prints and reads them.
use vstd::prelude::*;
use vstd::string::*;
use vstd::utf8::*;

use crate::text::{str_eq, Text};
use crate::{order, text};

verus! {

/// What a JSON value is. A number is known by its digits; an object has each
/// key once and no order.
pub enum Json {
    Null,
    Bool(bool),
    Number(Text),
    Str(Text),
    Array(Seq<Json>),
    Object(Map<Text, Json>),
}

/// One named field of an object.
pub type Field = (Text, Json);

/// The object with these fields; of two with one name the later counts.
pub open spec fn fields_map(fields: Seq<Field>) -> Map<Text, Json>
    decreases fields.len(),
{
    if fields.len() == 0 {
        Map::empty()
    } else {
        fields_map(fields.drop_last()).insert(fields.last().0, fields.last().1)
    }
}

/// The object with these fields.
pub open spec fn object(fields: Seq<Field>) -> Json {
    Json::Object(fields_map(fields))
}

/// The array of these texts.
pub open spec fn text_array(items: Seq<Text>) -> Json {
    Json::Array(items.map_values(|t: Text| Json::Str(t)))
}

/// A text, or null where there is none.
pub open spec fn opt_str(o: Option<Text>) -> Json {
    match o {
        Some(t) => Json::Str(t),
        None => Json::Null,
    }
}

/// The digit for a value below ten.
pub open spec fn digit(d: nat) -> char {
    if d == 0 {
        '0'
    } else if d == 1 {
        '1'
    } else if d == 2 {
        '2'
    } else if d == 3 {
        '3'
    } else if d == 4 {
        '4'
    } else if d == 5 {
        '5'
    } else if d == 6 {
        '6'
    } else if d == 7 {
        '7'
    } else if d == 8 {
        '8'
    } else {
        '9'
    }
}

/// A natural number in decimal.
pub open spec fn digits(n: nat) -> Text
    decreases n,
{
    if n < 10 {
        seq![digit(n)]
    } else {
        digits(n / 10).push(digit(n % 10))
    }
}

/// An integer in decimal.
pub open spec fn decimal(i: int) -> Text {
    if i < 0 {
        seq!['-'] + digits((-i) as nat)
    } else {
        digits(i as nat)
    }
}

/// The number `i`.
pub open spec fn int_json(i: int) -> Json {
    Json::Number(decimal(i))
}

proof fn lemma_digits_injective(a: nat, b: nat)
    requires
        digits(a) == digits(b),
    ensures
        a == b,
    decreases a,
{
    let x = digits(a);
    let y = digits(b);
    assert(x.last() == digit(a % 10));
    assert(y.last() == digit(b % 10));
    assert(a % 10 == b % 10);
    if a < 10 {
        assert(x.len() == 1);
        if b >= 10 {
            lemma_digits_nonempty(b / 10);
            assert(y.len() >= 2);
        }
    } else if b < 10 {
        lemma_digits_nonempty(a / 10);
        assert(x.len() >= 2);
    } else {
        assert(x.drop_last() =~= digits(a / 10));
        assert(y.drop_last() =~= digits(b / 10));
        lemma_digits_injective(a / 10, b / 10);
    }
}

proof fn lemma_digits_nonempty(n: nat)
    ensures
        digits(n).len() > 0,
        digits(n)[0] != '-',
    decreases n,
{
    if n >= 10 {
        lemma_digits_nonempty(n / 10);
    }
}

/// Two integers with one decimal form are one.
pub proof fn lemma_decimal_injective(a: int, b: int)
    requires
        int_json(a) == int_json(b),
    ensures
        a == b,
{
    let x = decimal(a);
    let y = decimal(b);
    assert(x == y);
    if a < 0 {
        assert(x[0] == '-');
        if b < 0 {
            assert(x.skip(1) =~= digits((-a) as nat));
            assert(y.skip(1) =~= digits((-b) as nat));
            lemma_digits_injective((-a) as nat, (-b) as nat);
        } else {
            lemma_digits_nonempty(b as nat);
        }
    } else if b < 0 {
        assert(y[0] == '-');
        lemma_digits_nonempty(a as nat);
    } else {
        lemma_digits_injective(a as nat, b as nat);
    }
}

impl Json {
    /// The value under a key; null where this is no object or has no such key.
    pub open spec fn at(self, key: Text) -> Json {
        match self {
            Json::Object(m) => if m.contains_key(key) {
                m[key]
            } else {
                Json::Null
            },
            _ => Json::Null,
        }
    }
}

/// Whether a value is nested no deeper than `depth`, and its numbers are
/// integers that fit.
pub open spec fn plain(v: Json, depth: nat) -> bool
    decreases depth,
{
    match v {
        Json::Number(t) => exists|i: i64| t == #[trigger] decimal(i as int),
        Json::Array(items) => depth > 0 && forall|i: int|
            0 <= i < items.len() ==> plain(#[trigger] items[i], (depth - 1) as nat),
        Json::Object(m) => depth > 0 && forall|key: Text|
            m.contains_key(key) ==> plain(#[trigger] m[key], (depth - 1) as nat),
        _ => true,
    }
}

/// What is nested no deeper than one bound is nested no deeper than a larger one.
pub proof fn lemma_plain_deeper(v: Json, a: nat, b: nat)
    requires
        plain(v, a),
        a <= b,
    ensures
        plain(v, b),
    decreases a,
{
    match v {
        Json::Array(items) => {
            assert forall|i: int| 0 <= i < items.len() implies plain(
                #[trigger] items[i],
                (b - 1) as nat,
            ) by {
                lemma_plain_deeper(items[i], (a - 1) as nat, (b - 1) as nat);
            }
        },
        Json::Object(m) => {
            assert forall|key: Text| m.contains_key(key) implies plain(
                #[trigger] m[key],
                (b - 1) as nat,
            ) by {
                lemma_plain_deeper(m[key], (a - 1) as nat, (b - 1) as nat);
            }
        },
        _ => {},
    }
}

proof fn lemma_plain_member(v: Json, key: Text, depth: nat)
    requires
        plain(v, depth),
        v is Object,
        v->Object_0.contains_key(key),
    ensures
        depth > 0,
        plain(v->Object_0[key], (depth - 1) as nat),
{
    match v {
        Json::Object(m) => {
            assert(m.contains_key(key));
            assert(plain(m[key], (depth - 1) as nat));
        },
        _ => {},
    }
}

/// An object is nested one deeper than its fields.
pub proof fn lemma_plain_object(s: Seq<Field>, depth: nat)
    requires
        forall|i: int| 0 <= i < s.len() ==> plain((#[trigger] s[i]).1, depth),
    ensures
        plain(object(s), depth + 1),
    decreases s.len(),
{
    let m = fields_map(s);
    if s.len() > 0 {
        let head = s.drop_last();
        assert forall|i: int| 0 <= i < head.len() implies plain((#[trigger] head[i]).1, depth) by {
            assert(head[i] == s[i]);
        }
        lemma_plain_object(head, depth);
        assert(plain(s[s.len() - 1].1, depth));
        let before = fields_map(head);
        assert(plain(Json::Object(before), depth + 1));
        assert forall|key: Text| m.contains_key(key) implies plain(#[trigger] m[key], depth) by {
            if key != s.last().0 {
                assert(before.contains_key(key));
                lemma_plain_member(Json::Object(before), key, depth + 1);
            }
        }
    }
}

/// Texts, and lists of texts, are plain.
pub proof fn lemma_plain_texts(items: Seq<Text>, o: Option<Text>, depth: nat)
    ensures
        plain(opt_str(o), depth),
        plain(text_array(items), depth + 1),
{
    let values = items.map_values(|t: Text| Json::Str(t));
    assert forall|i: int| 0 <= i < values.len() implies plain(#[trigger] values[i], depth) by {
        assert(values[i] == Json::Str(items[i]));
    }
}

/// A `serde_json` value.
#[verifier::external_type_specification]
#[verifier::external_body]
pub struct ExValue(serde_json::Value);

/// What a `serde_json` value holds.
pub uninterp spec fn value_view(v: serde_json::Value) -> Json;

/// The text that `serde_json` prints for a value, without white space.
pub uninterp spec fn json_text(v: Json) -> Text;

/// The text that `serde_json` prints for a value, indented.
pub uninterp spec fn json_pretty(v: Json) -> Text;

/// The value that `serde_json` reads from bytes; `None` where they are no JSON.
pub uninterp spec fn json_read(bytes: Seq<u8>) -> Option<Json>;

/// The pieces a value is made from.
pub enum Node {
    Null,
    Bool(bool),
    Int(i64),
    Count(u64),
    Str(String),
    Array(Vec<serde_json::Value>),
    Object(Vec<(String, serde_json::Value)>),
}

/// The values in a vector.
pub open spec fn values(v: Seq<serde_json::Value>) -> Seq<Json> {
    v.map_values(|x: serde_json::Value| value_view(x))
}

/// The fields in a vector.
pub open spec fn fields(v: Seq<(String, serde_json::Value)>) -> Seq<Field> {
    v.map_values(|x: (String, serde_json::Value)| (x.0@, value_view(x.1)))
}

impl Node {
    /// The value these pieces make.
    pub open spec fn made(self) -> Json {
        match self {
            Node::Null => Json::Null,
            Node::Bool(b) => Json::Bool(b),
            Node::Int(i) => int_json(i as int),
            Node::Count(n) => int_json(n as int),
            Node::Str(s) => Json::Str(s@),
            Node::Array(items) => Json::Array(values(items@)),
            Node::Object(pairs) => object(fields(pairs@)),
        }
    }
}

/// Makes a `serde_json::Value` from its pieces. An integer is kept as such and
/// prints in decimal; an object made from pairs keeps the last value of a key
/// that occurs twice.
#[verifier::external_body]
pub(crate) fn value(node: Node) -> (r: serde_json::Value)
    ensures
        value_view(r) == node.made(),
{
    match node {
        Node::Null => serde_json::Value::Null,
        Node::Bool(b) => serde_json::Value::Bool(b),
        Node::Int(i) => serde_json::Value::from(i),
        Node::Count(n) => serde_json::Value::from(n),
        Node::Str(s) => serde_json::Value::String(s),
        Node::Array(items) => serde_json::Value::Array(items),
        Node::Object(pairs) => serde_json::Value::Object(pairs.into_iter().collect()),
    }
}

/// What a value turns out to be.
pub enum Shape {
    Null,
    Bool(bool),
    Number(String),
    Str(String),
    Array(Vec<serde_json::Value>),
    Object(Vec<(String, serde_json::Value)>),
}

impl Shape {
    /// The value of this shape.
    pub open spec fn shown(self) -> Json {
        match self {
            Shape::Null => Json::Null,
            Shape::Bool(b) => Json::Bool(b),
            Shape::Number(s) => Json::Number(s@),
            Shape::Str(s) => Json::Str(s@),
            Shape::Array(items) => Json::Array(values(items@)),
            Shape::Object(pairs) => object(fields(pairs@)),
        }
    }
}

/// Tells the variants of a `serde_json::Value` apart. The fields of an object
/// come in ascending order of their keys, each key once.
#[verifier::external_body]
pub(crate) fn shape(v: &serde_json::Value) -> (r: Shape)
    ensures
        r.shown() == value_view(*v),
        r matches Shape::Object(pairs) ==> forall|i: int, j: int|
            0 <= i < j < pairs@.len() ==> order::text_lt(
                #[trigger] pairs@[i].0@,
                #[trigger] pairs@[j].0@,
            ),
{
    match v {
        serde_json::Value::Null => Shape::Null,
        serde_json::Value::Bool(b) => Shape::Bool(*b),
        serde_json::Value::Number(n) => Shape::Number(n.to_string()),
        serde_json::Value::String(s) => Shape::Str(s.clone()),
        serde_json::Value::Array(items) => Shape::Array(items.clone()),
        serde_json::Value::Object(m) => Shape::Object(m.clone().into_iter().collect()),
    }
}

/// `serde_json::Value::as_i64`: the number as an `i64`, where it is an integer
/// that fits.
#[verifier::external_body]
pub(crate) fn as_i64(v: &serde_json::Value) -> (r: Option<i64>)
    ensures
        match r {
            Some(i) => value_view(*v) == int_json(i as int),
            None => forall|i: i64| value_view(*v) != #[trigger] int_json(i as int),
        },
{
    v.as_i64()
}

/// The `Display` of a `serde_json::Value`: its compact JSON text, the bytes of
/// which are what `serde_json::to_vec` yields. Where the value is nested no
/// deeper than a reader follows and its numbers are integers, reading the text
/// gives the value back.
#[verifier::external_body]
pub(crate) fn compact(v: &serde_json::Value) -> (r: String)
    ensures
        r@ == json_text(value_view(*v)),
        plain(value_view(*v), 100) ==> json_read(encode_utf8(r@)) == Some(value_view(*v)),
{
    v.to_string()
}

/// The alternate `Display` of a `serde_json::Value`: its indented JSON text,
/// which is what `serde_json::to_string_pretty` yields.
#[verifier::external_body]
pub(crate) fn pretty(v: &serde_json::Value) -> (r: String)
    ensures
        r@ == json_pretty(value_view(*v)),
{
    format!("{v:#}")
}

/// `serde_json::from_slice` into a value. What it says where it fails is for people,
/// and nothing is claimed of it.
#[verifier::external_body]
pub(crate) fn read(bytes: &[u8]) -> (r: Result<serde_json::Value, String>)
    ensures
        match r {
            Ok(v) => json_read(bytes@) == Some(value_view(v)),
            Err(_) => json_read(bytes@) is None,
        },
{
    serde_json::from_slice::<serde_json::Value>(bytes).map_err(|e| e.to_string())
}

/// A text value.
pub fn text_value(s: &str) -> (r: serde_json::Value)
    ensures
        value_view(r) == Json::Str(s@),
{
    value(Node::Str(s.to_owned()))
}

/// A text value, or null.
pub fn opt_value(o: &Option<String>) -> (r: serde_json::Value)
    ensures
        value_view(r) == opt_str(text::opt_text(*o)),
{
    match o {
        Some(s) => text_value(s.as_str()),
        None => value(Node::Null),
    }
}

/// An array of texts.
pub fn array_value(items: &Vec<String>) -> (r: serde_json::Value)
    ensures
        value_view(r) == text_array(text::texts(items@)),
{
    let mut out: Vec<serde_json::Value> = Vec::new();
    let mut i: usize = 0;
    while i < items.len()
        invariant
            i <= items@.len(),
            out@.len() == i,
            forall|j: int| 0 <= j < i ==> value_view(#[trigger] out@[j]) == Json::Str(items@[j]@),
        decreases items@.len() - i,
    {
        out.push(text_value(items[i].as_str()));
        i = i + 1;
    }
    assert(values(out@) =~= text::texts(items@).map_values(|t: Text| Json::Str(t)));
    value(Node::Array(out))
}

/// A truth value.
pub fn bool_value(b: bool) -> (r: serde_json::Value)
    ensures
        value_view(r) == Json::Bool(b),
{
    value(Node::Bool(b))
}

/// A number.
pub fn int_value(i: i64) -> (r: serde_json::Value)
    ensures
        value_view(r) == int_json(i as int),
{
    value(Node::Int(i))
}

/// A count.
pub fn count_value(n: u64) -> (r: serde_json::Value)
    ensures
        value_view(r) == int_json(n as int),
{
    value(Node::Count(n))
}

/// An array.
pub fn list_value(items: Vec<serde_json::Value>) -> (r: serde_json::Value)
    ensures
        value_view(r) == Json::Array(values(items@)),
{
    value(Node::Array(items))
}

/// An object.
pub fn object_value(pairs: Vec<(String, serde_json::Value)>) -> (r: serde_json::Value)
    ensures
        value_view(r) == object(fields(pairs@)),
{
    value(Node::Object(pairs))
}

/// One field for an object under construction.
pub fn field(name: &str, v: serde_json::Value) -> (r: (String, serde_json::Value))
    ensures
        r.0@ == name@,
        r.1 == v,
{
    (name.to_owned(), v)
}

/// An object with one field.
pub fn wrap(name: &str, v: serde_json::Value) -> (r: serde_json::Value)
    ensures
        value_view(r) == object(seq![(name@, value_view(v))]),
{
    let mut pairs: Vec<(String, serde_json::Value)> = Vec::new();
    pairs.push(field(name, v));
    assert(fields(pairs@) =~= seq![(name@, value_view(v))]);
    value(Node::Object(pairs))
}

/// Where names differ, each field is found under its name.
pub proof fn lemma_fields_map(s: Seq<Field>, i: int)
    requires
        0 <= i < s.len(),
        forall|a: int, b: int| 0 <= a < b < s.len() ==> (#[trigger] s[a]).0 != (#[trigger] s[b]).0,
    ensures
        fields_map(s).contains_key(s[i].0),
        fields_map(s)[s[i].0] == s[i].1,
    decreases s.len(),
{
    if i < s.len() - 1 {
        let head = s.drop_last();
        assert forall|a: int, b: int| 0 <= a < b < head.len() implies (#[trigger] head[a]).0 != (
        #[trigger] head[b]).0 by {
            assert(s[a].0 != s[b].0);
        }
        lemma_fields_map(head, i);
        assert(s[i].0 != s[s.len() - 1].0);
    }
}

/// An object has the names of its fields.
pub proof fn lemma_fields_domain(s: Seq<Field>, key: Text)
    ensures
        fields_map(s).contains_key(key) <==> exists|i: int| 0 <= i < s.len() && s[i].0 == key,
    decreases s.len(),
{
    if s.len() > 0 {
        let head = s.drop_last();
        lemma_fields_domain(head, key);
        if fields_map(head).contains_key(key) {
            let i = choose|i: int| 0 <= i < head.len() && head[i].0 == key;
            assert(s[i].0 == key);
        }
        if exists|i: int| 0 <= i < s.len() && s[i].0 == key {
            let i = choose|i: int| 0 <= i < s.len() && s[i].0 == key;
            if i < head.len() {
                assert(head[i].0 == key);
            }
        }
        if s.last().0 == key {
            assert(s[s.len() - 1].0 == key);
        }
    }
}

/// Fields in ascending order of their names have different names.
pub proof fn lemma_ascending_fields(s: Seq<Field>)
    requires
        forall|a: int, b: int|
            0 <= a < b < s.len() ==> order::text_lt((#[trigger] s[a]).0, (#[trigger] s[b]).0),
    ensures
        forall|a: int, b: int| 0 <= a < b < s.len() ==> (#[trigger] s[a]).0 != (#[trigger] s[b]).0,
{
    assert forall|a: int, b: int| 0 <= a < b < s.len() implies (#[trigger] s[a]).0 != (
    #[trigger] s[b]).0 by {
        if s[a].0 == s[b].0 {
            order::lemma_text_irreflexive(s[a].0);
        }
    }
}

/// The value under a key, where this is an object that has the key.
pub fn find(v: &serde_json::Value, key: &str) -> (r: Option<serde_json::Value>)
    ensures
        match value_view(*v) {
            Json::Object(m) => if m.contains_key(key@) {
                r matches Some(x) && value_view(x) == m[key@]
            } else {
                r is None
            },
            _ => r is None,
        },
{
    match shape(v) {
        Shape::Object(pairs) => {
            let mut pairs = pairs;
            let ghost all = fields(pairs@);
            proof {
                assert forall|a: int, b: int| 0 <= a < b < all.len() implies order::text_lt(
                    (#[trigger] all[a]).0,
                    (#[trigger] all[b]).0,
                ) by {
                    assert(order::text_lt(pairs@[a].0@, pairs@[b].0@));
                }
                lemma_ascending_fields(all);
            }
            let mut i: usize = 0;
            while i < pairs.len()
                invariant
                    all == fields(pairs@),
                    value_view(*v) == object(all),
                    forall|a: int, b: int|
                        0 <= a < b < all.len() ==> (#[trigger] all[a]).0 != (#[trigger] all[b]).0,
                    i <= pairs@.len(),
                    forall|j: int| 0 <= j < i ==> (#[trigger] all[j]).0 != key@,
                decreases pairs@.len() - i,
            {
                assert(all[i as int].0 == pairs@[i as int].0@);
                if str_eq(pairs[i].0.as_str(), key) {
                    proof {
                        lemma_fields_map(all, i as int);
                    }
                    let (_, found) = pairs.remove(i);
                    return Some(found);
                }
                i = i + 1;
            }
            proof {
                lemma_fields_domain(all, key@);
            }
            None
        },
        _ => None,
    }
}

/// The value under a key; null where there is none.
pub fn at(v: &serde_json::Value, key: &str) -> (r: serde_json::Value)
    ensures
        value_view(r) == value_view(*v).at(key@),
{
    match find(v, key) {
        Some(found) => found,
        None => value(Node::Null),
    }
}

} // verus!
