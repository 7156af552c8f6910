//! What the operator sees of a reply.
use vstd::prelude::*;
use vstd::string::*;
use vstd::utf8::*;

use crate::cli::{Command, Face, Order, EXIT_TRANSPORT};
use crate::ids::push_hex;
use crate::json::{at, compact, field, object_value, pretty, read, shape, text_value, Json, Shape};
use crate::text::{bytes_of, cat, cat3, join_strs, str_eq, Text};
use crate::{json, order, text};

verus! {

/// Whether a sequence is the keys of an object, in ascending order.
pub open spec fn lists_keys(m: Map<Text, Json>, keys: Seq<Text>) -> bool {
    &&& order::strictly_ascends(keys)
    &&& forall|key: Text| keys.contains(key) <==> #[trigger] m.contains_key(key)
}

/// The keys of an object, in ascending order.
pub open spec fn key_list(m: Map<Text, Json>) -> Seq<Text> {
    choose|keys: Seq<Text>| lists_keys(m, keys)
}

/// An object's keys have one ascending order.
pub proof fn lemma_key_list(m: Map<Text, Json>, keys: Seq<Text>)
    requires
        lists_keys(m, keys),
    ensures
        key_list(m) == keys,
{
    let other = key_list(m);
    assert(lists_keys(m, other));
    assert forall|t: Text| keys.contains(t) <==> other.contains(t) by {
        assert(keys.contains(t) <==> m.contains_key(t));
    }
    order::lemma_ascending_is_unique(keys, other);
}

/// What is said of a reply that lacks its envelope.
pub open spec fn no_envelope(m: Map<Text, Json>) -> Text {
    "registry reply has no 'result' envelope (keys: "@ + (if key_list(m).len() == 0 {
        "none"@
    } else {
        text::join(key_list(m), ", "@)
    }) + ")"@
}

/// What an envelope holds; else what is wrong with it.
pub open spec fn enveloped(v: Json) -> Result<Json, Text> {
    match v {
        Json::Object(m) => if m.contains_key("result"@) {
            Ok(m["result"@])
        } else {
            Err(no_envelope(m))
        },
        _ => Err("registry reply is not an object: "@ + json::json_text(v)),
    }
}

/// A scalar for people: text as it is, absence as a hyphen.
pub open spec fn scalar(v: Json) -> Text {
    match v {
        Json::Str(t) => t,
        Json::Null => "-"@,
        _ => json::json_text(v),
    }
}

/// The elements of an array; none where the value is no array.
pub open spec fn elements(v: Json) -> Seq<Json> {
    match v {
        Json::Array(items) => items,
        _ => Seq::empty(),
    }
}

/// A text filled up with spaces to a width.
pub open spec fn padded(t: Text, width: nat) -> Text
    decreases width - t.len(),
{
    if t.len() >= width {
        t
    } else {
        padded(t.push(' '), width)
    }
}

/// Rows of two columns, the first filled up.
pub open spec fn columns(items: Seq<Json>, first: Text, second: Text) -> Text
    decreases items.len(),
{
    if items.len() == 0 {
        Seq::empty()
    } else {
        columns(items.drop_last(), first, second) + padded(scalar(items.last().at(first)), 28)
            + " "@ + scalar(items.last().at(second)) + "\n"@
    }
}

/// Rows, then how many there are.
pub open spec fn table(items: Seq<Json>, first: Text, second: Text, noun: Text) -> Text {
    columns(items, first, second) + "\n"@ + json::digits(items.len()) + noun
}

/// What the operator sees of a path that was resolved.
pub open spec fn resolved_screen(v: Json) -> Text {
    "project:   "@ + scalar(v.at("projectId"@)) + "\n"@ + "name:      "@ + scalar(
        v.at("projectName"@),
    ) + "\n"@ + "workspace: "@ + scalar(v.at("workspaceId"@)) + "\n"@ + (if v.at("via"@)
        == Json::Str("implicit"@) {
        "status:    NOT REGISTERED (derived id; nothing stored)\n"@
    } else {
        Seq::empty()
    }) + (if v.at("gone"@) == Json::Bool(true) {
        "root:      GONE (registered directory no longer exists)\n"@
    } else {
        Seq::empty()
    })
}

/// What the operator sees of a reply.
pub open spec fn screen(o: Order, v: Json) -> Text {
    if o.json {
        json::json_pretty(v) + "\n"@
    } else if o.face == Face::Workspaces && o.verb == "list"@ {
        let items = elements(v.at("workspaces"@));
        if items.len() == 0 {
            "no workspaces\n"@
        } else {
            table(items, "workspaceId"@, "name"@, " workspace(s)\n"@)
        }
    } else if o.face == Face::Projects && o.verb == "list"@ {
        let items = elements(v.at("projects"@));
        if items.len() == 0 {
            if o.args.len() > 0 {
                "no projects in workspace '"@ + o.args[0] + "'\n"@
            } else {
                "no projects registered\n"@
            }
        } else {
            table(items, "projectId"@, "name"@, " project(s)\n"@)
        }
    } else if o.face == Face::Projects && o.verb == "resolve"@ {
        resolved_screen(v)
    } else {
        json::json_pretty(v) + "\n"@
    }
}

/// A number in decimal.
pub fn decimal_text(n: u64) -> (r: String)
    ensures
        r@ == json::digits(n as nat),
    decreases n,
{
    let mut out = if n < 10 {
        String::new()
    } else {
        decimal_text(n / 10)
    };
    push_hex(&mut out, (n % 10) as u8);
    assert(out@ =~= json::digits(n as nat));
    out
}

/// Renders a scalar for people: text unquoted, absence as a hyphen.
pub fn text(value: &serde_json::Value) -> (r: String)
    ensures
        r@ == scalar(json::value_view(*value)),
{
    match shape(value) {
        Shape::Str(s) => s,
        Shape::Null => "-".to_owned(),
        _ => compact(value),
    }
}

fn elements_of(value: &serde_json::Value) -> (r: Vec<serde_json::Value>)
    ensures
        json::values(r@) == elements(json::value_view(*value)),
{
    match shape(value) {
        Shape::Array(items) => items,
        _ => {
            let none: Vec<serde_json::Value> = Vec::new();
            assert(json::values(none@) =~= Seq::empty());
            none
        },
    }
}

fn pad(s: String, width: usize) -> (r: String)
    ensures
        r@ == padded(s@, width as nat),
{
    let mut out = s;
    let mut n: usize = out.as_str().unicode_len();
    proof {
        reveal_strlit(" ");
    }
    while n < width
        invariant
            n == out@.len(),
            " "@ == seq![' '],
            padded(out@, width as nat) == padded(s@, width as nat),
        decreases width - n,
    {
        let ghost before = out@;
        out.append(" ");
        assert(out@ =~= before.push(' '));
        n = n + 1;
    }
    out
}

fn columns_of(items: &Vec<serde_json::Value>, first: &str, second: &str) -> (r: String)
    ensures
        r@ == columns(json::values(items@), first@, second@),
{
    let ghost all = json::values(items@);
    let mut out = String::new();
    let mut i: usize = 0;
    assert(all.take(0) =~= Seq::empty());
    assert(out@ =~= columns(all.take(0), first@, second@));
    while i < items.len()
        invariant
            all == json::values(items@),
            i <= items@.len(),
            out@ == columns(all.take(i as int), first@, second@),
        decreases items@.len() - i,
    {
        assert(all.take(i + 1).drop_last() =~= all.take(i as int));
        assert(all.take(i + 1).last() == json::value_view(items@[i as int]));
        let left = pad(text(&at(&items[i], first)), 28);
        let right = text(&at(&items[i], second));
        out.append(left.as_str());
        out.append(" ");
        out.append(right.as_str());
        out.append("\n");
        i = i + 1;
    }
    assert(all.take(i as int) =~= all);
    out
}

fn table_of(items: &Vec<serde_json::Value>, first: &str, second: &str, noun: &str) -> (r: String)
    ensures
        r@ == table(json::values(items@), first@, second@, noun@),
{
    let mut out = columns_of(items, first, second);
    assert(json::values(items@).len() == items@.len());
    let count = decimal_text(items.len() as u64);
    out.append("\n");
    out.append(count.as_str());
    out.append(noun);
    out
}

/// A request as it goes over the wire.
pub fn request_body(method: &str, params: serde_json::Value) -> (r: Vec<u8>)
    ensures
        r@ == encode_utf8(
            json::json_text(
                json::object(
                    seq![
                        ("method"@, Json::Str(method@)),
                        ("params"@, json::value_view(params)),
                    ],
                ),
            ),
        ),
{
    let mut p: Vec<(String, serde_json::Value)> = Vec::new();
    p.push(field("method", text_value(method)));
    p.push(field("params", params));
    assert(json::fields(p@) =~= seq![
        ("method"@, Json::Str(method@)),
        ("params"@, json::value_view(params)),
    ]);
    bytes_of(compact(&object_value(p)).as_str())
}

/// Reads a reply as it came over the wire, and takes it out of its envelope. What
/// is wrong with bytes that are no JSON is told in the reader's words, which are
/// not stated here.
pub fn open_reply(bytes: &[u8]) -> (r: Result<serde_json::Value, (u8, String)>)
    ensures
        match json::json_read(bytes@) {
            Some(v) => match enveloped(v) {
                Ok(w) => r matches Ok(x) && json::value_view(x) == w,
                Err(m) => r matches Err(e) && e.0 == EXIT_TRANSPORT && e.1@ == m,
            },
            None => r matches Err(e) && e.0 == EXIT_TRANSPORT && text::begins_with(
                e.1@,
                "decode response: "@,
            ),
        },
{
    match read(bytes) {
        Ok(envelope) => unwrap_result(envelope),
        Err(e) => {
            let m = cat("decode response: ", e.as_str());
            assert(m@.take("decode response: "@.len() as int) =~= "decode response: "@);
            Err((EXIT_TRANSPORT, m))
        },
    }
}

/// Takes a reply out of its envelope. Its absence is an error: passed through,
/// it would read as an empty answer.
pub fn unwrap_result(envelope: serde_json::Value) -> (r: Result<serde_json::Value, (u8, String)>)
    ensures
        match enveloped(json::value_view(envelope)) {
            Ok(v) => r matches Ok(w) && json::value_view(w) == v,
            Err(m) => r matches Err(e) && e.0 == EXIT_TRANSPORT && e.1@ == m,
        },
{
    match shape(&envelope) {
        Shape::Object(pairs) => {
            let mut pairs = pairs;
            let ghost all = json::fields(pairs@);
            let ghost m = json::fields_map(all);
            proof {
                assert forall|a: int, b: int|
                    0 <= a < b < all.len() implies order::text_lt(
                    (#[trigger] all[a]).0,
                    (#[trigger] all[b]).0,
                ) by {
                    assert(order::text_lt(pairs@[a].0@, pairs@[b].0@));
                }
            }
            let mut keys: Vec<String> = Vec::new();
            let mut i: usize = 0;
            while i < pairs.len()
                invariant
                    all == json::fields(pairs@),
                    json::value_view(envelope) == Json::Object(m),
                    m == json::fields_map(all),
                    forall|a: int, b: int|
                        0 <= a < b < all.len() ==> order::text_lt(
                            (#[trigger] all[a]).0,
                            (#[trigger] all[b]).0,
                        ),
                    i <= pairs@.len(),
                    keys@.len() == i,
                    forall|j: int| 0 <= j < i ==> (#[trigger] keys@[j])@ == all[j].0,
                    forall|j: int| 0 <= j < i ==> (#[trigger] all[j]).0 != "result"@,
                decreases pairs@.len() - i,
            {
                assert(all[i as int].0 == pairs@[i as int].0@);
                if str_eq(pairs[i].0.as_str(), "result") {
                    proof {
                        json::lemma_ascending_fields(all);
                        json::lemma_fields_map(all, i as int);
                    }
                    let (_, found) = pairs.remove(i);
                    return Ok(found);
                }
                keys.push(pairs[i].0.clone());
                i = i + 1;
            }
            proof {
                json::lemma_fields_domain(all, "result"@);
                let listed = text::texts(keys@);
                assert(listed.len() == all.len());
                assert forall|a: int, b: int| 0 <= a < b < listed.len() implies order::text_lt(
                    #[trigger] listed[a],
                    #[trigger] listed[b],
                ) by {
                    assert(order::text_lt(all[a].0, all[b].0));
                }
                assert forall|key: Text| listed.contains(key) <==> #[trigger] m.contains_key(
                    key,
                ) by {
                    json::lemma_fields_domain(all, key);
                    if listed.contains(key) {
                        let j = choose|j: int| 0 <= j < listed.len() && listed[j] == key;
                        assert(all[j].0 == key);
                    }
                    if m.contains_key(key) {
                        let j = choose|j: int| 0 <= j < all.len() && all[j].0 == key;
                        assert(listed[j] == key);
                    }
                }
                lemma_key_list(m, listed);
            }
            let named = if keys.len() == 0 {
                "none".to_owned()
            } else {
                join_strs(&keys, ", ")
            };
            Err(
                (
                    EXIT_TRANSPORT,
                    cat3(
                        "registry reply has no 'result' envelope (keys: ",
                        named.as_str(),
                        ")",
                    ),
                ),
            )
        },
        _ => {
            let m = compact(&envelope);
            Err((EXIT_TRANSPORT, cat("registry reply is not an object: ", m.as_str())))
        },
    }
}

fn render_resolved(value: &serde_json::Value) -> (r: String)
    ensures
        r@ == resolved_screen(json::value_view(*value)),
{
    let mut out = cat3("project:   ", text(&at(value, "projectId")).as_str(), "\n");
    out.append("name:      ");
    out.append(text(&at(value, "projectName")).as_str());
    out.append("\n");
    out.append("workspace: ");
    out.append(text(&at(value, "workspaceId")).as_str());
    out.append("\n");
    let ghost head = out@;
    let implicit = match shape(&at(value, "via")) {
        Shape::Str(s) => str_eq(s.as_str(), "implicit"),
        _ => false,
    };
    if implicit {
        out.append("status:    NOT REGISTERED (derived id; nothing stored)\n");
    } else {
        assert(out@ =~= head + Seq::empty());
    }
    let ghost mid = out@;
    let gone = match shape(&at(value, "gone")) {
        Shape::Bool(b) => b,
        _ => false,
    };
    if gone {
        out.append("root:      GONE (registered directory no longer exists)\n");
    } else {
        assert(out@ =~= mid + Seq::empty());
    }
    out
}

/// Renders a reply for the operator.
pub fn render(command: &Command, value: &serde_json::Value) -> (r: String)
    ensures
        r@ == screen(command@, json::value_view(*value)),
{
    if command.json {
        return cat(pretty(value).as_str(), "\n");
    }
    let verb = command.verb.as_str();
    match command.face {
        Face::Workspaces => {
            if str_eq(verb, "list") {
                let items = elements_of(&at(value, "workspaces"));
                assert(json::values(items@).len() == items@.len());
                if items.len() == 0 {
                    return "no workspaces\n".to_owned();
                }
                return table_of(&items, "workspaceId", "name", " workspace(s)\n");
            }
        },
        Face::Projects => {
            if str_eq(verb, "list") {
                let items = elements_of(&at(value, "projects"));
                assert(json::values(items@).len() == items@.len());
                if items.len() == 0 {
                    if command.args.len() > 0 {
                        assert(command@.args[0] == command.args@[0]@);
                        return cat3(
                            "no projects in workspace '",
                            command.args[0].as_str(),
                            "'\n",
                        );
                    }
                    return "no projects registered\n".to_owned();
                }
                return table_of(&items, "projectId", "name", " project(s)\n");
            }
            if str_eq(verb, "resolve") {
                return render_resolved(value);
            }
        },
        Face::Entorhinal => {},
    }
    cat(pretty(value).as_str(), "\n")
}

} // verus!
