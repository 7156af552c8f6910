//! What the command line makes of words and flags, and what it sends.
use vstd::prelude::*;
use vstd::string::*;

use crate::cli;
use crate::cli::{Asked, Face, Fault, Order, Place, Scan};
use crate::json::{Field, Json};
use crate::laws_paths;
use crate::laws_wire::lemma_at;
use crate::service;
use crate::text::Text;
use crate::{json, paths};

verus! {

/// Whether a text is a word and no flag.
pub open spec fn is_word(t: Text) -> bool {
    t.len() == 0 || t[0] != '-'
}

/// Whether all texts are words.
pub open spec fn all_words(s: Seq<Text>) -> bool {
    forall|i: int| 0 <= i < s.len() ==> is_word(#[trigger] s[i])
}

/// What was read, and these words behind it.
pub open spec fn read_on(so_far: Scan, words: Seq<Text>) -> Scan {
    if words.len() == 0 {
        so_far
    } else if so_far.verb is None {
        Scan { verb: Some(words[0]), args: so_far.args + words.skip(1), ..so_far }
    } else {
        Scan { args: so_far.args + words, ..so_far }
    }
}

proof fn lemma_flags()
    ensures
        "--subc"@.len() == 6,
        "--subc"@[0] == '-',
        "--subc"@[2] == 's',
        "--json"@.len() == 6,
        "--json"@[0] == '-',
        "--json"@[2] == 'j',
        "--version"@[0] == '-',
        "--help"@[0] == '-',
        "-h"@[0] == '-',
        "--ck-domain"@[0] == '-',
        "--manifest"@[0] == '-',
        "--version"@.len() > 0 && "--help"@.len() > 0 && "-h"@.len() > 0 && "--ck-domain"@.len() > 0
            && "--manifest"@.len() > 0,
{
    reveal_strlit("--subc");
    reveal_strlit("--json");
    reveal_strlit("--version");
    reveal_strlit("--help");
    reveal_strlit("-h");
    reveal_strlit("--ck-domain");
    reveal_strlit("--manifest");
}

/// Words are read one after the other: the first is the verb, the others are its
/// arguments, in order.
proof fn lemma_words(words: Seq<Text>, rest: Seq<Text>, so_far: Scan)
    requires
        all_words(words),
    ensures
        cli::scan(words + rest, so_far) == cli::scan(rest, read_on(so_far, words)),
    decreases words.len(),
{
    lemma_flags();
    if words.len() == 0 {
        assert(words + rest =~= rest);
    } else {
        let all = words + rest;
        let tail = words.skip(1);
        assert(is_word(words[0]));
        assert(all[0] == words[0]);
        assert(all.skip(1) =~= tail + rest);
        assert forall|i: int| 0 <= i < tail.len() implies is_word(#[trigger] tail[i]) by {
            assert(is_word(words[i + 1]));
        }
        let next = if so_far.verb is None {
            Scan { verb: Some(words[0]), ..so_far }
        } else {
            Scan { args: so_far.args.push(words[0]), ..so_far }
        };
        lemma_words(tail, rest, next);
        assert(read_on(next, tail) == read_on(so_far, words)) by {
            if tail.len() == 0 {
                assert(words.skip(1) =~= Seq::empty());
                assert(so_far.args + words.skip(1) =~= so_far.args);
                assert(words =~= seq![words[0]]);
                assert(so_far.args + words =~= so_far.args.push(words[0]));
            } else if so_far.verb is Some {
                assert(so_far.args.push(words[0]) + tail =~= so_far.args + words);
            } else {
                assert(so_far.args + tail =~= so_far.args + words.skip(1));
            }
        }
    }
}

/// An operator's words are a command: the first is the verb, the others are its
/// arguments. `--json` and `--subc` with its path may stand anywhere among them and change
/// nothing else. Any other flag is refused, and so is `--subc` without a path.
pub proof fn law_words_and_flags(a: Seq<Text>, b: Seq<Text>, path: Text, flag: Text)
    requires
        all_words(a),
        all_words(b),
        a.len() + b.len() > 0,
        !is_word(flag),
        flag != "--json"@,
        flag != "--subc"@,
    ensures
        ({
            let plain = Scan {
                verb: Some((a + b)[0]),
                connection: None,
                args: (a + b).skip(1),
                json: false,
            };
            &&& cli::scan(a + b, cli::unread()) == Ok::<Scan, Fault>(plain)
            &&& cli::scan(a + seq!["--json"@] + b, cli::unread()) == Ok::<Scan, Fault>(
                Scan { json: true, ..plain },
            )
            &&& cli::scan(a + seq!["--subc"@, path] + b, cli::unread()) == Ok::<Scan, Fault>(
                Scan { connection: Some(path), ..plain },
            )
            &&& cli::scan(a + seq![flag] + b, cli::unread()) == Err::<Scan, Fault>(
                Fault::Flag(flag),
            )
            &&& cli::scan(a + seq!["--subc"@], cli::unread()) == Err::<Scan, Fault>(Fault::NoPath)
        }),
{
    lemma_flags();
    let start = cli::unread();
    let mid = read_on(start, a);
    let none = Seq::<Text>::empty();
    let all = a + b;
    assert(all_words(all)) by {
        assert forall|i: int| 0 <= i < all.len() implies is_word(#[trigger] all[i]) by {
            if i < a.len() {
                assert(is_word(a[i]));
            } else {
                assert(is_word(b[i - a.len()]));
            }
        }
    }
    lemma_words(all, none, start);
    assert(all + none =~= all);
    assert(start.args + all.skip(1) =~= all.skip(1));
    let plain = read_on(start, all);
    lemma_both(start, a, b, path);
    assert(b + none =~= b);
    let json = seq!["--json"@] + b;
    assert(a + seq!["--json"@] + b =~= a + json);
    lemma_words(a, json, start);
    assert(json[0] == "--json"@ && json.skip(1) =~= b);
    assert("--json"@ != "--subc"@);
    lemma_words(b, none, Scan { json: true, ..mid });
    let subc = seq!["--subc"@, path] + b;
    assert(a + seq!["--subc"@, path] + b =~= a + subc);
    lemma_words(a, subc, start);
    assert(subc[0] == "--subc"@ && subc[1] == path && subc.skip(2) =~= b);
    lemma_words(b, none, Scan { connection: Some(path), ..mid });
    let other = seq![flag] + b;
    assert(a + seq![flag] + b =~= a + other);
    lemma_words(a, other, start);
    assert(other[0] == flag);
    let bare = seq!["--subc"@];
    lemma_words(a, bare, start);
    assert(bare[0] == "--subc"@);
}

proof fn lemma_both(start: Scan, a: Seq<Text>, b: Seq<Text>, path: Text)
    requires
        start.verb is None,
    ensures
        read_on(read_on(start, a), b) == read_on(start, a + b),
        read_on(Scan { json: true, ..read_on(start, a) }, b) == (Scan {
            json: true,
            ..read_on(start, a + b)
        }),
        read_on(Scan { connection: Some(path), ..read_on(start, a) }, b) == (Scan {
            connection: Some(path),
            ..read_on(start, a + b)
        }),
{
    let all = a + b;
    if a.len() == 0 {
        assert(all =~= b);
    } else if b.len() == 0 {
        assert(all =~= a);
    } else {
        assert(all[0] == a[0]);
        assert(start.args + a.skip(1) + b =~= start.args + all.skip(1));
    }
}

/// Words alone make a command under every name, with the name they were given to.
pub proof fn law_words_are_commands(face: Face, words: Seq<Text>)
    requires
        all_words(words),
        words.len() > 0,
    ensures
        cli::asked(face, words) == Asked::Command(
            Order {
                face,
                verb: words[0],
                connection: None,
                args: words.skip(1),
                json: false,
            },
        ),
{
    lemma_flags();
    let none = Seq::<Text>::empty();
    assert(is_word(words[0]));
    assert forall|flag: Text| !is_word(flag) implies !words.contains(flag) by {
        if words.contains(flag) {
            let i = choose|i: int| 0 <= i < words.len() && words[i] == flag;
            assert(is_word(words[i]));
        }
    }
    lemma_words(words, none, cli::unread());
    assert(words + none =~= words);
    assert(cli::unread().args + words.skip(1) =~= words.skip(1));
}

/// What each verb sends: the request it stands for, what it was given, and who asks.
pub proof fn law_verbs_send_what_they_are_given(o: Order, place: Place)
    ensures
        cli::request_of(o, place) matches Ok(letter) ==> match o.face {
            Face::Projects => {
                &&& o.verb == "list"@ ==> letter.method == "enumerate"@ && letter.params.at(
                    "workspaceId"@,
                ) == (if o.args.len() > 0 {
                    Json::Str(o.args[0])
                } else {
                    Json::Null
                })
                &&& o.verb == "resolve"@ ==> letter.method == "resolve"@ && sends_path(
                    o.args[0],
                    place,
                    letter.params.at("canonicalRoot"@),
                )
                &&& o.verb == "register"@ ==> {
                    &&& letter.method == "register"@
                    &&& letter.params.at("name"@) == Json::Str(o.args[0])
                    &&& letter.params.at("roots"@) matches Json::Array(roots) && roots.len() == 1
                        && sends_path(o.args[1], place, roots[0])
                    &&& letter.params.at("actor"@) == Json::Str("ck-projects"@)
                    &&& letter.params.at("projectId"@) == Json::Null
                }
                &&& o.verb == "remove"@ ==> letter.method == "remove"@ && letter.params.at(
                    "projectId"@,
                ) == Json::Str(o.args[0]) && letter.params.at("actor"@) == Json::Str(
                    "ck-projects"@,
                ) && letter.params.at("workspaceId"@) == Json::Null
                &&& o.verb == "verify"@ ==> letter.method == "verify"@
            },
            Face::Workspaces => {
                &&& o.verb == "list"@ ==> letter.method == "enumerate"@ && letter.params.at(
                    "workspaceId"@,
                ) == Json::Null
                &&& o.verb == "assign"@ ==> {
                    &&& letter.method == "assign_workspace"@
                    &&& letter.params.at("projectId"@) == Json::Str(o.args[0])
                    &&& letter.params.at("workspaceId"@) == Json::Str(o.args[1])
                    &&& letter.params.at("actor"@) == Json::Str("ck-workspaces"@)
                }
            },
            Face::Entorhinal => false,
        },
{
    reveal_strlit("list");
    reveal_strlit("resolve");
    reveal_strlit("register");
    reveal_strlit("remove");
    reveal_strlit("verify");
    reveal_strlit("assign");
    assert("list"@.len() == 4 && "resolve"@.len() == 7 && "register"@.len() == 8 && "remove"@[0]
        == 'r' && "verify"@[0] == 'v' && "assign"@[0] == 'a' && "remove"@.len() == 6
        && "verify"@.len() == 6 && "assign"@.len() == 6);
    reveal_strlit("workspaceId");
    reveal_strlit("projectId");
    reveal_strlit("name");
    reveal_strlit("roots");
    reveal_strlit("actor");
    assert("workspaceId"@.len() == 11 && "projectId"@.len() == 9 && "name"@.len() == 4
        && "roots"@.len() == 5 && "actor"@.len() == 5 && "roots"@[0] == 'r' && "actor"@[0] == 'a');
    let who = ("actor"@, Json::Str(cli::name_of(o.face)));
    if let Ok(letter) = cli::request_of(o, place) {
        let none = Seq::<Field>::empty();
        json::lemma_fields_domain(none, "workspaceId"@);
        if o.face == Face::Projects {
            if o.verb == "list"@ && o.args.len() > 0 {
                let s: Seq<Field> = seq![("workspaceId"@, Json::Str(o.args[0]))];
                lemma_at(s, 0);
            } else if o.verb == "resolve"@ {
                let path = cli::sent_path(o.args[0], place)->Ok_0;
                let s: Seq<Field> = seq![("canonicalRoot"@, Json::Str(path))];
                lemma_at(s, 0);
                lemma_sends(o.args[0], place);
            } else if o.verb == "register"@ {
                let path = cli::sent_path(o.args[1], place)->Ok_0;
                let s: Seq<Field> = seq![
                    ("name"@, Json::Str(o.args[0])),
                    ("roots"@, json::text_array(seq![path])),
                    who,
                ];
                lemma_at(s, 0);
                lemma_at(s, 1);
                lemma_at(s, 2);
                json::lemma_fields_domain(s, "projectId"@);
                lemma_sends(o.args[1], place);
                let told = seq![path].map_values(|t: Text| Json::Str(t));
                assert(told[0] == Json::Str(path));
            } else if o.verb == "remove"@ {
                let s: Seq<Field> = seq![("projectId"@, Json::Str(o.args[0])), who];
                lemma_at(s, 0);
                lemma_at(s, 1);
                json::lemma_fields_domain(s, "workspaceId"@);
            }
        } else if o.face == Face::Workspaces && o.verb == "assign"@ {
            let s: Seq<Field> = seq![
                ("projectId"@, Json::Str(o.args[0])),
                ("workspaceId"@, Json::Str(o.args[1])),
                who,
            ];
            lemma_at(s, 0);
            lemma_at(s, 1);
            lemma_at(s, 2);
        }
    }
}

/// Whether this is sent for a directory: its canonical form where it has one; else the
/// directory itself where it is absolute, and where it is not, its place below the working
/// directory.
pub open spec fn sends_path(given: Text, place: Place, sent: Json) -> bool {
    match place {
        Place::Resolved(path) => sent == Json::Str(path),
        Place::Unresolved(cwd) => {
            &&& given.len() > 0 && given[0] == '/' ==> sent == Json::Str(given)
            &&& (given.len() == 0 || given[0] != '/') && cwd.len() > 0 && cwd.last() != '/' ==> sent
                == Json::Str(cwd + seq!['/'] + given)
        },
        Place::Lost(_) => given.len() > 0 && given[0] == '/' && sent == Json::Str(given),
    }
}

proof fn lemma_sends(given: Text, place: Place)
    ensures
        cli::sent_path(given, place) matches Ok(path) ==> sends_path(given, place, Json::Str(path)),
{
}

proof fn lemma_no_dot(name: Text)
    requires
        !name.contains('.'),
    ensures
        paths::last_dot(name) == -1,
    decreases name.len(),
{
    if name.len() > 0 {
        let head = name.drop_last();
        assert(name[name.len() - 1] == name.last());
        assert(name.contains(name.last()));
        assert(!head.contains('.')) by {
            if head.contains('.') {
                let i = choose|i: int| 0 <= i < head.len() && head[i] == '.';
                assert(name[i] == '.');
            }
        }
        lemma_no_dot(head);
    }
}

proof fn lemma_last_dot(stem: Text, ext: Text)
    requires
        !ext.contains('.'),
    ensures
        paths::last_dot(stem + seq!['.'] + ext) == stem.len(),
    decreases ext.len(),
{
    let all = stem + seq!['.'] + ext;
    if ext.len() == 0 {
        assert(all.last() == '.');
    } else {
        let head = ext.drop_last();
        assert(ext[ext.len() - 1] == ext.last());
        assert(ext.contains(ext.last()));
        assert(!head.contains('.')) by {
            if head.contains('.') {
                let i = choose|i: int| 0 <= i < head.len() && head[i] == '.';
                assert(ext[i] == '.');
            }
        }
        assert(all.drop_last() =~= stem + seq!['.'] + head);
        lemma_last_dot(stem, head);
    }
}

/// The stem of a name is what stands before its last dot. A name without one, or with
/// nothing before it, is its own stem.
pub proof fn law_stems(stem: Text, ext: Text)
    requires
        !ext.contains('.'),
    ensures
        paths::stem_of(ext) == ext,
        stem.len() > 0 ==> paths::stem_of(stem + seq!['.'] + ext) == stem,
        paths::stem_of(seq!['.'] + ext) == seq!['.'] + ext,
{
    lemma_no_dot(ext);
    lemma_last_dot(stem, ext);
    assert((stem + seq!['.'] + ext).take(stem.len() as int) =~= stem);
    let none = Seq::<char>::empty();
    lemma_last_dot(none, ext);
    assert(none + seq!['.'] + ext =~= seq!['.'] + ext);
}

/// Which face a binary shows: that of its name, with or without an extension, wherever it
/// lies. Any name but the two operators' is the module's, and so is none.
pub proof fn law_faces_go_by_name(dir: Seq<Text>, name: Text)
    requires
        laws_paths::all_name(dir),
        laws_paths::names_something(name),
        name != seq!['.', '.'],
    ensures
        ({
            let face = cli::face_of(Some(laws_paths::absolute(dir.push(name))));
            &&& paths::stem_of(name) == "ck-projects"@ ==> face == Face::Projects
            &&& paths::stem_of(name) == "ck-workspaces"@ ==> face == Face::Workspaces
            &&& paths::stem_of(name) != "ck-projects"@ && paths::stem_of(name) != "ck-workspaces"@
                ==> face == Face::Entorhinal
        }),
        cli::face_of(None) == Face::Entorhinal,
{
    let all = dir.push(name);
    assert(laws_paths::all_name(all)) by {
        assert forall|i: int| 0 <= i < all.len() implies laws_paths::names_something(
            #[trigger] all[i],
        ) by {
            if i < dir.len() {
                assert(laws_paths::names_something(dir[i]));
            }
        }
    }
    laws_paths::law_components_are_the_names(all);
    let c = seq![seq!['/']] + all;
    assert(c.last() == name);
    if name == seq!['/'] {
        assert(name[0] == '/');
        assert(name.contains('/'));
    }
    reveal_strlit("ck-projects");
    reveal_strlit("ck-workspaces");
    assert("ck-projects"@.len() == 11 && "ck-workspaces"@.len() == 13);
}

/// Where the data lies: where it is said to, else below the home directory, else in a
/// directory for temporary files. What is empty counts as not said.
pub proof fn law_data_homes(xdg: Option<Text>, home: Option<Text>, temp: Text)
    ensures
        ({
            let said = xdg is Some && xdg.unwrap().len() > 0;
            let housed = home is Some && home.unwrap().len() > 0;
            let at = service::data_home(xdg, home, temp);
            &&& said ==> at == xdg.unwrap()
            &&& !said && housed && home.unwrap().last() != '/' ==> at == home.unwrap()
                + "/.local/share"@
            &&& !said && !housed && temp.len() > 0 && temp.last() != '/' ==> at == temp
                + "/ck-entorhinal-data"@
        }),
{
    reveal_strlit(".local/share");
    reveal_strlit("/.local/share");
    reveal_strlit("ck-entorhinal-data");
    reveal_strlit("/ck-entorhinal-data");
    assert("/.local/share"@ =~= seq!['/'] + ".local/share"@);
    assert("/ck-entorhinal-data"@ =~= seq!['/'] + "ck-entorhinal-data"@);
    assert(".local/share"@[0] == '.');
    assert("ck-entorhinal-data"@[0] == 'c');
    if let Some(h) = home {
        assert(h + seq!['/'] + ".local/share"@ =~= h + "/.local/share"@);
    }
    assert(temp + seq!['/'] + "ck-entorhinal-data"@ =~= temp + "/ck-entorhinal-data"@);
}

/// A directory cannot be sent only where it is relative and there is no working directory
/// to look it up from; then the reason is told.
pub proof fn law_directories_that_cannot_be_sent(given: Text, place: Place)
    ensures
        cli::sent_path(given, place) is Err <==> place is Lost && !(given.len() > 0 && given[0]
            == '/'),
        place matches Place::Lost(e) ==> (cli::sent_path(given, place) matches Err(m) ==> m
            == "resolve '"@ + given + "': "@ + e),
{
}

} // verus!
