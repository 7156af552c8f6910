//! What holds of the command line and of the module that serves.
use vstd::prelude::*;

use crate::cli::{Face, Order, Place, Scan};
use crate::json::{Field, Json};
use crate::liveness::Live;
use crate::model::Registry;
use crate::queries::{Listing, Shown};
use crate::service::Call;
use crate::text::Text;
use crate::{cli, json, liveness, render, service, text};

verus! {

/// Only the module's own name serves or prints the manifest.
pub proof fn law_only_the_module_name_serves(face: Face, args: Seq<Text>)
    ensures
        cli::asked(face, args) is Module ==> face == Face::Entorhinal,
        cli::asked(face, args) is Manifest ==> face == Face::Entorhinal,
{
}

proof fn lemma_verb_stays(args: Seq<Text>, so_far: Scan)
    requires
        so_far.verb is Some,
    ensures
        cli::scan(args, so_far) matches Ok(s) ==> s.verb == so_far.verb,
    decreases args.len(),
{
    if args.len() > 0 {
        if args[0] == "--subc"@ {
            if args.len() > 1 {
                lemma_verb_stays(args.skip(2), Scan { connection: Some(args[1]), ..so_far });
            }
        } else if args[0] == "--json"@ {
            lemma_verb_stays(args.skip(1), Scan { json: true, ..so_far });
        } else {
            lemma_verb_stays(
                args.skip(1),
                Scan { args: so_far.args.push(args[0]), ..so_far },
            );
        }
    }
}

/// Whether an argument is a flag.
pub open spec fn is_flag(arg: Text) -> bool {
    arg.len() > 0 && arg[0] == '-'
}

proof fn lemma_verb_is_found(args: Seq<Text>, so_far: Scan, i: int)
    requires
        0 <= i < args.len(),
        !is_flag(args[i]),
        i == 0 || args[i - 1] != "--subc"@,
    ensures
        cli::scan(args, so_far) matches Ok(s) ==> s.verb is Some,
    decreases args.len(),
{
    reveal_strlit("--subc");
    reveal_strlit("--json");
    assert(is_flag("--subc"@) && is_flag("--json"@));
    if so_far.verb is Some {
        lemma_verb_stays(args, so_far);
    } else if i == 0 {
        lemma_verb_stays(args.skip(1), Scan { verb: Some(args[0]), ..so_far });
    } else if args[0] == "--subc"@ {
        if args.len() > 1 {
            let rest = args.skip(2);
            assert(i >= 2);
            assert(rest[i - 2] == args[i]);
            if i > 2 {
                assert(rest[i - 3] == args[i - 1]);
            }
            lemma_verb_is_found(rest, Scan { connection: Some(args[1]), ..so_far }, i - 2);
        }
    } else {
        let rest = args.skip(1);
        assert(rest[i - 1] == args[i]);
        if i > 1 {
            assert(rest[i - 2] == args[i - 1]);
        }
        if args[0] == "--json"@ {
            lemma_verb_is_found(rest, Scan { json: true, ..so_far }, i - 1);
        } else if !is_flag(args[0]) {
            lemma_verb_stays(rest, Scan { verb: Some(args[0]), ..so_far });
        }
    }
}

/// No operator's command serves: arguments with anything among them that is
/// neither a flag nor a connection file never start the module.
pub proof fn law_verbs_never_serve(face: Face, args: Seq<Text>, i: int)
    requires
        0 <= i < args.len(),
        !is_flag(args[i]),
        i == 0 || args[i - 1] != "--subc"@,
    ensures
        !(cli::asked(face, args) is Module),
{
    lemma_verb_is_found(args, cli::unread(), i);
}

/// Asking for help explains, wherever the flag stands, and never acts.
pub proof fn law_help_explains(face: Face, args: Seq<Text>)
    requires
        args.contains("--help"@) || args.contains("-h"@),
    ensures
        cli::asked(face, args) is Report,
{
    reveal_strlit("--help");
    reveal_strlit("-h");
    reveal_strlit("--ck-domain");
    reveal_strlit("--manifest");
    assert("--help"@.len() == 6 && "-h"@.len() == 2 && "--ck-domain"@.len() == 11
        && "--manifest"@.len() == 10);
    if args.len() == 1 {
        if args.contains("--help"@) {
            let i = choose|i: int| 0 <= i < args.len() && args[i] == "--help"@;
            assert(args[0] == "--help"@);
        } else {
            let i = choose|i: int| 0 <= i < args.len() && args[i] == "-h"@;
            assert(args[0] == "-h"@);
        }
    }
}

/// The daemon's way to start the module serves under its own name, and under no
/// other.
pub proof fn law_the_daemon_reaches_the_module(face: Face, connection: Text)
    requires
        connection != "--version"@,
        connection != "--help"@,
        connection != "-h"@,
    ensures
        cli::asked(face, seq!["--subc"@, connection]) is Module <==> face == Face::Entorhinal,
        cli::asked(face, Seq::empty()) is Module <==> face == Face::Entorhinal,
{
    let args = seq!["--subc"@, connection];
    reveal_strlit("--subc");
    reveal_strlit("--version");
    reveal_strlit("--help");
    reveal_strlit("-h");
    assert("--subc"@.len() == 6 && "--version"@.len() == 9 && "-h"@.len() == 2);
    assert("--subc"@[2] == 's' && "--help"@[2] == 'h');
    assert(!args.contains("--version"@)) by {
        assert(args[0] != "--version"@ && args[1] != "--version"@);
    }
    assert(!args.contains("--help"@)) by {
        assert(args[0] != "--help"@ && args[1] != "--help"@);
    }
    assert(!args.contains("-h"@)) by {
        assert(args[0] != "-h"@ && args[1] != "-h"@);
    }
    let rest = args.skip(2);
    assert(rest =~= Seq::empty());
    reveal_with_fuel(cli::scan, 2);
    assert(cli::scan(args, cli::unread()) == Ok::<Scan, cli::Fault>(
        Scan { connection: Some(connection), ..cli::unread() },
    ));
}

/// Every request that a verb stands for is one that the module answers.
pub proof fn law_verbs_are_answered(o: Order, place: Place)
    ensures
        cli::request_of(o, place) matches Ok(letter) ==> service::route_of(letter.method) is Some,
{
}

/// The module answers exactly what it offers.
pub proof fn law_offers_are_answered(method: Text)
    ensures
        service::route_of(method) is Some <==> exists|i: int|
            0 <= i < service::offered().len() && (#[trigger] service::offered()[i]).0 == method,
{
    let all = service::offered();
    assert(all[0].0 == "resolve"@);
    assert(all[1].0 == "resolve_project_id"@);
    assert(all[2].0 == "enumerate"@);
    assert(all[3].0 == "journal_tail"@);
    assert(all[4].0 == "register"@);
    assert(all[5].0 == "assign_workspace"@);
    assert(all[6].0 == "upgrade_implicit"@);
    assert(all[7].0 == "remove"@);
    assert(all[8].0 == "seed_import"@);
    assert(all[9].0 == "verify"@);
    assert(all[10].0 == "rebuild"@);
    assert(all[11].0 == "projects.session_liveness"@);
}

/// A query leaves the registry, and so the journal head, as it was.
pub proof fn law_queries_do_not_write(
    reg: Registry,
    sessions: Map<Text, Live>,
    call: Call,
    now: i64,
)
    requires
        call is Resolve || call is ResolveProjectId || call is Enumerate || call is JournalTail
            || call is Verify,
    ensures
        service::handled(reg, sessions, call, now).registry == reg,
{
}

/// What is put into an envelope comes out of it.
pub proof fn law_envelopes_open(v: Json)
    ensures
        render::enveloped(json::object(seq![("result"@, v)])) == Ok::<Json, Text>(v),
{
    let s: Seq<Field> = seq![("result"@, v)];
    assert(s.drop_last() =~= Seq::empty());
    assert(json::fields_map(s) == json::fields_map(s.drop_last()).insert("result"@, v));
}

/// Absence and the text `null` are told apart.
pub proof fn law_absence_is_told_from_null()
    ensures
        render::scalar(Json::Null) != render::scalar(Json::Str("null"@)),
{
    reveal_strlit("-");
    reveal_strlit("null");
    assert("-"@.len() != "null"@.len());
}

proof fn lemma_newest_exists(sessions: Map<Text, Live>, roots: Seq<Text>, ids: Set<Text>)
    requires
        ids.finite(),
        forall|id: Text| ids.contains(id) ==> #[trigger] liveness::alive_in(sessions, id, roots),
        ids.len() > 0,
    ensures
        exists|best: Text| #[trigger]
            ids.contains(best) && forall|id: Text| #[trigger]
                ids.contains(id) ==> sessions[id].activity <= sessions[best].activity,
    decreases ids.len(),
{
    let one = ids.choose();
    let rest = ids.remove(one);
    if rest.len() == 0 {
        assert forall|id: Text| #[trigger] ids.contains(id) implies sessions[id].activity
            <= sessions[one].activity by {
            if id != one {
                assert(rest.contains(id));
            }
        }
        assert(ids.contains(one));
    } else {
        assert forall|id: Text| rest.contains(id) implies #[trigger] liveness::alive_in(
            sessions,
            id,
            roots,
        ) by {
            assert(ids.contains(id));
        }
        lemma_newest_exists(sessions, roots, rest);
        let b = choose|best: Text| #[trigger]
            rest.contains(best) && forall|id: Text| #[trigger]
                rest.contains(id) ==> sessions[id].activity <= sessions[best].activity;
        let best = if sessions[one].activity > sessions[b].activity {
            one
        } else {
            b
        };
        assert(ids.contains(best));
        assert forall|id: Text| #[trigger] ids.contains(id) implies sessions[id].activity
            <= sessions[best].activity by {
            if id != one {
                assert(rest.contains(id));
            }
        }
    }
}

/// A project's activity is the newest of the sessions alive in it, and absent
/// exactly where none is.
pub proof fn law_activity_is_the_newest(sessions: Map<Text, Live>, roots: Seq<Text>)
    requires
        sessions.dom().finite(),
    ensures
        match liveness::newest(sessions, roots) {
            Some(a) => liveness::is_newest(sessions, roots, a),
            None => forall|id: Text| !#[trigger] liveness::alive_in(sessions, id, roots),
        },
{
    if exists|id: Text| liveness::alive_in(sessions, id, roots) {
        let ids = sessions.dom().filter(|id: Text| liveness::alive_in(sessions, id, roots));
        sessions.dom().lemma_len_filter(|id: Text| liveness::alive_in(sessions, id, roots));
        let some = choose|id: Text| liveness::alive_in(sessions, id, roots);
        assert(ids.contains(some));
        if ids.len() == 0 {
            assert(ids =~= Set::empty());
        }
        lemma_newest_exists(sessions, roots, ids);
        let best = choose|best: Text| #[trigger]
            ids.contains(best) && forall|id: Text| #[trigger]
                ids.contains(id) ==> sessions[id].activity <= sessions[best].activity;
        let a = sessions[best].activity;
        assert(liveness::alive_in(sessions, best, roots));
        assert forall|id: Text| #[trigger]
            liveness::alive_in(sessions, id, roots) implies sessions[id].activity <= a by {
            assert(ids.contains(id));
        }
        assert(liveness::is_newest(sessions, roots, a));
        liveness::lemma_newest(sessions, roots, a);
    }
}

/// Telling activity changes nothing else of an enumeration.
pub proof fn law_activity_is_all_that_is_told(sessions: Map<Text, Live>, l: Listing, i: int)
    requires
        0 <= i < l.projects.len(),
    ensures
        ({
            let told = liveness::annotated(sessions, l);
            &&& told.workspaces == l.workspaces && told.generation == l.generation
            &&& told.projects.len() == l.projects.len()
            &&& told.projects[i] == (Shown { activity: told.projects[i].activity, ..l.projects[i] })
        }),
{
}

/// Whether a face lists a verb where it explains itself.
pub open spec fn lists(face: Face, verb: Text) -> bool {
    exists|k: int| 0 <= k < cli::verbs_of(face).len() && (#[trigger] cli::verbs_of(face)[k]).0 == verb
}

/// How many arguments a verb needs.
pub open spec fn needed(verb: Text) -> int {
    if verb == "register"@ || verb == "assign"@ {
        2
    } else if verb == "resolve"@ || verb == "remove"@ {
        1
    } else {
        0
    }
}

/// Whether a text occurs in another one.
pub open spec fn occurs(part: Text, whole: Text) -> bool {
    exists|i: int|
        0 <= i <= whole.len() - part.len() && #[trigger] whole.subrange(i, i + part.len()) == part
}

/// Whether the directory that a verb is given, where it is given one, can be sent:
/// it was resolved, or the working directory is known, or the directory does not
/// depend on it.
pub open spec fn sendable(o: Order, place: Place) -> bool {
    match cli::directory_place(o) {
        Some(i) => cli::sent_path(o.args[i], place) is Ok,
        None => true,
    }
}

proof fn lemma_listing_has_lines(verbs: Seq<(Text, Text)>, k: int) -> (at: int)
    requires
        0 <= k < verbs.len(),
    ensures
        ({
            let line = "\n  "@ + verbs[k].0;
            &&& 0 <= at <= cli::listing(verbs).len() - line.len()
            &&& cli::listing(verbs).subrange(at, at + line.len()) == line
        }),
    decreases verbs.len(),
{
    let head = verbs.drop_last();
    let line = "\n  "@ + verbs[k].0;
    let all = cli::listing(verbs);
    if k < head.len() {
        let at = lemma_listing_has_lines(head, k);
        assert(head[k] == verbs[k]);
        assert(all.subrange(at, at + line.len()) =~= cli::listing(head).subrange(
            at,
            at + line.len(),
        ));
        at
    } else {
        let at = cli::listing(head).len() as int;
        assert(all.subrange(at, at + line.len()) =~= line);
        at
    }
}

/// What an operator's name lists is what it accepts: a verb that it explains, given
/// as many arguments as the verb needs, makes a request wherever the directory among
/// them can be sent; with fewer, and for every verb that it does not explain, there
/// is none. The verbs of `ck projects` and of `ck workspaces` are those named here,
/// each begins a line of its own in the text, and the module's own name accepts
/// none. What is explained follows the word for how to use it.
pub proof fn law_listed_verbs_are_accepted(o: Order, place: Place)
    ensures
        lists(o.face, o.verb) && o.args.len() >= needed(o.verb) && sendable(o, place)
            <==> cli::request_of(o, place) is Ok,
        lists(o.face, o.verb) ==> occurs("\n  "@ + o.verb, cli::usage_of(o.face)),
        o.face == Face::Projects ==> (lists(o.face, o.verb) <==> o.verb == "list"@ || o.verb
            == "resolve"@ || o.verb == "register"@ || o.verb == "remove"@ || o.verb == "verify"@),
        o.face == Face::Workspaces ==> (lists(o.face, o.verb) <==> o.verb == "list"@ || o.verb
            == "assign"@),
        o.face == Face::Entorhinal ==> !lists(o.face, o.verb),
        o.face != Face::Entorhinal ==> occurs("usage:"@, cli::usage_of(o.face)),
{
    reveal_strlit("list");
    reveal_strlit("resolve");
    reveal_strlit("register");
    reveal_strlit("remove");
    reveal_strlit("verify");
    reveal_strlit("assign");
    assert("list"@.len() == 4 && "resolve"@.len() == 7 && "register"@.len() == 8 && "remove"@[0]
        == 'r' && "verify"@[0] == 'v' && "assign"@[0] == 'a' && "remove"@.len() == 6
        && "verify"@.len() == 6 && "assign"@.len() == 6);
    let verbs = cli::verbs_of(o.face);
    match o.face {
        Face::Projects => {
            assert(verbs[0].0 == "list"@ && verbs[1].0 == "resolve"@ && verbs[2].0 == "register"@
                && verbs[3].0 == "remove"@ && verbs[4].0 == "verify"@);
        },
        Face::Workspaces => {
            assert(verbs[0].0 == "list"@ && verbs[1].0 == "assign"@);
        },
        Face::Entorhinal => {},
    }
    if o.face != Face::Entorhinal {
        let title = match o.face {
            Face::Projects => "ck projects — the project registry\n\n"@,
            _ => "ck workspaces — group projects into workspaces\n\n"@,
        };
        let whole = cli::usage_of(o.face);
        let at = title.len() as int;
        assert(whole.subrange(at, at + "usage:"@.len()) =~= "usage:"@);
    }
    if lists(o.face, o.verb) {
        let k = choose|k: int| 0 <= k < verbs.len() && (#[trigger] verbs[k]).0 == o.verb;
        let line = "\n  "@ + o.verb;
        let whole = cli::usage_of(o.face);
        let at = cli::heading(o.face).len() + lemma_listing_has_lines(verbs, k);
        assert(whole.subrange(at, at + line.len()) =~= cli::listing(verbs).subrange(
            at - cli::heading(o.face).len(),
            at - cli::heading(o.face).len() + line.len(),
        ));
    }
}

} // verus!
