//! What the operator sees, and which request a method is.
use vstd::prelude::*;
use vstd::string::*;

use crate::cli;
use crate::cli::{Asked, Face, Order};
use crate::json;
use crate::json::{Field, Json};
use crate::laws_wire::lemma_at;
use crate::register;
use crate::render;
use crate::service;
use crate::service::Route;
use crate::text::Text;

verus! {

/// A warning names the id and the project that it is an alias of.
pub proof fn law_warnings_on_the_wire(old: Text, owner: Text)
    ensures
        register::warning(old, owner).at("oldId"@) == Json::Str(old),
        register::warning(old, owner).at("owner"@) == Json::Str(owner),
{
    let s: Seq<Field> = seq![("oldId"@, Json::Str(old)), ("owner"@, Json::Str(owner))];
    reveal_strlit("oldId");
    reveal_strlit("owner");
    assert("oldId"@[1] == 'l' && "owner"@[1] == 'w');
    lemma_at(s, 0);
    lemma_at(s, 1);
}

/// Which request each method is, and that there is no other.
pub proof fn law_methods_name_their_requests(method: Text)
    ensures
        service::route_of(method) == Some(Route::Resolve) <==> method == "resolve"@,
        service::route_of(method) == Some(Route::ResolveProjectId) <==> method
            == "resolve_project_id"@,
        service::route_of(method) == Some(Route::Enumerate) <==> method == "enumerate"@,
        service::route_of(method) == Some(Route::JournalTail) <==> method == "journal_tail"@,
        service::route_of(method) == Some(Route::Register) <==> method == "register"@,
        service::route_of(method) == Some(Route::AssignWorkspace) <==> method
            == "assign_workspace"@,
        service::route_of(method) == Some(Route::UpgradeImplicit) <==> method
            == "upgrade_implicit"@,
        service::route_of(method) == Some(Route::Remove) <==> method == "remove"@,
        service::route_of(method) == Some(Route::SeedImport) <==> method == "seed_import"@,
        service::route_of(method) == Some(Route::SessionLiveness) <==> method
            == "projects.session_liveness"@,
        service::route_of(method) == Some(Route::Verify) <==> method == "verify"@,
        service::route_of(method) == Some(Route::Rebuild) <==> method == "rebuild"@,
{
    reveal_strlit("resolve");
    reveal_strlit("resolve_project_id");
    reveal_strlit("enumerate");
    reveal_strlit("journal_tail");
    reveal_strlit("register");
    reveal_strlit("assign_workspace");
    reveal_strlit("upgrade_implicit");
    reveal_strlit("remove");
    reveal_strlit("seed_import");
    reveal_strlit("projects.session_liveness");
    reveal_strlit("verify");
    reveal_strlit("rebuild");
    assert("resolve"@.len() == 7 && "resolve_project_id"@.len() == 18 && "enumerate"@.len() == 9
        && "journal_tail"@.len() == 12 && "register"@.len() == 8 && "assign_workspace"@.len() == 16
        && "upgrade_implicit"@.len() == 16 && "remove"@.len() == 6 && "seed_import"@.len() == 11
        && "projects.session_liveness"@.len() == 25 && "verify"@.len() == 6 && "rebuild"@.len()
        == 7);
    assert("resolve"@[2] == 's' && "rebuild"@[2] == 'b' && "assign_workspace"@[0] == 'a'
        && "upgrade_implicit"@[0] == 'u' && "remove"@[0] == 'r' && "verify"@[0] == 'v');
}

/// What is asked for by flags that only inform: the version goes before all else but a
/// single flag of its own meaning, and help before any command.
pub proof fn law_flags_that_inform(face: Face, args: Seq<Text>)
    requires
        args.len() > 0,
        args != seq!["--ck-domain"@],
        args != seq!["--manifest"@],
    ensures
        args.contains("--version"@) ==> cli::asked(face, args) == Asked::Report(
            (match face {
                Face::Projects => "ck-projects"@,
                Face::Workspaces => "ck-workspaces"@,
                Face::Entorhinal => "ck-entorhinal"@,
            }) + " "@ + cli::VERSION@,
        ),
        !args.contains("--version"@) && (args.contains("--help"@) || args.contains("-h"@))
            ==> cli::asked(face, args) == Asked::Report(cli::usage_of(face)),
{
    if args.len() == 1 {
        assert(args =~= seq![args[0]]);
    }
}

/// A text filled up is the text with spaces behind it, as many as it lacks.
pub proof fn law_padding(t: Text, width: nat)
    ensures
        render::padded(t, width).len() == (if t.len() < width {
            width
        } else {
            t.len()
        }),
        render::padded(t, width).take(t.len() as int) == t,
        forall|i: int|
            t.len() <= i < render::padded(t, width).len() ==> #[trigger] render::padded(t, width)[i]
                == ' ',
    decreases width - t.len(),
{
    if t.len() < width {
        let more = t.push(' ');
        law_padding(more, width);
        let all = render::padded(t, width);
        assert(all.take(t.len() as int) =~= t) by {
            assert forall|i: int| 0 <= i < t.len() implies all[i] == t[i] by {
                assert(all.take(more.len() as int)[i] == more[i]);
            }
        }
        assert forall|i: int| t.len() <= i < all.len() implies #[trigger] all[i] == ' ' by {
            if i == t.len() {
                assert(all.take(more.len() as int)[i] == more[i]);
            }
        }
    } else {
        assert(t.take(t.len() as int) =~= t);
    }
}

/// Rows are told one by one, each on a line of its own: a column of twenty-eight
/// characters, a space, and the second column.
pub proof fn law_tables_have_a_line_for_each(
    a: Seq<Json>,
    b: Seq<Json>,
    item: Json,
    first: Text,
    second: Text,
)
    ensures
        render::columns(a + b, first, second) == render::columns(a, first, second)
            + render::columns(b, first, second),
        render::columns(seq![item], first, second) == render::padded(
            render::scalar(item.at(first)),
            28,
        ) + " "@ + render::scalar(item.at(second)) + "\n"@,
    decreases b.len(),
{
    let one = seq![item];
    assert(one.drop_last() =~= Seq::empty());
    assert(one.last() == item);
    assert(render::columns(one.drop_last(), first, second) =~= Seq::<char>::empty());
    let line = render::padded(render::scalar(item.at(first)), 28) + " "@ + render::scalar(
        item.at(second),
    ) + "\n"@;
    assert(render::columns(one, first, second) =~= line);
    if b.len() == 0 {
        assert(a + b =~= a);
        assert(render::columns(a, first, second) + render::columns(b, first, second)
            =~= render::columns(a, first, second));
    } else {
        let head = b.drop_last();
        law_tables_have_a_line_for_each(a, head, item, first, second);
        assert((a + b).drop_last() =~= a + head);
        assert((a + b).last() == b.last());
        assert(render::columns(a + b, first, second) =~= render::columns(a, first, second)
            + render::columns(b, first, second));
    }
}

/// What the operator sees of a resolved path: the project, its name and its workspace,
/// with a hyphen for what there is none of; and that it is not registered or gone, exactly
/// where it is.
pub proof fn law_resolutions_are_shown(o: Order, v: Json, id: Text)
    requires
        !o.json,
        o.face == Face::Projects,
        o.verb == "resolve"@,
        v.at("projectId"@) == Json::Str(id),
    ensures
        ({
            let seen = render::screen(o, v);
            let told = "project:   "@ + id + "\n"@ + "name:      "@ + render::scalar(
                v.at("projectName"@),
            ) + "\n"@ + "workspace: "@ + render::scalar(v.at("workspaceId"@)) + "\n"@;
            let status = "status:    NOT REGISTERED (derived id; nothing stored)\n"@;
            let gone = "root:      GONE (registered directory no longer exists)\n"@;
            let implicit = v.at("via"@) == Json::Str("implicit"@);
            let lost = v.at("gone"@) == Json::Bool(true);
            &&& !implicit && !lost ==> seen == told
            &&& implicit && !lost ==> seen == told + status
            &&& !implicit && lost ==> seen == told + gone
            &&& implicit && lost ==> seen == told + status + gone
        }),
        render::scalar(Json::Null) == "-"@,
{
    reveal_strlit("resolve");
    reveal_strlit("list");
    assert("resolve"@.len() == 7 && "list"@.len() == 4);
    let seen = render::screen(o, v);
    let told = "project:   "@ + id + "\n"@ + "name:      "@ + render::scalar(v.at("projectName"@))
        + "\n"@ + "workspace: "@ + render::scalar(v.at("workspaceId"@)) + "\n"@;
    let none = Seq::<char>::empty();
    assert(told + none + none =~= told);
    assert(told + none =~= told);
    let status = "status:    NOT REGISTERED (derived id; nothing stored)\n"@;
    let gone = "root:      GONE (registered directory no longer exists)\n"@;
    assert(told + status + none =~= told + status);
    assert(told + none + gone =~= told + gone);
    assert(seen =~= told + (if v.at("via"@) == Json::Str("implicit"@) {
        status
    } else {
        none
    }) + (if v.at("gone"@) == Json::Bool(true) {
        gone
    } else {
        none
    }));
}

/// What the operator sees of a list: a line for each, then how many there are; or that
/// there is none, and where none was looked for. With `--json`, and for every other verb,
/// it is the reply itself.
pub proof fn law_lists_are_shown(o: Order, v: Json, items: Seq<Json>)
    ensures
        ({
            let seen = render::screen(o, v);
            let lists = !o.json && o.verb == "list"@;
            &&& o.json ==> seen == json::json_pretty(v) + "\n"@
            &&& lists && o.face == Face::Workspaces && v.at("workspaces"@) == Json::Array(items)
                ==> seen == (if items.len() == 0 {
                "no workspaces\n"@
            } else {
                render::columns(items, "workspaceId"@, "name"@) + "\n"@ + json::digits(items.len())
                    + " workspace(s)\n"@
            })
            &&& lists && o.face == Face::Projects && v.at("projects"@) == Json::Array(items) ==> seen
                == (if items.len() > 0 {
                render::columns(items, "projectId"@, "name"@) + "\n"@ + json::digits(items.len())
                    + " project(s)\n"@
            } else if o.args.len() > 0 {
                "no projects in workspace '"@ + o.args[0] + "'\n"@
            } else {
                "no projects registered\n"@
            })
            &&& !o.json && o.verb != "list"@ && !(o.verb == "resolve"@ && o.face == Face::Projects)
                ==> seen == json::json_pretty(v) + "\n"@
        }),
{
}

/// A reply is opened where it is an object with a result, and nowhere else.
pub proof fn law_only_envelopes_open(v: Json)
    ensures
        render::enveloped(v) is Ok <==> (v matches Json::Object(m) && m.contains_key("result"@)),
        render::enveloped(v) matches Ok(w) ==> w == v.at("result"@),
{
}

} // verus!
