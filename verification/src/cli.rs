//! The operator's command line. One binary has three names, and the name it was
//! started under decides what it offers.
use vstd::prelude::*;
use vstd::string::*;

use crate::json::{array_value, field, object_value, text_value, Field, Json};
use crate::paths::{file_name, file_stem, join_path};
use crate::text::{cat, cat3, split_str, str_eq, Text};
use crate::{json, paths, text};

verus! {

/// The version of this program.
pub const VERSION: &'static str = "0.1.0";

/// The flags that every verb takes.
pub const FLAGS_USAGE: &'static str = "

  --subc <path>   daemon connection file; defaults to the usual discovery path
  --json          raw response instead of the rendered form

";

/// What the module's own name offers.
pub const ENTORHINAL_USAGE: &'static str = "\
ck-entorhinal — the registry module (supervised by the subc daemon)

This binary is the module itself; it is not an operator command. The operator
surface is:

  ck projects      list, register, resolve, remove, verify
  ck workspaces    list, assign

With no arguments it runs as the supervised module, which is how the daemon
spawns it.";

/// Exit status when the daemon could not be reached or understood.
pub const EXIT_TRANSPORT: u8 = 2;

/// Exit status when the registry refused.
pub const EXIT_REFUSED: u8 = 3;

/// Exit status of a malformed invocation.
pub const EXIT_USAGE: u8 = 64;

/// The name this binary was started under.
#[derive(Clone, Copy, PartialEq, Eq, Debug, Structural)]
pub enum Face {
    /// `ck-projects`: the project registry verbs.
    Projects,
    /// `ck-workspaces`: workspace listing and project placement.
    Workspaces,
    /// `ck-entorhinal`: the supervised module itself.
    Entorhinal,
}

/// What the operator asked for, settled before anything is opened or dialled.
#[derive(Debug)]
pub enum Invocation {
    /// Run as the supervised module. The only one that serves.
    Module,
    /// Print the module's manifest and exit 0.
    Manifest,
    /// Answer and exit 0.
    Report(String),
    /// Refuse and exit nonzero.
    Refuse(String),
    /// A verb to run against the daemon.
    Command(Command),
}

/// A verb with what it was given.
#[derive(Debug)]
pub struct Command {
    pub face: Face,
    pub verb: String,
    pub connection: Option<String>,
    pub args: Vec<String>,
    pub json: bool,
}

/// What a [`Command`] says.
pub struct Order {
    pub face: Face,
    pub verb: Text,
    pub connection: Option<Text>,
    pub args: Seq<Text>,
    pub json: bool,
}

/// What an [`Invocation`] says.
pub enum Asked {
    Module,
    Manifest,
    Report(Text),
    Refuse(Text),
    Command(Order),
}

impl View for Command {
    type V = Order;

    open spec fn view(&self) -> Order {
        Order {
            face: self.face,
            verb: self.verb@,
            connection: text::opt_text(self.connection),
            args: text::texts(self.args@),
            json: self.json,
        }
    }
}

impl View for Invocation {
    type V = Asked;

    open spec fn view(&self) -> Asked {
        match self {
            Invocation::Module => Asked::Module,
            Invocation::Manifest => Asked::Manifest,
            Invocation::Report(s) => Asked::Report(s@),
            Invocation::Refuse(s) => Asked::Refuse(s@),
            Invocation::Command(c) => Asked::Command(c@),
        }
    }
}

/// The face a binary of that name shows. Any other name is the module's: a
/// wrapper that renames it should still serve.
pub open spec fn face_of_stem(stem: Text) -> Face {
    if stem == "ck-projects"@ {
        Face::Projects
    } else if stem == "ck-workspaces"@ {
        Face::Workspaces
    } else {
        Face::Entorhinal
    }
}

/// The face that the path of the started binary selects.
pub open spec fn face_of(argv0: Option<Text>) -> Face {
    match argv0 {
        Some(path) => match paths::file_name_of(path) {
            Some(name) => face_of_stem(paths::stem_of(name)),
            None => Face::Entorhinal,
        },
        None => Face::Entorhinal,
    }
}

/// What a face is called.
pub open spec fn name_of(face: Face) -> Text {
    match face {
        Face::Projects => "ck-projects"@,
        Face::Workspaces => "ck-workspaces"@,
        Face::Entorhinal => "ck-entorhinal"@,
    }
}

/// The verbs that a face offers, each with what stands behind it where it is
/// explained.
pub open spec fn verbs_of(face: Face) -> Seq<(Text, Text)> {
    match face {
        Face::Projects => seq![
            ("list"@, " [workspace]        projects, optionally scoped to one workspace"@),
            ("resolve"@, " <dir>           which project owns a directory"@),
            ("register"@, " <name> <dir>   register a project rooted at a directory"@),
            ("remove"@, " <project>        remove a project from the registry"@),
            ("verify"@, "                  check the store against its journal"@),
        ],
        Face::Workspaces => seq![
            ("list"@, "                    workspaces known to the registry"@),
            (
                "assign"@,
                " <project> <workspace>\n                          put a project in a workspace (moves it if already in another)"@,
            ),
        ],
        Face::Entorhinal => Seq::empty(),
    }
}

/// Verbs as they are listed: one behind the other, each on a line of its own.
pub open spec fn listing(verbs: Seq<(Text, Text)>) -> Text
    decreases verbs.len(),
{
    if verbs.len() == 0 {
        Seq::empty()
    } else {
        listing(verbs.drop_last()) + ("\n  "@ + verbs.last().0 + verbs.last().1)
    }
}

/// What a face says before it lists its verbs.
pub open spec fn heading(face: Face) -> Text {
    match face {
        Face::Projects => "ck projects — the project registry\n\n"@ + "usage:"@
            + " ck projects <verb> [args] [--subc <connection file>] [--json]\n"@,
        Face::Workspaces => "ck workspaces — group projects into workspaces\n\n"@ + "usage:"@
            + " ck workspaces <verb> [args] [--subc <connection file>] [--json]\n"@,
        Face::Entorhinal => ENTORHINAL_USAGE@,
    }
}

/// What a face says after it has listed its verbs.
pub open spec fn footing(face: Face) -> Text {
    match face {
        Face::Projects => FLAGS_USAGE@ + "workspace placement lives under 'ck workspaces'"@,
        Face::Workspaces => FLAGS_USAGE@ + "projects themselves live under 'ck projects'"@,
        Face::Entorhinal => Seq::empty(),
    }
}

/// What a face offers: its verbs, between a heading and a footing.
pub open spec fn usage_of(face: Face) -> Text {
    heading(face) + listing(verbs_of(face)) + footing(face)
}

/// The first line of a text.
pub open spec fn first_line(t: Text) -> Text {
    text::split(t, '\n')[0]
}

/// What reading arguments has found so far.
#[verifier::ext_equal]
pub struct Scan {
    pub verb: Option<Text>,
    pub connection: Option<Text>,
    pub args: Seq<Text>,
    pub json: bool,
}

/// Why arguments cannot be read.
pub enum Fault {
    /// `--subc` is last.
    NoPath,
    /// A flag that nobody knows.
    Flag(Text),
}

/// Reads arguments: flags, then the verb, then what it is given. Flags may stand
/// anywhere.
pub open spec fn scan(args: Seq<Text>, so_far: Scan) -> Result<Scan, Fault>
    decreases args.len(),
{
    if args.len() == 0 {
        Ok(so_far)
    } else if args[0] == "--subc"@ {
        if args.len() == 1 {
            Err(Fault::NoPath)
        } else {
            scan(args.skip(2), Scan { connection: Some(args[1]), ..so_far })
        }
    } else if args[0] == "--json"@ {
        scan(args.skip(1), Scan { json: true, ..so_far })
    } else if args[0].len() > 0 && args[0][0] == '-' {
        Err(Fault::Flag(args[0]))
    } else if so_far.verb is None {
        scan(args.skip(1), Scan { verb: Some(args[0]), ..so_far })
    } else {
        scan(args.skip(1), Scan { args: so_far.args.push(args[0]), ..so_far })
    }
}

/// Nothing read yet.
pub open spec fn unread() -> Scan {
    Scan { verb: None, connection: None, args: Seq::empty(), json: false }
}

/// What arguments ask for that no informational flag settles.
pub open spec fn asked_by_scan(face: Face, args: Seq<Text>) -> Asked {
    match scan(args, unread()) {
        Err(Fault::NoPath) => Asked::Refuse("--subc needs a path"@),
        Err(Fault::Flag(flag)) => Asked::Refuse(
            "unknown flag '"@ + flag + "'\n\n"@ + usage_of(face),
        ),
        Ok(s) => match s.verb {
            None => if s.connection is Some && face == Face::Entorhinal {
                Asked::Module
            } else {
                Asked::Report(usage_of(face))
            },
            Some(verb) => Asked::Command(
                Order { face, verb, connection: s.connection, args: s.args, json: s.json },
            ),
        },
    }
}

/// What arguments ask for.
pub open spec fn asked(face: Face, args: Seq<Text>) -> Asked {
    if args.len() == 0 {
        if face == Face::Entorhinal {
            Asked::Module
        } else {
            Asked::Report(usage_of(face))
        }
    } else if args.len() == 1 && args[0] == "--ck-domain"@ {
        if face == Face::Entorhinal {
            Asked::Refuse(
                "ck-entorhinal is a module, not a ck domain; the domains are ck projects and ck workspaces"@,
            )
        } else {
            Asked::Report(first_line(usage_of(face)))
        }
    } else if args.len() == 1 && args[0] == "--manifest"@ && face == Face::Entorhinal {
        Asked::Manifest
    } else if args.contains("--version"@) {
        Asked::Report(name_of(face) + " "@ + VERSION@)
    } else if args.contains("--help"@) || args.contains("-h"@) {
        Asked::Report(usage_of(face))
    } else {
        asked_by_scan(face, args)
    }
}

/// The face that the path of the started binary selects.
pub fn face_from_argv0(argv0: Option<&str>) -> (r: Face)
    ensures
        r == face_of(
            match argv0 {
                Some(path) => Some(path@),
                None => None,
            },
        ),
{
    let path = match argv0 {
        Some(path) => path,
        None => return Face::Entorhinal,
    };
    match file_name(path) {
        Some(name) => {
            let stem = file_stem(name.as_str());
            if str_eq(stem.as_str(), "ck-projects") {
                Face::Projects
            } else if str_eq(stem.as_str(), "ck-workspaces") {
                Face::Workspaces
            } else {
                Face::Entorhinal
            }
        },
        None => Face::Entorhinal,
    }
}

/// What a face is called.
pub fn binary_name(face: Face) -> (r: &'static str)
    ensures
        r@ == name_of(face),
{
    match face {
        Face::Projects => "ck-projects",
        Face::Workspaces => "ck-workspaces",
        Face::Entorhinal => "ck-entorhinal",
    }
}

/// The verbs in a vector, each with what stands behind it.
pub open spec fn offered(v: Seq<(&'static str, &'static str)>) -> Seq<(Text, Text)> {
    v.map_values(|o: (&'static str, &'static str)| (o.0@, o.1@))
}

fn offers(face: Face) -> (r: Vec<(&'static str, &'static str)>)
    ensures
        offered(r@) == verbs_of(face),
{
    let mut v: Vec<(&'static str, &'static str)> = Vec::new();
    match face {
        Face::Projects => {
            v.push(("list", " [workspace]        projects, optionally scoped to one workspace"));
            v.push(("resolve", " <dir>           which project owns a directory"));
            v.push(("register", " <name> <dir>   register a project rooted at a directory"));
            v.push(("remove", " <project>        remove a project from the registry"));
            v.push(("verify", "                  check the store against its journal"));
        },
        Face::Workspaces => {
            v.push(("list", "                    workspaces known to the registry"));
            v.push(
                (
                    "assign",
                    " <project> <workspace>\n                          put a project in a workspace (moves it if already in another)",
                ),
            );
        },
        Face::Entorhinal => {},
    }
    assert(offered(v@) =~= verbs_of(face));
    v
}

/// What a face offers.
pub fn usage(face: Face) -> (r: String)
    ensures
        r@ == usage_of(face),
{
    let mut out = match face {
        Face::Projects => cat3(
            "ck projects — the project registry\n\n",
            "usage:",
            " ck projects <verb> [args] [--subc <connection file>] [--json]\n",
        ),
        Face::Workspaces => cat3(
            "ck workspaces — group projects into workspaces\n\n",
            "usage:",
            " ck workspaces <verb> [args] [--subc <connection file>] [--json]\n",
        ),
        Face::Entorhinal => ENTORHINAL_USAGE.to_owned(),
    };
    let v = offers(face);
    let ghost all = offered(v@);
    let mut i: usize = 0;
    assert(all.take(0) =~= Seq::empty());
    assert(out@ =~= heading(face) + listing(all.take(0)));
    while i < v.len()
        invariant
            all == offered(v@),
            i <= v@.len(),
            out@ == heading(face) + listing(all.take(i as int)),
        decreases v@.len() - i,
    {
        assert(all.take(i + 1).drop_last() =~= all.take(i as int));
        assert(all.take(i + 1).last() == (v@[i as int].0@, v@[i as int].1@));
        let ghost before = listing(all.take(i as int));
        let line = cat3("\n  ", v[i].0, v[i].1);
        out.append(line.as_str());
        assert(out@ =~= heading(face) + (before + line@));
        i = i + 1;
    }
    assert(all.take(i as int) =~= all);
    match face {
        Face::Projects => {
            let foot = cat(FLAGS_USAGE, "workspace placement lives under 'ck workspaces'");
            out.append(foot.as_str());
        },
        Face::Workspaces => {
            let foot = cat(FLAGS_USAGE, "projects themselves live under 'ck projects'");
            out.append(foot.as_str());
        },
        Face::Entorhinal => {
            assert(out@ + Seq::<char>::empty() =~= out@);
        },
    }
    out
}

fn mentions(args: &[String], s: &str) -> (r: bool)
    ensures
        r == text::texts(args@).contains(s@),
{
    let ghost all = text::texts(args@);
    let mut i: usize = 0;
    while i < args.len()
        invariant
            all == text::texts(args@),
            i <= args@.len(),
            forall|j: int| 0 <= j < i ==> #[trigger] all[j] != s@,
        decreases args@.len() - i,
    {
        assert(all[i as int] == args@[i as int]@);
        if str_eq(args[i].as_str(), s) {
            return true;
        }
        i = i + 1;
    }
    false
}

fn begins_with_dash(s: &str) -> (r: bool)
    ensures
        r == (s@.len() > 0 && s@[0] == '-'),
{
    if s.is_empty() {
        return false;
    }
    s.get_char(0) == '-'
}

fn parse_scan(face: Face, arguments: &[String]) -> (r: Invocation)
    ensures
        r@ == asked_by_scan(face, text::texts(arguments@)),
{
    let ghost all = text::texts(arguments@);
    let mut verb: Option<String> = None;
    let mut connection: Option<String> = None;
    let mut args: Vec<String> = Vec::new();
    let mut json = false;
    let mut i: usize = 0;
    assert(all.skip(0) =~= all);
    assert(text::texts(args@) =~= Seq::empty());
    while i < arguments.len()
        invariant
            all == text::texts(arguments@),
            i <= arguments@.len(),
            scan(all, unread()) == scan(
                all.skip(i as int),
                Scan {
                    verb: text::opt_text(verb),
                    connection: text::opt_text(connection),
                    args: text::texts(args@),
                    json,
                },
            ),
        decreases arguments@.len() - i,
    {
        let ghost here = all.skip(i as int);
        assert(here[0] == arguments@[i as int]@);
        assert(here.skip(1) =~= all.skip(i + 1));
        let argument = arguments[i].as_str();
        if str_eq(argument, "--subc") {
            if i + 1 >= arguments.len() {
                return Invocation::Refuse("--subc needs a path".to_owned());
            }
            assert(here[1] == arguments@[i + 1]@);
            assert(here.skip(2) =~= all.skip(i + 2));
            connection = Some(arguments[i + 1].clone());
            i = i + 2;
        } else if str_eq(argument, "--json") {
            json = true;
            i = i + 1;
        } else if begins_with_dash(argument) {
            let m = cat3("unknown flag '", argument, "'\n\n");
            return Invocation::Refuse(cat(m.as_str(), usage(face).as_str()));
        } else if verb.is_none() {
            verb = Some(argument.to_owned());
            i = i + 1;
        } else {
            let ghost before = text::texts(args@);
            args.push(argument.to_owned());
            assert(text::texts(args@) =~= before.push(argument@));
            i = i + 1;
        }
    }
    match verb {
        None => {
            if connection.is_some() && face == Face::Entorhinal {
                Invocation::Module
            } else {
                Invocation::Report(usage(face))
            }
        },
        Some(verb) => Invocation::Command(Command { face, verb, connection, args, json }),
    }
}

/// Reads arguments without acting on them.
pub fn parse(face: Face, arguments: &[String]) -> (r: Invocation)
    ensures
        r@ == asked(face, text::texts(arguments@)),
{
    let ghost all = text::texts(arguments@);
    if arguments.len() == 0 {
        return match face {
            Face::Entorhinal => Invocation::Module,
            _ => Invocation::Report(usage(face)),
        };
    }
    assert(all[0] == arguments@[0]@);
    if arguments.len() == 1 && str_eq(arguments[0].as_str(), "--ck-domain") {
        return match face {
            Face::Entorhinal => Invocation::Refuse(
                "ck-entorhinal is a module, not a ck domain; the domains are ck projects and ck workspaces".to_owned(),
            ),
            _ => {
                let lines = split_str(usage(face).as_str(), '\n');
                proof {
                    text::lemma_split_nonempty(usage_of(face), '\n');
                    assert(text::texts(lines@)[0] == lines@[0]@);
                }
                Invocation::Report(lines[0].clone())
            },
        };
    }
    if arguments.len() == 1 && str_eq(arguments[0].as_str(), "--manifest") && face
        == Face::Entorhinal {
        return Invocation::Manifest;
    }
    if mentions(arguments, "--version") {
        return Invocation::Report(cat3(binary_name(face), " ", VERSION));
    }
    if mentions(arguments, "--help") || mentions(arguments, "-h") {
        return Invocation::Report(usage(face));
    }
    parse_scan(face, arguments)
}

/// A request in the module's own vocabulary.
pub struct Letter {
    pub method: Text,
    pub params: Json,
}

/// The refusal of a verb that lacks an argument.
pub open spec fn lacking(o: Order, what: Text) -> Text {
    o.verb + " needs "@ + what + "\n\n"@ + usage_of(o.face)
}

/// Which argument of a verb is a directory.
pub open spec fn directory_place(o: Order) -> Option<int> {
    if o.face == Face::Projects && o.verb == "resolve"@ {
        Some(0)
    } else if o.face == Face::Projects && o.verb == "register"@ {
        Some(1)
    } else {
        None
    }
}

/// What the operator's shell makes of a directory: its canonical form, the
/// directory where it does not resolve, or the reason why there is no telling.
pub enum Directory {
    /// The directory resolves.
    Resolved(String),
    /// The directory does not resolve; the working directory is given.
    Unresolved(String),
    /// There is no working directory; the reason is given.
    Lost(String),
}

/// What a [`Directory`] says.
pub enum Place {
    Resolved(Text),
    Unresolved(Text),
    Lost(Text),
}

impl View for Directory {
    type V = Place;

    open spec fn view(&self) -> Place {
        match self {
            Directory::Resolved(s) => Place::Resolved(s@),
            Directory::Unresolved(s) => Place::Unresolved(s@),
            Directory::Lost(s) => Place::Lost(s@),
        }
    }
}

/// The path that is sent for a directory.
pub open spec fn sent_path(given: Text, place: Place) -> Result<Text, Text> {
    match place {
        Place::Resolved(path) => Ok(path),
        Place::Unresolved(cwd) => Ok(paths::joined(cwd, given)),
        Place::Lost(e) => if paths::rooted(given) {
            Ok(given)
        } else {
            Err("resolve '"@ + given + "': "@ + e)
        },
    }
}

/// A request that takes no parameters.
pub open spec fn bare(method: Text) -> Letter {
    Letter { method, params: json::object(Seq::empty()) }
}

/// A request with these parameters.
pub open spec fn letter(method: Text, fields: Seq<Field>) -> Letter {
    Letter { method, params: json::object(fields) }
}

/// The request that a verb stands for; else what to tell the operator. `place`
/// says what the shell makes of the verb's directory, where it has one.
pub open spec fn request_of(o: Order, place: Place) -> Result<Letter, Text> {
    let who = ("actor"@, Json::Str(name_of(o.face)));
    match o.face {
        Face::Projects => if o.verb == "list"@ {
            if o.args.len() > 0 {
                Ok(letter("enumerate"@, seq![("workspaceId"@, Json::Str(o.args[0]))]))
            } else {
                Ok(bare("enumerate"@))
            }
        } else if o.verb == "resolve"@ {
            if o.args.len() < 1 {
                Err(lacking(o, "a directory"@))
            } else {
                match sent_path(o.args[0], place) {
                    Ok(path) => Ok(
                        letter("resolve"@, seq![("canonicalRoot"@, Json::Str(path))]),
                    ),
                    Err(e) => Err(e),
                }
            }
        } else if o.verb == "register"@ {
            if o.args.len() < 1 {
                Err(lacking(o, "a name"@))
            } else if o.args.len() < 2 {
                Err(lacking(o, "a directory"@))
            } else {
                match sent_path(o.args[1], place) {
                    Ok(path) => Ok(
                        letter(
                            "register"@,
                            seq![
                                ("name"@, Json::Str(o.args[0])),
                                ("roots"@, json::text_array(seq![path])),
                                who,
                            ],
                        ),
                    ),
                    Err(e) => Err(e),
                }
            }
        } else if o.verb == "remove"@ {
            if o.args.len() < 1 {
                Err(lacking(o, "a project id"@))
            } else {
                Ok(letter("remove"@, seq![("projectId"@, Json::Str(o.args[0])), who]))
            }
        } else if o.verb == "verify"@ {
            Ok(bare("verify"@))
        } else if o.verb == "workspace"@ {
            Err(
                "'workspace' moved: use 'ck workspaces assign <project> <workspace>'\n\n"@
                    + usage_of(Face::Workspaces),
            )
        } else {
            Err("unknown verb '"@ + o.verb + "'\n\n"@ + usage_of(o.face))
        },
        Face::Workspaces => if o.verb == "list"@ {
            Ok(bare("enumerate"@))
        } else if o.verb == "assign"@ {
            if o.args.len() < 1 {
                Err(lacking(o, "a project id"@))
            } else if o.args.len() < 2 {
                Err(lacking(o, "a workspace id"@))
            } else {
                Ok(
                    letter(
                        "assign_workspace"@,
                        seq![
                            ("projectId"@, Json::Str(o.args[0])),
                            ("workspaceId"@, Json::Str(o.args[1])),
                            who,
                        ],
                    ),
                )
            }
        } else {
            Err("unknown verb '"@ + o.verb + "'\n\n"@ + usage_of(o.face))
        },
        Face::Entorhinal => Err("unknown verb '"@ + o.verb + "'\n\n"@ + usage_of(o.face)),
    }
}

/// The request, as the library's types view it.
pub open spec fn posted(r: Result<(String, serde_json::Value), String>) -> Result<Letter, Text> {
    match r {
        Ok((method, params)) => Ok(
            Letter { method: method@, params: json::value_view(params) },
        ),
        Err(e) => Err(e@),
    }
}

fn unknown_verb(command: &Command) -> (r: String)
    ensures
        r@ == "unknown verb '"@ + command@.verb + "'\n\n"@ + usage_of(command@.face),
{
    let m = cat3("unknown verb '", command.verb.as_str(), "'\n\n");
    cat(m.as_str(), usage(command.face).as_str())
}

fn lacks(command: &Command, what: &str) -> (r: String)
    ensures
        r@ == lacking(command@, what@),
{
    let m = cat3(command.verb.as_str(), " needs ", what);
    cat3(m.as_str(), "\n\n", usage(command.face).as_str())
}

fn path_to_send(given: &str, place: &Directory) -> (r: Result<String, String>)
    ensures
        match sent_path(given@, place@) {
            Ok(path) => r matches Ok(s) && s@ == path,
            Err(e) => r matches Err(s) && s@ == e,
        },
{
    match place {
        Directory::Resolved(path) => Ok(path.clone()),
        Directory::Unresolved(cwd) => Ok(join_path(cwd.as_str(), given)),
        Directory::Lost(e) => if paths::is_rooted(given) {
            Ok(given.to_owned())
        } else {
            let m = cat3("resolve '", given, "': ");
            Err(cat(m.as_str(), e.as_str()))
        },
    }
}

/// The argument of a command that the operator's shell must resolve before
/// [`build`] can send it.
pub fn directory_argument(command: &Command) -> (r: Option<String>)
    ensures
        text::opt_text(r) == (match directory_place(command@) {
            Some(i) => if i < command@.args.len() {
                Some(command@.args[i])
            } else {
                None
            },
            None => None,
        }),
{
    let at: usize = match command.face {
        Face::Projects => if str_eq(command.verb.as_str(), "resolve") {
            0
        } else if str_eq(command.verb.as_str(), "register") {
            1
        } else {
            return None;
        },
        _ => return None,
    };
    proof {
        reveal_strlit("resolve");
        reveal_strlit("register");
        assert("resolve"@.len() != "register"@.len());
    }
    if at < command.args.len() {
        assert(command@.args[at as int] == command.args@[at as int]@);
        Some(command.args[at].clone())
    } else {
        None
    }
}

fn build_projects(command: &Command, place: &Directory) -> (r: Result<
    (String, serde_json::Value),
    String,
>)
    requires
        command.face == Face::Projects,
    ensures
        posted(r) == request_of(command@, place@),
{
    let verb = command.verb.as_str();
    let ghost o = command@;
    let mut p: Vec<(String, serde_json::Value)> = Vec::new();
    if str_eq(verb, "list") {
        if command.args.len() > 0 {
            assert(o.args[0] == command.args@[0]@);
            p.push(field("workspaceId", text_value(command.args[0].as_str())));
            assert(json::fields(p@) =~= seq![("workspaceId"@, Json::Str(o.args[0]))]);
        } else {
            assert(json::fields(p@) =~= Seq::empty());
        }
        return Ok(("enumerate".to_owned(), object_value(p)));
    }
    if str_eq(verb, "resolve") {
        if command.args.len() < 1 {
            return Err(lacks(command, "a directory"));
        }
        assert(o.args[0] == command.args@[0]@);
        let path = match path_to_send(command.args[0].as_str(), place) {
            Ok(path) => path,
            Err(e) => return Err(e),
        };
        p.push(field("canonicalRoot", text_value(path.as_str())));
        assert(json::fields(p@) =~= seq![("canonicalRoot"@, Json::Str(path@))]);
        return Ok(("resolve".to_owned(), object_value(p)));
    }
    if str_eq(verb, "register") {
        if command.args.len() < 1 {
            return Err(lacks(command, "a name"));
        }
        if command.args.len() < 2 {
            return Err(lacks(command, "a directory"));
        }
        assert(o.args[0] == command.args@[0]@ && o.args[1] == command.args@[1]@);
        let path = match path_to_send(command.args[1].as_str(), place) {
            Ok(path) => path,
            Err(e) => return Err(e),
        };
        let mut roots: Vec<String> = Vec::new();
        roots.push(path);
        assert(text::texts(roots@) =~= seq![path@]);
        p.push(field("name", text_value(command.args[0].as_str())));
        p.push(field("roots", array_value(&roots)));
        p.push(field("actor", text_value(binary_name(command.face))));
        assert(json::fields(p@) =~= seq![
            ("name"@, Json::Str(o.args[0])),
            ("roots"@, json::text_array(seq![path@])),
            ("actor"@, Json::Str(name_of(o.face))),
        ]);
        return Ok(("register".to_owned(), object_value(p)));
    }
    if str_eq(verb, "remove") {
        if command.args.len() < 1 {
            return Err(lacks(command, "a project id"));
        }
        assert(o.args[0] == command.args@[0]@);
        p.push(field("projectId", text_value(command.args[0].as_str())));
        p.push(field("actor", text_value(binary_name(command.face))));
        assert(json::fields(p@) =~= seq![
            ("projectId"@, Json::Str(o.args[0])),
            ("actor"@, Json::Str(name_of(o.face))),
        ]);
        return Ok(("remove".to_owned(), object_value(p)));
    }
    if str_eq(verb, "verify") {
        assert(json::fields(p@) =~= Seq::empty());
        return Ok(("verify".to_owned(), object_value(p)));
    }
    if str_eq(verb, "workspace") {
        return Err(
            cat(
                "'workspace' moved: use 'ck workspaces assign <project> <workspace>'\n\n",
                usage(Face::Workspaces).as_str(),
            ),
        );
    }
    Err(unknown_verb(command))
}

fn build_workspaces(command: &Command) -> (r: Result<(String, serde_json::Value), String>)
    requires
        command.face == Face::Workspaces,
    ensures
        forall|place: Place| posted(r) == #[trigger] request_of(command@, place),
{
    let verb = command.verb.as_str();
    let ghost o = command@;
    let mut p: Vec<(String, serde_json::Value)> = Vec::new();
    if str_eq(verb, "list") {
        assert(json::fields(p@) =~= Seq::empty());
        return Ok(("enumerate".to_owned(), object_value(p)));
    }
    if str_eq(verb, "assign") {
        if command.args.len() < 1 {
            return Err(lacks(command, "a project id"));
        }
        if command.args.len() < 2 {
            return Err(lacks(command, "a workspace id"));
        }
        assert(o.args[0] == command.args@[0]@ && o.args[1] == command.args@[1]@);
        p.push(field("projectId", text_value(command.args[0].as_str())));
        p.push(field("workspaceId", text_value(command.args[1].as_str())));
        p.push(field("actor", text_value(binary_name(command.face))));
        assert(json::fields(p@) =~= seq![
            ("projectId"@, Json::Str(o.args[0])),
            ("workspaceId"@, Json::Str(o.args[1])),
            ("actor"@, Json::Str(name_of(o.face))),
        ]);
        return Ok(("assign_workspace".to_owned(), object_value(p)));
    }
    Err(unknown_verb(command))
}

/// Translates a verb into the module's own vocabulary. `place` says what the
/// operator's shell makes of [`directory_argument`].
pub fn build(command: &Command, place: &Directory) -> (r: Result<
    (String, serde_json::Value),
    String,
>)
    ensures
        posted(r) == request_of(command@, place@),
{
    match command.face {
        Face::Projects => build_projects(command, place),
        Face::Workspaces => build_workspaces(command),
        Face::Entorhinal => Err(unknown_verb(command)),
    }
}

} // verus!
