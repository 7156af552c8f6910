use entorhinal::cli::{
    binary_name, build, directory_argument, face_from_argv0, parse, usage, Command, Directory,
    Face, Invocation, EXIT_TRANSPORT, VERSION,
};
use entorhinal::queries::ResolveReply;
use entorhinal::render::{decimal_text, open_reply, render, request_body, text, unwrap_result};
use entorhinal::service::{manifest, route};
use serde_json::Value;

fn strings(args: &[&str]) -> Vec<String> {
    args.iter().map(|a| a.to_string()).collect()
}

fn parse_of(args: &[&str]) -> Invocation {
    parse(Face::Entorhinal, &strings(args))
}

fn parse_as(face: Face, args: &[&str]) -> Invocation {
    parse(face, &strings(args))
}

fn command(face: Face, args: &[&str]) -> Command {
    Command {
        face,
        verb: args[0].to_string(),
        connection: None,
        args: strings(&args[1..]),
        json: false,
    }
}

fn nowhere() -> Directory {
    Directory::Unresolved("/home/op".to_string())
}

fn read(json: &str) -> Value {
    serde_json::from_str(json).unwrap()
}

#[test]
fn face_resolution_follows_argv0() {
    assert_eq!(
        face_from_argv0(Some("/usr/local/bin/ck-projects")),
        Face::Projects
    );
    assert_eq!(face_from_argv0(Some("ck-workspaces")), Face::Workspaces);
    assert_eq!(
        face_from_argv0(Some("/opt/cortexkit/bin/ck-entorhinal")),
        Face::Entorhinal
    );
    assert_eq!(face_from_argv0(Some("weird-wrapper")), Face::Entorhinal);
    assert_eq!(face_from_argv0(None), Face::Entorhinal);
}

#[test]
fn face_resolution_goes_by_the_stem_of_the_name() {
    assert_eq!(face_from_argv0(Some("/x/ck-projects.exe")), Face::Projects);
    assert_eq!(face_from_argv0(Some("ck-projects/")), Face::Projects);
    assert_eq!(face_from_argv0(Some("ck-projects.d/run")), Face::Entorhinal);
    assert_eq!(face_from_argv0(Some(".ck-projects")), Face::Entorhinal);
    assert_eq!(face_from_argv0(Some("")), Face::Entorhinal);
    assert_eq!(face_from_argv0(Some("/")), Face::Entorhinal);
}

#[test]
fn bare_cli_faces_explain_rather_than_serve() {
    for face in [Face::Projects, Face::Workspaces] {
        match parse_as(face, &[]) {
            Invocation::Report(text) => {
                assert!(text.contains("usage:"), "{face:?} bare must print usage")
            }
            _ => panic!("{face:?} with empty argv must report, never serve"),
        }
    }
    assert!(matches!(
        parse_as(Face::Entorhinal, &[]),
        Invocation::Module
    ));
}

#[test]
fn spawn_shape_serves_only_on_the_module_face() {
    assert!(matches!(
        parse_as(Face::Entorhinal, &["--subc", "/tmp/conn.json"]),
        Invocation::Module
    ));
    for face in [Face::Projects, Face::Workspaces] {
        assert!(
            !matches!(
                parse_as(face, &["--subc", "/tmp/conn.json"]),
                Invocation::Module
            ),
            "{face:?} must never serve"
        );
    }
}

#[test]
fn result_envelope_is_stripped_and_its_absence_is_loud() {
    let wrapped = read(r#"{ "result": { "projects": [ { "projectId": "pj-1" } ] } }"#);
    let inner = unwrap_result(wrapped).expect("wrapped reply must unwrap");
    assert_eq!(inner["projects"][0]["projectId"], "pj-1");

    let bare = read(r#"{ "projects": [] }"#);
    let error = unwrap_result(bare).expect_err("a reply without the envelope must refuse");
    assert_eq!(error.0, EXIT_TRANSPORT);
    assert!(
        error.1.contains("no 'result' envelope"),
        "refusal must name the missing envelope, got: {}",
        error.1
    );
    assert!(
        error.1.contains("projects"),
        "refusal must name the keys it saw, got: {}",
        error.1
    );
}

#[test]
fn envelopes_that_are_none_are_named_exactly() {
    assert_eq!(
        unwrap_result(read(r#"{"b":1,"a":2}"#)).unwrap_err(),
        (
            2,
            "registry reply has no 'result' envelope (keys: a, b)".to_string()
        )
    );
    assert_eq!(
        unwrap_result(read("{}")).unwrap_err().1,
        "registry reply has no 'result' envelope (keys: none)"
    );
    assert_eq!(
        unwrap_result(read("[1, 2]")).unwrap_err(),
        (2, "registry reply is not an object: [1,2]".to_string())
    );
}

#[test]
fn no_operator_invocation_reaches_module_mode() {
    for argv in [
        vec!["--help"],
        vec!["-h"],
        vec!["--version"],
        vec!["list"],
        vec!["--nonsense"],
        vec!["typo-verb"],
        vec!["list", "--subc", "/tmp/conn.json"],
        vec!["typo-verb", "--subc", "/tmp/conn.json"],
    ] {
        assert!(
            !matches!(parse_of(&argv), Invocation::Module),
            "{argv:?} must not reach module mode"
        );
    }
}

#[test]
fn help_is_honoured_after_a_verb() {
    for argv in [
        vec!["remove", "--help"],
        vec!["register", "name", "/tmp", "-h"],
    ] {
        match parse_as(Face::Projects, &argv) {
            Invocation::Report(text) => assert!(text.contains("usage:"), "{argv:?}"),
            _ => panic!("{argv:?} must report usage, not run"),
        }
    }
}

#[test]
fn unknown_flag_refuses_rather_than_becoming_an_argument() {
    match parse_of(&["list", "--wat"]) {
        Invocation::Refuse(text) => assert!(text.contains("unknown flag '--wat'")),
        _ => panic!("unknown flag must refuse, not report"),
    }
    match parse_of(&["list", "--subc"]) {
        Invocation::Refuse(text) => assert!(text.contains("needs a path")),
        _ => panic!("a flag missing its value must refuse"),
    }
}

#[test]
fn supervisor_spawn_shape_reaches_the_module_path() {
    assert!(matches!(
        parse_of(&["--subc", "/tmp/conn.json"]),
        Invocation::Module
    ));
    assert!(matches!(parse_of(&[]), Invocation::Module));
    assert!(matches!(parse_of(&["--json"]), Invocation::Report(_)));
}

#[test]
fn help_and_refusal_are_different_outcomes() {
    assert!(matches!(parse_of(&["--help"]), Invocation::Report(_)));
    assert!(matches!(parse_of(&[]), Invocation::Module));
    assert!(matches!(parse_of(&["--wat"]), Invocation::Refuse(_)));
}

#[test]
fn commands_are_taken_apart() {
    match parse_as(
        Face::Projects,
        &["list", "--json", "w1", "--subc", "/c.json", "extra"],
    ) {
        Invocation::Command(c) => {
            assert_eq!(c.face, Face::Projects);
            assert_eq!(c.verb, "list");
            assert_eq!(c.connection.as_deref(), Some("/c.json"));
            assert_eq!(c.args, strings(&["w1", "extra"]));
            assert!(c.json);
        }
        other => panic!("{other:?}"),
    }
    match parse_as(Face::Workspaces, &["x", "--version"]) {
        Invocation::Report(text) => assert_eq!(text, format!("ck-workspaces {VERSION}")),
        other => panic!("{other:?}"),
    }
}

#[test]
fn verbs_map_to_the_modules_own_method_and_field_names() {
    let (method, params) = build(&command(Face::Projects, &["list"]), &nowhere()).unwrap();
    assert_eq!(method, "enumerate");
    assert_eq!(params, read("{}"));

    let (method, params) = build(&command(Face::Projects, &["list", "w1"]), &nowhere()).unwrap();
    assert_eq!(method, "enumerate");
    assert_eq!(params["workspaceId"], "w1");

    let (method, params) =
        build(&command(Face::Workspaces, &["assign", "p1", "w2"]), &nowhere()).unwrap();
    assert_eq!(method, "assign_workspace");
    assert_eq!(params["projectId"], "p1");
    assert_eq!(params["workspaceId"], "w2");
    assert_eq!(params["actor"], "ck-workspaces");

    let (method, _) = build(&command(Face::Workspaces, &["list"]), &nowhere()).unwrap();
    assert_eq!(method, "enumerate");

    let error = build(
        &command(Face::Projects, &["workspace", "p1", "w2"]),
        &nowhere(),
    )
    .expect_err("moved verb must refuse");
    assert!(
        error.contains("ck workspaces assign"),
        "the refusal must name the new spelling, got: {error}"
    );

    let (method, params) = build(&command(Face::Projects, &["remove", "p1"]), &nowhere()).unwrap();
    assert_eq!(method, "remove");
    assert_eq!(params["projectId"], "p1");

    assert_eq!(
        build(&command(Face::Projects, &["verify"]), &nowhere())
            .unwrap()
            .0,
        "verify"
    );
}

#[test]
fn register_sends_name_root_and_actor() {
    let c = command(Face::Projects, &["register", "alpha", "dir"]);
    assert_eq!(directory_argument(&c).as_deref(), Some("dir"));
    let (method, params) = build(&c, &Directory::Resolved("/real/dir".to_string())).unwrap();
    assert_eq!(method, "register");
    assert_eq!(
        params,
        read(r#"{"name":"alpha","roots":["/real/dir"],"actor":"ck-projects"}"#)
    );
}

#[test]
fn unknown_verbs_are_refused_on_every_face() {
    for face in [Face::Projects, Face::Workspaces, Face::Entorhinal] {
        assert_eq!(
            build(&command(face, &["wat"]), &nowhere()).unwrap_err(),
            format!("unknown verb 'wat'\n\n{}", usage(face))
        );
    }
}

#[test]
fn every_verb_is_routed() {
    for (face, argv) in [
        (Face::Projects, vec!["list"]),
        (Face::Projects, vec!["resolve", "/d"]),
        (Face::Projects, vec!["register", "n", "/d"]),
        (Face::Projects, vec!["remove", "p"]),
        (Face::Projects, vec!["verify"]),
        (Face::Workspaces, vec!["list"]),
        (Face::Workspaces, vec!["assign", "p", "w"]),
    ] {
        let (method, _) = build(&command(face, &argv), &nowhere()).unwrap();
        assert!(route(&method).is_ok(), "{method}");
    }
}

#[test]
fn resolve_renders_the_reply_types_own_field_names() {
    let reply = ResolveReply {
        project_id: "pj-1".to_string(),
        workspace_id: Some("ws-1".to_string()),
        project_name: Some("the-name".to_string()),
        via: "root".to_string(),
        gone: false,
        generation: 2,
        canonical_root: Some("/tmp/x".to_string()),
    }
    .to_value();

    for key in ["projectId", "projectName", "workspaceId", "gone"] {
        assert!(
            !reply[key].is_null(),
            "renderer reads '{key}', which ResolveReply does not emit"
        );
    }
    assert_eq!(reply["projectName"], "the-name");
    assert_eq!(reply["projectId"], "pj-1");

    let implicit = ResolveReply {
        project_id: "pj-implicit1-deadbeef".to_string(),
        workspace_id: None,
        project_name: None,
        via: "implicit".to_string(),
        gone: false,
        generation: 2,
        canonical_root: Some("/tmp/x".to_string()),
    }
    .to_value();
    assert_eq!(implicit["via"], "implicit");
    assert!(
        implicit["projectName"].is_null(),
        "an implicit reply must carry no name; otherwise the renderer's \
         registered-vs-implicit distinction is not the one being tested"
    );
}

#[test]
fn resolve_is_rendered_line_by_line() {
    let c = command(Face::Projects, &["resolve", "."]);
    let v = read(r#"{"projectId":"pj-1","projectName":"n","workspaceId":null,"via":"root","gone":false}"#);
    assert_eq!(
        render(&c, &v),
        "project:   pj-1\nname:      n\nworkspace: -\n"
    );
    let v = read(r#"{"projectId":"pj-implicit1-0","projectName":null,"workspaceId":null,"via":"implicit","gone":true}"#);
    assert_eq!(
        render(&c, &v),
        "project:   pj-implicit1-0\nname:      -\nworkspace: -\n\
         status:    NOT REGISTERED (derived id; nothing stored)\n\
         root:      GONE (registered directory no longer exists)\n"
    );
}

#[test]
fn lists_are_rendered_in_columns() {
    let v = read(
        r#"{"workspaces":[{"workspaceId":"w","name":"W"}],
            "projects":[{"projectId":"a","name":"A"},{"projectId":"a-project-id-of-more-than-28-characters","name":"B"}]}"#,
    );
    assert_eq!(
        render(&command(Face::Workspaces, &["list"]), &v),
        format!("{:<28} {}\n\n1 workspace(s)\n", "w", "W")
    );
    assert_eq!(
        render(&command(Face::Projects, &["list"]), &v),
        format!(
            "{:<28} {}\n{:<28} {}\n\n2 project(s)\n",
            "a", "A", "a-project-id-of-more-than-28-characters", "B"
        )
    );
}

#[test]
fn empty_lists_say_what_is_empty() {
    let v = read(r#"{"workspaces":[],"projects":[]}"#);
    assert_eq!(
        render(&command(Face::Workspaces, &["list"]), &v),
        "no workspaces\n"
    );
    assert_eq!(
        render(&command(Face::Projects, &["list"]), &v),
        "no projects registered\n"
    );
    assert_eq!(
        render(&command(Face::Projects, &["list", "w9"]), &v),
        "no projects in workspace 'w9'\n"
    );
}

#[test]
fn raw_and_other_replies_are_pretty_json() {
    let v = read(r#"{"ok":true}"#);
    let mut c = command(Face::Projects, &["verify"]);
    assert_eq!(render(&c, &v), "{\n  \"ok\": true\n}\n");
    c = command(Face::Projects, &["list"]);
    c.json = true;
    assert_eq!(render(&c, &v), "{\n  \"ok\": true\n}\n");
}

#[test]
fn directories_are_canonical_before_they_are_sent() {
    let sent_for = |value: &str, place: Directory| -> String {
        build(&command(Face::Projects, &["resolve", value]), &place)
            .unwrap()
            .1["canonicalRoot"]
            .as_str()
            .unwrap()
            .to_string()
    };
    // What the shell resolves is sent in its canonical form.
    assert_eq!(
        sent_for(".", Directory::Resolved("/home/op".to_string())),
        "/home/op"
    );
    assert_eq!(
        sent_for("/tmp/x", Directory::Resolved("/private/tmp/x".to_string())),
        "/private/tmp/x"
    );
    // What does not exist yet is sent joined to the working directory.
    assert_eq!(sent_for("new", nowhere()), "/home/op/new");
    assert_eq!(sent_for("/abs", nowhere()), "/abs");
    assert_eq!(
        sent_for("/abs", Directory::Lost("no cwd".to_string())),
        "/abs"
    );
    assert_eq!(
        build(
            &command(Face::Projects, &["resolve", "rel"]),
            &Directory::Lost("no cwd".to_string())
        )
        .unwrap_err(),
        "resolve 'rel': no cwd"
    );
}

#[test]
fn missing_arguments_name_what_is_missing() {
    let cases = [
        (Face::Projects, vec!["resolve"], "a directory"),
        (
            Face::Projects,
            vec!["register", "only-a-name"],
            "a directory",
        ),
        (Face::Workspaces, vec!["assign", "p1"], "a workspace id"),
        (Face::Projects, vec!["remove"], "a project id"),
    ];
    for (face, argv, expected) in cases {
        let error = build(&command(face, &argv), &nowhere()).expect_err("must refuse");
        assert!(error.contains(expected), "{argv:?} said: {error}");
    }
    assert_eq!(
        build(&command(Face::Projects, &["register"]), &nowhere()).unwrap_err(),
        format!("register needs a name\n\n{}", usage(Face::Projects))
    );
    assert_eq!(
        build(&command(Face::Workspaces, &["assign"]), &nowhere()).unwrap_err(),
        format!("assign needs a project id\n\n{}", usage(Face::Workspaces))
    );
}

#[test]
fn absent_values_render_distinctly() {
    assert_eq!(text(&Value::Null), "-");
    assert_eq!(text(&read(r#""null""#)), "null");
    assert_eq!(text(&read(r#""p1""#)), "p1");
}

#[test]
fn scalars_render_as_json_and_counts_in_decimal() {
    assert_eq!(text(&read("12")), "12");
    assert_eq!(text(&read("true")), "true");
    assert_eq!(decimal_text(0), "0");
    assert_eq!(decimal_text(90817), "90817");
    assert_eq!(decimal_text(u64::MAX), "18446744073709551615");
}

#[test]
fn operator_faces_answer_the_ck_domain_handshake_with_one_headline() {
    for (argv0, headline) in [
        ("ck-projects", "ck projects"),
        ("ck-workspaces", "ck workspaces"),
    ] {
        let face = face_from_argv0(Some(argv0));
        match parse_as(face, &["--ck-domain"]) {
            Invocation::Report(stdout) => {
                let lines: Vec<&str> = stdout.lines().collect();
                assert_eq!(lines.len(), 1, "{argv0}: exactly one line, got {stdout:?}");
                assert!(
                    lines[0].starts_with(headline),
                    "{argv0}: headline names the domain, got {:?}",
                    lines[0]
                );
            }
            other => panic!("{argv0} --ck-domain must report: {other:?}"),
        }
    }
}

#[test]
fn module_face_is_not_a_ck_domain() {
    assert!(
        matches!(
            parse_as(face_from_argv0(Some("ck-entorhinal")), &["--ck-domain"]),
            Invocation::Refuse(_)
        ),
        "the module face must refuse --ck-domain"
    );
}

#[test]
fn manifest_flag_prints_the_manifest_with_the_provided_capability() {
    assert!(matches!(parse_of(&["--manifest"]), Invocation::Manifest));
    let manifest = manifest();
    assert_eq!(manifest.module_id, "entorhinal");
    assert_eq!(manifest.capabilities, strings(&["project-identity/v1"]));
    // The operator faces have no manifest to print.
    assert!(matches!(
        parse_as(Face::Projects, &["--manifest"]),
        Invocation::Refuse(_)
    ));
}

#[test]
fn main_version_probe_is_not_a_subc_connection_attempt() {
    match parse_of(&["--version"]) {
        Invocation::Report(text) => {
            assert_eq!(text, format!("{} {VERSION}", binary_name(Face::Entorhinal)))
        }
        other => panic!("{other:?}"),
    }
    assert_eq!(
        subc_protocol::session::MODULE_CONTROL_OP_HEALTH_CHECK,
        "health.check"
    );
}

#[test]
fn requests_are_sent_and_replies_opened_as_json() {
    assert_eq!(
        request_body("resolve", read(r#"{"canonicalRoot":"/a"}"#)),
        br#"{"method":"resolve","params":{"canonicalRoot":"/a"}}"#
    );
    assert_eq!(open_reply(br#"{"result":{"a":1}}"#).unwrap(), read(r#"{"a":1}"#));
    assert_eq!(open_reply(br#"{"a":1}"#), unwrap_result(read(r#"{"a":1}"#)));
    let (code, message) = open_reply(b"{").unwrap_err();
    assert_eq!(code, 2);
    assert_eq!(
        message,
        "decode response: EOF while parsing an object at line 1 column 1"
    );
}

#[test]
fn usage_explains_each_name_in_full() {
    assert_eq!(
        usage(Face::Projects),
        "ck projects \u{2014} the project registry\n\
         \n\
         usage: ck projects <verb> [args] [--subc <connection file>] [--json]\n\
         \n\
         \x20 list [workspace]        projects, optionally scoped to one workspace\n\
         \x20 resolve <dir>           which project owns a directory\n\
         \x20 register <name> <dir>   register a project rooted at a directory\n\
         \x20 remove <project>        remove a project from the registry\n\
         \x20 verify                  check the store against its journal\n\
         \n\
         \x20 --subc <path>   daemon connection file; defaults to the usual discovery path\n\
         \x20 --json          raw response instead of the rendered form\n\
         \n\
         workspace placement lives under 'ck workspaces'"
    );
    assert_eq!(
        usage(Face::Workspaces),
        "ck workspaces \u{2014} group projects into workspaces\n\
         \n\
         usage: ck workspaces <verb> [args] [--subc <connection file>] [--json]\n\
         \n\
         \x20 list                    workspaces known to the registry\n\
         \x20 assign <project> <workspace>\n\
         \x20                         put a project in a workspace (moves it if already in another)\n\
         \n\
         \x20 --subc <path>   daemon connection file; defaults to the usual discovery path\n\
         \x20 --json          raw response instead of the rendered form\n\
         \n\
         projects themselves live under 'ck projects'"
    );
}
