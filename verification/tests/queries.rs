use entorhinal::order::{columns_lt, sort_dedup, sort_order, sort_strs, str_lt};
use entorhinal::paths::{
    ancestors, canonical, canonical_query_path, file_name, file_stem, join_path, lexical_absolute,
    path_components, path_depth, path_prefix_or_equal, search, QueryProbe, RootProbe, Search,
};
use entorhinal::request::{AssignWorkspaceRequest, JournalRecord, RegisterRequest};
use entorhinal::rows::{LinkRow, MemberRow, ProjectRow, WorkspaceRow};
use entorhinal::store::{RegistryStore, Write};
use entorhinal::text::{join_strs, split_str, starts_with, str_eq};

fn strings(items: &[&str]) -> Vec<String> {
    items.iter().map(|s| s.to_string()).collect()
}

fn project(id: &str) -> Write {
    Write::Project(ProjectRow {
        project_id: id.into(),
        name: format!("name of {id}"),
        implicit: false,
        seed_identity: None,
        created_at: 0,
        updated_at: 0,
    })
}

fn link(key: &str, target: &str) -> LinkRow {
    LinkRow {
        key: key.into(),
        target: target.into(),
        at: 0,
    }
}

fn workspace(id: &str) -> Write {
    Write::Workspace(WorkspaceRow {
        workspace_id: id.into(),
        name: format!("name of {id}"),
        created_at: 0,
        updated_at: 0,
    })
}

fn member(workspace: &str, device: &str, project: &str) -> Write {
    Write::Member(MemberRow {
        workspace_id: workspace.into(),
        remote: !device.is_empty(),
        device_fingerprint: device.into(),
        project_id: project.into(),
    })
}

fn store_of(writes: Vec<Write>) -> RegistryStore {
    let mut store = RegistryStore::new();
    store
        .apply_entry("setup", "{}", "test", &None, 5, JournalRecord::Other, &writes)
        .unwrap();
    store
}

#[test]
fn the_deepest_parent_wins_whatever_the_order_of_rows() {
    let store = store_of(vec![
        project("deep"),
        project("shallow"),
        Write::Parent(link("/a/b/c", "deep")),
        Write::Parent(link("/a", "shallow")),
    ]);
    let at = |path: &str| store.resolve_canonical(path, true, None, &vec![None, None]);
    assert_eq!(at("/a/b/c/d").project_id, "deep");
    assert_eq!(at("/a/b/c").via, "containment");
    assert_eq!(at("/a/b/cd").project_id, "shallow");
    assert_eq!(at("/ab").via, "implicit");
    assert_eq!(at("/a/b/c").project_name.as_deref(), Some("name of deep"));
}

#[test]
fn a_parent_on_another_device_does_not_contain_an_existing_path() {
    let store = store_of(vec![
        project("deep"),
        project("shallow"),
        Write::Parent(link("/a", "shallow")),
        Write::Parent(link("/a/b", "deep")),
    ]);
    let devices = vec![Some(1), Some(2)];
    let at = |exists: bool, device: Option<u64>| {
        store
            .resolve_canonical("/a/b/c", exists, device, &devices)
            .project_id
    };
    assert_eq!(at(true, Some(2)), "deep");
    assert_eq!(at(true, Some(1)), "shallow");
    assert_eq!(at(true, None), "deep");
    assert_eq!(at(false, Some(1)), "deep");
    assert!(at(true, Some(3)).starts_with("pj-implicit1-"));
}

#[test]
fn a_vanished_path_resolves_below_its_nearest_ancestor() {
    let store = store_of(vec![project("p"), Write::Root(link("/real/gone/deep", "p"))]);
    let reply = store
        .resolve(
            "link/gone/./deep",
            "/home",
            QueryProbe::Found {
                climbed: 2,
                resolved: "/real".into(),
            },
            None,
            &vec![],
        )
        .unwrap();
    assert_eq!(reply.project_id, "p");
    assert_eq!(reply.via, "root");
    assert!(reply.gone);
    assert_eq!(reply.canonical_root.as_deref(), Some("/real/gone/deep"));
    assert_eq!(
        store
            .resolve(
                "/x",
                "/",
                QueryProbe::Unresolved("loop".into()),
                None,
                &vec![]
            )
            .unwrap_err()
            .to_text(),
        "path: loop"
    );
    let reply = store
        .resolve("../x", "/home/op", QueryProbe::Missing, None, &vec![])
        .unwrap();
    assert_eq!(reply.canonical_root.as_deref(), Some("/home/x"));
    assert!(reply.gone);
}

#[test]
fn resolve_and_enumerate_agree() {
    let mut store = RegistryStore::new();
    let probes = vec![
        RootProbe::Canonical("/t/b".into()),
        RootProbe::Canonical("/t/a".into()),
    ];
    store
        .register(
            RegisterRequest {
                project_id: Some("p".into()),
                name: "the name".into(),
                roots: strings(&["/t/b", "/t/a"]),
                ..Default::default()
            },
            &probes,
            &vec![],
            1,
        )
        .unwrap();
    store
        .assign_workspace(
            AssignWorkspaceRequest {
                project_id: "p".into(),
                workspace_id: "w".into(),
                workspace_name: Some("the workspace".into()),
                ..Default::default()
            },
            2,
        )
        .unwrap();
    let found = store.resolve_canonical("/t/b", true, None, &vec![]);
    let listed = store.enumerate(None);
    assert_eq!(listed.projects.len(), 1);
    let view = &listed.projects[0];
    assert_eq!(found.project_id, view.project_id);
    assert_eq!(found.project_name.as_deref(), Some(view.name.as_str()));
    assert_eq!(found.workspace_id, view.workspace_id);
    assert_eq!(view.roots, strings(&["/t/a", "/t/b"]));
    assert_eq!(listed.workspaces[0].name, "the workspace");
    assert_eq!(listed.generation, 2);
}

#[test]
fn enumeration_lists_everything_in_order() {
    let store = store_of(vec![
        workspace("w2"),
        workspace("w1"),
        project("b"),
        project("a"),
        member("w1", "dev2", "far"),
        member("w2", "dev1", "z"),
        member("w1", "", "b"),
        Write::Placement(link("b", "w1")),
    ]);
    let all = store.enumerate(None);
    let ids: Vec<&str> = all.projects.iter().map(|p| p.project_id.as_str()).collect();
    assert_eq!(ids, ["a", "b", "z", "far"]);
    assert_eq!(all.projects[1].workspace_id.as_deref(), Some("w1"));
    assert_eq!(all.projects[2].ref_kind, "remote");
    assert_eq!(all.projects[2].device_fingerprint.as_deref(), Some("dev1"));
    assert_eq!(all.projects[2].name, "z");
    let workspaces: Vec<&str> = all
        .workspaces
        .iter()
        .map(|w| w.workspace_id.as_str())
        .collect();
    assert_eq!(workspaces, ["w1", "w2"]);

    let one = store.enumerate(Some("w1"));
    let refs: Vec<(&str, &str)> = one
        .projects
        .iter()
        .map(|p| (p.ref_kind.as_str(), p.project_id.as_str()))
        .collect();
    assert_eq!(refs, [("local", "b"), ("remote", "far")]);
    assert_eq!(one.projects[0].name, "name of b");
    assert_eq!(one.projects[1].name, "far");
    assert!(store.enumerate(Some("w9")).workspaces.is_empty());
}

#[test]
fn tails_are_bounded_and_in_order() {
    let mut store = RegistryStore::new();
    for i in 0..5 {
        store
            .apply_entry(
                &format!("op{i}"),
                "{}",
                "me",
                &None,
                i,
                JournalRecord::Other,
                &vec![],
            )
            .unwrap();
    }
    let seqs = |after: i64, limit: i64| -> Vec<i64> {
        store
            .journal_tail(after, limit)
            .entries
            .iter()
            .map(|e| e.seq)
            .collect()
    };
    assert_eq!(seqs(0, 100), [1, 2, 3, 4, 5]);
    assert_eq!(seqs(2, 2), [4, 5]);
    assert_eq!(seqs(2, 3), [3, 4, 5]);
    assert_eq!(seqs(2, 0), [5]);
    assert_eq!(seqs(2, -7), [5]);
    assert!(seqs(5, 10).is_empty());
    assert_eq!(store.journal_tail(0, 1).generation, 5);
    assert_eq!(store.journal_tail(0, 1).entries[0].op, "op4");
}

#[test]
fn tails_hold_a_thousand_entries_at_most() {
    let mut store = RegistryStore::new();
    for _ in 0..1003 {
        store
            .apply_entry("op", "{}", "me", &None, 0, JournalRecord::Other, &vec![])
            .unwrap();
    }
    assert_eq!(store.journal_tail(0, 5000).entries.len(), 1000);
    assert_eq!(store.journal_tail(1, i64::MAX).entries[0].seq, 4);
    assert_eq!(store.journal_tail(1, i64::MAX).entries[999].seq, 1003);
}

#[test]
fn replies_are_json_of_their_fields() {
    let store = store_of(vec![
        workspace("w"),
        project("p"),
        Write::Placement(link("p", "w")),
        member("w", "", "p"),
    ]);
    assert_eq!(
        store.enumerate(Some("w")).to_value().to_string(),
        "{\"generation\":1,\"projects\":[{\"implicit\":false,\"name\":\"name of p\",\
         \"projectId\":\"p\",\"refKind\":\"local\",\"roots\":[],\"workspaceId\":\"w\"}],\
         \"workspaces\":[{\"name\":\"name of w\",\"workspaceId\":\"w\"}]}"
    );
    assert_eq!(
        store.resolve_project_id("p").to_value().to_string(),
        "{\"generation\":1,\"gone\":false,\"projectId\":\"p\",\"via\":\"current\"}"
    );
    assert_eq!(
        store.journal_tail(0, 1).to_value().to_string(),
        "{\"entries\":[{\"actor\":\"test\",\"createdAt\":5,\"op\":\"setup\",\
         \"payloadJson\":\"{}\",\"requestKey\":null,\"seq\":1}],\"generation\":1}"
    );
    assert_eq!(
        store.verify().to_value().to_string(),
        "{\"generation\":1,\"localMembers\":1,\"mismatches\":[\"unjournaled workspace w\",\
         \"unjournaled workspace_member w::p\",\"unjournaled project p\",\
         \"unjournaled project_workspace p\"],\"ok\":false,\"projectWorkspaces\":1}"
    );
}

#[test]
fn the_search_ends_at_the_nearest_existing_place() {
    assert_eq!(search(&vec![], 2), Search::Look(0));
    assert_eq!(search(&vec![false], 2), Search::Look(1));
    assert_eq!(search(&vec![false, true], 3), Search::Nearest(1));
    assert_eq!(search(&vec![true, true], 3), Search::Nearest(0));
    assert_eq!(search(&vec![false, false], 2), Search::Nowhere);
}

#[test]
fn paths_go_by_components() {
    assert_eq!(path_components("//a/./b//"), strings(&["/", "a", "b"]));
    assert_eq!(path_components("./a/.."), strings(&[".", "a", ".."]));
    assert_eq!(path_components(""), Vec::<String>::new());
    assert_eq!(path_depth("/a/b"), 3);
    assert!(path_prefix_or_equal("/a", "/a"));
    assert!(path_prefix_or_equal("/a/", "/a/b"));
    assert!(path_prefix_or_equal("/", "/a"));
    assert!(!path_prefix_or_equal("/a/b", "/a"));
    assert!(!path_prefix_or_equal("/a/rep", "/a/repo"));
    assert!(!path_prefix_or_equal("a", "/a"));
}

#[test]
fn names_and_stems_are_those_of_the_last_component() {
    assert_eq!(file_name("/a/b.tar.gz").as_deref(), Some("b.tar.gz"));
    assert_eq!(file_name("/a/b/").as_deref(), Some("b"));
    assert_eq!(file_name("/"), None);
    assert_eq!(file_name("a/.."), None);
    assert_eq!(file_stem("b.tar.gz"), "b.tar");
    assert_eq!(file_stem(".hidden"), ".hidden");
    assert_eq!(file_stem("plain"), "plain");
}

#[test]
fn paths_are_joined_and_settled_without_the_file_system() {
    assert_eq!(join_path("/a", "b"), "/a/b");
    assert_eq!(join_path("/a/", "b"), "/a/b");
    assert_eq!(join_path("/a", "/b"), "/b");
    assert_eq!(lexical_absolute("x/../y/./z", "/home"), "/home/y/z");
    assert_eq!(lexical_absolute("/../..", "/home"), "/");
    assert_eq!(ancestors("/a/b"), strings(&["/a/b", "/a", "/"]));
    assert_eq!(
        canonical_query_path(
            "/a/b/c",
            QueryProbe::Found {
                climbed: 0,
                resolved: "/r".into()
            }
        )
        .unwrap(),
        ("/r".to_string(), true)
    );
    assert_eq!(
        canonical_query_path(
            "/a/b/c",
            QueryProbe::Found {
                climbed: 1,
                resolved: "/r".into()
            }
        )
        .unwrap(),
        ("/r/c".to_string(), false)
    );
}

#[test]
fn mutations_take_canonical_paths_only() {
    assert_eq!(
        canonical("/a", &RootProbe::Canonical("/a".into())).unwrap(),
        "/a"
    );
    assert_eq!(
        canonical("/a", &RootProbe::Canonical("/b".into()))
            .unwrap_err()
            .to_text(),
        "not_canonical: path must be canonical: /a"
    );
    assert_eq!(
        canonical("/a", &RootProbe::Absent).unwrap_err().to_text(),
        "root_not_found: path does not exist: /a"
    );
    assert_eq!(
        canonical("/a", &RootProbe::Failed("e".into()))
            .unwrap_err()
            .to_text(),
        "not_canonical: e"
    );
}

#[test]
fn order_is_that_of_bytes() {
    assert!(str_lt("a", "b"));
    assert!(str_lt("Z", "a"));
    assert!(str_lt("a", "ab"));
    assert!(str_lt("z", "é"));
    assert!(!str_lt("a", "a"));
    assert!(columns_lt(&strings(&["a", "z"]), &strings(&["b", "a"])));
    assert!(columns_lt(&strings(&["a"]), &strings(&["a", "a"])));
}

#[test]
fn sorting_is_stable() {
    let rows: Vec<Vec<String>> = vec![
        strings(&["b"]),
        strings(&["a"]),
        strings(&["b"]),
        strings(&["a"]),
    ];
    assert_eq!(sort_order(&rows), vec![1, 3, 0, 2]);
    assert_eq!(sort_strs(&strings(&["c", "a", "c"])), strings(&["a", "c", "c"]));
    assert_eq!(sort_dedup(&strings(&["c", "a", "c"])), strings(&["a", "c"]));
}

#[test]
fn texts_are_split_and_joined() {
    assert_eq!(split_str("a//b/", '/'), strings(&["a", "", "b", ""]));
    assert_eq!(split_str("", '/'), strings(&[""]));
    assert_eq!(join_strs(&strings(&["a", "b"]), ", "), "a, b");
    assert_eq!(join_strs(&vec![], ", "), "");
    assert!(starts_with("--subc", "--"));
    assert!(!starts_with("-", "--"));
    assert!(str_eq("é", "é"));
    assert!(!str_eq("é", "e"));
}
