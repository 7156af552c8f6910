use entorhinal::effects::implicit_project_ids;
use entorhinal::error::RegistryError;
use entorhinal::ids::{hex_prefix, implicit_project_id, mint, reserved, seed_id};
use entorhinal::paths::{QueryProbe, RootProbe};
use entorhinal::request::{
    AssignWorkspaceRequest, JournalRecord, RegisterRequest, RemoveRequest, SeedImportRequest,
    SeedMember, SeedPair, SeedPayload, SeedWorkspace, UpgradeImplicitRequest,
};
use entorhinal::rows::{JournalRow, LinkRow, MemberRow, ProjectRow, WorkspaceRow};
use entorhinal::store::{RegistryStore, TableRows, Write};
use serde_json::Value;

const NOW: i64 = 1_700_000_000_000;

/// Every path exists as it is spelled, but for what ends in `/.` or `/gone`.
fn probe(path: &String) -> RootProbe {
    if path.ends_with("/.") {
        RootProbe::Canonical(path[..path.len() - 2].to_string())
    } else if path.ends_with("/gone") {
        RootProbe::Absent
    } else if path.ends_with("/locked") {
        RootProbe::Failed("permission denied".to_string())
    } else {
        RootProbe::Canonical(path.clone())
    }
}

fn probes(paths: &[String]) -> Vec<RootProbe> {
    paths.iter().map(probe).collect()
}

fn do_register(
    store: &mut RegistryStore,
    req: RegisterRequest,
) -> Result<Vec<u8>, RegistryError> {
    let roots = probes(&req.roots);
    let parents = probes(&req.derived_root_parents);
    store.register(req, &roots, &parents, NOW)
}

fn do_assign(
    store: &mut RegistryStore,
    req: AssignWorkspaceRequest,
) -> Result<Vec<u8>, RegistryError> {
    store.assign_workspace(req, NOW)
}

fn do_upgrade(
    store: &mut RegistryStore,
    req: UpgradeImplicitRequest,
) -> Result<Vec<u8>, RegistryError> {
    let mut all = req.roots.clone();
    all.extend(req.root.clone());
    let roots = probes(&all);
    store.upgrade_implicit(req, &roots, NOW)
}

fn do_seed(store: &mut RegistryStore, req: SeedImportRequest) -> Result<Vec<u8>, RegistryError> {
    let all: Vec<String> = req
        .payload
        .pairs
        .iter()
        .map(|p| p.canonical_root.clone())
        .collect();
    let roots = probes(&all);
    store.seed_import(req, &roots, NOW)
}

fn result(blob: &[u8]) -> Value {
    serde_json::from_slice::<Value>(blob).unwrap()["result"].clone()
}

fn code(error: RegistryError, expected: &str) {
    assert!(
        error.to_text().starts_with(expected),
        "{}",
        error.to_text()
    );
}

fn register(store: &mut RegistryStore, id: &str, root: &str) -> Vec<u8> {
    do_register(
        store,
        RegisterRequest {
            project_id: Some(id.into()),
            name: id.into(),
            roots: vec![root.into()],
            ..Default::default()
        },
    )
    .unwrap()
}

fn assign(store: &mut RegistryStore, id: &str, workspace: &str) -> Vec<u8> {
    do_assign(
        store,
        AssignWorkspaceRequest {
            project_id: id.into(),
            workspace_id: workspace.into(),
            ..Default::default()
        },
    )
    .unwrap()
}

fn resolved(store: &RegistryStore, path: &str) -> entorhinal::queries::ResolveReply {
    let devices = vec![None; store.tables().parents.len()];
    store
        .resolve(
            path,
            "/",
            QueryProbe::Found {
                climbed: 0,
                resolved: path.to_string(),
            },
            None,
            &devices,
        )
        .unwrap()
}

fn add_project(store: &mut RegistryStore, id: &str, root: Option<&str>, parent: Option<&str>) {
    let mut writes = vec![Write::Project(ProjectRow {
        project_id: id.into(),
        name: id.into(),
        implicit: false,
        seed_identity: None,
        created_at: 0,
        updated_at: 0,
    })];
    if let Some(root) = root {
        writes.push(Write::Root(LinkRow {
            key: root.into(),
            target: id.into(),
            at: 0,
        }));
    }
    if let Some(parent) = parent {
        writes.push(Write::Parent(LinkRow {
            key: parent.into(),
            target: id.into(),
            at: 0,
        }));
    }
    apply(store, "test_register", writes).expect("insert test project");
}

fn apply(store: &mut RegistryStore, op: &str, writes: Vec<Write>) -> Result<i64, RegistryError> {
    store.apply_entry(op, "{}", "test", &None, 0, JournalRecord::Other, &writes)
}

fn member(workspace: &str, remote: bool, device: &str, project: &str) -> Write {
    Write::Member(MemberRow {
        workspace_id: workspace.into(),
        remote,
        device_fingerprint: device.into(),
        project_id: project.into(),
    })
}

#[test]
fn implicit_id_matches_the_blake3_contract_golden_vector() {
    assert_eq!(
        implicit_project_id("/Users/example/Projects/alpha"),
        "pj-implicit1-c79cc26141bb294a"
    );
}

#[test]
fn resolution_order_and_prefix_boundary_are_explicit() {
    let mut store = RegistryStore::new();
    let parent = "/tree/repo";
    let nested = "/tree/repo/worktrees";
    let exact = "/tree/repo/worktrees/checkout";
    let boundary = "/tree/repository-other";

    add_project(&mut store, "p-containment", None, Some(parent));
    add_project(&mut store, "p-nested", None, Some(nested));
    add_project(&mut store, "p-exact", Some(exact), None);

    assert_eq!(resolved(&store, exact).via, "root");
    assert_eq!(resolved(&store, nested).project_id, "p-nested");
    assert_eq!(resolved(&store, parent).project_id, "p-containment");
    assert_eq!(resolved(&store, boundary).via, "implicit");
}

#[test]
fn schema_enforces_root_pk_check_both_ways_and_reference_unique() {
    let mut store = RegistryStore::new();
    let workspace = |id: &str, name: &str| {
        Write::Workspace(WorkspaceRow {
            workspace_id: id.into(),
            name: name.into(),
            created_at: 0,
            updated_at: 0,
        })
    };
    let project = |id: &str, name: &str| {
        Write::Project(ProjectRow {
            project_id: id.into(),
            name: name.into(),
            implicit: false,
            seed_identity: None,
            created_at: 0,
            updated_at: 0,
        })
    };
    let root = |path: &str, id: &str| {
        Write::Root(LinkRow {
            key: path.into(),
            target: id.into(),
            at: 0,
        })
    };
    apply(
        &mut store,
        "setup",
        vec![
            workspace("w1", "one"),
            workspace("w2", "two"),
            project("p1", "one"),
            project("p2", "two"),
            root("/same", "p1"),
        ],
    )
    .expect("schema setup");

    assert!(apply(&mut store, "duplicate_root", vec![root("/same", "p2")]).is_err());
    assert!(apply(
        &mut store,
        "invalid_local",
        vec![member("w1", false, "device", "p1")]
    )
    .is_err());
    assert!(apply(
        &mut store,
        "invalid_remote",
        vec![member("w1", true, "", "remote-p")]
    )
    .is_err());
    apply(
        &mut store,
        "valid_local",
        vec![member("w1", false, "", "p1")],
    )
    .expect("valid local reference");
    assert!(apply(
        &mut store,
        "duplicate_local",
        vec![member("w2", false, "", "p1")]
    )
    .is_err());
    apply(
        &mut store,
        "valid_remote",
        vec![member("w1", true, "device-a", "remote-p")],
    )
    .expect("valid remote reference");
    assert!(apply(
        &mut store,
        "duplicate_remote",
        vec![member("w2", true, "device-a", "remote-p")]
    )
    .is_err());
}

#[test]
fn an_entry_that_breaks_a_constraint_leaves_nothing_behind() {
    let mut store = RegistryStore::new();
    add_project(&mut store, "p", Some("/r"), None);
    let again = |target: &str| LinkRow {
        key: "/r".into(),
        target: target.into(),
        at: 0,
    };
    for (write, message) in [
        (
            Write::Root(again("p")),
            "storage backend: UNIQUE constraint failed: project_root.canonical_root",
        ),
        (
            Write::Alias(again("nobody")),
            "storage backend: FOREIGN KEY constraint failed",
        ),
        (
            Write::Parent(again("nobody")),
            "storage backend: FOREIGN KEY constraint failed",
        ),
        (
            Write::Placement(LinkRow {
                key: "p".into(),
                target: "nowhere".into(),
                at: 0,
            }),
            "storage backend: FOREIGN KEY constraint failed",
        ),
        (
            member("nowhere", false, "", "p"),
            "storage backend: FOREIGN KEY constraint failed",
        ),
    ] {
        let fresh = Write::Workspace(WorkspaceRow {
            workspace_id: "w".into(),
            name: "w".into(),
            created_at: 0,
            updated_at: 0,
        });
        let error = apply(&mut store, "broken", vec![fresh, write]).unwrap_err();
        assert_eq!(error.to_text(), message);
        assert_eq!(store.generation(), 1);
        assert!(store.tables().workspaces.is_empty());
    }
    assert_eq!(apply(&mut store, "fine", vec![]).unwrap(), 2);
}

#[test]
fn register_happy_path_universal_alias_and_closed_noop() {
    let mut store = RegistryStore::new();
    let first = register(&mut store, "p1", "/t/root");
    assert_eq!(result(&first)["generation"], 1);
    assert_eq!(
        store
            .resolve_project_id(&implicit_project_id("/t/root"))
            .via,
        "alias"
    );
    let second = register(&mut store, "p1", "/t/root");
    assert_eq!(result(&second)["noop"], true);
    assert_eq!(result(&second)["generation"], 1);
}

#[test]
fn request_key_replay_is_byte_identical_and_noop_is_not_frozen() {
    let mut store = RegistryStore::new();
    let request = RegisterRequest {
        project_id: Some("p".into()),
        name: "p".into(),
        roots: vec!["/t/root".into()],
        request_key: Some("rk".into()),
        ..Default::default()
    };
    let first = do_register(&mut store, request.clone()).unwrap();
    let replay = do_register(&mut store, request).unwrap();
    assert_eq!(first, replay);
    assert_eq!(store.generation(), 1);
}

#[test]
fn a_key_is_answered_whatever_is_sent_under_it() {
    let mut store = RegistryStore::new();
    register(&mut store, "p", "/t/p");
    let first = do_assign(
        &mut store,
        AssignWorkspaceRequest {
            project_id: "p".into(),
            workspace_id: "w".into(),
            request_key: Some("k".into()),
            ..Default::default()
        },
    )
    .unwrap();
    let other = store
        .remove(
            RemoveRequest {
                project_id: Some("p".into()),
                request_key: Some("k".into()),
                ..Default::default()
            },
            NOW,
        )
        .unwrap();
    assert_eq!(first, other);
    assert_eq!(store.generation(), 2);
    assert_eq!(store.resolve_project_id("p").via, "current");
}

#[test]
fn a_key_that_was_taken_without_an_answer_is_a_database_failure() {
    let mut store = RegistryStore::new();
    store
        .apply_entry(
            "note",
            "{}",
            "test",
            &Some("k".into()),
            0,
            JournalRecord::Other,
            &vec![],
        )
        .unwrap();
    let error = do_register(
        &mut store,
        RegisterRequest {
            project_id: Some("p".into()),
            name: "p".into(),
            request_key: Some("k".into()),
            ..Default::default()
        },
    )
    .unwrap_err();
    assert_eq!(
        error.to_text(),
        "database: UNIQUE constraint failed: registry_journal.request_key"
    );
    assert_eq!(store.resolve_project_id("p").via, "gone");
}

#[test]
fn register_rejections_are_typed_and_name_the_owner() {
    let mut store = RegistryStore::new();
    let root = "/t/root";
    code(
        do_register(
            &mut store,
            RegisterRequest {
                project_id: Some("pj-implicit1-bad".into()),
                name: "x".into(),
                roots: vec![],
                ..Default::default()
            },
        )
        .unwrap_err(),
        "reserved_project_id_namespace",
    );
    code(
        do_register(
            &mut store,
            RegisterRequest {
                project_id: Some("x".into()),
                name: "x".into(),
                roots: vec![format!("{root}/.")],
                ..Default::default()
            },
        )
        .unwrap_err(),
        "not_canonical",
    );
    register(&mut store, "owner", root);
    let conflict = do_register(
        &mut store,
        RegisterRequest {
            project_id: Some("other".into()),
            name: "other".into(),
            roots: vec![root.into()],
            ..Default::default()
        },
    )
    .unwrap_err();
    assert!(conflict.to_text().contains("owner"));
    code(
        do_assign(
            &mut store,
            AssignWorkspaceRequest {
                project_id: "missing".into(),
                workspace_id: "w".into(),
                ..Default::default()
            },
        )
        .unwrap_err(),
        "not_found",
    );
    code(
        store
            .remove(
                RemoveRequest {
                    project_id: Some("missing".into()),
                    ..Default::default()
                },
                NOW,
            )
            .unwrap_err(),
        "not_found",
    );
}

#[test]
fn every_refusal_of_a_registration_has_its_own_words() {
    let mut store = RegistryStore::new();
    let ask = |id: Option<&str>, roots: &[&str], parents: &[&str], workspace: Option<&str>| {
        RegisterRequest {
            project_id: id.map(String::from),
            name: "n".into(),
            workspace_id: workspace.map(String::from),
            roots: roots.iter().map(|s| s.to_string()).collect(),
            derived_root_parents: parents.iter().map(|s| s.to_string()).collect(),
            ..Default::default()
        }
    };
    let refused = |store: &mut RegistryStore, req: RegisterRequest| {
        let before = store.generation();
        let text = do_register(store, req).unwrap_err().to_text();
        assert_eq!(store.generation(), before);
        text
    };
    assert_eq!(
        refused(&mut store, ask(Some("x"), &["/t/gone"], &[], None)),
        "root_not_found: path does not exist: /t/gone"
    );
    assert_eq!(
        refused(&mut store, ask(Some("x"), &["/t/locked"], &[], None)),
        "not_canonical: permission denied"
    );
    assert_eq!(
        refused(&mut store, ask(Some("x"), &["/t/a/."], &[], None)),
        "not_canonical: path must be canonical: /t/a/."
    );
    do_register(&mut store, ask(Some("a"), &["/t/a"], &["/w/a"], Some("w1"))).unwrap();
    do_register(&mut store, ask(Some("b"), &["/t/b"], &[], None)).unwrap();
    assert_eq!(
        refused(&mut store, ask(None, &["/t/a", "/t/b"], &[], None)),
        "project_conflict: conflicting owners: a,b"
    );
    assert_eq!(
        refused(&mut store, ask(Some("b"), &["/t/a"], &[], None)),
        "root_conflict: root /t/a is owned by a"
    );
    assert_eq!(
        refused(&mut store, ask(Some("b"), &["/w/a"], &[], None)),
        "root_conflict: root /w/a is claimed by a"
    );
    assert_eq!(
        refused(&mut store, ask(Some("b"), &[], &["/t"], None)),
        "derived_parent_contains_foreign_root: parent /t conflicts with owner a"
    );
    assert_eq!(
        refused(&mut store, ask(Some("b"), &["/w/a/deep"], &[], None)),
        "root_under_foreign_derived_parent: root /w/a/deep is under /w/a, owned by a"
    );
    assert_eq!(
        refused(&mut store, ask(Some("a"), &[], &[], Some("w2"))),
        "workspace_conflict: project a belongs to workspace w1"
    );
    assert_eq!(
        refused(
            &mut store,
            ask(Some(&implicit_project_id("/t/a")), &[], &[], None)
        ),
        format!(
            "reserved_project_id_namespace: {}",
            implicit_project_id("/t/a")
        )
    );
    store
        .remove(
            RemoveRequest {
                project_id: Some("a".into()),
                successor_project_id: Some("b".into()),
                ..Default::default()
            },
            NOW,
        )
        .unwrap();
    assert_eq!(
        refused(&mut store, ask(Some("a"), &[], &[], None)),
        "project_id_occupied: a"
    );
}

#[test]
fn registering_without_an_id_joins_the_owner_or_mints() {
    let mut store = RegistryStore::new();
    let ask = |roots: &[&str]| RegisterRequest {
        name: "alpha".into(),
        roots: roots.iter().map(|s| s.to_string()).collect(),
        ..Default::default()
    };
    let out = result(&do_register(&mut store, ask(&["/t/b", "/t/a", "/t/b"])).unwrap());
    let expected = format!(
        "pj-{}",
        &blake3::hash(b"register1:alpha\0/t/a\0/t/b").to_hex()[..16]
    );
    assert_eq!(out["projectId"], expected.as_str());
    assert_eq!(out["roots"][0], "/t/a");
    assert_eq!(out["roots"][1], "/t/b");
    assert_eq!(out["warnings"].as_array().unwrap().len(), 0);
    let joined = result(&do_register(&mut store, ask(&["/t/a", "/t/c"])).unwrap());
    assert_eq!(joined["projectId"], expected.as_str());
    assert_eq!(joined["generation"], 2);
    assert_eq!(resolved(&store, "/t/c").project_id, expected);
    // Made again, it changes nothing.
    let again = result(&do_register(&mut store, ask(&["/t/a", "/t/c"])).unwrap());
    assert_eq!(again["noop"], true);
    assert_eq!(store.generation(), 2);
}

#[test]
fn an_alias_of_another_project_is_a_warning() {
    let mut store = RegistryStore::new();
    let old = implicit_project_id("/t/root");
    do_upgrade(
        &mut store,
        UpgradeImplicitRequest {
            implicit_id: old.clone(),
            project_id: Some("first".into()),
            name: "first".into(),
            ..Default::default()
        },
    )
    .unwrap();
    let out = result(&register(&mut store, "second", "/t/root"));
    assert_eq!(out["warnings"][0]["oldId"], old.as_str());
    assert_eq!(out["warnings"][0]["owner"], "first");
    assert_eq!(out["implicitAliasCollisions"], out["warnings"]);
    assert_eq!(store.resolve_project_id(&old).project_id, "first");
}

#[test]
fn assign_workspace_dual_write_and_noop() {
    let mut store = RegistryStore::new();
    register(&mut store, "p", "/t/root");
    let a = assign(&mut store, "p", "w");
    assert_eq!(result(&a)["generation"], 2);
    let e = store.enumerate(Some("w"));
    assert_eq!(e.projects.len(), 1);
    let n = assign(&mut store, "p", "w");
    assert_eq!(result(&n)["noop"], true);
    assert_eq!(store.generation(), 2);
}

#[test]
fn a_reference_without_a_placement_refuses_the_placement() {
    let mut store = RegistryStore::new();
    register(&mut store, "p", "/t/root");
    apply(
        &mut store,
        "stray",
        vec![
            Write::Workspace(WorkspaceRow {
                workspace_id: "w1".into(),
                name: "w1".into(),
                created_at: 0,
                updated_at: 0,
            }),
            member("w1", false, "", "p"),
        ],
    )
    .unwrap();
    let reply = store.verify();
    assert!(!reply.ok);
    let stray = vec![
        "w1:p".to_string(),
        "unjournaled workspace w1".to_string(),
        "unjournaled workspace_member w1::p".to_string(),
    ];
    assert_eq!(reply.mismatches, stray);
    let before = format!("{store:?}");
    let error = do_assign(
        &mut store,
        AssignWorkspaceRequest {
            project_id: "p".into(),
            workspace_id: "w2".into(),
            ..Default::default()
        },
    )
    .unwrap_err();
    assert_eq!(
        error.to_text(),
        "database: UNIQUE constraint failed: workspace_member.ref_kind, \
         workspace_member.device_fingerprint, workspace_member.project_id"
    );
    assert_eq!(format!("{store:?}"), before);
    let reply = store.verify();
    assert_eq!(reply.mismatches, stray);
    assert_eq!(reply.local_members, 1);
    assert_eq!(reply.project_workspaces, 0);
    assert_eq!(reply.generation, 2);
}

#[test]
fn upgrade_creates_explicit_and_preserves_old_id_alias() {
    let mut store = RegistryStore::new();
    let old = implicit_project_id("/t/root");
    let out = do_upgrade(
        &mut store,
        UpgradeImplicitRequest {
            implicit_id: old.clone(),
            project_id: Some("explicit".into()),
            name: "named".into(),
            root: Some("/t/root".into()),
            ..Default::default()
        },
    )
    .unwrap();
    assert_eq!(result(&out)["projectId"], "explicit");
    let resolved = store.resolve_project_id(&old);
    assert_eq!(resolved.project_id, "explicit");
    assert!(!resolved.gone);
}

#[test]
fn upgrades_mint_place_and_refuse() {
    let mut store = RegistryStore::new();
    let ask = |implicit: &str, id: Option<&str>| UpgradeImplicitRequest {
        implicit_id: implicit.into(),
        project_id: id.map(String::from),
        name: "n".into(),
        workspace_id: Some("w".into()),
        roots: vec!["/t/a".into()],
        ..Default::default()
    };
    let out = result(&do_upgrade(&mut store, ask("old", None)).unwrap());
    let minted = format!("pj-{}", &blake3::hash(b"upgrade1:n\0/t/a").to_hex()[..16]);
    assert_eq!(out["projectId"], minted.as_str());
    assert_eq!(out["oldId"], "old");
    assert_eq!(
        resolved(&store, "/t/a").workspace_id.as_deref(),
        Some("w")
    );
    let again = result(&do_upgrade(&mut store, ask("old", None)).unwrap());
    assert_eq!(again["noop"], true);
    assert_eq!(
        do_upgrade(&mut store, ask("old", Some("other")))
            .unwrap_err()
            .to_text(),
        format!("alias_conflict: {minted}")
    );
    assert_eq!(
        do_upgrade(&mut store, ask("old", Some("pj-implicit2-x")))
            .unwrap_err()
            .to_text(),
        "reserved_project_id_namespace: pj-implicit2-x"
    );
    let mut lost = ask("old", None);
    lost.root = Some("/t/gone".into());
    assert_eq!(
        do_upgrade(&mut store, lost).unwrap_err().to_text(),
        "root_not_found: path does not exist: /t/gone"
    );
}

#[test]
fn remove_merge_disposition_keeps_remote_and_drops_local_membership() {
    let mut store = RegistryStore::new();
    register(&mut store, "removed", "/t/one");
    register(&mut store, "successor", "/t/two");
    assign(&mut store, "removed", "old-w");
    assign(&mut store, "successor", "new-w");
    apply(
        &mut store,
        "remote",
        vec![member("old-w", true, "device", "removed")],
    )
    .unwrap();
    let out = store
        .remove(
            RemoveRequest {
                project_id: Some("removed".into()),
                successor_project_id: Some("successor".into()),
                ..Default::default()
            },
            NOW,
        )
        .unwrap();
    assert_eq!(result(&out)["droppedWorkspaceId"], "old-w");
    assert_eq!(resolved(&store, "/t/one").project_id, "successor");
    assert_eq!(store.resolve_project_id("removed").project_id, "successor");
    let members = &store.tables().members;
    assert_eq!(members.iter().filter(|m| m.remote).count(), 1);
    assert_eq!(
        members
            .iter()
            .filter(|m| !m.remote && m.project_id == "removed")
            .count(),
        0
    );
}

#[test]
fn removal_without_a_successor_stops_the_id() {
    let mut store = RegistryStore::new();
    register(&mut store, "p", "/t/p");
    let out = store
        .remove(
            RemoveRequest {
                project_id: Some("p".into()),
                ..Default::default()
            },
            NOW,
        )
        .unwrap();
    assert_eq!(result(&out)["projectId"], "p");
    assert!(result(&out)["successorProjectId"].is_null());
    let reply = store.resolve_project_id("p");
    assert!(reply.gone);
    assert_eq!(reply.via, "gone");
    assert_eq!(reply.generation, 2);
    assert_eq!(resolved(&store, "/t/p").via, "implicit");
    assert!(store.resolve_project_id(&implicit_project_id("/t/p")).gone);
}

#[test]
fn removals_are_refused_by_name() {
    let mut store = RegistryStore::new();
    register(&mut store, "p", "/t/p");
    let ask = |project: Option<&str>, successor: Option<&str>, workspace: Option<&str>| {
        RemoveRequest {
            project_id: project.map(String::from),
            successor_project_id: successor.map(String::from),
            workspace_id: workspace.map(String::from),
            ..Default::default()
        }
    };
    for (req, text) in [
        (ask(None, None, None), "invalid_params: projectId is required"),
        (ask(Some("x"), None, None), "not_found: x"),
        (ask(Some("p"), Some("p"), None), "not_found: p"),
        (ask(Some("p"), Some("s"), None), "not_found: s"),
        (ask(Some("p"), None, Some("w")), "not_found: w"),
    ] {
        assert_eq!(store.remove(req, NOW).unwrap_err().to_text(), text);
        assert_eq!(store.generation(), 1);
    }
}

#[test]
fn removing_a_workspace_empties_it() {
    let mut store = RegistryStore::new();
    register(&mut store, "p", "/t/p");
    assign(&mut store, "p", "w");
    let out = store
        .remove(
            RemoveRequest {
                project_id: Some("ignored".into()),
                workspace_id: Some("w".into()),
                ..Default::default()
            },
            NOW,
        )
        .unwrap();
    assert_eq!(result(&out)["workspaceId"], "w");
    let e = store.enumerate(Some("w"));
    assert!(e.workspaces.is_empty() && e.projects.is_empty());
    assert_eq!(resolved(&store, "/t/p").workspace_id, None);
    assert!(store.verify().ok);
}

fn pair(root: &str, identity: &str, class: Option<&str>) -> SeedPair {
    SeedPair {
        canonical_root: root.into(),
        mc_identity: identity.into(),
        identity_class: class.map(String::from),
        ..Default::default()
    }
}

#[test]
fn seed_import_is_deterministic_rejoined_and_records_identity_split() {
    let mut store = RegistryStore::new();
    register(&mut store, "existing", "/t/owned");
    let request = SeedImportRequest {
        source: "mc".into(),
        request_key: None,
        payload: SeedPayload {
            pairs: vec![
                pair("/t/owned", "git:one", Some("git")),
                pair("/t/fresh", "git:one", Some("git")),
            ],
            ..Default::default()
        },
        ..Default::default()
    };
    let first = do_seed(&mut store, request.clone()).unwrap();
    let second = do_seed(&mut store, request).unwrap();
    assert!(result(&first)["report"].is_array());
    assert!(result(&second)["report"].is_array());
    assert_eq!(result(&second)["noop"], true);
    assert!(result(&first)["report"]
        .as_array()
        .unwrap()
        .iter()
        .any(|v| v["kind"] == "identity_split"));
    let imported = store
        .tables()
        .projects
        .iter()
        .find(|p| p.project_id.starts_with("pj-"))
        .unwrap();
    assert_eq!(imported.seed_identity.as_deref(), Some("git:one"));
    assert!(result(&second)["report"]
        .as_array()
        .unwrap()
        .iter()
        .any(|v| v["kind"] == "rejoined"));
}

#[test]
fn rebuild_replays_journal_and_preserves_generation_and_seed_provenance() {
    let mut store = RegistryStore::new();
    register(&mut store, "p", "/t/root");
    let rows = |store: &RegistryStore| -> Vec<(String, String)> {
        let mut all: Vec<(String, String)> = store
            .tables()
            .roots
            .iter()
            .map(|r| (r.key.clone(), r.target.clone()))
            .collect();
        all.sort();
        all
    };
    let before = rows(&store);
    let generation = store.generation();
    assert_eq!(store.rebuild().unwrap(), generation);
    assert_eq!(before, rows(&store));
}

#[test]
fn rebuild_restores_what_was_lost() {
    let mut store = RegistryStore::new();
    register(&mut store, "p", "/t/p");
    register(&mut store, "s", "/t/s");
    assign(&mut store, "p", "w");
    do_seed(
        &mut store,
        SeedImportRequest {
            source: "mc".into(),
            payload: SeedPayload {
                pairs: vec![pair("/t/git", "git:x", Some("git"))],
                workspaces: vec![SeedWorkspace {
                    workspace_id: "sw".into(),
                    name: "seeded".into(),
                }],
                members: vec![SeedMember {
                    mc_identity: "git:x".into(),
                    workspace_id: "sw".into(),
                }],
                names: vec![("git:x".into(), "x".into())],
            },
            ..Default::default()
        },
    )
    .unwrap();
    store
        .remove(
            RemoveRequest {
                project_id: Some("p".into()),
                successor_project_id: Some("s".into()),
                ..Default::default()
            },
            NOW,
        )
        .unwrap();
    let lived = format!("{:?}", store.tables());
    // A store that kept the journal and lost the tables.
    let mut emptied =
        RegistryStore::from_rows(TableRows::new(), store.journal().clone()).unwrap();
    assert_eq!(emptied.rebuild().unwrap(), 5);
    assert_eq!(format!("{:?}", emptied.tables()), lived);
    assert!(emptied.verify().ok);
    // Again, with the same tables.
    assert_eq!(emptied.rebuild().unwrap(), 5);
    assert_eq!(format!("{:?}", emptied.tables()), lived);
}

#[test]
fn rebuild_fails_whole_on_an_entry_it_cannot_replay() {
    let mut store = RegistryStore::new();
    register(&mut store, "p", "/t/p");
    store
        .apply_entry(
            "register",
            "[]",
            "test",
            &None,
            0,
            JournalRecord::Unreadable("missing field `name`".into()),
            &vec![],
        )
        .unwrap();
    let before = format!("{store:?}");
    assert_eq!(
        store.rebuild().unwrap_err().to_text(),
        "storage backend: missing field `name`"
    );
    assert_eq!(format!("{store:?}"), before);

    let mut store = RegistryStore::new();
    store
        .apply_entry(
            "assign_workspace",
            "{}",
            "test",
            &None,
            0,
            JournalRecord::AssignWorkspace(AssignWorkspaceRequest {
                project_id: "nobody".into(),
                workspace_id: "w".into(),
                ..Default::default()
            }),
            &vec![],
        )
        .unwrap();
    assert_eq!(
        store.rebuild().unwrap_err().to_text(),
        "storage backend: FOREIGN KEY constraint failed"
    );

    let mut store = RegistryStore::new();
    register(&mut store, "p", "/t/p");
    register(&mut store, "q", "/t/q");
    store
        .apply_entry(
            "register",
            "{}",
            "test",
            &None,
            0,
            JournalRecord::Register(RegisterRequest {
                name: "both".into(),
                roots: vec!["/t/p".into(), "/t/q".into()],
                ..Default::default()
            }),
            &vec![],
        )
        .unwrap();
    assert_eq!(
        store.rebuild().unwrap_err().to_text(),
        "storage backend: project_conflict: conflicting owners: p,q"
    );
}

#[test]
fn every_effectful_mutation_advances_generation_and_every_noop_does_not() {
    let mut store = RegistryStore::new();
    register(&mut store, "p", "/t/root");
    let g = store.generation();
    let noop = register(&mut store, "p", "/t/root");
    assert_eq!(result(&noop)["generation"], g);
    let assigned = assign(&mut store, "p", "w");
    assert_eq!(result(&assigned)["generation"], g + 1);
    let noassign = assign(&mut store, "p", "w");
    assert_eq!(result(&noassign)["generation"], g + 1);
}

#[test]
fn ancestry_rejects_both_directions_and_workspace_i2() {
    let mut store = RegistryStore::new();
    let tree = "/t/tree";
    let child = "/t/tree/child";
    do_register(
        &mut store,
        RegisterRequest {
            project_id: Some("foreign".into()),
            name: "foreign".into(),
            derived_root_parents: vec![tree.into()],
            ..Default::default()
        },
    )
    .unwrap();
    code(
        do_register(
            &mut store,
            RegisterRequest {
                project_id: Some("late".into()),
                name: "late".into(),
                roots: vec![child.into()],
                ..Default::default()
            },
        )
        .unwrap_err(),
        "root_under_foreign_derived_parent",
    );
    let root2 = "/t/root2";
    do_register(
        &mut store,
        RegisterRequest {
            project_id: Some("root-owner".into()),
            name: "root-owner".into(),
            roots: vec![root2.into()],
            ..Default::default()
        },
    )
    .unwrap();
    code(
        do_register(
            &mut store,
            RegisterRequest {
                project_id: Some("parent-owner".into()),
                name: "parent-owner".into(),
                derived_root_parents: vec![root2.into()],
                ..Default::default()
            },
        )
        .unwrap_err(),
        "derived_parent_contains_foreign_root",
    );
    assign(&mut store, "foreign", "w1");
    code(
        do_assign(
            &mut store,
            AssignWorkspaceRequest {
                project_id: "foreign".into(),
                workspace_id: "w2".into(),
                ..Default::default()
            },
        )
        .unwrap_err(),
        "workspace_conflict",
    );
}

#[test]
fn seed_import_records_alias_occupied_identity_class_and_multi_workspace() {
    let mut store = RegistryStore::new();
    let occupied = seed_id("git:occupied");
    register(&mut store, &occupied, "/t/root");
    register(&mut store, "successor", "/t/successor");
    store
        .remove(
            RemoveRequest {
                project_id: Some(occupied),
                successor_project_id: Some("successor".into()),
                ..Default::default()
            },
            NOW,
        )
        .unwrap();
    let claim = |workspace: &str| SeedMember {
        mc_identity: "git:mix".into(),
        workspace_id: workspace.into(),
    };
    let titled = |id: &str, name: &str| SeedWorkspace {
        workspace_id: id.into(),
        name: name.into(),
    };
    let request = SeedImportRequest {
        source: "mc".into(),
        payload: SeedPayload {
            pairs: vec![
                pair("/t/a", "git:mix", Some("git")),
                pair("/t/a", "dir:mix", Some("dir")),
                pair("/t/b", "git:occupied", Some("git")),
            ],
            members: vec![claim("w1"), claim("w2")],
            workspaces: vec![titled("w1", "one"), titled("w2", "two")],
            ..Default::default()
        },
        ..Default::default()
    };
    let out = result(&do_seed(&mut store, request).unwrap());
    let kinds = out["report"]
        .as_array()
        .unwrap()
        .iter()
        .filter_map(|v| v["kind"].as_str())
        .collect::<Vec<_>>();
    assert!(kinds.contains(&"identity_class_precedence"));
    assert!(kinds.contains(&"alias_occupied"));
    assert!(kinds.contains(&"multi_workspace"));
}

#[test]
fn seed_import_reports_every_other_kind_exactly() {
    let mut store = RegistryStore::new();
    register(&mut store, &seed_id("git:taken"), "/t/taken");
    let request = SeedImportRequest {
        source: "mc".into(),
        payload: SeedPayload {
            pairs: vec![
                pair("/t/shared", "git:b", None),
                pair("/t/shared", "git:a", None),
                pair("/t/new", "git:taken", None),
            ],
            ..Default::default()
        },
        ..Default::default()
    };
    let out = result(&do_seed(&mut store, request).unwrap());
    let lines: Vec<(String, String)> = out["report"]
        .as_array()
        .unwrap()
        .iter()
        .map(|v| {
            (
                v["kind"].as_str().unwrap().to_string(),
                v["mcIdentity"].as_str().unwrap().to_string(),
            )
        })
        .collect();
    assert_eq!(
        lines,
        vec![
            ("conflicted".to_string(), "git:a".to_string()),
            ("conflicted".to_string(), "git:b".to_string()),
            ("conflicted".to_string(), "git:taken".to_string()),
        ]
    );
    assert_eq!(
        out["report"][0]["reason"],
        "one root observed under multiple identities"
    );
    assert_eq!(
        out["report"][2]["reason"],
        "minted id occupied by another project"
    );
    assert_eq!(out["noop"], true);
}

#[test]
fn seed_import_names_and_places_projects() {
    let mut store = RegistryStore::new();
    let mut named = pair("/t/b", "dir:b", None);
    named.name = Some("from-pair".into());
    do_seed(
        &mut store,
        SeedImportRequest {
            source: "mc".into(),
            payload: SeedPayload {
                pairs: vec![
                    pair("/t/last-part", "dir:a", None),
                    named,
                    pair("/t/c", "dir:c", None),
                ],
                workspaces: vec![SeedWorkspace {
                    workspace_id: "w".into(),
                    name: "one".into(),
                }],
                members: vec![SeedMember {
                    mc_identity: "dir:c".into(),
                    workspace_id: "w".into(),
                }],
                names: vec![("dir:c".into(), "from-names".into())],
            },
            ..Default::default()
        },
    )
    .unwrap();
    for (identity, name, workspace) in [
        ("dir:a", "last-part", None),
        ("dir:b", "from-pair", None),
        ("dir:c", "from-names", Some("w")),
    ] {
        let view = store
            .enumerate(None)
            .projects
            .into_iter()
            .find(|p| p.project_id == seed_id(identity))
            .unwrap();
        assert_eq!(view.name, name);
        assert_eq!(view.workspace_id.as_deref(), workspace);
    }
    // A workspace that is known is renamed.
    do_seed(
        &mut store,
        SeedImportRequest {
            source: "mc".into(),
            payload: SeedPayload {
                workspaces: vec![SeedWorkspace {
                    workspace_id: "w".into(),
                    name: "uno".into(),
                }],
                ..Default::default()
            },
            ..Default::default()
        },
    )
    .unwrap();
    assert_eq!(store.enumerate(Some("w")).workspaces[0].name, "uno");
}

#[test]
fn seed_import_that_names_an_unknown_workspace_changes_nothing() {
    let mut store = RegistryStore::new();
    let error = do_seed(
        &mut store,
        SeedImportRequest {
            source: "mc".into(),
            payload: SeedPayload {
                pairs: vec![pair("/t/a", "dir:a", None), pair("/t/b", "dir:b", None)],
                members: vec![SeedMember {
                    mc_identity: "dir:a".into(),
                    workspace_id: "nowhere".into(),
                }],
                ..Default::default()
            },
            ..Default::default()
        },
    )
    .unwrap_err();
    assert_eq!(error.to_text(), "database: FOREIGN KEY constraint failed");
    assert_eq!(store.generation(), 0);
    assert_eq!(resolved(&store, "/t/a").via, "implicit");
    assert_eq!(resolved(&store, "/t/b").via, "implicit");
    assert_eq!(format!("{store:?}"), format!("{:?}", RegistryStore::new()));
    assert!(store.verify().ok);
}

#[test]
fn rebuild_restores_whatever_was_lived() {
    let mut store = RegistryStore::new();
    // A registration with a workspace, then another name for the project.
    for (name, workspace) in [("one", Some("w")), ("two", None)] {
        do_register(
            &mut store,
            RegisterRequest {
                project_id: Some("p".into()),
                name: name.into(),
                workspace_id: workspace.map(String::from),
                roots: vec!["/t/p".into()],
                ..Default::default()
            },
        )
        .unwrap();
    }
    // One that joins the owner of its root.
    do_register(
        &mut store,
        RegisterRequest {
            name: "three".into(),
            roots: vec!["/t/p".into(), "/t/more".into()],
            ..Default::default()
        },
    )
    .unwrap();
    register(&mut store, "q", "/t/q");
    do_assign(
        &mut store,
        AssignWorkspaceRequest {
            project_id: "q".into(),
            workspace_id: "v".into(),
            workspace_name: Some("a name".into()),
            ..Default::default()
        },
    )
    .unwrap();
    do_upgrade(
        &mut store,
        UpgradeImplicitRequest {
            implicit_id: implicit_project_id("/t/u"),
            name: "u".into(),
            workspace_id: Some("w".into()),
            root: Some("/t/u".into()),
            ..Default::default()
        },
    )
    .unwrap();
    // An import with a contested root, names of its own and too many claims.
    let mut named = pair("/t/named", "dir:named", None);
    named.name = Some("from the pair".into());
    do_seed(
        &mut store,
        SeedImportRequest {
            source: "mc".into(),
            payload: SeedPayload {
                pairs: vec![
                    named,
                    pair("/t/plain", "dir:plain", None),
                    pair("/t/torn", "dir:x", None),
                    pair("/t/torn", "dir:y", None),
                    pair("/t/both", "git:both", Some("git")),
                    pair("/t/both", "dir:both", Some("dir")),
                ],
                workspaces: vec![SeedWorkspace {
                    workspace_id: "w".into(),
                    name: "renamed".into(),
                }],
                members: vec![
                    SeedMember {
                        mc_identity: "dir:plain".into(),
                        workspace_id: "w".into(),
                    },
                    SeedMember {
                        mc_identity: "dir:plain".into(),
                        workspace_id: "v".into(),
                    },
                ],
                ..Default::default()
            },
            ..Default::default()
        },
    )
    .unwrap();
    let lived = format!("{store:?}");
    let listed = store.enumerate(None).to_value().to_string();
    assert!(listed.contains("\"name\":\"three\",\"projectId\":\"p\""));
    assert!(listed.contains("{\"name\":\"a name\",\"workspaceId\":\"v\"}"));
    assert!(listed.contains("from the pair"));
    assert_eq!(resolved(&store, "/t/torn").via, "implicit");
    assert!(store.verify().ok);
    assert_eq!(store.rebuild().unwrap(), store.generation());
    assert_eq!(format!("{store:?}"), lived);
    // From the journal alone, too.
    let mut emptied =
        RegistryStore::from_rows(TableRows::new(), store.journal().clone()).unwrap();
    assert!(!emptied.verify().ok);
    emptied.rebuild().unwrap();
    assert_eq!(format!("{emptied:?}"), lived);
    assert_eq!(emptied.enumerate(None).to_value().to_string(), listed);
}

#[test]
fn verify_holds_the_store_against_its_journal() {
    let mut store = RegistryStore::new();
    register(&mut store, "p", "/t/p");
    register(&mut store, "q", "/t/q");
    assert!(store.verify().ok);
    // A root that went astray, and one that nobody registered.
    let mut tables = store.tables().clone();
    tables.roots.remove(0);
    tables.roots.push(LinkRow {
        key: "/t/other".into(),
        target: "q".into(),
        at: NOW,
    });
    let altered = RegistryStore::from_rows(tables, store.journal().clone()).unwrap();
    let reply = altered.verify();
    assert!(!reply.ok);
    assert_eq!(
        reply.mismatches,
        [
            "unjournaled project_root /t/other",
            "missing project_root /t/p"
        ]
    );
    // Rows in another order than they were added in.
    let mut tables = store.tables().clone();
    tables.projects.reverse();
    let turned = RegistryStore::from_rows(tables, store.journal().clone()).unwrap();
    assert_eq!(turned.verify().mismatches, ["reordered project"]);
    // A name that was changed behind the journal.
    let mut tables = store.tables().clone();
    tables.projects[1].name = "someone".into();
    let renamed = RegistryStore::from_rows(tables, store.journal().clone()).unwrap();
    assert_eq!(
        renamed.verify().mismatches,
        ["unjournaled project q", "missing project q"]
    );
    // An entry that cannot be replayed.
    store
        .apply_entry(
            "register",
            "[]",
            "test",
            &None,
            0,
            JournalRecord::Unreadable("missing field `name`".into()),
            &vec![],
        )
        .unwrap();
    let reply = store.verify();
    assert!(!reply.ok);
    assert_eq!(reply.mismatches, ["journal 3: missing field `name`"]);
}

#[test]
fn seed_import_refuses_other_sources_and_lost_roots() {
    let mut store = RegistryStore::new();
    let error = do_seed(
        &mut store,
        SeedImportRequest {
            source: "elsewhere".into(),
            ..Default::default()
        },
    )
    .unwrap_err();
    assert_eq!(error.to_text(), "invalid_source: elsewhere");
    let error = do_seed(
        &mut store,
        SeedImportRequest {
            source: "mc".into(),
            payload: SeedPayload {
                pairs: vec![pair("/t/gone", "dir:a", None)],
                ..Default::default()
            },
            ..Default::default()
        },
    )
    .unwrap_err();
    assert_eq!(
        error.to_text(),
        "root_not_found: path does not exist: /t/gone"
    );
}

#[test]
fn ids_are_digests_in_hexadecimal() {
    let short = |input: &[u8]| blake3::hash(input).to_hex()[..16].to_string();
    assert_eq!(seed_id("git:one"), format!("pj-{}", short(b"seed1:git:one")));
    assert_eq!(
        mint("d", "n", &vec!["/a".to_string(), "/b".to_string()]),
        format!("pj-{}", short(b"d:n\0/a\0/b"))
    );
    assert_eq!(hex_prefix(&[0x00, 0x9f, 0xff]), "009fff");
    assert_eq!(
        implicit_project_ids(&vec!["/a".to_string()]),
        vec![implicit_project_id("/a")]
    );
}

#[test]
fn the_reserved_namespace_is_implicit_ids_of_any_version() {
    for id in ["pj-implicit1-x", "pj-implicit12-", "pj-implicit007-a-b"] {
        assert!(reserved(id), "{id}");
    }
    for id in [
        "pj-implicit-x",
        "pj-implicit1",
        "pj-implicitx-1",
        "pj-1",
        "x-pj-implicit1-",
    ] {
        assert!(!reserved(id), "{id}");
    }
    assert!(reserved(&implicit_project_id("/any")));
    assert!(!reserved(&seed_id("any")));
    assert!(!reserved(&mint("d", "n", &vec![])));
}

#[test]
fn rows_that_cannot_stand_together_make_no_store() {
    let mut tables = TableRows::new();
    tables.roots.push(LinkRow {
        key: "/r".into(),
        target: "nobody".into(),
        at: 0,
    });
    assert!(RegistryStore::from_rows(tables, vec![]).is_none());
    let entry = |seq: i64, key: Option<&str>| JournalRow {
        seq,
        op: "x".into(),
        payload_json: "{}".into(),
        actor: "a".into(),
        request_key: key.map(String::from),
        created_at: 0,
        response_json: None,
        record: JournalRecord::Other,
    };
    let from = |journal: Vec<JournalRow>| RegistryStore::from_rows(TableRows::new(), journal);
    assert!(from(vec![entry(2, None), entry(1, None)]).is_none());
    assert!(from(vec![entry(0, None)]).is_none());
    assert!(from(vec![entry(1, Some("k")), entry(2, Some("k"))]).is_none());
    assert_eq!(
        from(vec![entry(3, Some("k")), entry(7, None)])
            .unwrap()
            .generation(),
        7
    );
}

#[test]
fn mutation_roots_are_canonical_or_refused() {
    assert_eq!(
        RegistryStore::canonical_mutation_root(
            "/t/./a",
            &RootProbe::Canonical("/t/a".to_string())
        )
        .unwrap(),
        "/t/a"
    );
    assert_eq!(
        RegistryStore::canonical_mutation_root("/t/gone", &RootProbe::Absent)
            .unwrap_err()
            .to_text(),
        "path: project root does not exist: /t/gone"
    );
    assert_eq!(
        RegistryStore::canonical_mutation_root("/t", &RootProbe::Failed("no".to_string()))
            .unwrap_err()
            .to_text(),
        "path: no"
    );
}

#[test]
fn the_journal_keeps_requests_and_answers() {
    let mut store = RegistryStore::new();
    let blob = register(&mut store, "p", "/t/p");
    let entry = &store.journal()[0];
    assert_eq!(entry.op, "register");
    assert_eq!(entry.actor, "module");
    assert_eq!(entry.created_at, NOW);
    assert_eq!(
        entry.response_json.as_deref(),
        Some(String::from_utf8(blob).unwrap().as_str())
    );
    assert_eq!(
        entry.payload_json,
        "{\"implicitAliasCollisions\":[],\"request\":{\"actor\":null,\
         \"derivedRootParents\":[],\"name\":\"p\",\"projectId\":\"p\",\"requestKey\":null,\
         \"roots\":[\"/t/p\"],\"workspaceId\":null}}"
    );
    assert_eq!(
        entry.response_json.as_deref(),
        Some(
            "{\"result\":{\"derivedRootParents\":[],\"generation\":1,\
             \"implicitAliasCollisions\":[],\"name\":\"p\",\"noop\":false,\"projectId\":\"p\",\
             \"roots\":[\"/t/p\"],\"warnings\":[]}}"
        )
    );
}
