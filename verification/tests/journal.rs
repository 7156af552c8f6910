use entorhinal::entries::{kind_of, request_in, Kind};
use entorhinal::ids::{implicit_project_id, reserved};
use entorhinal::liveness::LivenessState;
use entorhinal::paths::{QueryProbe, RootProbe};
use entorhinal::request::{
    AssignWorkspaceRequest, JournalRecord, RegisterRequest, RemoveRequest, SeedImportRequest,
    SeedMember, SeedPair, SeedPayload, SeedWorkspace, UpgradeImplicitRequest,
};
use entorhinal::rows::{LinkRow, MemberRow, ProjectRow, WorkspaceRow};
use entorhinal::segments::{date_of, segment_name, supervised, Date};
use entorhinal::service::{handle, needs, Call, Concurrency, StorageKind, StorageScope};
use entorhinal::store::{RegistryStore, TableRows, Write};
use serde_json::Value;

const NOW: i64 = 1_700_000_000_000;

fn parsed(text: &str) -> Value {
    serde_json::from_str(text).unwrap()
}

fn there(paths: &[&str]) -> Vec<RootProbe> {
    paths
        .iter()
        .map(|path| RootProbe::Canonical(path.to_string()))
        .collect()
}

fn register(store: &mut RegistryStore, id: Option<&str>, roots: &[&str]) -> Value {
    let blob = store
        .register(
            RegisterRequest {
                project_id: id.map(str::to_string),
                name: "alpha".into(),
                roots: roots.iter().map(|root| root.to_string()).collect(),
                ..Default::default()
            },
            &there(roots),
            &Vec::new(),
            NOW,
        )
        .unwrap();
    parsed(std::str::from_utf8(&blob).unwrap())["result"].clone()
}

fn project(id: &str) -> ProjectRow {
    ProjectRow {
        project_id: id.into(),
        name: id.into(),
        implicit: false,
        seed_identity: None,
        created_at: 1,
        updated_at: 1,
    }
}

fn link(key: &str, target: &str) -> LinkRow {
    LinkRow {
        key: key.into(),
        target: target.into(),
        at: 1,
    }
}

#[test]
fn the_request_is_a_part_of_the_payload_or_all_of_it() {
    assert_eq!(
        request_in(r#"{"request":{"name":"a"},"implicitAliasCollisions":[]}"#).unwrap(),
        parsed(r#"{"name":"a"}"#)
    );
    assert_eq!(
        request_in(r#"{"name":"a"}"#).unwrap(),
        parsed(r#"{"name":"a"}"#)
    );
    // A request that is null is still the request.
    assert_eq!(
        request_in(r#"{"request":null,"name":"a"}"#).unwrap(),
        Value::Null
    );
    assert_eq!(request_in(r#"["request"]"#).unwrap(), parsed(r#"["request"]"#));
    assert_eq!(request_in("7").unwrap(), parsed("7"));
    assert!(request_in("").is_err());
    assert!(request_in("{").is_err());
}

#[test]
fn operations_have_their_kinds() {
    assert_eq!(kind_of("register"), Kind::Register);
    assert_eq!(kind_of("assign_workspace"), Kind::AssignWorkspace);
    assert_eq!(kind_of("upgrade_implicit"), Kind::UpgradeImplicit);
    assert_eq!(kind_of("seed_import"), Kind::SeedImport);
    assert_eq!(kind_of("remove"), Kind::Remove);
    assert_eq!(kind_of("Register"), Kind::Other);
    assert_eq!(kind_of("registers"), Kind::Other);
    assert_eq!(kind_of(""), Kind::Other);
}

#[test]
fn every_entry_keeps_the_request_that_made_it() {
    let mut store = RegistryStore::new();
    register(&mut store, Some("p"), &["/t/b", "/t/a"]);
    store
        .assign_workspace(
            AssignWorkspaceRequest {
                project_id: "p".into(),
                workspace_id: "w".into(),
                workspace_name: Some("Work".into()),
                ..Default::default()
            },
            NOW,
        )
        .unwrap();
    store
        .upgrade_implicit(
            UpgradeImplicitRequest {
                implicit_id: "old".into(),
                project_id: Some("q".into()),
                name: "q".into(),
                ..Default::default()
            },
            &Vec::new(),
            NOW,
        )
        .unwrap();
    store
        .seed_import(
            SeedImportRequest {
                source: "mc".into(),
                payload: SeedPayload {
                    pairs: vec![SeedPair {
                        canonical_root: "/t/seed".into(),
                        mc_identity: "one".into(),
                        ..Default::default()
                    }],
                    names: vec![("one".into(), "One".into())],
                    ..Default::default()
                },
                ..Default::default()
            },
            &there(&["/t/seed"]),
            NOW,
        )
        .unwrap();
    store
        .remove(
            RemoveRequest {
                project_id: Some("q".into()),
                ..Default::default()
            },
            NOW,
        )
        .unwrap();
    let journal = store.journal();
    let kinds: Vec<Kind> = journal.iter().map(|row| kind_of(&row.op)).collect();
    assert_eq!(
        kinds,
        vec![
            Kind::Register,
            Kind::AssignWorkspace,
            Kind::UpgradeImplicit,
            Kind::SeedImport,
            Kind::Remove
        ]
    );
    for row in journal {
        let asked = match &row.record {
            JournalRecord::Register(r) => r.to_value(),
            JournalRecord::AssignWorkspace(r) => r.to_value(),
            JournalRecord::UpgradeImplicit(r) => r.to_value(),
            JournalRecord::SeedImport(r) => r.to_value(),
            JournalRecord::Remove(r) => r.to_value(),
            _ => panic!("no request in {}", row.op),
        };
        assert_eq!(request_in(&row.payload_json).unwrap(), asked);
    }
    let first = request_in(&journal[0].payload_json).unwrap();
    assert_eq!(first["projectId"], "p");
    assert_eq!(first["roots"], parsed(r#"["/t/a","/t/b"]"#));
    let import = request_in(&journal[3].payload_json).unwrap();
    assert_eq!(import["payload"]["names"]["one"], "One");
}

#[test]
fn registrations_do_as_they_answer() {
    let mut store = RegistryStore::new();
    let taken = implicit_project_id("/t/b");
    store
        .upgrade_implicit(
            UpgradeImplicitRequest {
                implicit_id: taken.clone(),
                project_id: Some("first".into()),
                name: "first".into(),
                ..Default::default()
            },
            &Vec::new(),
            NOW,
        )
        .unwrap();
    let v = register(&mut store, None, &["/t/c", "/t/b", "/t/a", "/t/c"]);
    assert_eq!(v["roots"], parsed(r#"["/t/a","/t/b","/t/c"]"#));
    let warnings = v["warnings"].as_array().unwrap();
    assert_eq!(warnings.len(), 1);
    assert_eq!(warnings[0]["oldId"], taken.as_str());
    assert_eq!(warnings[0]["owner"], "first");
    for root in ["/t/a", "/t/b", "/t/c"] {
        let found = store
            .resolve(
                root,
                "/",
                QueryProbe::Found {
                    climbed: 0,
                    resolved: root.to_string(),
                },
                None,
                &Vec::new(),
            )
            .unwrap();
        assert_eq!(found.via, "root");
        assert_eq!(v["projectId"], found.project_id.as_str());
        let alias = implicit_project_id(root);
        assert!(reserved(&alias));
        let traced = store.resolve_project_id(&alias);
        assert_eq!(traced.via, "alias");
        if root == "/t/b" {
            assert_eq!(traced.project_id, "first");
        } else {
            assert_eq!(v["projectId"], traced.project_id.as_str());
        }
    }
}

#[test]
fn refused_rows_leave_the_tables_as_they_were() {
    let mut tables = TableRows::new();
    tables.write(&Write::Project(project("p"))).unwrap();
    tables.write(&Write::Root(link("/t/a", "p"))).unwrap();
    let before = format!("{tables:?}");
    let refused = [
        Write::Project(project("p")),
        Write::Root(link("/t/a", "p")),
        Write::Root(link("/t/b", "nobody")),
        Write::Alias(link("old", "nobody")),
        Write::Parent(link("/t", "nobody")),
        Write::Member(MemberRow {
            workspace_id: "nowhere".into(),
            remote: false,
            device_fingerprint: String::new(),
            project_id: "p".into(),
        }),
    ];
    for row in &refused {
        assert!(tables.write(row).is_err(), "{row:?}");
        assert_eq!(format!("{tables:?}"), before);
    }
    tables
        .write(&Write::Workspace(WorkspaceRow {
            workspace_id: "w".into(),
            name: "w".into(),
            created_at: 1,
            updated_at: 1,
        }))
        .unwrap();
    assert_ne!(format!("{tables:?}"), before);
}

#[test]
fn an_entry_that_cannot_be_replayed_leaves_the_tables_as_they_were() {
    let mut tables = TableRows::new();
    tables.write(&Write::Project(project("p"))).unwrap();
    let before = format!("{tables:?}");
    // The first identity could be imported; the second is claimed for a workspace
    // that is not there.
    let pair = |root: &str, identity: &str| SeedPair {
        canonical_root: root.into(),
        mc_identity: identity.into(),
        ..Default::default()
    };
    let import = SeedImportRequest {
        source: "mc".into(),
        payload: SeedPayload {
            pairs: vec![pair("/t/a", "a"), pair("/t/b", "b")],
            workspaces: vec![SeedWorkspace {
                workspace_id: "w".into(),
                name: "w".into(),
            }],
            members: vec![SeedMember {
                mc_identity: "b".into(),
                workspace_id: "nowhere".into(),
            }],
            ..Default::default()
        },
        ..Default::default()
    };
    assert_eq!(
        tables.replay(&JournalRecord::SeedImport(import), NOW),
        Err("FOREIGN KEY constraint failed".to_string())
    );
    assert_eq!(format!("{tables:?}"), before);
    assert_eq!(
        tables.replay(&JournalRecord::Unreadable("no JSON".into()), NOW),
        Err("no JSON".to_string())
    );
    assert_eq!(format!("{tables:?}"), before);
}

#[test]
fn an_unmoved_head_means_unchanged_rows() {
    let mut store = RegistryStore::new();
    register(&mut store, Some("p"), &["/t/a"]);
    let sessions = LivenessState::new();
    let before = format!("{:?} {:?}", store.tables(), store.journal());
    let head = store.generation();
    let refused = Call::Remove {
        req: RemoveRequest {
            project_id: Some("nobody".into()),
            ..Default::default()
        },
    };
    let repeated = Call::Register {
        req: RegisterRequest {
            project_id: Some("p".into()),
            name: "alpha".into(),
            roots: vec!["/t/a".into()],
            ..Default::default()
        },
        roots: there(&["/t/a"]),
        parents: Vec::new(),
    };
    assert!(handle(&mut store, &sessions, refused, NOW).0.is_err());
    assert!(handle(&mut store, &sessions, repeated, NOW).0.is_ok());
    assert_eq!(store.generation(), head);
    assert_eq!(
        format!("{:?} {:?}", store.tables(), store.journal()),
        before
    );
}

#[test]
fn days_have_their_dates() {
    let date = |day: u64| date_of(day).to_text();
    assert_eq!(date(0), "1970-01-01");
    assert_eq!(date(31), "1970-02-01");
    assert_eq!(date(58), "1970-02-28");
    assert_eq!(date(59), "1970-03-01");
    assert_eq!(date(364), "1970-12-31");
    assert_eq!(date(365), "1971-01-01");
    assert_eq!(date(789), "1972-02-29");
    assert_eq!(date(10_956), "1999-12-31");
    assert_eq!(date(11_016), "2000-02-29");
    assert_eq!(date(20_000), "2024-10-04");
    assert_eq!(date(47_540), "2100-02-28");
    assert_eq!(date(47_541), "2100-03-01");
    assert_eq!(date(146_096), "2369-12-31");
    assert_eq!(date(146_097), "2370-01-01");
    assert_eq!(date(2_932_896), "9999-12-31");
    assert_eq!(
        date_of(20_000),
        Date {
            year: 2024,
            month: 10,
            day: 4
        }
    );
    // The last day that can be counted has a date too.
    assert!(date_of(u64::MAX).year > 9_999);
}

#[test]
fn dates_go_in_order() {
    let mut last = date_of(0);
    for day in 1..2_000 {
        let next = date_of(day);
        assert!((last.year, last.month, last.day) < (next.year, next.month, next.day));
        last = next;
    }
}

#[test]
fn segments_are_named_after_their_day() {
    assert_eq!(segment_name(20_000), "entorhinal.2024-10-04.log");
    assert_eq!(segment_name(0), "entorhinal.1970-01-01.log");
}

#[test]
fn the_log_needs_the_id_of_its_module() {
    assert_eq!(
        supervised(Some("entorhinal".into())),
        Ok("entorhinal".to_string())
    );
    let refusal = Err("SUBC_MODULE_ID is not set".to_string());
    assert_eq!(supervised(Some(String::new())), refusal);
    assert_eq!(supervised(None), refusal);
}

#[test]
fn the_module_needs_a_store_and_nothing_else() {
    let needs = needs();
    assert_eq!(needs.config_schema, parsed(r#"{"type":"object"}"#));
    assert_eq!(needs.concurrency, Concurrency::ModuleManaged);
    assert_eq!(needs.storage_kind, StorageKind::Sqlite);
    assert_eq!(needs.storage_scope, StorageScope::Project);
    assert!(needs.owns_schema);
    assert!(needs.observability.is_empty());
    assert!(needs.identity_scope.is_empty());
    assert!(needs.capabilities.is_empty());
    assert!(needs.must_never_reach.is_empty());
    assert!(needs.vault_grants.is_empty());
    assert!(needs.identity_requires.is_empty());
    assert!(needs.identity_optional.is_empty());
}
