use entorhinal::error::RegistryError;
use entorhinal::gauges::{Counter, HealthGauges, Recording};
use entorhinal::json::at;
use entorhinal::liveness::{LivenessBatch, LivenessSession, LivenessState};
use entorhinal::paths::{QueryProbe, RootProbe};
use entorhinal::queries::{EnumerateReply, ProjectView};
use entorhinal::replies::encode_result;
use entorhinal::request::{
    AssignWorkspaceRequest, RegisterRequest, RemoveRequest, SeedImportRequest,
    UpgradeImplicitRequest,
};
use entorhinal::service::{
    fallback_storage, generation_in, handle, handler_error, invalid_params, invalid_request,
    manifest, route, storage_unavailable, Call, OperationKind, Route,
    TrustTier,
};
use entorhinal::store::RegistryStore;
use serde_json::Value;

fn session(id: &str, root: &str, state: &str, activity: i64) -> LivenessSession {
    LivenessSession {
        session_id: id.into(),
        canonical_root: root.into(),
        state: state.into(),
        last_activity_ms: activity,
    }
}

fn batch(seq: u64, snapshot: bool, sessions: Vec<LivenessSession>) -> LivenessBatch {
    LivenessBatch {
        seq,
        snapshot,
        sessions,
    }
}

fn view(id: &str, root: &str) -> ProjectView {
    ProjectView {
        project_id: id.into(),
        name: id.into(),
        roots: vec![root.into()],
        implicit: false,
        ref_kind: "local".into(),
        device_fingerprint: None,
        workspace_id: None,
        last_route_activity_ms: None,
    }
}

fn read(bytes: &[u8]) -> Value {
    serde_json::from_slice(bytes).unwrap()
}

#[test]
fn session_liveness_gap_detection_and_snapshot_rebase() {
    let mut state = LivenessState::new();
    let mut gauges = HealthGauges::new();
    let mut call = |state: &mut LivenessState, b: LivenessBatch| {
        let out = state.ingest(&b);
        gauges.record_batch(&out);
        (read(&out.reply), gauges.liveness_gaps)
    };
    let (v, _) = call(
        &mut state,
        batch(10, true, vec![session("s1", "/tmp/a", "active", 0)]),
    );
    assert_eq!(v["result"]["snapshotRequested"], false);
    assert_eq!(v["result"]["tracked"], 1);
    let (v, _) = call(
        &mut state,
        batch(11, false, vec![session("s2", "/tmp/b", "idle", 0)]),
    );
    assert_eq!(v["result"]["snapshotRequested"], false);
    assert_eq!(v["result"]["tracked"], 2);
    let (v, gaps) = call(
        &mut state,
        batch(13, false, vec![session("s1", "/tmp/a", "gone", 0)]),
    );
    assert_eq!(
        v["result"]["snapshotRequested"], true,
        "gap must request a snapshot"
    );
    assert_eq!(v["result"]["tracked"], 1, "gone still applies");
    assert_eq!(gaps, 1);
    let (v, _) = call(
        &mut state,
        batch(14, false, vec![session("s3", "/tmp/c", "active", 0)]),
    );
    assert_eq!(
        v["result"]["snapshotRequested"], true,
        "stale state must keep requesting a snapshot on contiguous deltas"
    );
    let (v, _) = call(&mut state, batch(1, true, vec![]));
    assert_eq!(v["result"]["snapshotRequested"], false);
    assert_eq!(v["result"]["tracked"], 0);
    let (v, _) = call(&mut state, batch(2, false, vec![]));
    assert_eq!(v["result"]["snapshotRequested"], false);
}

#[test]
fn batch_numbers_wrap_around() {
    let mut state = LivenessState::new();
    assert!(!state.ingest(&batch(u64::MAX, false, vec![])).gap);
    assert!(!state.ingest(&batch(0, false, vec![])).gap);
    let out = state.ingest(&batch(0, false, vec![session("s", "/", "x", 1)]));
    assert!(out.gap);
    assert_eq!(out.count, 1);
    assert_eq!(
        String::from_utf8(out.reply).unwrap(),
        "{\"result\":{\"accepted\":true,\"snapshotRequested\":true,\"tracked\":1}}"
    );
}

#[test]
fn enumerate_annotation_joins_liveness_by_root_containment() {
    let mut state = LivenessState::new();
    state.ingest(&batch(
        1,
        true,
        vec![
            session("s1", "/w/proj/sub", "active", 500),
            session("s2", "/w/proj", "idle", 900),
            session("s3", "/elsewhere", "active", 999),
        ],
    ));
    let mut reply = EnumerateReply {
        generation: 1,
        workspaces: vec![],
        projects: vec![view("p1", "/w/proj"), view("p2", "/w/other")],
    };
    state.annotate(&mut reply);
    assert_eq!(reply.projects[0].last_route_activity_ms, Some(900));
    assert_eq!(reply.projects[1].last_route_activity_ms, None);
}

#[test]
fn annotation_is_by_whole_names_and_leaves_replies_without_sessions_alone() {
    let mut reply = EnumerateReply {
        generation: 1,
        workspaces: vec![],
        projects: vec![view("p", "/w/proj/")],
    };
    reply.projects[0].last_route_activity_ms = Some(7);
    LivenessState::new().annotate(&mut reply);
    assert_eq!(reply.projects[0].last_route_activity_ms, Some(7));
    let mut state = LivenessState::new();
    state.ingest(&batch(
        1,
        false,
        vec![session("s", "/w/project-other", "active", 5)],
    ));
    state.annotate(&mut reply);
    assert_eq!(reply.projects[0].last_route_activity_ms, None);
    state.ingest(&batch(
        2,
        false,
        vec![session("s", "/w/proj/in", "active", -5)],
    ));
    state.annotate(&mut reply);
    assert_eq!(reply.projects[0].last_route_activity_ms, Some(-5));
}

#[test]
fn main_manifest_declares_the_projects_surface_and_all_skeleton_mutations() {
    let m = manifest();
    assert_eq!(m.module_id, "entorhinal");
    assert_eq!(m.trust_tier, TrustTier::FirstParty);
    assert!(m.operations.iter().any(|o| o.name == "resolve"));
    assert!(m.operations.iter().any(|o| o.name == "seed_import"));
    assert_eq!(m.operations.len(), 12);
    for operation in &m.operations {
        assert!(route(&operation.name).is_ok(), "{}", operation.name);
    }
    assert_eq!(
        m.operations
            .iter()
            .filter(|o| o.kind == OperationKind::Query)
            .count(),
        5
    );
}

#[test]
fn methods_are_routed_or_refused() {
    assert_eq!(route("resolve").unwrap(), Route::Resolve);
    assert_eq!(
        route("projects.session_liveness").unwrap(),
        Route::SessionLiveness
    );
    let error = route("wat").unwrap_err();
    assert_eq!(error.code, "unknown_method");
    assert_eq!(
        error.message,
        "unknown projects method 'wat', see the management manifest"
    );
}

#[test]
fn refusals_carry_code_and_message() {
    let error = handler_error(&RegistryError::Domain {
        code: "c".into(),
        message: "m".into(),
    });
    assert_eq!((error.code.as_str(), error.message.as_str()), ("c", "c: m"));
    for (e, message) in [
        (RegistryError::Store("s".into()), "s"),
        (RegistryError::Database("d".into()), "database: d"),
        (RegistryError::Path("p".into()), "path: p"),
    ] {
        let error = handler_error(&e);
        assert_eq!(error.code, "storage_error");
        assert_eq!(error.message, message);
    }
    assert_eq!(invalid_params("why").code, "invalid_params");
    assert_eq!(
        invalid_request("why").message,
        "request must be JSON with method and params: why"
    );
    assert_eq!(
        storage_unavailable().message,
        "projects storage is not ready"
    );
}

fn register_call(id: &str, root: &str) -> Call {
    Call::Register {
        req: RegisterRequest {
            project_id: Some(id.into()),
            name: id.into(),
            roots: vec![root.into()],
            ..Default::default()
        },
        roots: vec![RootProbe::Canonical(root.into())],
        parents: vec![],
    }
}

#[test]
fn requests_are_answered_and_recorded() {
    let mut store = RegistryStore::new();
    let sessions = LivenessState::new();
    let mut gauges = HealthGauges::new();
    let mut run = |store: &mut RegistryStore, call: Call, now: i64| {
        let (answer, recording) = handle(store, &sessions, call, now);
        gauges.record(recording, now);
        (answer, recording)
    };
    let (answer, recording) = run(&mut store, register_call("p", "/t/p"), 10);
    assert_eq!(read(&answer.unwrap())["result"]["projectId"], "p");
    assert_eq!(recording, Recording::Mutation(Some(1)));
    let (answer, recording) = run(
        &mut store,
        Call::Resolve {
            path: "/t/p".into(),
            cwd: "/".into(),
            probe: QueryProbe::Found {
                climbed: 0,
                resolved: "/t/p".into(),
            },
            device: None,
            devices: vec![],
        },
        11,
    );
    assert_eq!(
        String::from_utf8(answer.unwrap()).unwrap(),
        "{\"result\":{\"canonicalRoot\":\"/t/p\",\"generation\":1,\"gone\":false,\
         \"projectId\":\"p\",\"projectName\":\"p\",\"via\":\"root\",\"workspaceId\":null}}"
    );
    assert_eq!(recording, Recording::Query(Counter::Resolve, 1));
    let (_, recording) = run(
        &mut store,
        Call::ResolveProjectId {
            project_id: "x".into(),
        },
        12,
    );
    assert_eq!(recording, Recording::Query(Counter::Resolve, 1));
    let (answer, recording) = run(&mut store, Call::Enumerate { workspace_id: None }, 13);
    assert_eq!(
        read(&answer.unwrap())["result"]["projects"][0]["projectId"],
        "p"
    );
    assert_eq!(recording, Recording::Query(Counter::Enumerate, 1));
    let (answer, recording) = run(
        &mut store,
        Call::JournalTail {
            after_seq: 0,
            limit: None,
        },
        14,
    );
    assert_eq!(read(&answer.unwrap())["result"]["entries"][0]["seq"], 1);
    assert_eq!(recording, Recording::Query(Counter::JournalTail, 1));
    let (answer, _) = run(&mut store, Call::Verify, 15);
    assert_eq!(read(&answer.unwrap())["result"]["ok"], true);
    let (answer, _) = run(&mut store, Call::Rebuild, 16);
    assert_eq!(
        String::from_utf8(answer.unwrap()).unwrap(),
        "{\"result\":{\"generation\":1}}"
    );
    let health = gauges.health();
    assert!(health.failing);
    assert_eq!(health.detail.as_deref(), Some("projects storage is not ready"));
    assert_eq!(health.metrics["resolveCount"], 2);
    assert_eq!(health.metrics["enumerateCount"], 1);
    assert_eq!(health.metrics["journalTailCount"], 1);
    assert_eq!(health.metrics["lastOperationMs"], 14);
    assert_eq!(health.metrics["generation"], 1);
}

#[test]
fn every_mutation_is_served() {
    let mut store = RegistryStore::new();
    let sessions = LivenessState::new();
    handle(&mut store, &sessions, register_call("p", "/t/p"), 1)
        .0
        .unwrap();
    let (answer, recording) = handle(
        &mut store,
        &sessions,
        Call::AssignWorkspace {
            req: AssignWorkspaceRequest {
                project_id: "p".into(),
                workspace_id: "w".into(),
                ..Default::default()
            },
        },
        2,
    );
    assert!(answer.is_ok());
    assert_eq!(recording, Recording::Mutation(Some(2)));
    let (answer, recording) = handle(
        &mut store,
        &sessions,
        Call::UpgradeImplicit {
            req: UpgradeImplicitRequest {
                implicit_id: "old".into(),
                project_id: Some("q".into()),
                name: "q".into(),
                root: Some("/t/q".into()),
                ..Default::default()
            },
            roots: vec![RootProbe::Canonical("/t/q".into())],
        },
        3,
    );
    assert!(answer.is_ok());
    assert_eq!(recording, Recording::Mutation(Some(3)));
    let (answer, recording) = handle(
        &mut store,
        &sessions,
        Call::SeedImport {
            req: SeedImportRequest {
                source: "mc".into(),
                ..Default::default()
            },
            roots: vec![],
        },
        4,
    );
    assert_eq!(read(&answer.unwrap())["result"]["noop"], true);
    assert_eq!(recording, Recording::Mutation(Some(3)));
    let (answer, recording) = handle(
        &mut store,
        &sessions,
        Call::Remove {
            req: RemoveRequest {
                project_id: Some("nobody".into()),
                ..Default::default()
            },
        },
        5,
    );
    let error = answer.unwrap_err();
    assert_eq!(error.code, "not_found");
    assert_eq!(error.message, "not_found: nobody");
    assert_eq!(recording, Recording::Nothing);
}

#[test]
fn gauges_follow_the_store() {
    let mut gauges = HealthGauges::new();
    gauges.store_opened(7);
    let health = gauges.health();
    assert!(!health.failing);
    assert_eq!(health.detail, None);
    assert_eq!(health.metrics["storeReady"], true);
    assert_eq!(health.metrics["generation"], 7);
    gauges.record(Recording::Mutation(None), 9);
    assert_eq!(gauges.generation, 7);
    assert_eq!(gauges.last_operation_ms, 9);
    gauges.record(Recording::Nothing, 10);
    assert_eq!(gauges.last_operation_ms, 9);
    gauges.store_lost();
    assert!(gauges.health().failing);
    gauges.resolve_count = u64::MAX;
    gauges.record(Recording::Query(Counter::Resolve, 8), 11);
    assert_eq!(gauges.resolve_count, 0);
}

#[test]
fn answers_tell_the_journal_head() {
    assert_eq!(
        generation_in(&b"{\"result\":{\"generation\":42}}".to_vec()),
        Some(42)
    );
    for text in [
        "{\"result\":{\"generation\":1.5}}",
        "{\"result\":{\"generation\":9223372036854775808}}",
        "{\"result\":{}}",
        "{\"generation\":1}",
        "not json",
    ] {
        assert_eq!(generation_in(&text.as_bytes().to_vec()), None, "{text}");
    }
}

#[test]
fn values_are_found_under_their_keys() {
    let v: Value = serde_json::from_str("{\"a\":1,\"b\":null}").unwrap();
    assert_eq!(at(&v, "a"), 1);
    assert!(at(&v, "b").is_null());
    assert!(at(&v, "c").is_null());
    assert!(at(&Value::Bool(true), "a").is_null());
    assert_eq!(
        String::from_utf8(encode_result(v)).unwrap(),
        "{\"result\":{\"a\":1,\"b\":null}}"
    );
}

#[test]
fn storage_falls_back_to_the_data_home() {
    let path = |xdg: Option<&str>, home: Option<&str>| {
        fallback_storage(&xdg.map(String::from), &home.map(String::from), "/tmp").path
    };
    assert_eq!(
        path(Some("/data/"), Some("/home/u")),
        "/data/cortexkit/ck-entorhinal/store.db"
    );
    assert_eq!(
        path(Some(""), Some("/home/u")),
        "/home/u/.local/share/cortexkit/ck-entorhinal/store.db"
    );
    assert_eq!(
        path(None, None),
        "/tmp/ck-entorhinal-data/cortexkit/ck-entorhinal/store.db"
    );
    let storage = fallback_storage(&None, &None, "/tmp");
    assert_eq!(storage.module_id, "entorhinal");
    assert_eq!(storage.storage_namespace, "default");
}
