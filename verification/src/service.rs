//! The module that serves the registry: what it is called, which requests it
//! answers, and how.
use vstd::prelude::*;
use vstd::string::*;
use vstd::utf8::*;

use crate::error::{Failure, RegistryError};
use crate::frame::Outcome;
use crate::gauges::{Counter, Recording};
use crate::json::{as_i64, at, field, int_value, object_value, read, text_value, wrap, Json};
use crate::liveness::{Live, LivenessState};
use crate::model::{Register, Registry, Remove};
use crate::paths::{join_path, Probe, QueryProbe, RootProbe};
use crate::replies::encode_result;
use crate::request::{
    AssignWorkspaceRequest, RegisterRequest, RemoveRequest, SeedImportRequest,
    UpgradeImplicitRequest,
};
use crate::store::RegistryStore;
use crate::text::{cat, cat3, str_eq, Text};
use crate::{
    entries, error, frame, json, liveness, mutations, paths, queries, register, replay, replies,
    seed, text,
};

verus! {

/// What the daemon serves this module as.
pub const MODULE_ID: &'static str = "entorhinal";

/// The capability that the module provides.
pub const CAPABILITY: &'static str = "project-identity/v1";

/// Where the module keeps its store, when the daemon does not say.
pub const DEFAULT_STORAGE_NAMESPACE: &'static str = "default";

/// How a request was refused.
#[derive(Debug)]
pub struct HandlerError {
    pub code: String,
    pub message: String,
}

/// What a [`HandlerError`] says.
pub struct Refusal {
    pub code: Text,
    pub message: Text,
}

impl View for HandlerError {
    type V = Refusal;

    open spec fn view(&self) -> Refusal {
        Refusal { code: self.code@, message: self.message@ }
    }
}

/// A request that the module answers.
#[derive(Debug, Clone, Copy, PartialEq, Eq, Structural)]
pub enum Route {
    Resolve,
    ResolveProjectId,
    Enumerate,
    JournalTail,
    Register,
    AssignWorkspace,
    UpgradeImplicit,
    Remove,
    SeedImport,
    SessionLiveness,
    Verify,
    Rebuild,
}

/// Whether an operation reads or changes.
#[derive(Debug, Clone, Copy, PartialEq, Eq, Structural)]
pub enum OperationKind {
    Query,
    Mutate,
}

/// An operation that the module offers.
#[derive(Debug, Clone)]
pub struct Operation {
    pub name: String,
    pub kind: OperationKind,
    pub description: String,
}

/// What an [`Operation`] says: name, kind and description.
pub type Offer = (Text, OperationKind, Text);

/// The operations in a vector.
pub open spec fn offers(v: Seq<Operation>) -> Seq<Offer> {
    v.map_values(|o: Operation| (o.name@, o.kind, o.description@))
}

/// What the module offers.
pub open spec fn offered() -> Seq<Offer> {
    seq![
        (
            "resolve"@,
            OperationKind::Query,
            "Resolve a filesystem path to its registered or implicit project identity."@,
        ),
        (
            "resolve_project_id"@,
            OperationKind::Query,
            "Look up a project by its durable project id and return its registration record."@,
        ),
        (
            "enumerate"@,
            OperationKind::Query,
            "List all registered projects with workspace assignments and tags."@,
        ),
        (
            "journal_tail"@,
            OperationKind::Query,
            "Read the newest registry journal entries for operator inspection."@,
        ),
        (
            "register"@,
            OperationKind::Mutate,
            "Register a project root under a workspace, minting its durable project id."@,
        ),
        (
            "assign_workspace"@,
            OperationKind::Mutate,
            "Move a registered project to a different workspace."@,
        ),
        (
            "upgrade_implicit"@,
            OperationKind::Mutate,
            "Promote an implicit (path-derived) project to a registered one, keeping its id."@,
        ),
        (
            "remove"@,
            OperationKind::Mutate,
            "Remove a project registration; its id stops resolving."@,
        ),
        (
            "seed_import"@,
            OperationKind::Mutate,
            "Bulk-import registrations from a seed file (operator recovery path)."@,
        ),
        (
            "verify"@,
            OperationKind::Query,
            "Check registry invariants and report inconsistencies without mutating."@,
        ),
        (
            "rebuild"@,
            OperationKind::Mutate,
            "Rebuild registry projections by replaying the journal (operator recovery path)."@,
        ),
        (
            "projects.session_liveness"@,
            OperationKind::Mutate,
            "Ingest session liveness snapshots and deltas from the executive for dead-folder detection."@,
        ),
    ]
}

/// The request that a method names.
pub open spec fn route_of(method: Text) -> Option<Route> {
    if method == "resolve"@ {
        Some(Route::Resolve)
    } else if method == "resolve_project_id"@ {
        Some(Route::ResolveProjectId)
    } else if method == "enumerate"@ {
        Some(Route::Enumerate)
    } else if method == "journal_tail"@ {
        Some(Route::JournalTail)
    } else if method == "register"@ {
        Some(Route::Register)
    } else if method == "assign_workspace"@ {
        Some(Route::AssignWorkspace)
    } else if method == "upgrade_implicit"@ {
        Some(Route::UpgradeImplicit)
    } else if method == "remove"@ {
        Some(Route::Remove)
    } else if method == "seed_import"@ {
        Some(Route::SeedImport)
    } else if method == "projects.session_liveness"@ {
        Some(Route::SessionLiveness)
    } else if method == "verify"@ {
        Some(Route::Verify)
    } else if method == "rebuild"@ {
        Some(Route::Rebuild)
    } else {
        None
    }
}

/// The refusal of a method that nobody knows.
pub open spec fn unknown_method(method: Text) -> Refusal {
    Refusal {
        code: "unknown_method"@,
        message: "unknown projects method '"@ + method + "', see the management manifest"@,
    }
}

/// The refusal of a request that the registry failed.
pub open spec fn refusal_of(e: Failure) -> Refusal {
    Refusal {
        code: match e {
            Failure::Domain { code, .. } => code,
            _ => "storage_error"@,
        },
        message: e.shown(),
    }
}

fn operation(name: &str, kind: OperationKind, description: &str) -> (r: Operation)
    ensures
        (r.name@, r.kind, r.description@) == (name@, kind, description@),
{
    Operation { name: name.to_owned(), kind, description: description.to_owned() }
}

/// Whose code the module is.
#[derive(Debug, Clone, Copy, PartialEq, Eq, Structural)]
pub enum TrustTier {
    FirstParty,
}

/// What the module says of itself when it registers.
#[derive(Debug, Clone)]
pub struct Manifest {
    pub module_id: String,
    pub module_version: String,
    pub trust_tier: TrustTier,
    pub capabilities: Vec<String>,
    pub operations: Vec<Operation>,
}

/// What the module says of itself when it registers.
pub fn manifest() -> (r: Manifest)
    ensures
        r.module_id@ == MODULE_ID@,
        r.module_version@ == crate::cli::VERSION@,
        r.trust_tier == TrustTier::FirstParty,
        text::texts(r.capabilities@) == seq![CAPABILITY@],
        offers(r.operations@) == offered(),
{
    let mut ops: Vec<Operation> = Vec::new();
    ops.push(
        operation(
            "resolve",
            OperationKind::Query,
            "Resolve a filesystem path to its registered or implicit project identity.",
        ),
    );
    ops.push(
        operation(
            "resolve_project_id",
            OperationKind::Query,
            "Look up a project by its durable project id and return its registration record.",
        ),
    );
    ops.push(
        operation(
            "enumerate",
            OperationKind::Query,
            "List all registered projects with workspace assignments and tags.",
        ),
    );
    ops.push(
        operation(
            "journal_tail",
            OperationKind::Query,
            "Read the newest registry journal entries for operator inspection.",
        ),
    );
    ops.push(
        operation(
            "register",
            OperationKind::Mutate,
            "Register a project root under a workspace, minting its durable project id.",
        ),
    );
    ops.push(
        operation(
            "assign_workspace",
            OperationKind::Mutate,
            "Move a registered project to a different workspace.",
        ),
    );
    ops.push(
        operation(
            "upgrade_implicit",
            OperationKind::Mutate,
            "Promote an implicit (path-derived) project to a registered one, keeping its id.",
        ),
    );
    ops.push(
        operation(
            "remove",
            OperationKind::Mutate,
            "Remove a project registration; its id stops resolving.",
        ),
    );
    ops.push(
        operation(
            "seed_import",
            OperationKind::Mutate,
            "Bulk-import registrations from a seed file (operator recovery path).",
        ),
    );
    ops.push(
        operation(
            "verify",
            OperationKind::Query,
            "Check registry invariants and report inconsistencies without mutating.",
        ),
    );
    ops.push(
        operation(
            "rebuild",
            OperationKind::Mutate,
            "Rebuild registry projections by replaying the journal (operator recovery path).",
        ),
    );
    ops.push(
        operation(
            "projects.session_liveness",
            OperationKind::Mutate,
            "Ingest session liveness snapshots and deltas from the executive for dead-folder detection.",
        ),
    );
    assert(offers(ops@) =~= offered());
    let mut capabilities: Vec<String> = Vec::new();
    capabilities.push(CAPABILITY.to_owned());
    assert(text::texts(capabilities@) =~= seq![CAPABILITY@]);
    Manifest {
        module_id: MODULE_ID.to_owned(),
        module_version: crate::cli::VERSION.to_owned(),
        trust_tier: TrustTier::FirstParty,
        capabilities,
        operations: ops,
    }
}

/// How calls are delivered to the module.
#[derive(Debug, Clone, Copy, PartialEq, Eq, Structural)]
pub enum Concurrency {
    /// One after another.
    Serial,
    /// Side by side; the module orders them itself.
    ModuleManaged,
    /// Side by side, in any order.
    StatelessParallel,
}

/// What a caller's identity is bound to.
#[derive(Debug, Clone, Copy, PartialEq, Eq, Structural)]
pub enum IdentityScope {
    Session,
    Project,
}

/// How something that the module shows can be watched.
#[derive(Debug, Clone, Copy, PartialEq, Eq, Structural)]
pub enum ObservabilityKind {
    Snapshot,
    Stream,
}

/// What keeps the module's store.
#[derive(Debug, Clone, Copy, PartialEq, Eq, Structural)]
pub enum StorageKind {
    Sqlite,
}

/// What a store belongs to.
#[derive(Debug, Clone, Copy, PartialEq, Eq, Structural)]
pub enum StorageScope {
    Project,
}

/// What the module needs of the daemon, and how it wants to be called.
pub struct Needs {
    /// The schema of the module's configuration.
    pub config_schema: serde_json::Value,
    pub concurrency: Concurrency,
    /// What the module shows, by name.
    pub observability: Vec<(String, ObservabilityKind)>,
    /// What a caller has to say of itself.
    pub identity_scope: Vec<IdentityScope>,
    /// The capabilities that the module uses, and whether it cannot do without.
    pub capabilities: Vec<(String, bool)>,
    /// The capabilities that the module must never reach.
    pub must_never_reach: Vec<String>,
    pub storage_kind: StorageKind,
    pub storage_scope: StorageScope,
    /// Whether the module writes the schema of its store itself.
    pub owns_schema: bool,
    /// The secrets that the module asks for, each with the reason.
    pub vault_grants: Vec<(String, String)>,
    pub identity_requires: Vec<IdentityScope>,
    pub identity_optional: Vec<IdentityScope>,
}

/// What the module needs of the daemon: a store of its own in SQLite, with a schema
/// that it writes itself, and calls that it may order itself. It takes any object for
/// its configuration, and needs no secret, no identity and no capability.
pub fn needs() -> (r: Needs)
    ensures
        json::value_view(r.config_schema) == json::object(seq![("type"@, Json::Str("object"@))]),
        r.concurrency == Concurrency::ModuleManaged,
        r.observability@.len() == 0,
        r.identity_scope@.len() == 0,
        r.capabilities@.len() == 0,
        r.must_never_reach@.len() == 0,
        r.storage_kind == StorageKind::Sqlite,
        r.storage_scope == StorageScope::Project,
        r.owns_schema,
        r.vault_grants@.len() == 0,
        r.identity_requires@.len() == 0,
        r.identity_optional@.len() == 0,
{
    Needs {
        config_schema: wrap("type", text_value("object")),
        concurrency: Concurrency::ModuleManaged,
        observability: Vec::new(),
        identity_scope: Vec::new(),
        capabilities: Vec::new(),
        must_never_reach: Vec::new(),
        storage_kind: StorageKind::Sqlite,
        storage_scope: StorageScope::Project,
        owns_schema: true,
        vault_grants: Vec::new(),
        identity_requires: Vec::new(),
        identity_optional: Vec::new(),
    }
}

/// The request that a method names.
pub fn route(method: &str) -> (r: Result<Route, HandlerError>)
    ensures
        match route_of(method@) {
            Some(to) => r matches Ok(found) && found == to,
            None => r matches Err(e) && e@ == unknown_method(method@),
        },
{
    if str_eq(method, "resolve") {
        Ok(Route::Resolve)
    } else if str_eq(method, "resolve_project_id") {
        Ok(Route::ResolveProjectId)
    } else if str_eq(method, "enumerate") {
        Ok(Route::Enumerate)
    } else if str_eq(method, "journal_tail") {
        Ok(Route::JournalTail)
    } else if str_eq(method, "register") {
        Ok(Route::Register)
    } else if str_eq(method, "assign_workspace") {
        Ok(Route::AssignWorkspace)
    } else if str_eq(method, "upgrade_implicit") {
        Ok(Route::UpgradeImplicit)
    } else if str_eq(method, "remove") {
        Ok(Route::Remove)
    } else if str_eq(method, "seed_import") {
        Ok(Route::SeedImport)
    } else if str_eq(method, "projects.session_liveness") {
        Ok(Route::SessionLiveness)
    } else if str_eq(method, "verify") {
        Ok(Route::Verify)
    } else if str_eq(method, "rebuild") {
        Ok(Route::Rebuild)
    } else {
        Err(
            HandlerError {
                code: "unknown_method".to_owned(),
                message: cat3(
                    "unknown projects method '",
                    method,
                    "', see the management manifest",
                ),
            },
        )
    }
}

/// The refusal of a body that is no request; `error` says why.
pub fn invalid_request(error: &str) -> (r: HandlerError)
    ensures
        r@ == (Refusal {
            code: "invalid_request"@,
            message: "request must be JSON with method and params: "@ + error@,
        }),
{
    HandlerError {
        code: "invalid_request".to_owned(),
        message: cat("request must be JSON with method and params: ", error),
    }
}

/// The refusal of parameters that cannot be read; `error` says why.
pub fn invalid_params(error: &str) -> (r: HandlerError)
    ensures
        r@ == (Refusal { code: "invalid_params"@, message: error@ }),
{
    HandlerError { code: "invalid_params".to_owned(), message: error.to_owned() }
}

/// The refusal of a request that comes before the store is open.
pub fn storage_unavailable() -> (r: HandlerError)
    ensures
        r@ == (Refusal {
            code: "storage_unavailable"@,
            message: "projects storage is not ready"@,
        }),
{
    HandlerError {
        code: "storage_unavailable".to_owned(),
        message: "projects storage is not ready".to_owned(),
    }
}

/// The refusal of a request that the registry failed.
pub fn handler_error(e: &RegistryError) -> (r: HandlerError)
    ensures
        r@ == refusal_of(e@),
{
    HandlerError {
        code: match e {
            RegistryError::Domain { code, .. } => code.clone(),
            _ => "storage_error".to_owned(),
        },
        message: e.to_text(),
    }
}

/// The journal head that an answer gives.
pub fn generation_in(blob: &Vec<u8>) -> (r: Option<i64>)
    ensures
        r == frame::head_in(blob@),
{
    match read(blob.as_slice()) {
        Ok(v) => {
            let head = at(&at(&v, "result"), "generation");
            let n = as_i64(&head);
            proof {
                if let Some(i) = n {
                    let k = choose|k: i64|
                        json::value_view(head) == #[trigger] json::int_json(k as int);
                    assert(json::int_json(i as int) == json::int_json(k as int));
                    json::lemma_decimal_injective(i as int, k as int);
                }
            }
            n
        },
        Err(_) => None,
    }
}

/// A request to the registry, with what the file system knows of its paths.
pub enum Call {
    Resolve {
        path: String,
        cwd: String,
        probe: QueryProbe,
        device: Option<u64>,
        devices: Vec<Option<u64>>,
    },
    ResolveProjectId { project_id: String },
    Enumerate { workspace_id: Option<String> },
    JournalTail { after_seq: i64, limit: Option<i64> },
    Register { req: RegisterRequest, roots: Vec<RootProbe>, parents: Vec<RootProbe> },
    AssignWorkspace { req: AssignWorkspaceRequest },
    UpgradeImplicit { req: UpgradeImplicitRequest, roots: Vec<RootProbe> },
    Remove { req: RemoveRequest },
    SeedImport { req: SeedImportRequest, roots: Vec<RootProbe> },
    Verify,
    Rebuild,
}

/// Whether what is known of a request's paths is of its paths.
pub open spec fn fits(call: Call, reg: Registry) -> bool {
    match call {
        Call::Resolve { path, cwd, probe, devices, .. } => devices@.len()
            == reg.tables.parents.len() && (probe@ matches Probe::Found { climbed, .. } ==> climbed
            <= paths::climbable(paths::lexical(path@, cwd@))),
        Call::Register { req, roots, parents } => roots@.len() == req.roots@.len()
            && parents@.len() == req.derived_root_parents@.len(),
        Call::UpgradeImplicit { req, roots } => roots@.len() == mutations::upgrade_roots(
            req@,
        ).len(),
        Call::SeedImport { req, roots } => roots@.len() == req.payload.pairs@.len(),
        Call::Verify => reg.tables.members.len() <= i64::MAX && reg.tables.placements.len()
            <= i64::MAX,
        _ => true,
    }
}

/// Whether a request is a mutation that was not answered before.
pub open spec fn mutates_afresh(call: Call, reg: Registry) -> bool {
    match call {
        Call::Register { req, .. } => frame::kept(reg.journal, req@.request_key) is None,
        Call::AssignWorkspace { req } => frame::kept(reg.journal, req@.request_key) is None,
        Call::UpgradeImplicit { req, .. } => frame::kept(reg.journal, req@.request_key) is None,
        Call::Remove { req } => frame::kept(reg.journal, req@.request_key) is None,
        Call::SeedImport { req, .. } => frame::kept(reg.journal, req@.request_key) is None,
        _ => false,
    }
}

/// What a request leaves behind, answers, and gives to record.
pub struct Handled {
    pub registry: Registry,
    pub answer: Result<Seq<u8>, Refusal>,
    pub recording: Recording,
}

/// A query that was answered.
pub open spec fn read_only(reg: Registry, v: Json, counter: Counter) -> Handled {
    Handled {
        registry: reg,
        answer: Ok(replies::wire(v)),
        recording: Recording::Query(counter, reg.generation()),
    }
}

/// A request that failed.
pub open spec fn failed(reg: Registry, e: Failure) -> Handled {
    Handled { registry: reg, answer: Err(refusal_of(e)), recording: Recording::Nothing }
}

/// A mutation that ran.
pub open spec fn mutated(o: Outcome) -> Handled {
    match o.answer {
        Ok(bytes) => Handled {
            registry: o.registry,
            answer: Ok(bytes),
            recording: Recording::Mutation(frame::head_in(bytes)),
        },
        Err(e) => failed(o.registry, e),
    }
}

/// What a request comes to.
pub open spec fn handled(
    reg: Registry,
    sessions: Map<Text, Live>,
    call: Call,
    now: i64,
) -> Handled {
    match call {
        Call::Resolve { path, cwd, probe, device, devices } => match paths::query_path(
            paths::lexical(path@, cwd@),
            probe@,
        ) {
            Err(e) => failed(reg, e),
            Ok((found, exists_there)) => read_only(
                reg,
                replies::resolved_json(
                    queries::resolution(reg, found, exists_there, device, devices@),
                ),
                Counter::Resolve,
            ),
        },
        Call::ResolveProjectId { project_id } => read_only(
            reg,
            replies::traced_json(queries::trace(reg, project_id@)),
            Counter::Resolve,
        ),
        Call::Enumerate { workspace_id } => read_only(
            reg,
            replies::listing_json(
                liveness::annotated(
                    sessions,
                    queries::listing(reg, text::opt_text(workspace_id)),
                ),
            ),
            Counter::Enumerate,
        ),
        Call::JournalTail { after_seq, limit } => read_only(
            reg,
            replies::tail_json(
                queries::tail(
                    reg.journal,
                    after_seq,
                    match limit {
                        Some(n) => n,
                        None => 100,
                    },
                ),
                reg.generation(),
            ),
            Counter::JournalTail,
        ),
        Call::Register { req, roots, parents } => mutated(
            register::register_outcome(
                reg,
                req@,
                paths::facts(roots@),
                paths::facts(parents@),
                now,
            ),
        ),
        Call::AssignWorkspace { req } => mutated(mutations::assign_outcome(reg, req@, now)),
        Call::UpgradeImplicit { req, roots } => mutated(
            mutations::upgrade_outcome(reg, req@, paths::facts(roots@), now),
        ),
        Call::Remove { req } => mutated(mutations::remove_outcome(reg, req@, now)),
        Call::SeedImport { req, roots } => mutated(
            seed::seed_outcome(reg, req@, paths::facts(roots@), now),
        ),
        Call::Verify => Handled {
            registry: reg,
            answer: Ok(replies::wire(replies::audit_json(reg))),
            recording: Recording::Nothing,
        },
        Call::Rebuild => match replay::replay_all(reg.journal) {
            Ok(tables) => Handled {
                registry: Registry { tables, ..reg },
                answer: Ok(replies::wire(replies::rebuilt_json(reg.generation()))),
                recording: Recording::Nothing,
            },
            Err(e) => failed(reg, Failure::Store("storage backend: "@ + e)),
        },
    }
}

/// The answer, as the library's types view it.
pub open spec fn replied(r: Result<Vec<u8>, HandlerError>) -> Result<Seq<u8>, Refusal> {
    match r {
        Ok(bytes) => Ok(bytes@),
        Err(e) => Err(e@),
    }
}

fn settle_mutation(result: Result<Vec<u8>, RegistryError>) -> (r: (
    Result<Vec<u8>, HandlerError>,
    Recording,
))
    ensures
        match frame::seen(result) {
            Ok(bytes) => replied(r.0) == Ok::<Seq<u8>, Refusal>(bytes) && r.1
                == Recording::Mutation(frame::head_in(bytes)),
            Err(e) => replied(r.0) == Err::<Seq<u8>, Refusal>(refusal_of(e)) && r.1
                == Recording::Nothing,
        },
{
    match result {
        Ok(blob) => {
            let head = generation_in(&blob);
            (Ok(blob), Recording::Mutation(head))
        },
        Err(e) => (Err(handler_error(&e)), Recording::Nothing),
    }
}

/// Answers a request to the registry.
pub fn handle(store: &mut RegistryStore, sessions: &LivenessState, call: Call, now: i64) -> (r: (
    Result<Vec<u8>, HandlerError>,
    Recording,
))
    requires
        old(store)@.sound(),
        sessions.wf(),
        fits(call, old(store)@),
    ensures
        (Handled { registry: final(store)@, answer: replied(r.0), recording: r.1 }) == handled(
            old(store)@,
            sessions@.sessions,
            call,
            now,
        ),
        final(store)@.sound(),
        mutates_afresh(call, old(store)@) && r.0 is Ok ==> r.1 == Recording::Mutation(
            Some(final(store)@.generation()),
        ),
        entries::extends(old(store)@.journal, final(store)@.journal),
        final(store)@.generation() == old(store)@.generation() && !(call is Rebuild)
            ==> final(store)@ == old(store)@,
{
    match call {
        Call::Resolve { path, cwd, probe, device, devices } => {
            match store.resolve(path.as_str(), cwd.as_str(), probe, device, &devices) {
                Ok(reply) => (
                    Ok(encode_result(reply.to_value())),
                    Recording::Query(Counter::Resolve, reply.generation),
                ),
                Err(e) => (Err(handler_error(&e)), Recording::Nothing),
            }
        },
        Call::ResolveProjectId { project_id } => {
            let reply = store.resolve_project_id(project_id.as_str());
            (
                Ok(encode_result(reply.to_value())),
                Recording::Query(Counter::Resolve, reply.generation),
            )
        },
        Call::Enumerate { workspace_id } => {
            let mut reply = match &workspace_id {
                Some(w) => store.enumerate(Some(w.as_str())),
                None => store.enumerate(None),
            };
            sessions.annotate(&mut reply);
            (
                Ok(encode_result(reply.to_value())),
                Recording::Query(Counter::Enumerate, reply.generation),
            )
        },
        Call::JournalTail { after_seq, limit } => {
            let most: i64 = match limit {
                Some(n) => n,
                None => 100,
            };
            let reply = store.journal_tail(after_seq, most);
            (
                Ok(encode_result(reply.to_value())),
                Recording::Query(Counter::JournalTail, reply.generation),
            )
        },
        Call::Register { req, roots, parents } => {
            settle_mutation(store.register(req, &roots, &parents, now))
        },
        Call::AssignWorkspace { req } => settle_mutation(store.assign_workspace(req, now)),
        Call::UpgradeImplicit { req, roots } => {
            settle_mutation(store.upgrade_implicit(req, &roots, now))
        },
        Call::Remove { req } => settle_mutation(store.remove(req, now)),
        Call::SeedImport { req, roots } => settle_mutation(store.seed_import(req, &roots, now)),
        Call::Verify => {
            let reply = store.verify();
            (Ok(encode_result(reply.to_value())), Recording::Nothing)
        },
        Call::Rebuild => {
            match store.rebuild() {
                Ok(generation) => {
                    let mut p: Vec<(String, serde_json::Value)> = Vec::new();
                    p.push(field("generation", int_value(generation)));
                    assert(json::fields(p@) =~= seq![
                        ("generation"@, json::int_json(generation as int)),
                    ]);
                    (Ok(encode_result(object_value(p))), Recording::Nothing)
                },
                Err(e) => (Err(handler_error(&e)), Recording::Nothing),
            }
        },
    }
}

/// Where the module keeps its store, when the daemon does not say.
#[derive(Debug, Clone)]
pub struct Storage {
    pub module_id: String,
    pub storage_namespace: String,
    pub path: String,
}

/// The directory for data: `$XDG_DATA_HOME`, else `~/.local/share`, else one for
/// temporary files. An empty variable counts as unset.
pub open spec fn data_home(xdg: Option<Text>, home: Option<Text>, temp: Text) -> Text {
    if xdg is Some && xdg.unwrap().len() > 0 {
        xdg.unwrap()
    } else if home is Some && home.unwrap().len() > 0 {
        paths::joined(home.unwrap(), ".local/share"@)
    } else {
        paths::joined(temp, "ck-entorhinal-data"@)
    }
}

/// `cortexkit_store_types::sqlite_store_path`: the data home without slashes at
/// its end, then `/cortexkit/`, the module and `/store.db`.
#[verifier::external_body]
fn sqlite_store_path(data_home: &str, module: &str) -> (r: String)
    ensures
        r@ == paths::trimmed(data_home@) + "/cortexkit/"@ + module@ + "/store.db"@,
{
    cortexkit_store_types::sqlite_store_path(data_home, module)
}

fn has_text(o: &Option<String>) -> (r: bool)
    ensures
        r == (o matches Some(s) && s@.len() > 0),
{
    match o {
        Some(s) => !s.as_str().is_empty(),
        None => false,
    }
}

/// Where the module keeps its store, when the daemon does not say. The arguments
/// are the variables `XDG_DATA_HOME` and `HOME` and the directory for temporary
/// files.
pub fn fallback_storage(xdg: &Option<String>, home: &Option<String>, temp: &str) -> (r: Storage)
    ensures
        r.module_id@ == MODULE_ID@,
        r.storage_namespace@ == DEFAULT_STORAGE_NAMESPACE@,
        r.path@ == paths::trimmed(data_home(text::opt_text(*xdg), text::opt_text(*home), temp@))
            + "/cortexkit/"@ + "ck-entorhinal"@ + "/store.db"@,
{
    let mut at_home = join_path(temp, "ck-entorhinal-data");
    if has_text(home) {
        if let Some(h) = home {
            at_home = join_path(h.as_str(), ".local/share");
        }
    }
    if has_text(xdg) {
        if let Some(x) = xdg {
            at_home = x.clone();
        }
    }
    Storage {
        module_id: MODULE_ID.to_owned(),
        storage_namespace: DEFAULT_STORAGE_NAMESPACE.to_owned(),
        path: sqlite_store_path(at_home.as_str(), "ck-entorhinal"),
    }
}

} // verus!
