//! Importing registrations.
use vstd::prelude::*;
use vstd::string::*;

use crate::error::{domain, refusal, Failure, RegistryError};
use crate::frame::{Action, Deed, Note, Outcome};
use crate::ids::seed_id;
use crate::json::{
    array_value, compact, field, list_value, object_value, opt_value, text_value, Field, Json,
};
use crate::model::{Claim, Pair, Record, Registry, Seed, Tables};
use crate::order::{sort_dedup, sort_order};
use crate::paths::{canonical_roots, file_name, RootFact, RootProbe};
use crate::register::actor_or;
use crate::request::{JournalRecord, SeedImportRequest, SeedMember, SeedPair, SeedWorkspace};
use crate::rows::{find_project, find_workspace, lookup};
use crate::store::{RegistryStore, TableRows};
use crate::text::{clone_opt, clone_strs, starts_with, str_eq, Text};
use crate::{
    effects, entries, frame, ids, json, model, order, paths, payload, register, request, text,
};

verus! {

/// One line of the report on an import.
#[verifier::ext_equal]
pub struct Line {
    pub kind: Text,
    pub identity: Option<Text>,
    pub root: Option<Text>,
    pub project_id: Option<Text>,
    pub owner: Option<Text>,
    pub new_project: Option<Text>,
    pub roots: Option<Seq<Text>>,
    pub reason: Option<Text>,
}

/// A line about an identity, with nothing more to say.
pub open spec fn line(kind: Text, identity: Text) -> Line {
    Line {
        kind,
        identity: Some(identity),
        root: None,
        project_id: None,
        owner: None,
        new_project: None,
        roots: None,
        reason: None,
    }
}

/// A line of the report, as JSON.
pub open spec fn line_json(l: Line) -> Json {
    json::object(
        seq![
            ("kind"@, Json::Str(l.kind)),
            ("mcIdentity"@, json::opt_str(l.identity)),
            ("canonicalRoot"@, json::opt_str(l.root)),
            ("projectId"@, json::opt_str(l.project_id)),
            ("ownerProjectId"@, json::opt_str(l.owner)),
            ("newProjectId"@, json::opt_str(l.new_project)),
            (
                "roots"@,
                match l.roots {
                    Some(roots) => json::text_array(roots),
                    None => Json::Null,
                },
            ),
            ("reason"@, json::opt_str(l.reason)),
        ],
    )
}

/// The roots of observations.
pub open spec fn roots_of(pairs: Seq<Pair>) -> Seq<Text> {
    pairs.map_values(|p: Pair| p.root)
}

/// The identities of observations.
pub open spec fn identities_of(pairs: Seq<Pair>) -> Seq<Text> {
    pairs.map_values(|p: Pair| p.identity)
}

/// What observations are ordered by: the identity, then the root.
pub open spec fn pair_keys(pairs: Seq<Pair>) -> Seq<Seq<Text>> {
    pairs.map_values(|p: Pair| seq![p.identity, p.root])
}

/// Whether two observations say the same.
pub open spec fn same_pair(a: Pair, b: Pair) -> bool {
    a.root == b.root && a.identity == b.identity && a.class == b.class
}

/// The observations without those that an earlier one said.
pub open spec fn first_pairs(pairs: Seq<Pair>) -> Seq<Pair>
    decreases pairs.len(),
{
    if pairs.len() == 0 {
        Seq::empty()
    } else {
        let head = first_pairs(pairs.drop_last());
        if exists|i: int| 0 <= i < head.len() && same_pair(#[trigger] head[i], pairs.last()) {
            head
        } else {
            head.push(pairs.last())
        }
    }
}

/// The observations in order, each once.
pub open spec fn tidy_pairs(pairs: Seq<Pair>) -> Seq<Pair> {
    first_pairs(order::pick(pairs, order::order_of(pair_keys(pairs))))
}

/// The observations of a root.
pub open spec fn pairs_at(pairs: Seq<Pair>, root: Text) -> Seq<Pair> {
    pairs.filter(|p: Pair| p.root == root)
}

/// Whether an observation is of a git identity.
pub open spec fn is_git(p: Pair) -> bool {
    p.class == Some("git"@) || text::begins_with(p.identity, "git:"@)
}

/// Whether any observation is of a git identity.
pub open spec fn any_git(pairs: Seq<Pair>) -> bool {
    exists|i: int| 0 <= i < pairs.len() && is_git(#[trigger] pairs[i])
}

/// Whether an observation gives way to a git identity.
pub open spec fn sidelined(p: Pair, git: bool) -> bool {
    git && p.class == Some("dir"@)
}

/// The observations that give way.
pub open spec fn losers(rows: Seq<Pair>) -> Seq<Pair> {
    rows.filter(|p: Pair| sidelined(p, any_git(rows)))
}

/// The observations that stand.
pub open spec fn standing(rows: Seq<Pair>) -> Seq<Pair> {
    rows.filter(|p: Pair| !sidelined(p, any_git(rows)))
}

/// The identities that a root's observations leave.
pub open spec fn contenders(rows: Seq<Pair>) -> Seq<Text> {
    order::sorted_set(identities_of(standing(rows)))
}

/// The line for an observation that gives way.
pub open spec fn precedence_line(p: Pair) -> Line {
    Line {
        root: Some(p.root),
        reason: Some("git identity wins"@),
        ..line("identity_class_precedence"@, p.identity)
    }
}

/// The line for one of several identities of a root.
pub open spec fn contest_line(identity: Text, root: Text) -> Line {
    Line {
        root: Some(root),
        reason: Some("one root observed under multiple identities"@),
        ..line("conflicted"@, identity)
    }
}

/// What the report says of a root.
pub open spec fn root_lines(root: Text, rows: Seq<Pair>) -> Seq<Line> {
    let out = losers(rows).map_values(|p: Pair| precedence_line(p));
    if contenders(rows).len() > 1 {
        out + contenders(rows).map_values(|id: Text| contest_line(id, root))
    } else {
        out
    }
}

/// What the report says of roots, in order.
pub open spec fn roots_lines(pairs: Seq<Pair>, roots: Seq<Text>) -> Seq<Line>
    decreases roots.len(),
{
    if roots.len() == 0 {
        Seq::empty()
    } else {
        roots_lines(pairs, roots.drop_last()) + root_lines(
            roots.last(),
            pairs_at(pairs, roots.last()),
        )
    }
}

/// The identities that have a root to themselves, once for each such root.
pub open spec fn winners(pairs: Seq<Pair>, roots: Seq<Text>) -> Seq<Text>
    decreases roots.len(),
{
    if roots.len() == 0 {
        Seq::empty()
    } else {
        let head = winners(pairs, roots.drop_last());
        let left = contenders(pairs_at(pairs, roots.last()));
        if left.len() == 1 {
            head.push(left[0])
        } else {
            head
        }
    }
}

/// The observations of the roots that an identity has to itself.
pub open spec fn group(pairs: Seq<Pair>, roots: Seq<Text>, identity: Text) -> Seq<Pair>
    decreases roots.len(),
{
    if roots.len() == 0 {
        Seq::empty()
    } else {
        let head = group(pairs, roots.drop_last(), identity);
        let rows = pairs_at(pairs, roots.last());
        if contenders(rows).len() == 1 && contenders(rows)[0] == identity {
            head + standing(rows)
        } else {
            head
        }
    }
}

/// Where an import stands.
#[verifier::ext_equal]
pub struct Progress {
    pub tables: Tables,
    pub lines: Seq<Line>,
    pub changed: bool,
    pub failure: Option<Failure>,
}

/// The import of workspaces: each is added, or renamed where its name differs.
pub open spec fn import_titles(t: Tables, titles: Seq<(Text, Text)>, now: i64) -> (Tables, bool)
    decreases titles.len(),
{
    if titles.len() == 0 {
        (t, false)
    } else {
        let (u, changed) = import_titles(t, titles.drop_last(), now);
        let (id, name) = titles.last();
        match model::workspace(u.workspaces, id) {
            Some(w) => if w.name == name {
                (u, changed)
            } else {
                (u.retitle(id, name, now), true)
            },
            None => (u.open_workspace(id, name, now), true),
        }
    }
}

/// The name given for an identity.
pub open spec fn given_name(names: Seq<(Text, Text)>, identity: Text) -> Option<Text>
    decreases names.len(),
{
    if names.len() == 0 {
        None
    } else if names.last().0 == identity {
        Some(names.last().1)
    } else {
        given_name(names.drop_last(), identity)
    }
}

/// What an imported project is called: the name given for the identity, else
/// that of its first observation, else the last part of that one's root, else
/// the identity.
pub open spec fn import_name(
    names: Seq<(Text, Text)>,
    identity: Text,
    rows: Seq<Pair>,
) -> Text {
    match given_name(names, identity) {
        Some(n) => n,
        None => if rows.len() == 0 {
            identity
        } else {
            match rows[0].name {
                Some(n) => n,
                None => match paths::file_name_of(rows[0].root) {
                    Some(n) => n,
                    None => identity,
                },
            }
        },
    }
}

/// The workspaces claimed for an identity, in the order of the claims.
pub open spec fn claims_of(claims: Seq<Claim>, identity: Text) -> Seq<Text> {
    claims.filter(|c: Claim| c.identity == identity).map_values(|c: Claim| c.workspace_id)
}

/// The workspaces that the import claims for an identity, each once.
pub open spec fn claimed(claims: Seq<Claim>, identity: Text) -> Seq<Text> {
    order::sorted_set(claims_of(claims, identity))
}

/// The project that an identity is imported into, if any, and the line on that.
pub open spec fn landing(t: Tables, identity: Text) -> (Option<Text>, Seq<Line>) {
    let minted = ids::seeded_id(identity);
    match model::project(t.projects, minted) {
        Some(p) => if p.seed_identity == Some(identity) {
            (
                Some(minted),
                seq![Line { project_id: Some(minted), ..line("rejoined"@, identity) }],
            )
        } else {
            (
                None,
                seq![
                    Line {
                        project_id: Some(minted),
                        reason: Some("minted id occupied by another project"@),
                        ..line("conflicted"@, identity)
                    },
                ],
            )
        },
        None => match model::target(t.aliases, minted) {
            Some(owner) => (
                None,
                seq![
                    Line {
                        owner: Some(owner),
                        reason: Some("minted id is an alias key"@),
                        ..line("alias_occupied"@, identity)
                    },
                ],
            ),
            None => (Some(minted), Seq::empty()),
        },
    }
}

/// The lines on observed roots that are registered.
pub open spec fn skipped_lines(
    t: Tables,
    identity: Text,
    rows: Seq<Pair>,
    landed: Option<Text>,
) -> Seq<Line>
    decreases rows.len(),
{
    if rows.len() == 0 {
        Seq::empty()
    } else {
        let head = skipped_lines(t, identity, rows.drop_last(), landed);
        match model::target(t.roots, rows.last().root) {
            Some(owner) => head.push(
                Line {
                    root: Some(rows.last().root),
                    owner: Some(owner),
                    new_project: landed,
                    reason: Some("root already registered"@),
                    ..line("skipped"@, identity)
                },
            ),
            None => head,
        }
    }
}

/// The observed roots that are free.
pub open spec fn free_roots(t: Tables, rows: Seq<Pair>) -> Seq<Text> {
    roots_of(rows).filter(|root: Text| !model::has(t.roots, root))
}

/// The line on an identity whose roots go to different projects.
pub open spec fn split_lines(
    identity: Text,
    landed: Option<Text>,
    owners: Seq<Text>,
    free: Seq<Text>,
) -> Seq<Line> {
    if owners.len() > 1 || landed is Some && owners.len() > 0 && free.len() > 0 {
        seq![
            Line {
                new_project: landed,
                roots: Some(free),
                ..line("identity_split"@, identity)
            },
        ]
    } else {
        Seq::empty()
    }
}

/// The tables with an identity's project and its free roots.
pub open spec fn moved_in(
    t: Tables,
    project: Text,
    name: Text,
    identity: Text,
    free: Seq<Text>,
    now: i64,
) -> Tables {
    t.enter(project, name, Some(identity), now).claim_roots(free, project, now)
}

/// The failure of a row that refers to a row that is not there.
pub open spec fn reference_missing() -> Failure {
    Failure::Database("FOREIGN KEY constraint failed"@)
}

/// The import of an identity into its project: the project is added where it is
/// new, gets the free roots, and is placed where exactly one workspace is
/// claimed for it.
pub open spec fn import_into(
    t: Tables,
    req: Seed,
    identity: Text,
    project: Text,
    rows: Seq<Pair>,
    free: Seq<Text>,
    now: i64,
) -> Progress {
    let fresh = !model::live(t.projects, project);
    if free.len() == 0 && !fresh {
        Progress { tables: t, lines: Seq::empty(), changed: false, failure: None }
    } else {
        let u = moved_in(
            t,
            project,
            import_name(req.names, identity, rows),
            identity,
            free,
            now,
        );
        let places = claimed(req.claims, identity);
        if places.len() == 1 {
            if u.placeable(project, places[0]) {
                Progress {
                    tables: u.place(project, places[0]),
                    lines: Seq::empty(),
                    changed: true,
                    failure: None,
                }
            } else {
                Progress {
                    tables: u,
                    lines: Seq::empty(),
                    changed: true,
                    failure: Some(reference_missing()),
                }
            }
        } else if places.len() > 1 {
            Progress {
                tables: u,
                lines: seq![
                    Line {
                        project_id: Some(project),
                        reason: Some("detached because export claimed multiple workspaces"@),
                        ..line("multi_workspace"@, identity)
                    },
                ],
                changed: true,
                failure: None,
            }
        } else {
            Progress { tables: u, lines: Seq::empty(), changed: true, failure: None }
        }
    }
}

/// The import of one identity, `rows` being the observations of its roots.
pub open spec fn import_group(
    t: Tables,
    req: Seed,
    identity: Text,
    rows: Seq<Pair>,
    now: i64,
) -> Progress {
    let (landed, opening) = landing(t, identity);
    let owners = order::sorted_set(register::found(t.roots, roots_of(rows)));
    let free = if landed is Some {
        free_roots(t, rows)
    } else {
        Seq::empty()
    };
    let lines = opening + skipped_lines(t, identity, rows, landed) + split_lines(
        identity,
        landed,
        owners,
        free,
    );
    match landed {
        None => Progress { tables: t, lines, changed: false, failure: None },
        Some(project) => {
            let p = import_into(t, req, identity, project, rows, free, now);
            Progress { lines: lines + p.lines, ..p }
        },
    }
}

/// The import of identities, in order, up to the first that fails.
pub open spec fn import_groups(
    start: Progress,
    req: Seed,
    roots: Seq<Text>,
    identities: Seq<Text>,
    now: i64,
) -> Progress
    decreases identities.len(),
{
    if identities.len() == 0 {
        start
    } else {
        let p = import_groups(start, req, roots, identities.drop_last(), now);
        if p.failure is Some {
            p
        } else {
            let identity = identities.last();
            let q = import_group(
                p.tables,
                req,
                identity,
                group(req.pairs, roots, identity),
                now,
            );
            Progress { lines: p.lines + q.lines, changed: p.changed || q.changed, ..q }
        }
    }
}

/// What an import makes of the tables.
pub open spec fn imported(t: Tables, req: Seed, now: i64) -> Progress {
    let roots = order::sorted_set(roots_of(req.pairs));
    let (u, changed) = import_titles(t, req.workspaces, now);
    import_groups(
        Progress { tables: u, lines: roots_lines(req.pairs, roots), changed, failure: None },
        req,
        roots,
        order::sorted_set(winners(req.pairs, roots)),
        now,
    )
}

/// The journal entry of an import.
pub open spec fn seed_note(r: Seed, now: i64) -> Note {
    Note {
        op: "seed_import"@,
        payload: json::json_text(payload::seed_json(r)),
        actor: register::actor_of(r.actor, "seed_import"@),
        request_key: r.request_key,
        now,
        record: Record::Seed(r),
    }
}

/// What an import answers.
pub open spec fn seed_fields(lines: Seq<Line>) -> Seq<Field> {
    seq![("report"@, Json::Array(lines.map_values(|l: Line| line_json(l))))]
}

/// What a request to import comes to, its observations being tidy.
pub open spec fn seed_deed(before: Registry, r: Seed, now: i64) -> Deed {
    let p = imported(before.tables, r, now);
    match p.failure {
        Some(e) => frame::refused(before, e),
        None => if !p.changed {
            frame::done(before, false, seed_fields(p.lines), payload::seed_json(r))
        } else {
            match frame::append_failure(before.journal, r.request_key) {
                Some(e) => frame::refused(before, e),
                None => frame::done(
                    Registry {
                        tables: p.tables,
                        journal: frame::appended(before.journal, seed_note(r, now)),
                    },
                    true,
                    seed_fields(p.lines),
                    payload::seed_json(r),
                ),
            }
        },
    }
}

/// The request with its observations canonical and tidy.
pub open spec fn seed_settled(req: Seed, roots: Seq<RootFact>) -> Result<Seed, Failure> {
    if req.source != "mc"@ {
        Err(refusal("invalid_source"@, req.source))
    } else {
        match paths::canonical_all(roots_of(req.pairs), roots) {
            Err(e) => Err(e),
            Ok(_) => Ok(Seed { pairs: tidy_pairs(req.pairs), ..req }),
        }
    }
}

/// The outcome of a request to import. `roots` says what the file system knows
/// of the observed roots.
pub open spec fn seed_outcome(
    before: Registry,
    req: Seed,
    roots: Seq<RootFact>,
    now: i64,
) -> Outcome {
    match seed_settled(req, roots) {
        Err(e) => Outcome { registry: before, answer: Err(e) },
        Ok(r) => frame::outcome(before, r.request_key, seed_deed(before, r, now)),
    }
}

/// Importing workspaces keeps the tables sound.
pub proof fn lemma_import_titles(t: Tables, titles: Seq<(Text, Text)>, now: i64)
    requires
        t.sound(),
    ensures
        import_titles(t, titles, now).0.sound(),
    decreases titles.len(),
{
    if titles.len() > 0 {
        lemma_import_titles(t, titles.drop_last(), now);
        let u = import_titles(t, titles.drop_last(), now).0;
        effects::lemma_retitle(u, titles.last().0, titles.last().1, now);
        effects::lemma_open_workspace(u, titles.last().0, titles.last().1, now);
    }
}

/// Importing an identity keeps the tables sound.
pub proof fn lemma_import_group(t: Tables, req: Seed, identity: Text, rows: Seq<Pair>, now: i64)
    requires
        t.sound(),
    ensures
        import_group(t, req, identity, rows, now).tables.sound(),
{
    if let Some(project) = landing(t, identity).0 {
        let name = import_name(req.names, identity, rows);
        let free = free_roots(t, rows);
        effects::lemma_enter(t, project, name, Some(identity), now);
        let a = t.enter(project, name, Some(identity), now);
        assert(model::live(a.projects, project));
        effects::lemma_claim_roots(a, free, project, now);
        let u = moved_in(t, project, name, identity, free, now);
        let places = claimed(req.claims, identity);
        if u.placeable(project, places[0]) {
            effects::lemma_place(u, project, places[0]);
        }
    }
}

/// Importing keeps the tables sound.
pub proof fn lemma_import_groups(
    start: Progress,
    req: Seed,
    roots: Seq<Text>,
    identities: Seq<Text>,
    now: i64,
)
    requires
        start.tables.sound(),
    ensures
        import_groups(start, req, roots, identities, now).tables.sound(),
    decreases identities.len(),
{
    if identities.len() > 0 {
        let head = identities.drop_last();
        lemma_import_groups(start, req, roots, head, now);
        let identity = identities.last();
        lemma_import_group(
            import_groups(start, req, roots, head, now).tables,
            req,
            identity,
            group(req.pairs, roots, identity),
            now,
        );
    }
}

/// An import keeps the tables sound.
pub proof fn lemma_imported(t: Tables, req: Seed, now: i64)
    requires
        t.sound(),
    ensures
        imported(t, req, now).tables.sound(),
{
    let roots = order::sorted_set(roots_of(req.pairs));
    let (u, changed) = import_titles(t, req.workspaces, now);
    lemma_import_titles(t, req.workspaces, now);
    lemma_import_groups(
        Progress { tables: u, lines: roots_lines(req.pairs, roots), changed, failure: None },
        req,
        roots,
        order::sorted_set(winners(req.pairs, roots)),
        now,
    );
}

/// A line of the report on an import.
#[derive(Debug, Clone)]
pub struct SeedReportEntry {
    pub kind: String,
    pub mc_identity: Option<String>,
    pub canonical_root: Option<String>,
    pub project_id: Option<String>,
    pub owner_project_id: Option<String>,
    pub new_project_id: Option<String>,
    pub roots: Option<Vec<String>>,
    pub reason: Option<String>,
}

impl View for SeedReportEntry {
    type V = Line;

    open spec fn view(&self) -> Line {
        Line {
            kind: self.kind@,
            identity: text::opt_text(self.mc_identity),
            root: text::opt_text(self.canonical_root),
            project_id: text::opt_text(self.project_id),
            owner: text::opt_text(self.owner_project_id),
            new_project: text::opt_text(self.new_project_id),
            roots: match self.roots {
                Some(v) => Some(text::texts(v@)),
                None => None,
            },
            reason: text::opt_text(self.reason),
        }
    }
}

/// The lines in a vector.
pub open spec fn lines(v: Seq<SeedReportEntry>) -> Seq<Line> {
    v.map_values(|e: SeedReportEntry| e@)
}

impl SeedReportEntry {
    /// A line about an identity, with nothing more to say.
    pub fn new(kind: &str, identity: &str) -> (r: Self)
        ensures
            r@ == line(kind@, identity@),
    {
        SeedReportEntry {
            kind: kind.to_owned(),
            mc_identity: Some(identity.to_owned()),
            canonical_root: None,
            project_id: None,
            owner_project_id: None,
            new_project_id: None,
            roots: None,
            reason: None,
        }
    }

    /// The line as JSON.
    pub fn to_value(&self) -> (r: serde_json::Value)
        ensures
            json::value_view(r) == line_json(self@),
    {
        let mut p: Vec<(String, serde_json::Value)> = Vec::new();
        p.push(field("kind", text_value(self.kind.as_str())));
        p.push(field("mcIdentity", opt_value(&self.mc_identity)));
        p.push(field("canonicalRoot", opt_value(&self.canonical_root)));
        p.push(field("projectId", opt_value(&self.project_id)));
        p.push(field("ownerProjectId", opt_value(&self.owner_project_id)));
        p.push(field("newProjectId", opt_value(&self.new_project_id)));
        p.push(
            field(
                "roots",
                match &self.roots {
                    Some(v) => array_value(v),
                    None => opt_value(&None),
                },
            ),
        );
        p.push(field("reason", opt_value(&self.reason)));
        let ghost l = self@;
        assert(json::fields(p@) =~= seq![
            ("kind"@, Json::Str(l.kind)),
            ("mcIdentity"@, json::opt_str(l.identity)),
            ("canonicalRoot"@, json::opt_str(l.root)),
            ("projectId"@, json::opt_str(l.project_id)),
            ("ownerProjectId"@, json::opt_str(l.owner)),
            ("newProjectId"@, json::opt_str(l.new_project)),
            (
                "roots"@,
                match l.roots {
                    Some(roots) => json::text_array(roots),
                    None => Json::Null,
                },
            ),
            ("reason"@, json::opt_str(l.reason)),
        ]);
        object_value(p)
    }
}

/// What an import answers can be read back.
proof fn lemma_seed_legible(all: Seq<Line>)
    ensures
        frame::legible(seed_fields(all)),
{
    let values = all.map_values(|l: Line| line_json(l));
    assert forall|i: int| 0 <= i < values.len() implies json::plain(#[trigger] values[i], 9) by {
        let l = all[i];
        assert(values[i] == line_json(l));
        let roots = match l.roots {
            Some(roots) => roots,
            None => Seq::empty(),
        };
        json::lemma_plain_texts(roots, l.identity, 7);
        json::lemma_plain_texts(roots, l.root, 7);
        let s: Seq<Field> = seq![
            ("kind"@, Json::Str(l.kind)),
            ("mcIdentity"@, json::opt_str(l.identity)),
            ("canonicalRoot"@, json::opt_str(l.root)),
            ("projectId"@, json::opt_str(l.project_id)),
            ("ownerProjectId"@, json::opt_str(l.owner)),
            ("newProjectId"@, json::opt_str(l.new_project)),
            (
                "roots"@,
                match l.roots {
                    Some(roots) => json::text_array(roots),
                    None => Json::Null,
                },
            ),
            ("reason"@, json::opt_str(l.reason)),
        ];
        json::lemma_plain_object(s, 8);
    }
}

fn report_value(v: &Vec<SeedReportEntry>) -> (r: serde_json::Value)
    ensures
        json::value_view(r) == Json::Array(lines(v@).map_values(|l: Line| line_json(l))),
{
    let mut out: Vec<serde_json::Value> = Vec::new();
    let mut i: usize = 0;
    while i < v.len()
        invariant
            i <= v@.len(),
            out@.len() == i,
            forall|j: int|
                0 <= j < i ==> json::value_view(#[trigger] out@[j]) == line_json(v@[j]@),
        decreases v@.len() - i,
    {
        out.push(v[i].to_value());
        i = i + 1;
    }
    assert(json::values(out@) =~= lines(v@).map_values(|l: Line| line_json(l)));
    list_value(out)
}

/// The roots of observations.
pub fn root_strs(v: &Vec<SeedPair>) -> (r: Vec<String>)
    ensures
        text::texts(r@) == roots_of(request::pairs(v@)),
{
    let mut out: Vec<String> = Vec::new();
    let mut i: usize = 0;
    while i < v.len()
        invariant
            i <= v@.len(),
            out@.len() == i,
            forall|j: int| 0 <= j < i ==> (#[trigger] out@[j])@ == v@[j]@.root,
        decreases v@.len() - i,
    {
        out.push(v[i].canonical_root.clone());
        i = i + 1;
    }
    assert(text::texts(out@) =~= roots_of(request::pairs(v@)));
    out
}

/// The identities of observations.
pub fn identity_strs(v: &Vec<SeedPair>) -> (r: Vec<String>)
    ensures
        text::texts(r@) == identities_of(request::pairs(v@)),
{
    let mut out: Vec<String> = Vec::new();
    let mut i: usize = 0;
    while i < v.len()
        invariant
            i <= v@.len(),
            out@.len() == i,
            forall|j: int| 0 <= j < i ==> (#[trigger] out@[j])@ == v@[j]@.identity,
        decreases v@.len() - i,
    {
        out.push(v[i].mc_identity.clone());
        i = i + 1;
    }
    assert(text::texts(out@) =~= identities_of(request::pairs(v@)));
    out
}

fn sort_pairs(v: &Vec<SeedPair>) -> (r: Vec<SeedPair>)
    ensures
        request::pairs(r@) == order::pick(
            request::pairs(v@),
            order::order_of(pair_keys(request::pairs(v@))),
        ),
{
    let ghost all = request::pairs(v@);
    let mut keys: Vec<Vec<String>> = Vec::new();
    let mut i: usize = 0;
    while i < v.len()
        invariant
            i <= v@.len(),
            keys@.len() == i,
            forall|j: int|
                0 <= j < i ==> text::texts((#[trigger] keys@[j])@) == seq![
                    v@[j]@.identity,
                    v@[j]@.root,
                ],
        decreases v@.len() - i,
    {
        let mut key: Vec<String> = Vec::new();
        key.push(v[i].mc_identity.clone());
        key.push(v[i].canonical_root.clone());
        assert(text::texts(key@) =~= seq![v@[i as int]@.identity, v@[i as int]@.root]);
        keys.push(key);
        i = i + 1;
    }
    assert(order::key_rows(keys@) =~= pair_keys(all));
    let places = sort_order(&keys);
    let mut out: Vec<SeedPair> = Vec::new();
    let mut k: usize = 0;
    while k < places.len()
        invariant
            k <= places@.len(),
            out@.len() == k,
            forall|j: int| 0 <= j < places@.len() ==> 0 <= #[trigger] places@[j] < v@.len(),
            forall|j: int| 0 <= j < k ==> (#[trigger] out@[j])@ == v@[places@[j] as int]@,
        decreases places@.len() - k,
    {
        out.push(v[places[k]].copy());
        k = k + 1;
    }
    assert(request::pairs(out@) =~= order::pick(all, order::places(places@)));
    out
}

fn opt_eq(a: &Option<String>, b: &Option<String>) -> (r: bool)
    ensures
        r == (text::opt_text(*a) == text::opt_text(*b)),
{
    match a {
        Some(x) => match b {
            Some(y) => str_eq(x.as_str(), y.as_str()),
            None => false,
        },
        None => b.is_none(),
    }
}

fn has_pair(v: &Vec<SeedPair>, p: &SeedPair) -> (r: bool)
    ensures
        r == exists|i: int|
            0 <= i < request::pairs(v@).len() && same_pair(#[trigger] request::pairs(v@)[i], p@),
{
    let ghost all = request::pairs(v@);
    let mut i: usize = 0;
    while i < v.len()
        invariant
            all == request::pairs(v@),
            i <= v@.len(),
            forall|j: int| 0 <= j < i ==> !same_pair(#[trigger] all[j], p@),
        decreases v@.len() - i,
    {
        assert(all[i as int] == v@[i as int]@);
        if str_eq(v[i].canonical_root.as_str(), p.canonical_root.as_str()) && str_eq(
            v[i].mc_identity.as_str(),
            p.mc_identity.as_str(),
        ) && opt_eq(&v[i].identity_class, &p.identity_class) {
            assert(same_pair(all[i as int], p@));
            return true;
        }
        i = i + 1;
    }
    false
}

fn tidy(v: &Vec<SeedPair>) -> (r: Vec<SeedPair>)
    ensures
        request::pairs(r@) == tidy_pairs(request::pairs(v@)),
{
    let sorted = sort_pairs(v);
    let ghost all = request::pairs(sorted@);
    let mut out: Vec<SeedPair> = Vec::new();
    let mut i: usize = 0;
    assert(all.take(0) =~= Seq::empty());
    assert(request::pairs(out@) =~= first_pairs(all.take(0)));
    while i < sorted.len()
        invariant
            all == request::pairs(sorted@),
            i <= sorted@.len(),
            request::pairs(out@) == first_pairs(all.take(i as int)),
        decreases sorted@.len() - i,
    {
        let ghost before = request::pairs(out@);
        assert(all.take(i + 1).drop_last() =~= all.take(i as int));
        assert(all.take(i + 1).last() == sorted@[i as int]@);
        if !has_pair(&out, &sorted[i]) {
            out.push(sorted[i].copy());
            assert(request::pairs(out@) =~= before.push(sorted@[i as int]@));
        }
        i = i + 1;
    }
    assert(all.take(i as int) =~= all);
    out
}

fn rows_at(v: &Vec<SeedPair>, root: &str) -> (r: Vec<SeedPair>)
    ensures
        request::pairs(r@) == pairs_at(request::pairs(v@), root@),
{
    let ghost all = request::pairs(v@);
    let ghost keep = |p: Pair| p.root == root@;
    let mut out: Vec<SeedPair> = Vec::new();
    let mut i: usize = 0;
    assert(request::pairs(out@) =~= all.take(0).filter(keep)) by {
        reveal(Seq::filter);
    }
    while i < v.len()
        invariant
            all == request::pairs(v@),
            keep == (|p: Pair| p.root == root@),
            i <= v@.len(),
            request::pairs(out@) == all.take(i as int).filter(keep),
        decreases v@.len() - i,
    {
        let ghost before = request::pairs(out@);
        assert(all.take(i + 1).drop_last() =~= all.take(i as int));
        assert(all.take(i + 1).last() == v@[i as int]@);
        assert(all.take(i + 1).filter(keep) == if keep(v@[i as int]@) {
            before.push(v@[i as int]@)
        } else {
            before
        }) by {
            reveal(Seq::filter);
        }
        if str_eq(v[i].canonical_root.as_str(), root) {
            out.push(v[i].copy());
            assert(request::pairs(out@) =~= before.push(v@[i as int]@));
        }
        i = i + 1;
    }
    assert(all.take(i as int) =~= all);
    out
}

fn class_is(p: &SeedPair, class: &str) -> (r: bool)
    ensures
        r == (p@.class == Some(class@)),
{
    match &p.identity_class {
        Some(c) => str_eq(c.as_str(), class),
        None => false,
    }
}

fn has_git(rows: &Vec<SeedPair>) -> (r: bool)
    ensures
        r == any_git(request::pairs(rows@)),
{
    let ghost all = request::pairs(rows@);
    let mut i: usize = 0;
    while i < rows.len()
        invariant
            all == request::pairs(rows@),
            i <= rows@.len(),
            forall|j: int| 0 <= j < i ==> !is_git(#[trigger] all[j]),
        decreases rows@.len() - i,
    {
        assert(all[i as int] == rows@[i as int]@);
        if class_is(&rows[i], "git") || starts_with(rows[i].mc_identity.as_str(), "git:") {
            assert(is_git(all[i as int]));
            return true;
        }
        i = i + 1;
    }
    false
}

/// The observations that give way, or those that stand.
fn part(rows: &Vec<SeedPair>, losing: bool) -> (r: Vec<SeedPair>)
    ensures
        request::pairs(r@) == (if losing {
            losers(request::pairs(rows@))
        } else {
            standing(request::pairs(rows@))
        }),
{
    let git = has_git(rows);
    let ghost all = request::pairs(rows@);
    let ghost keep = |p: Pair| sidelined(p, git) == losing;
    let mut out: Vec<SeedPair> = Vec::new();
    let mut i: usize = 0;
    assert(request::pairs(out@) =~= all.take(0).filter(keep)) by {
        reveal(Seq::filter);
    }
    while i < rows.len()
        invariant
            all == request::pairs(rows@),
            keep == (|p: Pair| sidelined(p, git) == losing),
            i <= rows@.len(),
            request::pairs(out@) == all.take(i as int).filter(keep),
        decreases rows@.len() - i,
    {
        let ghost before = request::pairs(out@);
        assert(all.take(i + 1).drop_last() =~= all.take(i as int));
        assert(all.take(i + 1).last() == rows@[i as int]@);
        assert(all.take(i + 1).filter(keep) == if keep(rows@[i as int]@) {
            before.push(rows@[i as int]@)
        } else {
            before
        }) by {
            reveal(Seq::filter);
        }
        if (git && class_is(&rows[i], "dir")) == losing {
            out.push(rows[i].copy());
            assert(request::pairs(out@) =~= before.push(rows@[i as int]@));
        }
        i = i + 1;
    }
    assert(all.take(i as int) =~= all);
    proof {
        if losing {
            assert(keep =~= (|p: Pair| sidelined(p, any_git(all))));
        } else {
            assert(keep =~= (|p: Pair| !sidelined(p, any_git(all))));
        }
    }
    out
}

fn contending(rows: &Vec<SeedPair>) -> (r: Vec<String>)
    ensures
        text::texts(r@) == contenders(request::pairs(rows@)),
{
    sort_dedup(&identity_strs(&part(rows, false)))
}

/// Reports on a root.
fn report_root(root: &str, rows: &Vec<SeedPair>, report: &mut Vec<SeedReportEntry>)
    ensures
        lines(final(report)@) == lines(old(report)@) + root_lines(root@, request::pairs(rows@)),
{
    let ghost start = lines(report@);
    let losing = part(rows, true);
    let ghost lost = losers(request::pairs(rows@)).map_values(|p: Pair| precedence_line(p));
    let mut i: usize = 0;
    assert(lines(report@) =~= start + lost.take(0));
    while i < losing.len()
        invariant
            lost == request::pairs(losing@).map_values(|p: Pair| precedence_line(p)),
            i <= losing@.len(),
            lines(report@) == start + lost.take(i as int),
        decreases losing@.len() - i,
    {
        let ghost before = lines(report@);
        let mut e = SeedReportEntry::new(
            "identity_class_precedence",
            losing[i].mc_identity.as_str(),
        );
        e.canonical_root = Some(losing[i].canonical_root.clone());
        e.reason = Some("git identity wins".to_owned());
        assert(e@ == lost[i as int]);
        report.push(e);
        assert(lines(report@) =~= before.push(e@));
        i = i + 1;
        assert(lines(report@) =~= start + lost.take(i as int));
    }
    assert(lost.take(i as int) =~= lost);
    let left = contending(rows);
    if left.len() > 1 {
        let ghost mid = lines(report@);
        let ghost told = contenders(request::pairs(rows@)).map_values(
            |id: Text| contest_line(id, root@),
        );
        let mut k: usize = 0;
        assert(lines(report@) =~= mid + told.take(0));
        while k < left.len()
            invariant
                told == text::texts(left@).map_values(|id: Text| contest_line(id, root@)),
                k <= left@.len(),
                lines(report@) == mid + told.take(k as int),
            decreases left@.len() - k,
        {
            let ghost before = lines(report@);
            let mut e = SeedReportEntry::new("conflicted", left[k].as_str());
            e.canonical_root = Some(root.to_owned());
            e.reason = Some("one root observed under multiple identities".to_owned());
            assert(e@ == told[k as int]);
            report.push(e);
            assert(lines(report@) =~= before.push(e@));
            k = k + 1;
            assert(lines(report@) =~= mid + told.take(k as int));
        }
        assert(told.take(k as int) =~= told);
        assert(lines(report@) =~= start + (lost + told));
    }
}

fn report_roots(v: &Vec<SeedPair>, roots: &Vec<String>) -> (r: Vec<SeedReportEntry>)
    ensures
        lines(r@) == roots_lines(request::pairs(v@), text::texts(roots@)),
{
    let ghost all = text::texts(roots@);
    let mut report: Vec<SeedReportEntry> = Vec::new();
    let mut i: usize = 0;
    assert(all.take(0) =~= Seq::empty());
    assert(lines(report@) =~= roots_lines(request::pairs(v@), all.take(0)));
    while i < roots.len()
        invariant
            all == text::texts(roots@),
            i <= roots@.len(),
            lines(report@) == roots_lines(request::pairs(v@), all.take(i as int)),
        decreases roots@.len() - i,
    {
        assert(all.take(i + 1).drop_last() =~= all.take(i as int));
        assert(all.take(i + 1).last() == roots@[i as int]@);
        report_root(roots[i].as_str(), &rows_at(v, roots[i].as_str()), &mut report);
        i = i + 1;
    }
    assert(all.take(i as int) =~= all);
    report
}

fn find_winners(v: &Vec<SeedPair>, roots: &Vec<String>) -> (r: Vec<String>)
    ensures
        text::texts(r@) == winners(request::pairs(v@), text::texts(roots@)),
{
    let ghost all = text::texts(roots@);
    let mut out: Vec<String> = Vec::new();
    let mut i: usize = 0;
    assert(all.take(0) =~= Seq::empty());
    assert(text::texts(out@) =~= winners(request::pairs(v@), all.take(0)));
    while i < roots.len()
        invariant
            all == text::texts(roots@),
            i <= roots@.len(),
            text::texts(out@) == winners(request::pairs(v@), all.take(i as int)),
        decreases roots@.len() - i,
    {
        let ghost before = text::texts(out@);
        assert(all.take(i + 1).drop_last() =~= all.take(i as int));
        assert(all.take(i + 1).last() == roots@[i as int]@);
        let left = contending(&rows_at(v, roots[i].as_str()));
        if left.len() == 1 {
            assert(text::texts(left@)[0] == left@[0]@);
            out.push(left[0].clone());
            assert(text::texts(out@) =~= before.push(left@[0]@));
        }
        i = i + 1;
    }
    assert(all.take(i as int) =~= all);
    out
}

fn push_pairs(out: &mut Vec<SeedPair>, v: &Vec<SeedPair>)
    ensures
        request::pairs(final(out)@) == request::pairs(old(out)@) + request::pairs(v@),
{
    let ghost start = request::pairs(out@);
    let ghost all = request::pairs(v@);
    let mut i: usize = 0;
    assert(request::pairs(out@) =~= start + all.take(0));
    while i < v.len()
        invariant
            all == request::pairs(v@),
            i <= v@.len(),
            request::pairs(out@) == start + all.take(i as int),
        decreases v@.len() - i,
    {
        let ghost before = request::pairs(out@);
        out.push(v[i].copy());
        assert(request::pairs(out@) =~= before.push(all[i as int]));
        i = i + 1;
        assert(request::pairs(out@) =~= start + all.take(i as int));
    }
    assert(all.take(i as int) =~= all);
}

fn find_group(v: &Vec<SeedPair>, roots: &Vec<String>, identity: &str) -> (r: Vec<SeedPair>)
    ensures
        request::pairs(r@) == group(request::pairs(v@), text::texts(roots@), identity@),
{
    let ghost all = text::texts(roots@);
    let mut out: Vec<SeedPair> = Vec::new();
    let mut i: usize = 0;
    assert(all.take(0) =~= Seq::empty());
    assert(request::pairs(out@) =~= group(request::pairs(v@), all.take(0), identity@));
    while i < roots.len()
        invariant
            all == text::texts(roots@),
            i <= roots@.len(),
            request::pairs(out@) == group(request::pairs(v@), all.take(i as int), identity@),
        decreases roots@.len() - i,
    {
        assert(all.take(i + 1).drop_last() =~= all.take(i as int));
        assert(all.take(i + 1).last() == roots@[i as int]@);
        let rows = rows_at(v, roots[i].as_str());
        let left = contending(&rows);
        if left.len() == 1 {
            assert(text::texts(left@)[0] == left@[0]@);
            if str_eq(left[0].as_str(), identity) {
                push_pairs(&mut out, &part(&rows, false));
            }
        }
        i = i + 1;
    }
    assert(all.take(i as int) =~= all);
    out
}

/// The name given for an identity.
pub fn find_name(names: &Vec<(String, String)>, identity: &str) -> (r: Option<String>)
    ensures
        text::opt_text(r) == given_name(request::names(names@), identity@),
{
    let ghost all = request::names(names@);
    let mut n: usize = names.len();
    assert(all.take(n as int) =~= all);
    while n > 0
        invariant
            all == request::names(names@),
            n <= names@.len(),
            given_name(all, identity@) == given_name(all.take(n as int), identity@),
        decreases n,
    {
        let ghost part = all.take(n as int);
        n = n - 1;
        assert(part.last() == (names@[n as int].0@, names@[n as int].1@));
        assert(part.drop_last() =~= all.take(n as int));
        if str_eq(names[n].0.as_str(), identity) {
            return Some(names[n].1.clone());
        }
    }
    None
}

fn name_import(names: &Vec<(String, String)>, identity: &str, rows: &Vec<SeedPair>) -> (r: String)
    ensures
        r@ == import_name(request::names(names@), identity@, request::pairs(rows@)),
{
    if let Some(n) = find_name(names, identity) {
        return n;
    }
    if rows.len() == 0 {
        return identity.to_owned();
    }
    assert(request::pairs(rows@)[0] == rows@[0]@);
    if let Some(n) = &rows[0].name {
        return n.clone();
    }
    match file_name(rows[0].canonical_root.as_str()) {
        Some(n) => n,
        None => identity.to_owned(),
    }
}

/// The workspaces claimed for an identity, in the order of the claims.
pub fn claim_strs(claims: &Vec<SeedMember>, identity: &str) -> (r: Vec<String>)
    ensures
        text::texts(r@) == claims_of(request::claims(claims@), identity@),
{
    let ghost all = request::claims(claims@);
    let ghost keep = |c: Claim| c.identity == identity@;
    let ghost place = |c: Claim| c.workspace_id;
    let mut out: Vec<String> = Vec::new();
    let mut i: usize = 0;
    assert(text::texts(out@) =~= all.take(0).filter(keep).map_values(place)) by {
        reveal(Seq::filter);
    }
    while i < claims.len()
        invariant
            all == request::claims(claims@),
            keep == (|c: Claim| c.identity == identity@),
            place == (|c: Claim| c.workspace_id),
            i <= claims@.len(),
            text::texts(out@) == all.take(i as int).filter(keep).map_values(place),
        decreases claims@.len() - i,
    {
        let ghost before = text::texts(out@);
        let ghost kept = all.take(i as int).filter(keep);
        assert(all.take(i + 1).drop_last() =~= all.take(i as int));
        assert(all.take(i + 1).last() == claims@[i as int]@);
        assert(all.take(i + 1).filter(keep) == if keep(claims@[i as int]@) {
            kept.push(claims@[i as int]@)
        } else {
            kept
        }) by {
            reveal(Seq::filter);
        }
        if str_eq(claims[i].mc_identity.as_str(), identity) {
            out.push(claims[i].workspace_id.clone());
            assert(text::texts(out@) =~= before.push(claims@[i as int]@.workspace_id));
            assert(kept.push(claims@[i as int]@).map_values(place) =~= kept.map_values(place).push(
                claims@[i as int]@.workspace_id,
            ));
        }
        i = i + 1;
    }
    assert(all.take(i as int) =~= all);
    out
}

fn find_claimed(claims: &Vec<SeedMember>, identity: &str) -> (r: Vec<String>)
    ensures
        text::texts(r@) == claimed(request::claims(claims@), identity@),
{
    sort_dedup(&claim_strs(claims, identity))
}

impl TableRows {
    fn import_titles(&mut self, titles: &Vec<SeedWorkspace>, now: i64) -> (r: bool)
        ensures
            (final(self)@, r) == import_titles(old(self)@, request::titles(titles@), now),
    {
        let ghost start = self@;
        let ghost all = request::titles(titles@);
        let mut changed = false;
        let mut i: usize = 0;
        assert(all.take(0) =~= Seq::empty());
        while i < titles.len()
            invariant
                all == request::titles(titles@),
                i <= titles@.len(),
                (self@, changed) == import_titles(start, all.take(i as int), now),
            decreases titles@.len() - i,
        {
            assert(all.take(i + 1).drop_last() =~= all.take(i as int));
            assert(all.take(i + 1).last() == (
                titles@[i as int].workspace_id@,
                titles@[i as int].name@,
            ));
            let id = titles[i].workspace_id.as_str();
            let name = titles[i].name.as_str();
            match find_workspace(&self.workspaces, id) {
                Some(w) => {
                    if !str_eq(w.name.as_str(), name) {
                        self.retitle(id, name, now);
                        changed = true;
                    }
                },
                None => {
                    self.open_workspace(id, name, now);
                    changed = true;
                },
            }
            i = i + 1;
        }
        assert(all.take(i as int) =~= all);
        changed
    }

    fn find_landing(&self, identity: &str, report: &mut Vec<SeedReportEntry>) -> (r: Option<String>)
        ensures
            text::opt_text(r) == landing(self@, identity@).0,
            lines(final(report)@) == lines(old(report)@) + landing(self@, identity@).1,
    {
        let ghost start = lines(report@);
        let minted = seed_id(identity);
        match find_project(&self.projects, minted.as_str()) {
            Some(p) => {
                let rejoined = match &p.seed_identity {
                    Some(s) => str_eq(s.as_str(), identity),
                    None => false,
                };
                if rejoined {
                    let mut e = SeedReportEntry::new("rejoined", identity);
                    e.project_id = Some(minted.clone());
                    report.push(e);
                    assert(lines(report@) =~= start + seq![e@]);
                    Some(minted)
                } else {
                    let mut e = SeedReportEntry::new("conflicted", identity);
                    e.project_id = Some(minted);
                    e.reason = Some("minted id occupied by another project".to_owned());
                    report.push(e);
                    assert(lines(report@) =~= start + seq![e@]);
                    None
                }
            },
            None => match lookup(&self.aliases, minted.as_str()) {
                Some(owner) => {
                    let mut e = SeedReportEntry::new("alias_occupied", identity);
                    e.owner_project_id = Some(owner);
                    e.reason = Some("minted id is an alias key".to_owned());
                    report.push(e);
                    assert(lines(report@) =~= start + seq![e@]);
                    None
                },
                None => {
                    assert(lines(report@) =~= start + Seq::<Line>::empty());
                    Some(minted)
                },
            },
        }
    }

    /// Reports the observed roots that are registered, and returns their owners
    /// and the free roots.
    fn sort_out(
        &self,
        identity: &str,
        rows: &Vec<SeedPair>,
        landed: &Option<String>,
        report: &mut Vec<SeedReportEntry>,
    ) -> (r: (Vec<String>, Vec<String>))
        ensures
            text::texts(r.0@) == register::found(self@.roots, roots_of(request::pairs(rows@))),
            text::texts(r.1@) == free_roots(self@, request::pairs(rows@)),
            lines(final(report)@) == lines(old(report)@) + skipped_lines(
                self@,
                identity@,
                request::pairs(rows@),
                text::opt_text(*landed),
            ),
    {
        let ghost start = lines(report@);
        let ghost all = request::pairs(rows@);
        let ghost keep = |root: Text| !model::has(self@.roots, root);
        let ghost l = text::opt_text(*landed);
        let mut owners: Vec<String> = Vec::new();
        let mut free: Vec<String> = Vec::new();
        let mut i: usize = 0;
        assert(all.take(0) =~= Seq::empty());
        assert(roots_of(all.take(0)) =~= Seq::empty());
        assert(text::texts(owners@) =~= register::found(self@.roots, roots_of(all.take(0))));
        assert(text::texts(free@) =~= roots_of(all.take(0)).filter(keep)) by {
            reveal(Seq::filter);
        }
        assert(lines(report@) =~= start + skipped_lines(self@, identity@, all.take(0), l));
        while i < rows.len()
            invariant
                all == request::pairs(rows@),
                keep == (|root: Text| !model::has(self@.roots, root)),
                l == text::opt_text(*landed),
                i <= rows@.len(),
                text::texts(owners@) == register::found(
                    self@.roots,
                    roots_of(all.take(i as int)),
                ),
                text::texts(free@) == roots_of(all.take(i as int)).filter(keep),
                lines(report@) == start + skipped_lines(self@, identity@, all.take(i as int), l),
            decreases rows@.len() - i,
        {
            let ghost had = text::texts(owners@);
            let ghost left = text::texts(free@);
            let ghost told = lines(report@);
            let ghost root = rows@[i as int]@.root;
            assert(all.take(i + 1).drop_last() =~= all.take(i as int));
            assert(all.take(i + 1).last() == rows@[i as int]@);
            assert(roots_of(all.take(i + 1)) =~= roots_of(all.take(i as int)).push(root));
            assert(roots_of(all.take(i + 1)).drop_last() =~= roots_of(all.take(i as int)));
            assert(roots_of(all.take(i + 1)).filter(keep) == if keep(root) {
                left.push(root)
            } else {
                left
            }) by {
                reveal(Seq::filter);
            }
            match lookup(&self.roots, rows[i].canonical_root.as_str()) {
                Some(owner) => {
                    let mut e = SeedReportEntry::new("skipped", identity);
                    e.canonical_root = Some(rows[i].canonical_root.clone());
                    e.owner_project_id = Some(owner.clone());
                    e.new_project_id = clone_opt(landed);
                    e.reason = Some("root already registered".to_owned());
                    report.push(e);
                    assert(lines(report@) =~= told.push(e@));
                    owners.push(owner);
                    assert(text::texts(owners@) =~= had.push(owner@));
                    assert(lines(report@) =~= start + skipped_lines(
                        self@,
                        identity@,
                        all.take(i + 1),
                        l,
                    ));
                },
                None => {
                    free.push(rows[i].canonical_root.clone());
                    assert(text::texts(free@) =~= left.push(root));
                },
            }
            i = i + 1;
        }
        assert(all.take(i as int) =~= all);
        (owners, free)
    }

    fn import_into(
        &mut self,
        req: &SeedImportRequest,
        identity: &str,
        project: &str,
        rows: &Vec<SeedPair>,
        free: &Vec<String>,
        now: i64,
        report: &mut Vec<SeedReportEntry>,
    ) -> (r: (bool, Option<RegistryError>))
        ensures
            ({
                let p = import_into(
                    old(self)@,
                    req@,
                    identity@,
                    project@,
                    request::pairs(rows@),
                    text::texts(free@),
                    now,
                );
                &&& final(self)@ == p.tables
                &&& lines(final(report)@) == lines(old(report)@) + p.lines
                &&& r.0 == p.changed
                &&& register::opt_failure(r.1) == p.failure
            }),
    {
        let ghost start = lines(report@);
        assert(start + Seq::<Line>::empty() =~= start);
        if free.len() == 0 && find_project(&self.projects, project).is_some() {
            return (false, None);
        }
        let name = name_import(&req.payload.names, identity, rows);
        self.enter(project, name.as_str(), &Some(identity.to_owned()), now);
        self.claim_roots(free, project, now);
        let places = find_claimed(&req.payload.members, identity);
        if places.len() == 1 {
            assert(text::texts(places@)[0] == places@[0]@);
            if !self.can_place(project, places[0].as_str()) {
                return (
                    true,
                    Some(RegistryError::Database("FOREIGN KEY constraint failed".to_owned())),
                );
            }
            self.place(project, places[0].as_str());
        } else if places.len() > 1 {
            let mut e = SeedReportEntry::new("multi_workspace", identity);
            e.project_id = Some(project.to_owned());
            e.reason = Some("detached because export claimed multiple workspaces".to_owned());
            report.push(e);
            assert(lines(report@) =~= start + seq![e@]);
        }
        (true, None)
    }

    fn import_group(
        &mut self,
        req: &SeedImportRequest,
        identity: &str,
        rows: &Vec<SeedPair>,
        now: i64,
        report: &mut Vec<SeedReportEntry>,
    ) -> (r: (bool, Option<RegistryError>))
        ensures
            ({
                let p = import_group(old(self)@, req@, identity@, request::pairs(rows@), now);
                &&& final(self)@ == p.tables
                &&& lines(final(report)@) == lines(old(report)@) + p.lines
                &&& r.0 == p.changed
                &&& register::opt_failure(r.1) == p.failure
            }),
    {
        let ghost start = lines(report@);
        let ghost before = self@;
        let landed = self.find_landing(identity, report);
        let ghost opening = landing(before, identity@).1;
        let (owners, available) = self.sort_out(identity, rows, &landed, report);
        let ghost skipped = skipped_lines(
            before,
            identity@,
            request::pairs(rows@),
            text::opt_text(landed),
        );
        let holders = sort_dedup(&owners);
        let free = if landed.is_some() {
            available
        } else {
            Vec::new()
        };
        assert(text::texts(free@) =~= if text::opt_text(landed) is Some {
            free_roots(before, request::pairs(rows@))
        } else {
            Seq::empty()
        });
        let ghost splitting = split_lines(
            identity@,
            text::opt_text(landed),
            text::texts(holders@),
            text::texts(free@),
        );
        let ghost mid = lines(report@);
        if holders.len() > 1 || landed.is_some() && holders.len() > 0 && free.len() > 0 {
            let mut e = SeedReportEntry::new("identity_split", identity);
            e.new_project_id = clone_opt(&landed);
            e.roots = Some(clone_strs(&free));
            report.push(e);
            assert(lines(report@) =~= mid + seq![e@]);
        }
        assert(lines(report@) =~= start + (opening + skipped + splitting));
        match &landed {
            None => (false, None),
            Some(project) => {
                let r = self.import_into(
                    req,
                    identity,
                    project.as_str(),
                    rows,
                    &free,
                    now,
                    report,
                );
                assert(lines(report@) =~= start + (opening + skipped + splitting + import_into(
                    before,
                    req@,
                    identity@,
                    project@,
                    request::pairs(rows@),
                    text::texts(free@),
                    now,
                ).lines));
                r
            },
        }
    }

    /// Imports what a tidy request brings, and reports on it.
    pub fn import(&mut self, req: &SeedImportRequest, now: i64) -> (r: (
        Vec<SeedReportEntry>,
        bool,
        Option<RegistryError>,
    ))
        requires
            old(self)@.sound(),
        ensures
            ({
                let p = imported(old(self)@, req@, now);
                &&& final(self)@ == p.tables
                &&& lines(r.0@) == p.lines
                &&& r.1 == p.changed
                &&& register::opt_failure(r.2) == p.failure
            }),
            final(self)@.sound(),
    {
        let roots = sort_dedup(&root_strs(&req.payload.pairs));
        let mut report = report_roots(&req.payload.pairs, &roots);
        proof {
            lemma_import_titles(self@, req@.workspaces, now);
        }
        let mut changed = self.import_titles(&req.payload.workspaces, now);
        let ghost start = Progress {
            tables: self@,
            lines: lines(report@),
            changed,
            failure: None,
        };
        let identities = sort_dedup(&find_winners(&req.payload.pairs, &roots));
        let ghost all = text::texts(identities@);
        let ghost places = text::texts(roots@);
        let mut i: usize = 0;
        assert(all.take(0) =~= Seq::empty());
        while i < identities.len()
            invariant
                all == text::texts(identities@),
                places == text::texts(roots@),
                i <= identities@.len(),
                self@.sound(),
                (Progress { tables: self@, lines: lines(report@), changed, failure: None })
                    == import_groups(start, req@, places, all.take(i as int), now),
                imported(old(self)@, req@, now) == import_groups(start, req@, places, all, now),
            decreases identities@.len() - i,
        {
            assert(all.take(i + 1).drop_last() =~= all.take(i as int));
            assert(all.take(i + 1).last() == identities@[i as int]@);
            let identity = identities[i].as_str();
            let rows = find_group(&req.payload.pairs, &roots, identity);
            proof {
                lemma_import_group(self@, req@, identity@, request::pairs(rows@), now);
            }
            let (moved, failure) = self.import_group(req, identity, &rows, now, &mut report);
            changed = changed || moved;
            if failure.is_some() {
                proof {
                    lemma_import_stops(start, req@, places, all, i + 1, now);
                }
                return (report, changed, failure);
            }
            i = i + 1;
        }
        assert(all.take(i as int) =~= all);
        (report, changed, None)
    }
}

proof fn lemma_import_stops(
    start: Progress,
    req: Seed,
    roots: Seq<Text>,
    identities: Seq<Text>,
    n: int,
    now: i64,
)
    requires
        0 <= n <= identities.len(),
        import_groups(start, req, roots, identities.take(n), now).failure is Some,
    ensures
        import_groups(start, req, roots, identities, now) == import_groups(
            start,
            req,
            roots,
            identities.take(n),
            now,
        ),
    decreases identities.len(),
{
    if n == identities.len() {
        assert(identities.take(n) =~= identities);
    } else {
        assert(identities.drop_last().take(n) =~= identities.take(n));
        lemma_import_stops(start, req, roots, identities.drop_last(), n, now);
    }
}

impl RegistryStore {
    fn seed_action(&mut self, req: &SeedImportRequest, now: i64) -> (r: Result<
        Action,
        RegistryError,
    >)
        requires
            old(self)@.sound(),
        ensures
            (Deed { registry: final(self)@, result: frame::acted(r) }) == seed_deed(
                old(self)@,
                req@,
                now,
            ),
            final(self)@.sound(),
            r matches Ok(a) ==> a.changed ==> final(self)@.journal.len() > 0 && entries::legible(
                final(self)@.journal.last(),
                a.view().payload,
            ),
            r matches Ok(a) ==> frame::legible(a.view().fields),
    {
        let ghost before = self@;
        let mut tables = self.tables.copy();
        let (report, changed, failure) = tables.import(req, now);
        if let Some(e) = failure {
            return Err(e);
        }
        let mut fields: Vec<(String, serde_json::Value)> = Vec::new();
        fields.push(field("report", report_value(&report)));
        assert(json::fields(fields@) =~= seed_fields(lines(report@)));
        proof {
            lemma_seed_legible(lines(report@));
        }
        if !changed {
            return Ok(Action { changed: false, fields, payload: req.to_value() });
        }
        let actor = actor_or(&req.actor, "seed_import");
        match self.append(
            "seed_import",
            compact(&req.to_value()),
            actor.as_str(),
            &req.request_key,
            now,
            JournalRecord::SeedImport(req.copy()),
        ) {
            Ok(_) => {},
            Err(e) => return Err(e),
        }
        proof {
            frame::lemma_appended(before.journal, seed_note(req@, now));
            entries::lemma_seed_kept(req@);
        }
        self.tables = tables;
        Ok(Action { changed: true, fields, payload: req.to_value() })
    }

    /// Imports registrations. `roots` says what the file system knows of the
    /// observed roots, one for each observation.
    pub fn seed_import(
        &mut self,
        req: SeedImportRequest,
        roots: &Vec<RootProbe>,
        now: i64,
    ) -> (r: Result<Vec<u8>, RegistryError>)
        requires
            old(self)@.sound(),
            roots@.len() == req.payload.pairs@.len(),
        ensures
            (Outcome { registry: final(self)@, answer: frame::seen(r) }) == seed_outcome(
                old(self)@,
                req@,
                paths::facts(roots@),
                now,
            ),
            final(self)@.sound(),
            frame::kept(old(self)@.journal, req@.request_key) is None ==> (r matches Ok(b)
                ==> frame::head_in(b@) == Some(final(self)@.generation())),
            entries::extends(old(self)@.journal, final(self)@.journal),
    {
        if !str_eq(req.source.as_str(), "mc") {
            return Err(domain("invalid_source", req.source.clone()));
        }
        let observed = root_strs(&req.payload.pairs);
        assert(observed@.len() == text::texts(observed@).len());
        match canonical_roots(&observed, roots) {
            Ok(_) => {},
            Err(e) => return Err(e),
        }
        let mut settled = req;
        settled.payload.pairs = tidy(&settled.payload.pairs);
        if let Some(blob) = self.cached(&settled.request_key) {
            return Ok(blob);
        }
        let result = self.seed_action(&settled, now);
        self.finish(result)
    }
}

} // verus!
