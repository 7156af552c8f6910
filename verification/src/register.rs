//! Registering a project.
use vstd::prelude::*;
use vstd::string::*;

use crate::effects::implicit_project_ids;
use crate::error::{domain, refusal, Failure, RegistryError};
use crate::frame::{Action, Deed, Note, Outcome};
use crate::ids::{implicit_project_id, mint, reserved};
use crate::json::{array_value, compact, field, list_value, object_value, text_value, Field, Json};
use crate::model::{Link, Record, Register, Registry, Tables};
use crate::order::sort_dedup;
use crate::paths::{canonical_roots, path_prefix_or_equal, RootFact, RootProbe};
use crate::request::{JournalRecord, RegisterRequest};
use crate::rows::{find_project, has_key, lookup, LinkRow};
use crate::store::{RegistryStore, TableRows};
use crate::text::{cat, cat3, join_strs, str_eq, Text};
use crate::{effects, entries, frame, ids, json, model, order, paths, payload, rows, text};

verus! {

/// Who asked, or `standard` where the request does not say.
pub open spec fn actor_of(actor: Option<Text>, standard: Text) -> Text {
    match actor {
        Some(a) => a,
        None => standard,
    }
}

/// Where the keys that occur lead, in the order of the keys.
pub open spec fn found(t: Seq<Link>, keys: Seq<Text>) -> Seq<Text>
    decreases keys.len(),
{
    if keys.len() == 0 {
        Seq::empty()
    } else {
        let head = found(t, keys.drop_last());
        match model::target(t, keys.last()) {
            Some(to) => head.push(to),
            None => head,
        }
    }
}

/// The projects that hold any of the roots and parents, in ascending order.
pub open spec fn owners(t: Tables, r: Register) -> Seq<Text> {
    order::sorted_set(found(t.roots, r.roots) + found(t.parents, r.parents))
}

/// The id that a request registers: the one it names, else that of the one
/// project that holds its paths, else a minted one.
pub open spec fn registrant(t: Tables, r: Register) -> Result<Text, Failure> {
    match r.project_id {
        Some(id) => Ok(id),
        None => {
            let holders = owners(t, r);
            if holders.len() == 1 {
                Ok(holders[0])
            } else if holders.len() > 1 {
                Err(
                    refusal(
                        "project_conflict"@,
                        "conflicting owners: "@ + text::join(holders, ","@),
                    ),
                )
            } else {
                Ok(ids::minted_id("register1"@, r.name, r.roots))
            }
        },
    }
}

/// Another project that the key leads to.
pub open spec fn foreign(t: Seq<Link>, key: Text, id: Text) -> Option<Text> {
    match model::target(t, key) {
        Some(owner) => if owner != id {
            Some(owner)
        } else {
            None
        },
        None => None,
    }
}

/// Why a root cannot be given to a project: another one owns or claims it.
pub open spec fn root_clash(t: Tables, id: Text, root: Text) -> Option<Failure> {
    match foreign(t.roots, root, id) {
        Some(owner) => Some(
            refusal("root_conflict"@, "root "@ + root + " is owned by "@ + owner),
        ),
        None => match foreign(t.parents, root, id) {
            Some(owner) => Some(
                refusal("root_conflict"@, "root "@ + root + " is claimed by "@ + owner),
            ),
            None => None,
        },
    }
}

/// The first of the roots' clashes.
pub open spec fn root_clashes(t: Tables, id: Text, roots: Seq<Text>) -> Option<Failure>
    decreases roots.len(),
{
    if roots.len() == 0 {
        None
    } else {
        match root_clash(t, id, roots[0]) {
            Some(e) => Some(e),
            None => root_clashes(t, id, roots.drop_first()),
        }
    }
}

/// Why a parent cannot be given to a project: a root of another one lies in it.
pub open spec fn parent_clash(roots: Seq<Link>, id: Text, parent: Text) -> Option<Failure>
    decreases roots.len(),
{
    if roots.len() == 0 {
        None
    } else if roots[0].target != id && paths::contains_path(parent, roots[0].key) {
        Some(
            refusal(
                "derived_parent_contains_foreign_root"@,
                "parent "@ + parent + " conflicts with owner "@ + roots[0].target,
            ),
        )
    } else {
        parent_clash(roots.drop_first(), id, parent)
    }
}

/// The first of the parents' clashes.
pub open spec fn parent_clashes(roots: Seq<Link>, id: Text, parents: Seq<Text>) -> Option<Failure>
    decreases parents.len(),
{
    if parents.len() == 0 {
        None
    } else {
        match parent_clash(roots, id, parents[0]) {
            Some(e) => Some(e),
            None => parent_clashes(roots, id, parents.drop_first()),
        }
    }
}

/// Why a root cannot be given to a project: it lies in a parent of another one.
pub open spec fn shelter_clash(parents: Seq<Link>, id: Text, root: Text) -> Option<Failure>
    decreases parents.len(),
{
    if parents.len() == 0 {
        None
    } else if parents[0].target != id && paths::contains_path(parents[0].key, root) {
        Some(
            refusal(
                "root_under_foreign_derived_parent"@,
                "root "@ + root + " is under "@ + parents[0].key + ", owned by "@
                    + parents[0].target,
            ),
        )
    } else {
        shelter_clash(parents.drop_first(), id, root)
    }
}

/// The first root that lies in a parent of another project.
pub open spec fn shelter_clashes(parents: Seq<Link>, id: Text, roots: Seq<Text>) -> Option<Failure>
    decreases roots.len(),
{
    if roots.len() == 0 {
        None
    } else {
        match shelter_clash(parents, id, roots[0]) {
            Some(e) => Some(e),
            None => shelter_clashes(parents, id, roots.drop_first()),
        }
    }
}

/// Why a project cannot be placed in a workspace: it is in another one.
pub open spec fn workspace_clash(t: Tables, id: Text, workspace_id: Option<Text>) -> Option<
    Failure,
> {
    match workspace_id {
        Some(w) => match foreign(t.placements, id, w) {
            Some(old) => Some(
                refusal(
                    "workspace_conflict"@,
                    "project "@ + id + " belongs to workspace "@ + old,
                ),
            ),
            None => None,
        },
        None => None,
    }
}

/// Why a request to register `id` is refused, where it is: the first reason of
/// these, in this order.
pub open spec fn register_refusal(t: Tables, r: Register, id: Text) -> Option<Failure> {
    if r.project_id is Some && !model::live(t.projects, id) && model::has(t.aliases, id) {
        Some(refusal("project_id_occupied"@, id))
    } else {
        match root_clashes(t, id, r.roots) {
            Some(e) => Some(e),
            None => match parent_clashes(t.roots, id, r.parents) {
                Some(e) => Some(e),
                None => match shelter_clashes(t.parents, id, r.roots) {
                    Some(e) => Some(e),
                    None => workspace_clash(t, id, r.workspace_id),
                },
            },
        }
    }
}

/// A warning that the implicit id of a root is an alias of another project.
pub open spec fn warning(old: Text, owner: Text) -> Json {
    json::object(seq![("oldId"@, Json::Str(old)), ("owner"@, Json::Str(owner))])
}

/// The implicit ids of roots that are aliases of other projects, each with that
/// project, as JSON.
pub open spec fn collisions(aliases: Seq<Link>, roots: Seq<Text>, id: Text) -> Seq<Json>
    decreases roots.len(),
{
    if roots.len() == 0 {
        Seq::empty()
    } else {
        let head = collisions(aliases, roots.drop_last(), id);
        let old = ids::implicit_id(roots.last());
        match foreign(aliases, old, id) {
            Some(owner) => head.push(warning(old, owner)),
            None => head,
        }
    }
}

/// Whether every key occurs.
pub open spec fn all_present(t: Seq<Link>, keys: Seq<Text>) -> bool {
    forall|i: int| 0 <= i < keys.len() ==> model::has(t, #[trigger] keys[i])
}

/// Whether a project is registered under the name.
pub open spec fn registered_as(t: Tables, id: Text, name: Text) -> bool {
    model::project(t.projects, id) matches Some(p) && p.name == name
}

/// Whether registering changes anything.
pub open spec fn register_changes(t: Tables, r: Register, id: Text) -> bool {
    ||| !registered_as(t, id, r.name)
    ||| !all_present(t.roots, r.roots)
    ||| !all_present(t.parents, r.parents)
    ||| r.workspace_id is Some && !model::has(t.placements, id)
    ||| !all_present(t.aliases, effects::implicit_ids(r.roots))
}

/// The tables with a project under the name.
pub open spec fn named(t: Tables, id: Text, name: Text, now: i64) -> Tables {
    if model::live(t.projects, id) {
        t.rename(id, name, now)
    } else {
        t.enter(id, name, None, now)
    }
}

/// The tables with a project in a workspace, where one is asked for. A workspace
/// that was unknown has its id for a name.
pub open spec fn settled_in(t: Tables, id: Text, workspace_id: Option<Text>, now: i64) -> Tables {
    match workspace_id {
        Some(w) => t.open_workspace(w, w, now).place(id, w),
        None => t,
    }
}

/// The tables after a registration.
pub open spec fn registered(t: Tables, r: Register, id: Text, now: i64) -> Tables {
    settled_in(
        named(t, id, r.name, now).claim_roots(r.roots, id, now).claim_parents(r.parents, id),
        id,
        r.workspace_id,
        now,
    )
}

/// What registering answers.
pub open spec fn register_fields(t: Tables, r: Register, id: Text) -> Seq<Field> {
    seq![
        ("projectId"@, Json::Str(id)),
        ("name"@, Json::Str(r.name)),
        ("roots"@, json::text_array(r.roots)),
        ("derivedRootParents"@, json::text_array(r.parents)),
        ("warnings"@, Json::Array(collisions(t.aliases, r.roots, id))),
    ]
}

/// The journal entry of a registration.
pub open spec fn register_note(r: Register, now: i64) -> Note {
    Note {
        op: "register"@,
        payload: json::json_text(payload::register_json(r)),
        actor: actor_of(r.actor, "module"@),
        request_key: r.request_key,
        now,
        record: Record::Register(r),
    }
}

/// What a request to register comes to, its paths being canonical and in order.
pub open spec fn register_deed(before: Registry, r: Register, now: i64) -> Deed {
    let t = before.tables;
    match registrant(t, r) {
        Err(e) => frame::refused(before, e),
        Ok(id) => match register_refusal(t, r, id) {
            Some(e) => frame::refused(before, e),
            None => {
                let fields = register_fields(t, r, id);
                let collided = Json::Array(collisions(t.aliases, r.roots, id));
                if !register_changes(t, r, id) {
                    frame::done(before, false, fields, payload::register_json(r))
                } else {
                    match frame::append_failure(before.journal, r.request_key) {
                        Some(e) => frame::refused(before, e),
                        None => frame::done(
                            Registry {
                                tables: registered(t, r, id, now),
                                journal: frame::appended(before.journal, register_note(r, now)),
                            },
                            true,
                            fields.push(("implicitAliasCollisions"@, collided)),
                            json::object(
                                seq![
                                    ("request"@, payload::register_json(r)),
                                    ("implicitAliasCollisions"@, collided),
                                ],
                            ),
                        ),
                    }
                }
            },
        },
    }
}

/// The request with its paths canonical, in ascending order and each once.
pub open spec fn register_settled(
    req: Register,
    roots: Seq<RootFact>,
    parents: Seq<RootFact>,
) -> Result<Register, Failure> {
    match req.project_id {
        Some(id) if ids::is_reserved(id) => Err(refusal("reserved_project_id_namespace"@, id)),
        _ => match paths::canonical_all(req.roots, roots) {
            Err(e) => Err(e),
            Ok(rs) => match paths::canonical_all(req.parents, parents) {
                Err(e) => Err(e),
                Ok(ps) => Ok(
                    Register {
                        roots: order::sorted_set(rs),
                        parents: order::sorted_set(ps),
                        ..req
                    },
                ),
            },
        },
    }
}

/// The outcome of a request to register. `roots` and `parents` say what the
/// file system knows of the request's paths.
pub open spec fn register_outcome(
    before: Registry,
    req: Register,
    roots: Seq<RootFact>,
    parents: Seq<RootFact>,
    now: i64,
) -> Outcome {
    match register_settled(req, roots, parents) {
        Err(e) => Outcome { registry: before, answer: Err(e) },
        Ok(r) => frame::outcome(before, r.request_key, register_deed(before, r, now)),
    }
}

/// What a request to register that goes through answers, as JSON.
pub open spec fn register_reply(
    before: Registry,
    req: Register,
    roots: Seq<RootFact>,
    parents: Seq<RootFact>,
    now: i64,
) -> Json {
    match register_settled(req, roots, parents) {
        Err(_) => Json::Null,
        Ok(r) => {
            let deed = register_deed(before, r, now);
            match deed.result {
                Err(_) => Json::Null,
                Ok(report) => frame::envelope(report, deed.registry.generation()),
            }
        },
    }
}

/// A name keeps the tables sound and registers the project.
pub proof fn lemma_named(t: Tables, id: Text, name: Text, now: i64)
    requires
        t.sound(),
    ensures
        named(t, id, name, now).sound(),
        forall|other: Text|
            #[trigger] model::live(named(t, id, name, now).projects, other) <==> other == id
                || model::live(t.projects, other),
{
    if model::live(t.projects, id) {
        effects::lemma_rename(t, id, name, now);
    } else {
        effects::lemma_enter(t, id, name, None, now);
    }
}

/// A place for a registered project keeps the tables sound.
pub proof fn lemma_settled_in(t: Tables, id: Text, workspace_id: Option<Text>, now: i64)
    requires
        t.sound(),
        model::live(t.projects, id),
    ensures
        settled_in(t, id, workspace_id, now).sound(),
{
    if let Some(w) = workspace_id {
        effects::lemma_open_workspace(t, w, w, now);
        effects::lemma_place(t.open_workspace(w, w, now), id, w);
    }
}

/// A registration keeps the tables sound.
pub proof fn lemma_registered(t: Tables, r: Register, id: Text, now: i64)
    requires
        t.sound(),
    ensures
        registered(t, r, id, now).sound(),
{
    lemma_named(t, id, r.name, now);
    let a = named(t, id, r.name, now);
    effects::lemma_claim_roots(a, r.roots, id, now);
    let b = a.claim_roots(r.roots, id, now);
    effects::lemma_claim_parents(b, r.parents, id);
    lemma_settled_in(b.claim_parents(r.parents, id), id, r.workspace_id, now);
}

proof fn lemma_collisions_plain(aliases: Seq<Link>, roots: Seq<Text>, id: Text, i: int)
    requires
        0 <= i < collisions(aliases, roots, id).len(),
    ensures
        json::plain(collisions(aliases, roots, id)[i], 9),
    decreases roots.len(),
{
    if roots.len() > 0 {
        let head = collisions(aliases, roots.drop_last(), id);
        if i < head.len() {
            lemma_collisions_plain(aliases, roots.drop_last(), id, i);
        } else {
            let old = ids::implicit_id(roots.last());
            let owner = foreign(aliases, old, id).unwrap();
            json::lemma_plain_object(
                seq![("oldId"@, Json::Str(old)), ("owner"@, Json::Str(owner))],
                8,
            );
        }
    }
}

/// What registering answers can be read back.
pub proof fn lemma_register_legible(t: Tables, r: Register, id: Text)
    ensures
        frame::legible(register_fields(t, r, id)),
        json::plain(Json::Array(collisions(t.aliases, r.roots, id)), 10),
{
    let listed = collisions(t.aliases, r.roots, id);
    assert forall|i: int| 0 <= i < listed.len() implies json::plain(#[trigger] listed[i], 9) by {
        lemma_collisions_plain(t.aliases, r.roots, id, i);
    }
    json::lemma_plain_texts(r.roots, None, 9);
    json::lemma_plain_texts(r.parents, None, 9);
}

fn found_targets(t: &Vec<LinkRow>, keys: &Vec<String>, out: &mut Vec<String>)
    ensures
        text::texts(final(out)@) == text::texts(old(out)@) + found(
            rows::links(t@),
            text::texts(keys@),
        ),
{
    let ghost all = text::texts(keys@);
    let ghost start = text::texts(out@);
    let mut i: usize = 0;
    assert(all.take(0) =~= Seq::empty());
    assert(text::texts(out@) =~= start + found(rows::links(t@), all.take(0)));
    while i < keys.len()
        invariant
            all == text::texts(keys@),
            i <= keys@.len(),
            text::texts(out@) == start + found(rows::links(t@), all.take(i as int)),
        decreases keys@.len() - i,
    {
        let ghost before = text::texts(out@);
        assert(all.take(i + 1).drop_last() =~= all.take(i as int));
        assert(all.take(i + 1).last() == keys@[i as int]@);
        if let Some(to) = lookup(t, keys[i].as_str()) {
            out.push(to);
            assert(text::texts(out@) =~= before.push(to@));
            assert(before.push(to@) =~= start + found(rows::links(t@), all.take(i as int)).push(
                to@,
            ));
        }
        i = i + 1;
    }
    assert(all.take(i as int) =~= all);
}

/// Whether every key occurs.
pub fn has_all(t: &Vec<LinkRow>, keys: &Vec<String>) -> (r: bool)
    ensures
        r == all_present(rows::links(t@), text::texts(keys@)),
{
    let ghost all = text::texts(keys@);
    let mut i: usize = 0;
    while i < keys.len()
        invariant
            all == text::texts(keys@),
            i <= keys@.len(),
            forall|j: int| 0 <= j < i ==> model::has(rows::links(t@), #[trigger] all[j]),
        decreases keys@.len() - i,
    {
        assert(all[i as int] == keys@[i as int]@);
        if !has_key(t, keys[i].as_str()) {
            return false;
        }
        i = i + 1;
    }
    true
}

fn foreign_owner(t: &Vec<LinkRow>, key: &str, id: &str) -> (r: Option<String>)
    ensures
        text::opt_text(r) == foreign(rows::links(t@), key@, id@),
{
    match lookup(t, key) {
        Some(owner) => if str_eq(owner.as_str(), id) {
            None
        } else {
            Some(owner)
        },
        None => None,
    }
}

/// The failure, as contracts speak of it.
pub open spec fn opt_failure(o: Option<RegistryError>) -> Option<Failure> {
    match o {
        Some(e) => Some(e@),
        None => None,
    }
}

impl TableRows {
    /// The id that a request registers.
    pub fn registrant(&self, req: &RegisterRequest) -> (r: Result<String, RegistryError>)
        ensures
            match registrant(self@, req@) {
                Ok(id) => r matches Ok(s) && s@ == id,
                Err(e) => r matches Err(f) && f@ == e,
            },
    {
        if let Some(id) = &req.project_id {
            return Ok(id.clone());
        }
        let mut all: Vec<String> = Vec::new();
        found_targets(&self.roots, &req.roots, &mut all);
        found_targets(&self.parents, &req.derived_root_parents, &mut all);
        assert(text::texts(all@) =~= found(self@.roots, req@.roots) + found(
            self@.parents,
            req@.parents,
        ));
        let holders = sort_dedup(&all);
        if holders.len() == 1 {
            assert(text::texts(holders@)[0] == holders@[0]@);
            Ok(holders[0].clone())
        } else if holders.len() > 1 {
            let list = join_strs(&holders, ",");
            Err(domain("project_conflict", cat("conflicting owners: ", list.as_str())))
        } else {
            Ok(mint("register1", req.name.as_str(), &req.roots))
        }
    }

    fn find_root_clash(&self, id: &str, root: &str) -> (r: Option<RegistryError>)
        ensures
            opt_failure(r) == root_clash(self@, id@, root@),
    {
        if let Some(owner) = foreign_owner(&self.roots, root, id) {
            let m = cat3("root ", root, " is owned by ");
            return Some(domain("root_conflict", cat(m.as_str(), owner.as_str())));
        }
        if let Some(owner) = foreign_owner(&self.parents, root, id) {
            let m = cat3("root ", root, " is claimed by ");
            return Some(domain("root_conflict", cat(m.as_str(), owner.as_str())));
        }
        None
    }

    fn find_root_clashes(&self, id: &str, roots: &Vec<String>) -> (r: Option<RegistryError>)
        ensures
            opt_failure(r) == root_clashes(self@, id@, text::texts(roots@)),
    {
        let ghost all = text::texts(roots@);
        let mut i: usize = 0;
        assert(all.skip(0) =~= all);
        while i < roots.len()
            invariant
                all == text::texts(roots@),
                i <= roots@.len(),
                root_clashes(self@, id@, all) == root_clashes(self@, id@, all.skip(i as int)),
            decreases roots@.len() - i,
        {
            assert(all.skip(i as int)[0] == roots@[i as int]@);
            assert(all.skip(i as int).drop_first() =~= all.skip(i + 1));
            if let Some(e) = self.find_root_clash(id, roots[i].as_str()) {
                return Some(e);
            }
            i = i + 1;
        }
        None
    }

    fn find_parent_clash(&self, id: &str, parent: &str) -> (r: Option<RegistryError>)
        ensures
            opt_failure(r) == parent_clash(self@.roots, id@, parent@),
    {
        let ghost all = self@.roots;
        let mut i: usize = 0;
        assert(all.skip(0) =~= all);
        while i < self.roots.len()
            invariant
                all == rows::links(self.roots@),
                all == self@.roots,
                i <= self.roots@.len(),
                parent_clash(all, id@, parent@) == parent_clash(all.skip(i as int), id@, parent@),
            decreases self.roots@.len() - i,
        {
            assert(all.skip(i as int)[0] == self.roots@[i as int]@);
            assert(all.skip(i as int).drop_first() =~= all.skip(i + 1));
            let row = &self.roots[i];
            if !str_eq(row.target.as_str(), id) && path_prefix_or_equal(
                parent,
                row.key.as_str(),
            ) {
                let m = cat3("parent ", parent, " conflicts with owner ");
                return Some(
                    domain(
                        "derived_parent_contains_foreign_root",
                        cat(m.as_str(), row.target.as_str()),
                    ),
                );
            }
            i = i + 1;
        }
        None
    }

    fn find_parent_clashes(&self, id: &str, parents: &Vec<String>) -> (r: Option<RegistryError>)
        ensures
            opt_failure(r) == parent_clashes(self@.roots, id@, text::texts(parents@)),
    {
        let ghost all = text::texts(parents@);
        let mut i: usize = 0;
        assert(all.skip(0) =~= all);
        while i < parents.len()
            invariant
                all == text::texts(parents@),
                i <= parents@.len(),
                parent_clashes(self@.roots, id@, all) == parent_clashes(
                    self@.roots,
                    id@,
                    all.skip(i as int),
                ),
            decreases parents@.len() - i,
        {
            assert(all.skip(i as int)[0] == parents@[i as int]@);
            assert(all.skip(i as int).drop_first() =~= all.skip(i + 1));
            if let Some(e) = self.find_parent_clash(id, parents[i].as_str()) {
                return Some(e);
            }
            i = i + 1;
        }
        None
    }

    fn find_shelter_clash(&self, id: &str, root: &str) -> (r: Option<RegistryError>)
        ensures
            opt_failure(r) == shelter_clash(self@.parents, id@, root@),
    {
        let ghost all = self@.parents;
        let mut i: usize = 0;
        assert(all.skip(0) =~= all);
        while i < self.parents.len()
            invariant
                all == rows::links(self.parents@),
                all == self@.parents,
                i <= self.parents@.len(),
                shelter_clash(all, id@, root@) == shelter_clash(all.skip(i as int), id@, root@),
            decreases self.parents@.len() - i,
        {
            assert(all.skip(i as int)[0] == self.parents@[i as int]@);
            assert(all.skip(i as int).drop_first() =~= all.skip(i + 1));
            let row = &self.parents[i];
            if !str_eq(row.target.as_str(), id) && path_prefix_or_equal(row.key.as_str(), root) {
                let m = cat3("root ", root, " is under ");
                let m = cat3(m.as_str(), row.key.as_str(), ", owned by ");
                return Some(
                    domain(
                        "root_under_foreign_derived_parent",
                        cat(m.as_str(), row.target.as_str()),
                    ),
                );
            }
            i = i + 1;
        }
        None
    }

    fn find_shelter_clashes(&self, id: &str, roots: &Vec<String>) -> (r: Option<RegistryError>)
        ensures
            opt_failure(r) == shelter_clashes(self@.parents, id@, text::texts(roots@)),
    {
        let ghost all = text::texts(roots@);
        let mut i: usize = 0;
        assert(all.skip(0) =~= all);
        while i < roots.len()
            invariant
                all == text::texts(roots@),
                i <= roots@.len(),
                shelter_clashes(self@.parents, id@, all) == shelter_clashes(
                    self@.parents,
                    id@,
                    all.skip(i as int),
                ),
            decreases roots@.len() - i,
        {
            assert(all.skip(i as int)[0] == roots@[i as int]@);
            assert(all.skip(i as int).drop_first() =~= all.skip(i + 1));
            if let Some(e) = self.find_shelter_clash(id, roots[i].as_str()) {
                return Some(e);
            }
            i = i + 1;
        }
        None
    }

    fn find_register_refusal(&self, req: &RegisterRequest, id: &str) -> (r: Option<RegistryError>)
        ensures
            opt_failure(r) == register_refusal(self@, req@, id@),
    {
        if req.project_id.is_some() && find_project(&self.projects, id).is_none() && has_key(
            &self.aliases,
            id,
        ) {
            return Some(domain("project_id_occupied", id.to_owned()));
        }
        if let Some(e) = self.find_root_clashes(id, &req.roots) {
            return Some(e);
        }
        if let Some(e) = self.find_parent_clashes(id, &req.derived_root_parents) {
            return Some(e);
        }
        if let Some(e) = self.find_shelter_clashes(id, &req.roots) {
            return Some(e);
        }
        if let Some(w) = &req.workspace_id {
            if let Some(old) = foreign_owner(&self.placements, id, w.as_str()) {
                let m = cat3("project ", id, " belongs to workspace ");
                return Some(domain("workspace_conflict", cat(m.as_str(), old.as_str())));
            }
        }
        None
    }

    fn find_collisions(&self, roots: &Vec<String>, id: &str) -> (r: serde_json::Value)
        ensures
            json::value_view(r) == Json::Array(
                collisions(self@.aliases, text::texts(roots@), id@),
            ),
    {
        let ghost all = text::texts(roots@);
        let mut out: Vec<serde_json::Value> = Vec::new();
        let mut i: usize = 0;
        assert(all.take(0) =~= Seq::empty());
        assert(json::values(out@) =~= collisions(self@.aliases, all.take(0), id@));
        while i < roots.len()
            invariant
                all == text::texts(roots@),
                i <= roots@.len(),
                json::values(out@) == collisions(self@.aliases, all.take(i as int), id@),
            decreases roots@.len() - i,
        {
            let ghost before = json::values(out@);
            assert(all.take(i + 1).drop_last() =~= all.take(i as int));
            assert(all.take(i + 1).last() == roots@[i as int]@);
            let old = implicit_project_id(roots[i].as_str());
            if let Some(owner) = foreign_owner(&self.aliases, old.as_str(), id) {
                let mut p: Vec<(String, serde_json::Value)> = Vec::new();
                p.push(field("oldId", text_value(old.as_str())));
                p.push(field("owner", text_value(owner.as_str())));
                assert(json::fields(p@) =~= seq![
                    ("oldId"@, Json::Str(old@)),
                    ("owner"@, Json::Str(owner@)),
                ]);
                let v = object_value(p);
                out.push(v);
                assert(json::values(out@) =~= before.push(json::value_view(v)));
            }
            i = i + 1;
        }
        assert(all.take(i as int) =~= all);
        list_value(out)
    }

    /// Whether a project is registered under the name.
    pub fn is_registered_as(&self, id: &str, name: &str) -> (r: bool)
        ensures
            r == registered_as(self@, id@, name@),
    {
        match find_project(&self.projects, id) {
            Some(p) => str_eq(p.name.as_str(), name),
            None => false,
        }
    }

    fn would_register_change(&self, req: &RegisterRequest, id: &str) -> (r: bool)
        ensures
            r == register_changes(self@, req@, id@),
    {
        !self.is_registered_as(id, req.name.as_str()) || !has_all(&self.roots, &req.roots)
            || !has_all(&self.parents, &req.derived_root_parents) || (req.workspace_id.is_some()
            && !has_key(&self.placements, id)) || !has_all(
            &self.aliases,
            &implicit_project_ids(&req.roots),
        )
    }

    /// Registers a project under the name, or renames it.
    pub fn name_project(&mut self, id: &str, name: &str, now: i64)
        ensures
            final(self)@ == named(old(self)@, id@, name@, now),
    {
        if find_project(&self.projects, id).is_some() {
            self.rename(id, name, now);
        } else {
            self.enter(id, name, &None, now);
        }
    }

    /// Places a project in a workspace, where one is asked for.
    pub fn settle_in(&mut self, id: &str, workspace_id: &Option<String>, now: i64)
        ensures
            final(self)@ == settled_in(old(self)@, id@, text::opt_text(*workspace_id), now),
    {
        if let Some(w) = workspace_id {
            self.open_workspace(w.as_str(), w.as_str(), now);
            self.place(id, w.as_str());
        }
    }

    /// Registers a project as `id`, with everything that the request gives it.
    pub fn register_as(&mut self, req: &RegisterRequest, id: &str, now: i64)
        ensures
            final(self)@ == registered(old(self)@, req@, id@, now),
    {
        self.name_project(id, req.name.as_str(), now);
        self.claim_roots(&req.roots, id, now);
        self.claim_parents(&req.derived_root_parents, id);
        self.settle_in(id, &req.workspace_id, now);
    }
}

/// Who asked, or `standard` where the request does not say.
pub fn actor_or(actor: &Option<String>, standard: &str) -> (r: String)
    ensures
        r@ == actor_of(text::opt_text(*actor), standard@),
{
    match actor {
        Some(a) => a.clone(),
        None => standard.to_owned(),
    }
}

impl RegistryStore {
    fn register_action(&mut self, req: &RegisterRequest, now: i64) -> (r: Result<
        Action,
        RegistryError,
    >)
        requires
            old(self)@.sound(),
        ensures
            (Deed { registry: final(self)@, result: frame::acted(r) }) == register_deed(
                old(self)@,
                req@,
                now,
            ),
            final(self)@.sound(),
            r matches Ok(a) ==> a.changed ==> final(self)@.journal.len() > 0 && entries::legible(
                final(self)@.journal.last(),
                a.view().payload,
            ),
            r matches Ok(a) ==> frame::legible(a.view().fields),
    {
        let ghost before = self@;
        let id = match self.tables.registrant(req) {
            Ok(id) => id,
            Err(e) => return Err(e),
        };
        if let Some(e) = self.tables.find_register_refusal(req, id.as_str()) {
            return Err(e);
        }
        let mut fields: Vec<(String, serde_json::Value)> = Vec::new();
        fields.push(field("projectId", text_value(id.as_str())));
        fields.push(field("name", text_value(req.name.as_str())));
        fields.push(field("roots", array_value(&req.roots)));
        fields.push(field("derivedRootParents", array_value(&req.derived_root_parents)));
        fields.push(field("warnings", self.tables.find_collisions(&req.roots, id.as_str())));
        assert(json::fields(fields@) =~= register_fields(before.tables, req@, id@));
        proof {
            lemma_register_legible(before.tables, req@, id@);
        }
        if !self.tables.would_register_change(req, id.as_str()) {
            return Ok(Action { changed: false, fields, payload: req.to_value() });
        }
        let collided = self.tables.find_collisions(&req.roots, id.as_str());
        let again = self.tables.find_collisions(&req.roots, id.as_str());
        let actor = actor_or(&req.actor, "module");
        match self.append(
            "register",
            compact(&req.to_value()),
            actor.as_str(),
            &req.request_key,
            now,
            JournalRecord::Register(req.copy()),
        ) {
            Ok(_) => {},
            Err(e) => return Err(e),
        }
        proof {
            frame::lemma_appended(before.journal, register_note(req@, now));
            lemma_registered(before.tables, req@, id@, now);
            entries::lemma_register_kept(req@, json::value_view(again));
        }
        self.tables.register_as(req, id.as_str(), now);
        let ghost told = json::fields(fields@);
        fields.push(field("implicitAliasCollisions", collided));
        assert(json::fields(fields@) =~= told.push(
            ("implicitAliasCollisions"@, json::value_view(collided)),
        ));
        let mut kept: Vec<(String, serde_json::Value)> = Vec::new();
        kept.push(field("request", req.to_value()));
        kept.push(field("implicitAliasCollisions", again));
        assert(json::fields(kept@) =~= seq![
            ("request"@, payload::register_json(req@)),
            ("implicitAliasCollisions"@, json::value_view(again)),
        ]);
        Ok(Action { changed: true, fields, payload: object_value(kept) })
    }

    /// Registers a project, or adds to one that is registered. `roots` and
    /// `parents` say what the file system knows of the request's paths.
    pub fn register(
        &mut self,
        req: RegisterRequest,
        roots: &Vec<RootProbe>,
        parents: &Vec<RootProbe>,
        now: i64,
    ) -> (r: Result<Vec<u8>, RegistryError>)
        requires
            old(self)@.sound(),
            roots@.len() == req.roots@.len(),
            parents@.len() == req.derived_root_parents@.len(),
        ensures
            (Outcome { registry: final(self)@, answer: frame::seen(r) }) == register_outcome(
                old(self)@,
                req@,
                paths::facts(roots@),
                paths::facts(parents@),
                now,
            ),
            final(self)@.sound(),
            frame::kept(old(self)@.journal, req@.request_key) is None ==> (r matches Ok(b)
                ==> frame::head_in(b@) == Some(final(self)@.generation()) && json::json_read(b@)
                == Some(
                register_reply(
                    old(self)@,
                    req@,
                    paths::facts(roots@),
                    paths::facts(parents@),
                    now,
                ),
            )),
            entries::extends(old(self)@.journal, final(self)@.journal),
    {
        if let Some(id) = &req.project_id {
            if reserved(id.as_str()) {
                return Err(domain("reserved_project_id_namespace", id.clone()));
            }
        }
        let rs = match canonical_roots(&req.roots, roots) {
            Ok(v) => v,
            Err(e) => return Err(e),
        };
        let ps = match canonical_roots(&req.derived_root_parents, parents) {
            Ok(v) => v,
            Err(e) => return Err(e),
        };
        let mut settled = req;
        settled.roots = sort_dedup(&rs);
        settled.derived_root_parents = sort_dedup(&ps);
        if let Some(blob) = self.cached(&settled.request_key) {
            return Ok(blob);
        }
        let result = self.register_action(&settled, now);
        self.finish(result)
    }
}

} // verus!
