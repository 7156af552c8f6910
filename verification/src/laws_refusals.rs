//! When requests are refused, and with what.
use vstd::prelude::*;
use vstd::string::*;

use crate::error::Failure;
use crate::frame::Outcome;
use crate::laws_rows::unanswered;
use crate::membership::{entered, leads, opened, referred, taken};
use crate::model::{Assign, Entry, Link, Register, Registry, Remove, Seed, Tables, Upgrade};
use crate::paths::RootFact;
use crate::seed::Progress;
use crate::text::Text;
use crate::{
    effects, frame, ids, laws_registration, laws_rows, membership, model, mutations, observed,
    order, paths, register, seed, upkeep,
};

verus! {

/// Whether a request was refused with this code.
pub open spec fn refused_as(o: Outcome, code: Text) -> bool {
    o.answer matches Err(Failure::Domain { code: c, .. }) && c == code
}

/// Whether a request was refused with this code and message.
pub open spec fn refused_with(o: Outcome, code: Text, message: Text) -> bool {
    o.answer == Err::<Seq<u8>, Failure>(Failure::Domain { code, message })
}

/// Whether a request succeeded, or its journal entry could not be written: the journal
/// is full, or an entry without an answer has its key.
pub open spec fn goes_ahead(before: Registry, key: Option<Text>, o: Outcome) -> bool {
    o.answer is Ok || (o.answer matches Err(Failure::Database(_)) && (before.generation()
        == i64::MAX || key is Some && exists|i: int|
        0 <= i < before.journal.len() && (#[trigger] before.journal[i]).request_key == key))
}

/// The path that cannot be stored, and why.
pub open spec fn path_refusal(raw: Text, fact: RootFact) -> Failure {
    match fact {
        RootFact::Canonical(_) => Failure::Domain {
            code: "not_canonical"@,
            message: "path must be canonical: "@ + raw,
        },
        RootFact::Absent => Failure::Domain {
            code: "root_not_found"@,
            message: "path does not exist: "@ + raw,
        },
        RootFact::Failed(e) => Failure::Domain { code: "not_canonical"@, message: e },
    }
}

/// Paths are taken as they are given, where the file system knows each of them by exactly
/// that spelling. Else the first that it does not know so is refused.
pub proof fn law_paths_are_taken_as_given(raws: Seq<Text>, facts: Seq<RootFact>, k: int)
    requires
        facts.len() == raws.len(),
    ensures
        (forall|i: int| 0 <= i < raws.len() ==> #[trigger] facts[i] == RootFact::Canonical(raws[i]))
            ==> paths::canonical_all(raws, facts) == Ok::<Seq<Text>, Failure>(raws),
        0 <= k < raws.len() && facts[k] != RootFact::Canonical(raws[k]) && (forall|i: int|
            0 <= i < k ==> #[trigger] facts[i] == RootFact::Canonical(raws[i]))
            ==> paths::canonical_all(raws, facts) == Err::<Seq<Text>, Failure>(
            path_refusal(raws[k], facts[k]),
        ),
{
    lemma_paths_are_taken(raws, facts, k);
}

proof fn lemma_paths_are_taken(raws: Seq<Text>, facts: Seq<RootFact>, k: int)
    requires
        facts.len() >= raws.len(),
    ensures
        (forall|i: int| 0 <= i < raws.len() ==> #[trigger] facts[i] == RootFact::Canonical(raws[i]))
            ==> paths::canonical_all(raws, facts) == Ok::<Seq<Text>, Failure>(raws),
        0 <= k < raws.len() && facts[k] != RootFact::Canonical(raws[k]) && (forall|i: int|
            0 <= i < k ==> #[trigger] facts[i] == RootFact::Canonical(raws[i]))
            ==> paths::canonical_all(raws, facts) == Err::<Seq<Text>, Failure>(
            path_refusal(raws[k], facts[k]),
        ),
    decreases raws.len(),
{
    if raws.len() > 0 {
        let head = raws.drop_last();
        let last = raws.len() - 1;
        lemma_paths_are_taken(head, facts, k);
        assert(head.push(raws.last()) =~= raws);
        assert(raws[last] == raws.last());
        if forall|i: int|
            0 <= i < raws.len() ==> #[trigger] facts[i] == RootFact::Canonical(raws[i]) {
            assert forall|i: int| 0 <= i < head.len() implies #[trigger] facts[i]
                == RootFact::Canonical(head[i]) by {
                assert(facts[i] == RootFact::Canonical(raws[i]));
            }
            assert(facts[last] == RootFact::Canonical(raws[last]));
        }
        if 0 <= k < raws.len() && facts[k] != RootFact::Canonical(raws[k]) && (forall|i: int|
            0 <= i < k ==> #[trigger] facts[i] == RootFact::Canonical(raws[i])) {
            assert forall|i: int| 0 <= i < k && i < head.len() implies #[trigger] facts[i]
                == RootFact::Canonical(head[i]) by {
                assert(facts[i] == RootFact::Canonical(raws[i]));
            }
            if k < last {
                assert(head[k] == raws[k]);
            }
        }
    } else {
        assert(raws =~= Seq::empty());
    }
}

/// Whether a request's paths are known by exactly their spelling.
pub open spec fn canonical(raws: Seq<Text>, facts: Seq<RootFact>) -> bool {
    paths::canonical_all(raws, facts) == Ok::<Seq<Text>, Failure>(raws)
}

/// Whether a project has one of the paths of a request.
pub open spec fn holder(t: Tables, req: Register, id: Text) -> bool {
    ||| exists|path: Text| #[trigger] req.roots.contains(path) && leads(t.roots, path, id)
    ||| exists|path: Text| #[trigger] req.parents.contains(path) && leads(t.parents, path, id)
}

proof fn lemma_append(before: Registry, key: Option<Text>, o: Outcome)
    requires
        frame::append_failure(before.journal, key) matches Some(e) && o.answer == Err::<
            Seq<u8>,
            Failure,
        >(e),
    ensures
        goes_ahead(before, key, o),
{
    if before.generation() != i64::MAX {
        let i = choose|i: int|
            0 <= i < before.journal.len() && (#[trigger] before.journal[i]).request_key == key;
        assert(before.journal[i].request_key == key);
    }
}

/// A placement is refused where the project is not registered, where it is in another
/// workspace, and where a workspace refers to it although it is placed nowhere. Nothing
/// else keeps it from going ahead.
pub proof fn law_placements_are_refused_for_a_reason(before: Registry, req: Assign, now: i64, w: Text)
    requires
        before.sound(),
        unanswered(before.journal, req.request_key),
    ensures
        ({
            let t = before.tables;
            let o = mutations::assign_outcome(before, req, now);
            &&& if !entered(t.projects, req.project_id) {
                refused_with(o, "not_found"@, req.project_id)
            } else if taken(t.placements, req.project_id) && !leads(
                t.placements,
                req.project_id,
                req.workspace_id,
            ) {
                refused_as(o, "workspace_conflict"@)
            } else if taken(t.placements, req.project_id) {
                o.answer is Ok && o.registry == before
            } else if referred(t.members, req.project_id) {
                o.answer matches Err(Failure::Database(_))
            } else {
                goes_ahead(before, req.request_key, o)
            }
            &&& entered(t.projects, req.project_id) && leads(t.placements, req.project_id, w) && w
                != req.workspace_id ==> refused_with(
                o,
                "workspace_conflict"@,
                "project is already in workspace "@ + w,
            )
            &&& o.answer is Err ==> o.registry == before
        }),
{
    let t = before.tables;
    let deed = mutations::assign_deed(before, req, now);
    let o = mutations::assign_outcome(before, req, now);
    laws_rows::lemma_ran(before, req.request_key, deed);
    upkeep::lemma_live(t.projects, req.project_id);
    membership::lemma_lookup(t.placements, req.project_id, req.workspace_id);
    membership::lemma_lookup(t.placements, req.project_id, w);
    let row = model::local_member(req.workspace_id, req.project_id);
    assert(model::referenced(t.members, row) <==> referred(t.members, req.project_id)) by {
        if model::referenced(t.members, row) {
            let i = choose|i: int|
                0 <= i < t.members.len() && model::same_reference(#[trigger] t.members[i], row);
            assert(!t.members[i].remote && t.members[i].device.len() == 0);
        }
        if referred(t.members, req.project_id) {
            let i = choose|i: int|
                0 <= i < t.members.len() && !(#[trigger] t.members[i]).remote
                    && t.members[i].device.len() == 0 && t.members[i].project_id == req.project_id;
            assert(t.members[i].device =~= row.device);
            assert(model::same_reference(t.members[i], row));
        }
    }
    if frame::append_failure(before.journal, req.request_key) is Some && deed.result is Err
        && entered(t.projects, req.project_id) && !taken(t.placements, req.project_id) {
        lemma_append(before, req.request_key, o);
    }
}

/// An upgrade is refused where it names a reserved id, where its roots are not canonical,
/// and where its alias stands for another project. Nothing else keeps it from going ahead.
pub proof fn law_upgrades_are_refused_for_a_reason(
    before: Registry,
    req: Upgrade,
    roots: Seq<RootFact>,
    now: i64,
    owner: Text,
)
    requires
        before.sound(),
        unanswered(before.journal, req.request_key),
    ensures
        ({
            let t = before.tables;
            let o = mutations::upgrade_outcome(before, req, roots, now);
            let all = match req.root {
                Some(root) => req.roots.push(root),
                None => req.roots,
            };
            let id = match req.project_id {
                Some(id) => id,
                None => ids::minted_id("upgrade1"@, req.name, all),
            };
            &&& if req.project_id is Some && ids::is_reserved(id) {
                refused_with(o, "reserved_project_id_namespace"@, id)
            } else if !canonical(all, roots) {
                paths::canonical_all(all, roots) matches Err(e) && o.answer == Err::<
                    Seq<u8>,
                    Failure,
                >(e)
            } else if taken(t.aliases, req.implicit_id) && !leads(t.aliases, req.implicit_id, id) {
                &&& refused_as(o, "alias_conflict"@)
                &&& leads(t.aliases, req.implicit_id, owner) ==> refused_with(
                    o,
                    "alias_conflict"@,
                    owner,
                )
            } else {
                goes_ahead(before, req.request_key, o)
            }
            &&& o.answer is Err ==> o.registry == before
        }),
{
    let t = before.tables;
    let o = mutations::upgrade_outcome(before, req, roots, now);
    let all = mutations::upgrade_roots(req);
    laws_registration::lemma_canonical_as_given(all, roots);
    if let Ok(r) = mutations::upgrade_settled(req, roots) {
        let deed = mutations::upgrade_deed(before, r, now);
        let id = mutations::upgrade_id(r);
        assert(r.roots == all);
        laws_rows::lemma_ran(before, req.request_key, deed);
        membership::lemma_lookup(t.aliases, req.implicit_id, id);
        membership::lemma_lookup(t.aliases, req.implicit_id, owner);
        if register::foreign(t.aliases, req.implicit_id, id) is None && deed.result is Err {
            lemma_append(before, req.request_key, o);
        }
    }
}

/// A removal is refused where it names nothing, where what it names is unknown, and where
/// the successor is unknown or the project itself. Nothing else keeps it from going ahead.
pub proof fn law_removals_are_refused_for_a_reason(before: Registry, req: Remove, now: i64)
    requires
        before.sound(),
        unanswered(before.journal, req.request_key),
    ensures
        ({
            let t = before.tables;
            let o = mutations::remove_outcome(before, req, now);
            &&& match (req.workspace_id, req.project_id) {
                (Some(w), _) => if !opened(t.workspaces, w) {
                    refused_with(o, "not_found"@, w)
                } else {
                    goes_ahead(before, req.request_key, o)
                },
                (None, None) => refused_with(o, "invalid_params"@, "projectId is required"@),
                (None, Some(id)) => if !entered(t.projects, id) {
                    refused_with(o, "not_found"@, id)
                } else {
                    match req.successor {
                        Some(s) => if s == id || !entered(t.projects, s) {
                            refused_with(o, "not_found"@, s)
                        } else {
                            goes_ahead(before, req.request_key, o)
                        },
                        None => goes_ahead(before, req.request_key, o),
                    }
                },
            }
            &&& o.answer is Err ==> o.registry == before
        }),
{
    let t = before.tables;
    let deed = mutations::remove_deed(before, req, now);
    let o = mutations::remove_outcome(before, req, now);
    laws_rows::lemma_ran(before, req.request_key, deed);
    if let Some(w) = req.workspace_id {
        upkeep::lemma_known(t.workspaces, w);
    }
    if let Some(id) = req.project_id {
        upkeep::lemma_live(t.projects, id);
    }
    if let Some(s) = req.successor {
        upkeep::lemma_live(t.projects, s);
    }
    if let Some(e) = frame::append_failure(before.journal, req.request_key) {
        if o.answer == Err::<Seq<u8>, Failure>(e) {
            lemma_append(before, req.request_key, o);
        }
    }
}

/// Whether a path belongs to a project, as a root or as a parent.
pub open spec fn belongs(t: Tables, path: Text, id: Text) -> bool {
    leads(t.roots, path, id) || leads(t.parents, path, id)
}

/// Whether a root belongs to a project other than this one, as a root or as a parent.
pub open spec fn root_of_another(t: Tables, roots: Seq<Text>, id: Text) -> bool {
    exists|root: Text, owner: Text|
        roots.contains(root) && owner != id && #[trigger] belongs(t, root, owner)
}

/// Whether a root of a project other than this one lies in one of the parents.
pub open spec fn covers_another(t: Tables, parents: Seq<Text>, id: Text) -> bool {
    exists|parent: Text, l: Link| #[trigger]
        parents.contains(parent) && #[trigger] t.roots.contains(l) && l.target != id
            && paths::contains_path(parent, l.key)
}

/// Whether one of the roots lies in a parent of a project other than this one.
pub open spec fn lies_in_another(t: Tables, roots: Seq<Text>, id: Text) -> bool {
    exists|root: Text, l: Link| #[trigger]
        roots.contains(root) && #[trigger] t.parents.contains(l) && l.target != id
            && paths::contains_path(l.key, root)
}

proof fn lemma_root_clashes(t: Tables, id: Text, roots: Seq<Text>)
    requires
        t.sound(),
    ensures
        register::root_clashes(t, id, roots) is Some <==> root_of_another(t, roots, id),
        register::root_clashes(t, id, roots) matches Some(e) ==> (e matches Failure::Domain {
            code,
            ..
        } && code == "root_conflict"@),
    decreases roots.len(),
{
    if roots.len() > 0 {
        let rest = roots.drop_first();
        let first = roots[0];
        lemma_root_clashes(t, id, rest);
        if let Some(owner) = model::target(t.roots, first) {
            membership::lemma_lookup(t.roots, first, owner);
        }
        if let Some(owner) = model::target(t.parents, first) {
            membership::lemma_lookup(t.parents, first, owner);
        }
        if register::root_clash(t, id, first) is Some {
            assert(roots.contains(first));
            match register::foreign(t.roots, first, id) {
                Some(owner) => {
                    assert(belongs(t, first, owner));
                },
                None => {
                    let owner = register::foreign(t.parents, first, id)->Some_0;
                    assert(leads(t.parents, first, owner));
                    assert(roots.contains(first) && owner != id && belongs(t, first, owner));
                },
            }
        }
        if root_of_another(t, rest, id) {
            let (root, owner) = choose|root: Text, owner: Text|
                rest.contains(root) && owner != id && #[trigger] belongs(t, root, owner);
            let i = choose|i: int| 0 <= i < rest.len() && rest[i] == root;
            assert(roots[i + 1] == root);
            assert(roots.contains(root) && owner != id && belongs(t, root, owner));
        }
        if root_of_another(t, roots, id) && register::root_clash(t, id, first) is None {
            let (root, owner) = choose|root: Text, owner: Text|
                roots.contains(root) && owner != id && #[trigger] belongs(t, root, owner);
            let i = choose|i: int| 0 <= i < roots.len() && roots[i] == root;
            membership::lemma_lookup(t.roots, root, owner);
            membership::lemma_lookup(t.parents, root, owner);
            assert(i != 0);
            assert(rest[i - 1] == root);
            assert(rest.contains(root) && owner != id && belongs(t, root, owner));
        }
    }
}

proof fn lemma_parent_clash(rows: Seq<Link>, id: Text, parent: Text)
    ensures
        register::parent_clash(rows, id, parent) is Some <==> exists|l: Link| #[trigger]
            rows.contains(l) && l.target != id && paths::contains_path(parent, l.key),
        register::parent_clash(rows, id, parent) matches Some(e) ==> (e matches Failure::Domain {
            code,
            ..
        } && code == "derived_parent_contains_foreign_root"@),
    decreases rows.len(),
{
    if rows.len() > 0 {
        let rest = rows.drop_first();
        lemma_parent_clash(rest, id, parent);
        assert(rows.contains(rows[0]));
        if exists|l: Link| #[trigger]
            rest.contains(l) && l.target != id && paths::contains_path(parent, l.key) {
            let l = choose|l: Link| #[trigger]
                rest.contains(l) && l.target != id && paths::contains_path(parent, l.key);
            let i = choose|i: int| 0 <= i < rest.len() && rest[i] == l;
            assert(rows[i + 1] == l);
            assert(rows.contains(l));
        }
        if exists|l: Link| #[trigger]
            rows.contains(l) && l.target != id && paths::contains_path(parent, l.key) {
            let l = choose|l: Link| #[trigger]
                rows.contains(l) && l.target != id && paths::contains_path(parent, l.key);
            let i = choose|i: int| 0 <= i < rows.len() && rows[i] == l;
            if i > 0 {
                assert(rest[i - 1] == l);
                assert(rest.contains(l));
            }
        }
    }
}

proof fn lemma_parent_clashes(t: Tables, id: Text, parents: Seq<Text>)
    ensures
        register::parent_clashes(t.roots, id, parents) is Some <==> covers_another(t, parents, id),
        register::parent_clashes(t.roots, id, parents) matches Some(e) ==> (e matches Failure::Domain {
            code,
            ..
        } && code == "derived_parent_contains_foreign_root"@),
    decreases parents.len(),
{
    if parents.len() > 0 {
        let rest = parents.drop_first();
        let first = parents[0];
        lemma_parent_clashes(t, id, rest);
        lemma_parent_clash(t.roots, id, first);
        assert(parents.contains(first));
        if register::parent_clash(t.roots, id, first) is Some {
            let l = choose|l: Link| #[trigger]
                t.roots.contains(l) && l.target != id && paths::contains_path(first, l.key);
            assert(parents.contains(first) && t.roots.contains(l));
        }
        if covers_another(t, rest, id) {
            let (parent, l) = choose|parent: Text, l: Link| #[trigger]
                rest.contains(parent) && #[trigger] t.roots.contains(l) && l.target != id
                    && paths::contains_path(parent, l.key);
            let i = choose|i: int| 0 <= i < rest.len() && rest[i] == parent;
            assert(parents[i + 1] == parent);
            assert(parents.contains(parent) && t.roots.contains(l));
        }
        if covers_another(t, parents, id) && register::parent_clash(t.roots, id, first) is None {
            let (parent, l) = choose|parent: Text, l: Link| #[trigger]
                parents.contains(parent) && #[trigger] t.roots.contains(l) && l.target != id
                    && paths::contains_path(parent, l.key);
            let i = choose|i: int| 0 <= i < parents.len() && parents[i] == parent;
            assert(i != 0);
            assert(rest[i - 1] == parent);
            assert(rest.contains(parent) && t.roots.contains(l));
        }
    }
}

proof fn lemma_shelter_clash(rows: Seq<Link>, id: Text, root: Text)
    ensures
        register::shelter_clash(rows, id, root) is Some <==> exists|l: Link| #[trigger]
            rows.contains(l) && l.target != id && paths::contains_path(l.key, root),
        register::shelter_clash(rows, id, root) matches Some(e) ==> (e matches Failure::Domain {
            code,
            ..
        } && code == "root_under_foreign_derived_parent"@),
    decreases rows.len(),
{
    if rows.len() > 0 {
        let rest = rows.drop_first();
        lemma_shelter_clash(rest, id, root);
        assert(rows.contains(rows[0]));
        if exists|l: Link| #[trigger]
            rest.contains(l) && l.target != id && paths::contains_path(l.key, root) {
            let l = choose|l: Link| #[trigger]
                rest.contains(l) && l.target != id && paths::contains_path(l.key, root);
            let i = choose|i: int| 0 <= i < rest.len() && rest[i] == l;
            assert(rows[i + 1] == l);
            assert(rows.contains(l));
        }
        if exists|l: Link| #[trigger]
            rows.contains(l) && l.target != id && paths::contains_path(l.key, root) {
            let l = choose|l: Link| #[trigger]
                rows.contains(l) && l.target != id && paths::contains_path(l.key, root);
            let i = choose|i: int| 0 <= i < rows.len() && rows[i] == l;
            if i > 0 {
                assert(rest[i - 1] == l);
                assert(rest.contains(l));
            }
        }
    }
}

proof fn lemma_shelter_clashes(t: Tables, id: Text, roots: Seq<Text>)
    ensures
        register::shelter_clashes(t.parents, id, roots) is Some <==> lies_in_another(t, roots, id),
        register::shelter_clashes(t.parents, id, roots) matches Some(e) ==> (e matches Failure::Domain {
            code,
            ..
        } && code == "root_under_foreign_derived_parent"@),
    decreases roots.len(),
{
    if roots.len() > 0 {
        let rest = roots.drop_first();
        let first = roots[0];
        lemma_shelter_clashes(t, id, rest);
        lemma_shelter_clash(t.parents, id, first);
        assert(roots.contains(first));
        if register::shelter_clash(t.parents, id, first) is Some {
            let l = choose|l: Link| #[trigger]
                t.parents.contains(l) && l.target != id && paths::contains_path(l.key, first);
            assert(roots.contains(first) && t.parents.contains(l));
        }
        if lies_in_another(t, rest, id) {
            let (root, l) = choose|root: Text, l: Link| #[trigger]
                rest.contains(root) && #[trigger] t.parents.contains(l) && l.target != id
                    && paths::contains_path(l.key, root);
            let i = choose|i: int| 0 <= i < rest.len() && rest[i] == root;
            assert(roots[i + 1] == root);
            assert(roots.contains(root) && t.parents.contains(l));
        }
        if lies_in_another(t, roots, id) && register::shelter_clash(t.parents, id, first) is None {
            let (root, l) = choose|root: Text, l: Link| #[trigger]
                roots.contains(root) && #[trigger] t.parents.contains(l) && l.target != id
                    && paths::contains_path(l.key, root);
            let i = choose|i: int| 0 <= i < roots.len() && roots[i] == root;
            assert(i != 0);
            assert(rest[i - 1] == root);
            assert(rest.contains(root) && t.parents.contains(l));
        }
    }
}

/// Whoever has one of the keys is found.
pub proof fn lemma_found(t: Seq<Link>, keys: Seq<Text>, id: Text)
    requires
        model::unique_links(t),
    ensures
        register::found(t, keys).contains(id) <==> exists|key: Text| #[trigger]
            keys.contains(key) && leads(t, key, id),
    decreases keys.len(),
{
    if keys.len() > 0 {
        let head = keys.drop_last();
        let last = keys.last();
        let before = register::found(t, head);
        lemma_found(t, head, id);
        membership::lemma_lookup(t, last, id);
        assert forall|key: Text| keys.contains(key) <==> head.contains(key) || key == last by {
            membership::lemma_pushed(head, last, key);
            assert(head.push(last) =~= keys);
        }
        if let Some(to) = model::target(t, last) {
            membership::lemma_pushed(before, to, id);
        }
        if exists|key: Text| #[trigger] head.contains(key) && leads(t, key, id) {
            let key = choose|key: Text| #[trigger] head.contains(key) && leads(t, key, id);
            assert(keys.contains(key) && leads(t, key, id));
        }
        if leads(t, last, id) {
            assert(keys.contains(last));
        }
    }
}

proof fn lemma_owners(t: Tables, req: Register, r: Register, id: Text)
    requires
        t.sound(),
        forall|k: Text| r.roots.contains(k) <==> req.roots.contains(k),
        forall|k: Text| r.parents.contains(k) <==> req.parents.contains(k),
    ensures
        register::owners(t, r).contains(id) <==> holder(t, req, id),
{
    let a = register::found(t.roots, r.roots);
    let b = register::found(t.parents, r.parents);
    order::law_sorted_set(a + b);
    lemma_found(t.roots, r.roots, id);
    lemma_found(t.parents, r.parents, id);
    if (a + b).contains(id) {
        let i = choose|i: int| 0 <= i < (a + b).len() && (a + b)[i] == id;
        if i < a.len() {
            assert(a[i] == id);
            assert(a.contains(id));
        } else {
            assert(b[i - a.len()] == id);
            assert(b.contains(id));
        }
    }
    if a.contains(id) {
        let i = choose|i: int| 0 <= i < a.len() && a[i] == id;
        assert((a + b)[i] == id);
        let key = choose|key: Text| #[trigger] r.roots.contains(key) && leads(t.roots, key, id);
        assert(req.roots.contains(key));
    }
    if b.contains(id) {
        let i = choose|i: int| 0 <= i < b.len() && b[i] == id;
        assert((a + b)[a.len() + i] == id);
        let key = choose|key: Text| #[trigger] r.parents.contains(key) && leads(t.parents, key, id);
        assert(req.parents.contains(key));
    }
    if holder(t, req, id) {
        if exists|path: Text| #[trigger] req.roots.contains(path) && leads(t.roots, path, id) {
            let path = choose|path: Text| #[trigger]
                req.roots.contains(path) && leads(t.roots, path, id);
            assert(r.roots.contains(path));
        } else {
            let path = choose|path: Text| #[trigger]
                req.parents.contains(path) && leads(t.parents, path, id);
            assert(r.parents.contains(path));
        }
    }
}

/// Whether the paths of a request belong to different projects.
pub open spec fn disputed(t: Tables, req: Register) -> bool {
    exists|a: Text, b: Text| #[trigger] holder(t, req, a) && #[trigger] holder(t, req, b) && a != b
}

/// Whether this is the id that a request registers: the one it names, or else that of the
/// project that has its paths, or else the one minted for its name and roots.
pub open spec fn registers(t: Tables, req: Register, id: Text) -> bool {
    match req.project_id {
        Some(x) => id == x,
        None => if exists|x: Text| holder(t, req, x) {
            holder(t, req, id)
        } else {
            id == ids::minted_id("register1"@, req.name, order::sorted_set(req.roots))
        },
    }
}

proof fn lemma_registrant(t: Tables, req: Register, r: Register, id: Text)
    requires
        t.sound(),
        r.project_id == req.project_id,
        r.name == req.name,
        r.roots == order::sorted_set(req.roots),
        forall|k: Text| r.roots.contains(k) <==> req.roots.contains(k),
        forall|k: Text| r.parents.contains(k) <==> req.parents.contains(k),
    ensures
        req.project_id is None && disputed(t, req) ==> (register::registrant(t, r) matches Err(
            Failure::Domain { code, .. },
        ) && code == "project_conflict"@),
        req.project_id is Some || !disputed(t, req) ==> register::registrant(t, r) is Ok,
        register::registrant(t, r) == Ok::<Text, Failure>(id) ==> registers(t, req, id),
        (req.project_id is Some || !disputed(t, req)) && registers(t, req, id)
            ==> register::registrant(t, r) == Ok::<Text, Failure>(id),
{
    let all = register::owners(t, r);
    order::law_sorted_set(register::found(t.roots, r.roots) + register::found(t.parents, r.parents));
    assert forall|x: Text| #[trigger] all.contains(x) <==> holder(t, req, x) by {
        lemma_owners(t, req, r, x);
    }
    if all.len() > 0 {
        assert(all.contains(all[0]));
        assert(holder(t, req, all[0]));
    }
    if all.len() > 1 {
        assert(all.contains(all[1]));
        assert(order::text_lt(all[0], all[1]));
        order::lemma_text_irreflexive(all[0]);
        assert(holder(t, req, all[0]) && holder(t, req, all[1]));
    }
    if disputed(t, req) {
        let (a, b) = choose|a: Text, b: Text| #[trigger]
            holder(t, req, a) && #[trigger] holder(t, req, b) && a != b;
        assert(all.contains(a) && all.contains(b));
        if all.len() == 1 {
            assert(a == all[0] && b == all[0]);
        }
    }
    if exists|x: Text| holder(t, req, x) {
        let x = choose|x: Text| holder(t, req, x);
        assert(all.contains(x));
    }
    if holder(t, req, id) {
        assert(all.contains(id));
    }
}

/// A registration is refused where it names a reserved id or the id of something else,
/// where its paths are not canonical, belong to or overlap with those of another project,
/// and where its project is in another workspace. Nothing else keeps it from going ahead.
pub proof fn law_registrations_are_refused_for_a_reason(
    before: Registry,
    req: Register,
    roots: Seq<RootFact>,
    parents: Seq<RootFact>,
    now: i64,
    id: Text,
)
    requires
        before.sound(),
        unanswered(before.journal, req.request_key),
        registers(before.tables, req, id),
    ensures
        ({
            let t = before.tables;
            let o = register::register_outcome(before, req, roots, parents, now);
            &&& if req.project_id is Some && ids::is_reserved(id) {
                refused_with(o, "reserved_project_id_namespace"@, id)
            } else if !canonical(req.roots, roots) {
                paths::canonical_all(req.roots, roots) matches Err(e) && o.answer == Err::<
                    Seq<u8>,
                    Failure,
                >(e)
            } else if !canonical(req.parents, parents) {
                paths::canonical_all(req.parents, parents) matches Err(e) && o.answer == Err::<
                    Seq<u8>,
                    Failure,
                >(e)
            } else if req.project_id is None && disputed(t, req) {
                refused_as(o, "project_conflict"@)
            } else if req.project_id is Some && !entered(t.projects, id) && taken(t.aliases, id) {
                refused_with(o, "project_id_occupied"@, id)
            } else if root_of_another(t, req.roots, id) {
                refused_as(o, "root_conflict"@)
            } else if covers_another(t, req.parents, id) {
                refused_as(o, "derived_parent_contains_foreign_root"@)
            } else if lies_in_another(t, req.roots, id) {
                refused_as(o, "root_under_foreign_derived_parent"@)
            } else if (req.workspace_id matches Some(w) && taken(t.placements, id) && !leads(
                t.placements,
                id,
                w,
            )) {
                refused_as(o, "workspace_conflict"@)
            } else {
                goes_ahead(before, req.request_key, o)
            }
            &&& o.answer is Err ==> o.registry == before
        }),
{
    let t = before.tables;
    let o = register::register_outcome(before, req, roots, parents, now);
    laws_registration::lemma_canonical_as_given(req.roots, roots);
    laws_registration::lemma_canonical_as_given(req.parents, parents);
    if let Ok(r) = register::register_settled(req, roots, parents) {
        let deed = register::register_deed(before, r, now);
        laws_rows::lemma_ran(before, req.request_key, deed);
        order::law_sorted_set(req.roots);
        order::law_sorted_set(req.parents);
        lemma_registrant(t, req, r, id);
        if req.project_id is Some || !disputed(t, req) {
            upkeep::lemma_live(t.projects, id);
            upkeep::lemma_target(t.aliases, id);
            lemma_root_clashes(t, id, r.roots);
            lemma_parent_clashes(t, id, r.parents);
            lemma_shelter_clashes(t, id, r.roots);
            lemma_same_sets(t, req, r, id);
            if let Some(w) = req.workspace_id {
                membership::lemma_lookup(t.placements, id, w);
            }
            if register::register_refusal(t, r, id) is None && deed.result is Err {
                lemma_append(before, req.request_key, o);
            }
        }
    }
}

proof fn lemma_same_sets(t: Tables, req: Register, r: Register, id: Text)
    requires
        forall|k: Text| r.roots.contains(k) <==> req.roots.contains(k),
        forall|k: Text| r.parents.contains(k) <==> req.parents.contains(k),
    ensures
        root_of_another(t, r.roots, id) <==> root_of_another(t, req.roots, id),
        covers_another(t, r.parents, id) <==> covers_another(t, req.parents, id),
        lies_in_another(t, r.roots, id) <==> lies_in_another(t, req.roots, id),
{
    if root_of_another(t, r.roots, id) {
        let (root, owner) = choose|root: Text, owner: Text|
                r.roots.contains(root) && owner != id && #[trigger] belongs(t, root, owner);
        assert(req.roots.contains(root) && owner != id && belongs(t, root, owner));
    }
    if root_of_another(t, req.roots, id) {
        let (root, owner) = choose|root: Text, owner: Text|
                req.roots.contains(root) && owner != id && #[trigger] belongs(t, root, owner);
        assert(r.roots.contains(root) && owner != id && belongs(t, root, owner));
    }
    if covers_another(t, r.parents, id) {
        let (parent, l) = choose|parent: Text, l: Link| #[trigger]
            r.parents.contains(parent) && #[trigger] t.roots.contains(l) && l.target != id
                && paths::contains_path(parent, l.key);
        assert(req.parents.contains(parent) && t.roots.contains(l));
    }
    if covers_another(t, req.parents, id) {
        let (parent, l) = choose|parent: Text, l: Link| #[trigger]
            req.parents.contains(parent) && #[trigger] t.roots.contains(l) && l.target != id
                && paths::contains_path(parent, l.key);
        assert(r.parents.contains(parent) && t.roots.contains(l));
    }
    if lies_in_another(t, r.roots, id) {
        let (root, l) = choose|root: Text, l: Link| #[trigger]
            r.roots.contains(root) && #[trigger] t.parents.contains(l) && l.target != id
                && paths::contains_path(l.key, root);
        assert(req.roots.contains(root) && t.parents.contains(l));
    }
    if lies_in_another(t, req.roots, id) {
        let (root, l) = choose|root: Text, l: Link| #[trigger]
            req.roots.contains(root) && #[trigger] t.parents.contains(l) && l.target != id
                && paths::contains_path(l.key, root);
        assert(r.roots.contains(root) && t.parents.contains(l));
    }
}

/// A registration that runs registers the id that it names, or else that of the project
/// that has its paths, or else the one minted for its name and roots; and its answer says
/// so.
pub proof fn law_registrations_choose_their_project(
    before: Registry,
    req: Register,
    roots: Seq<RootFact>,
    parents: Seq<RootFact>,
    now: i64,
    id: Text,
)
    requires
        before.sound(),
        laws_rows::ran(
            before,
            req.request_key,
            register::register_outcome(before, req, roots, parents, now),
        ),
    ensures
        register::register_reply(before, req, roots, parents, now).at("result"@).at("projectId"@)
            == crate::json::Json::Str(id) <==> registers(before.tables, req, id),
{
    let t = before.tables;
    let r = register::register_settled(req, roots, parents)->Ok_0;
    let deed = register::register_deed(before, r, now);
    laws_rows::lemma_ran(before, req.request_key, deed);
    laws_registration::lemma_canonical_as_given(req.roots, roots);
    laws_registration::lemma_canonical_as_given(req.parents, parents);
    order::law_sorted_set(req.roots);
    order::law_sorted_set(req.parents);
    let own = register::registrant(t, r)->Ok_0;
    lemma_registrant(t, req, r, own);
    lemma_registrant(t, req, r, id);
    laws_registration::lemma_register_answer(
        deed.result->Ok_0,
        deed.registry.generation(),
        t,
        r,
        own,
    );
}

/// Whatever is sent under a key that was answered gets that answer and changes nothing;
/// under a key that was not, it does what it asks for.
pub proof fn law_a_key_finds_its_answer(journal: Seq<Entry>, i: int, key: Option<Text>)
    requires
        model::sound_journal(journal),
        0 <= i < journal.len(),
        journal[i].request_key is Some,
    ensures
        frame::kept(journal, journal[i].request_key) == journal[i].response,
        unanswered(journal, key) ==> frame::kept(journal, key) is None,
{
    laws_rows::lemma_answered(journal, i);
    laws_rows::lemma_unanswered(journal, key);
}

/// Whether a message tells of a root that belongs to another project.
pub open spec fn tells_of_owner(t: Tables, roots: Seq<Text>, id: Text, message: Text) -> bool {
    exists|root: Text, owner: Text| #[trigger]
        belongs(t, root, owner) && roots.contains(root) && owner != id && message == "root "@ + root
            + (if leads(t.roots, root, owner) {
            " is owned by "@
        } else {
            " is claimed by "@
        }) + owner
}

/// Whether a message tells of a parent that covers a root of another project.
pub open spec fn tells_of_cover(t: Tables, parents: Seq<Text>, id: Text, message: Text) -> bool {
    exists|parent: Text, l: Link| #[trigger]
        parents.contains(parent) && #[trigger] t.roots.contains(l) && l.target != id
            && paths::contains_path(parent, l.key) && message == "parent "@ + parent
            + " conflicts with owner "@ + l.target
}

/// Whether a message tells of a root that lies in a parent of another project.
pub open spec fn tells_of_shelter(t: Tables, roots: Seq<Text>, id: Text, message: Text) -> bool {
    exists|root: Text, l: Link| #[trigger]
        roots.contains(root) && #[trigger] t.parents.contains(l) && l.target != id
            && paths::contains_path(l.key, root) && message == "root "@ + root + " is under "@
            + l.key + ", owned by "@ + l.target
}

proof fn lemma_owner_told(t: Tables, id: Text, roots: Seq<Text>, message: Text)
    requires
        t.sound(),
        register::root_clashes(t, id, roots) matches Some(Failure::Domain { message: m, .. }) && m
            == message,
    ensures
        tells_of_owner(t, roots, id, message),
    decreases roots.len(),
{
    if roots.len() > 0 {
        let first = roots[0];
        let rest = roots.drop_first();
        if register::root_clash(t, id, first) is Some {
            assert(roots.contains(first));
            match register::foreign(t.roots, first, id) {
                Some(owner) => {
                    membership::lemma_lookup(t.roots, first, owner);
                    assert(belongs(t, first, owner));
                },
                None => {
                    let owner = register::foreign(t.parents, first, id)->Some_0;
                    membership::lemma_lookup(t.parents, first, owner);
                    membership::lemma_lookup(t.roots, first, owner);
                    assert(belongs(t, first, owner));
                },
            }
        } else {
            lemma_owner_told(t, id, rest, message);
            let (root, owner) = choose|root: Text, owner: Text| #[trigger]
                belongs(t, root, owner) && rest.contains(root) && owner != id && message == "root "@
                    + root + (if leads(t.roots, root, owner) {
                    " is owned by "@
                } else {
                    " is claimed by "@
                }) + owner;
            let i = choose|i: int| 0 <= i < rest.len() && rest[i] == root;
            assert(roots[i + 1] == root);
            assert(belongs(t, root, owner) && roots.contains(root));
        }
    }
}

proof fn lemma_cover_row(rows: Seq<Link>, id: Text, parent: Text) -> (l: Link)
    requires
        register::parent_clash(rows, id, parent) is Some,
    ensures
        rows.contains(l),
        l.target != id,
        paths::contains_path(parent, l.key),
        register::parent_clash(rows, id, parent) matches Some(Failure::Domain { message, .. })
            && message == "parent "@ + parent + " conflicts with owner "@ + l.target,
    decreases rows.len(),
{
    if rows[0].target != id && paths::contains_path(parent, rows[0].key) {
        assert(rows.contains(rows[0]));
        rows[0]
    } else {
        let rest = rows.drop_first();
        let l = lemma_cover_row(rest, id, parent);
        let i = choose|i: int| 0 <= i < rest.len() && rest[i] == l;
        assert(rows[i + 1] == l);
        l
    }
}

proof fn lemma_cover_told(t: Tables, id: Text, parents: Seq<Text>, message: Text)
    requires
        register::parent_clashes(t.roots, id, parents) matches Some(Failure::Domain {
            message: m,
            ..
        }) && m == message,
    ensures
        tells_of_cover(t, parents, id, message),
    decreases parents.len(),
{
    if parents.len() > 0 {
        let first = parents[0];
        let rest = parents.drop_first();
        if register::parent_clash(t.roots, id, first) is Some {
            let l = lemma_cover_row(t.roots, id, first);
            assert(parents.contains(first) && t.roots.contains(l));
        } else {
            lemma_cover_told(t, id, rest, message);
            let (parent, l) = choose|parent: Text, l: Link| #[trigger]
                rest.contains(parent) && #[trigger] t.roots.contains(l) && l.target != id
                    && paths::contains_path(parent, l.key) && message == "parent "@ + parent
                    + " conflicts with owner "@ + l.target;
            let i = choose|i: int| 0 <= i < rest.len() && rest[i] == parent;
            assert(parents[i + 1] == parent);
            assert(parents.contains(parent) && t.roots.contains(l));
        }
    }
}

proof fn lemma_shelter_row(rows: Seq<Link>, id: Text, root: Text) -> (l: Link)
    requires
        register::shelter_clash(rows, id, root) is Some,
    ensures
        rows.contains(l),
        l.target != id,
        paths::contains_path(l.key, root),
        register::shelter_clash(rows, id, root) matches Some(Failure::Domain { message, .. })
            && message == "root "@ + root + " is under "@ + l.key + ", owned by "@ + l.target,
    decreases rows.len(),
{
    if rows[0].target != id && paths::contains_path(rows[0].key, root) {
        assert(rows.contains(rows[0]));
        rows[0]
    } else {
        let rest = rows.drop_first();
        let l = lemma_shelter_row(rest, id, root);
        let i = choose|i: int| 0 <= i < rest.len() && rest[i] == l;
        assert(rows[i + 1] == l);
        l
    }
}

proof fn lemma_shelter_told(t: Tables, id: Text, roots: Seq<Text>, message: Text)
    requires
        register::shelter_clashes(t.parents, id, roots) matches Some(Failure::Domain {
            message: m,
            ..
        }) && m == message,
    ensures
        tells_of_shelter(t, roots, id, message),
    decreases roots.len(),
{
    if roots.len() > 0 {
        let first = roots[0];
        let rest = roots.drop_first();
        if register::shelter_clash(t.parents, id, first) is Some {
            let l = lemma_shelter_row(t.parents, id, first);
            assert(roots.contains(first) && t.parents.contains(l));
        } else {
            lemma_shelter_told(t, id, rest, message);
            let (root, l) = choose|root: Text, l: Link| #[trigger]
                rest.contains(root) && #[trigger] t.parents.contains(l) && l.target != id
                    && paths::contains_path(l.key, root) && message == "root "@ + root
                    + " is under "@ + l.key + ", owned by "@ + l.target;
            let i = choose|i: int| 0 <= i < rest.len() && rest[i] == root;
            assert(roots[i + 1] == root);
            assert(roots.contains(root) && t.parents.contains(l));
        }
    }
}

proof fn lemma_refusal_told(
    t: Tables,
    req: Register,
    id: Text,
    message: Text,
    code: Text,
    w: Text,
)
    requires
        t.sound(),
        register::register_refusal(t, req, id) == Some(Failure::Domain { code, message }),
    ensures
        code == "root_conflict"@ ==> tells_of_owner(t, req.roots, id, message),
        code == "derived_parent_contains_foreign_root"@ ==> tells_of_cover(
            t,
            req.parents,
            id,
            message,
        ),
        code == "root_under_foreign_derived_parent"@ ==> tells_of_shelter(
            t,
            req.roots,
            id,
            message,
        ),
        code == "workspace_conflict"@ && leads(t.placements, id, w) ==> message == "project "@ + id
            + " belongs to workspace "@ + w,
{
    lemma_root_clashes(t, id, req.roots);
    lemma_parent_clashes(t, id, req.parents);
    lemma_shelter_clashes(t, id, req.roots);
    membership::lemma_lookup(t.placements, id, w);
    reveal_strlit("project_id_occupied");
    reveal_strlit("root_conflict");
    reveal_strlit("derived_parent_contains_foreign_root");
    reveal_strlit("root_under_foreign_derived_parent");
    reveal_strlit("workspace_conflict");
    assert("project_id_occupied"@.len() == 19 && "root_conflict"@.len() == 13
        && "derived_parent_contains_foreign_root"@.len() == 36
        && "root_under_foreign_derived_parent"@.len() == 33 && "workspace_conflict"@.len() == 18);
    if !(req.project_id is Some && !model::live(t.projects, id) && model::has(t.aliases, id)) {
        if register::root_clashes(t, id, req.roots) is Some {
            lemma_owner_told(t, id, req.roots, message);
        } else if register::parent_clashes(t.roots, id, req.parents) is Some {
            lemma_cover_told(t, id, req.parents, message);
        } else if register::shelter_clashes(t.parents, id, req.roots) is Some {
            lemma_shelter_told(t, id, req.roots, message);
        }
    }
}

/// A registration that is refused over its paths says which of them and whom it runs into;
/// one that is refused over its workspace says where the project is.
pub proof fn law_refused_registrations_name_the_other(
    before: Registry,
    req: Register,
    roots: Seq<RootFact>,
    parents: Seq<RootFact>,
    now: i64,
    id: Text,
    code: Text,
    message: Text,
    w: Text,
)
    requires
        before.sound(),
        unanswered(before.journal, req.request_key),
        registers(before.tables, req, id),
        refused_with(
            register::register_outcome(before, req, roots, parents, now),
            code,
            message,
        ),
        canonical(req.roots, roots),
        canonical(req.parents, parents),
    ensures
        ({
            let t = before.tables;
            &&& code == "root_conflict"@ ==> tells_of_owner(t, req.roots, id, message)
            &&& code == "derived_parent_contains_foreign_root"@ ==> tells_of_cover(
                t,
                req.parents,
                id,
                message,
            )
            &&& code == "root_under_foreign_derived_parent"@ ==> tells_of_shelter(
                t,
                req.roots,
                id,
                message,
            )
            &&& code == "workspace_conflict"@ && leads(t.placements, id, w) ==> message
                == "project "@ + id + " belongs to workspace "@ + w
        }),
{
    let t = before.tables;
    let o = register::register_outcome(before, req, roots, parents, now);
    reveal_strlit("reserved_project_id_namespace");
    reveal_strlit("project_conflict");
    reveal_strlit("root_conflict");
    reveal_strlit("derived_parent_contains_foreign_root");
    reveal_strlit("root_under_foreign_derived_parent");
    reveal_strlit("workspace_conflict");
    assert("reserved_project_id_namespace"@.len() == 29 && "project_conflict"@.len() == 16
        && "root_conflict"@.len() == 13 && "derived_parent_contains_foreign_root"@.len() == 36
        && "root_under_foreign_derived_parent"@.len() == 33 && "workspace_conflict"@.len() == 18);
    if let Ok(r) = register::register_settled(req, roots, parents) {
        let deed = register::register_deed(before, r, now);
        laws_rows::lemma_ran(before, req.request_key, deed);
        order::law_sorted_set(req.roots);
        order::law_sorted_set(req.parents);
        lemma_registrant(t, req, r, id);
        if req.project_id is Some || !disputed(t, req) {
            assert(register::register_refusal(t, r, id) == Some(Failure::Domain { code, message }));
            lemma_refusal_told(t, r, id, message, code, w);
            if code == "root_conflict"@ {
                let (root, owner) = choose|root: Text, owner: Text| #[trigger]
                    belongs(t, root, owner) && r.roots.contains(root) && owner != id && message
                        == "root "@ + root + (if leads(t.roots, root, owner) {
                        " is owned by "@
                    } else {
                        " is claimed by "@
                    }) + owner;
                assert(belongs(t, root, owner) && req.roots.contains(root));
            }
            if code == "derived_parent_contains_foreign_root"@ {
                let (parent, l) = choose|parent: Text, l: Link| #[trigger]
                    r.parents.contains(parent) && #[trigger] t.roots.contains(l) && l.target != id
                        && paths::contains_path(parent, l.key) && message == "parent "@ + parent
                        + " conflicts with owner "@ + l.target;
                assert(req.parents.contains(parent) && t.roots.contains(l));
            }
            if code == "root_under_foreign_derived_parent"@ {
                let (root, l) = choose|root: Text, l: Link| #[trigger]
                    r.roots.contains(root) && #[trigger] t.parents.contains(l) && l.target != id
                        && paths::contains_path(l.key, root) && message == "root "@ + root
                        + " is under "@ + l.key + ", owned by "@ + l.target;
                assert(req.roots.contains(root) && t.parents.contains(l));
            }
        }
    }
}

/// The canonical form of a path that a mutation is about, where there is one; else why
/// there is none.
pub proof fn law_roots_of_mutations(raw: Text, canonical: Text, e: Text)
    ensures
        paths::mutation_root(raw, RootFact::Canonical(canonical)) == Ok::<Text, Failure>(canonical),
        paths::mutation_root(raw, RootFact::Absent) == Err::<Text, Failure>(
            Failure::Path("project root does not exist: "@ + raw),
        ),
        paths::mutation_root(raw, RootFact::Failed(e)) == Err::<Text, Failure>(Failure::Path(e)),
{
}

/// Whether every workspace that is claimed is known, or named by the import itself.
pub open spec fn claims_known(t: Tables, req: Seed) -> bool {
    forall|i: int|
        0 <= i < req.claims.len() ==> opened(
            t.workspaces,
            (#[trigger] req.claims[i]).workspace_id,
        ) || exists|k: int|
            0 <= k < req.workspaces.len() && (#[trigger] req.workspaces[k]).0
                == req.claims[i].workspace_id
}

proof fn lemma_titles_known(t: Tables, titles: Seq<(Text, Text)>, now: i64, id: Text)
    requires
        t.sound(),
    ensures
        model::known(seed::import_titles(t, titles, now).0.workspaces, id) <==> model::known(
            t.workspaces,
            id,
        ) || exists|k: int| 0 <= k < titles.len() && (#[trigger] titles[k]).0 == id,
    decreases titles.len(),
{
    if titles.len() > 0 {
        let head = titles.drop_last();
        let last = titles.len() - 1;
        let m = seed::import_titles(t, head, now).0;
        let (at, name) = titles.last();
        lemma_titles_known(t, head, now, id);
        seed::lemma_import_titles(t, head, now);
        upkeep::lemma_rename_workspace(m.workspaces, at, name, now, id);
        upkeep::lemma_add_workspace(
            m.workspaces,
            model::Workspace { workspace_id: at, name, created_at: now, updated_at: now },
            id,
        );
        assert(titles[last].0 == at);
        if exists|k: int| 0 <= k < head.len() && (#[trigger] head[k]).0 == id {
            let k = choose|k: int| 0 <= k < head.len() && (#[trigger] head[k]).0 == id;
            assert(titles[k].0 == id);
        }
        if exists|k: int| 0 <= k < titles.len() && (#[trigger] titles[k]).0 == id {
            let k = choose|k: int| 0 <= k < titles.len() && (#[trigger] titles[k]).0 == id;
            if k < last {
                assert(head[k].0 == id);
            }
        }
    }
}

proof fn lemma_groups_go_through(
    start: Progress,
    req: Seed,
    roots: Seq<Text>,
    identities: Seq<Text>,
    now: i64,
)
    requires
        start.tables.sound(),
        start.failure is None,
        forall|i: int|
            0 <= i < req.claims.len() ==> model::known(
                start.tables.workspaces,
                (#[trigger] req.claims[i]).workspace_id,
            ),
    ensures
        ({
            let p = seed::import_groups(start, req, roots, identities, now);
            p.failure is None && p.tables.sound() && p.tables.workspaces == start.tables.workspaces
        }),
    decreases identities.len(),
{
    if identities.len() > 0 {
        let head = identities.drop_last();
        let y = identities.last();
        lemma_groups_go_through(start, req, roots, head, now);
        let u = seed::import_groups(start, req, roots, head, now).tables;
        let rows = seed::group(req.pairs, roots, y);
        seed::lemma_import_group(u, req, y, rows, now);
        if let Some(project) = seed::landing(u, y).0 {
            let places = seed::claimed(req.claims, y);
            let name = seed::import_name(req.names, y, rows);
            let free = seed::free_roots(u, rows);
            effects::lemma_enter(u, project, name, Some(y), now);
            let v = seed::moved_in(u, project, name, y, free, now);
            assert(model::live(u.enter(project, name, Some(y), now).projects, project));
            if places.len() == 1 {
                observed::lemma_claimed(req.claims, y, places[0]);
                assert(places.contains(places[0]));
                let i = choose|i: int|
                    0 <= i < req.claims.len() && (#[trigger] req.claims[i]).identity == y
                        && req.claims[i].workspace_id == places[0];
                assert(model::known(start.tables.workspaces, req.claims[i].workspace_id));
                assert(v.placeable(project, places[0]));
            }
        }
    }
}

/// An import is refused where it does not come from the one source that there is, and where
/// its roots are not canonical. Where every workspace that it claims is known, nothing else
/// keeps it from going ahead. Whatever refuses it, nothing changes.
pub proof fn law_imports_are_refused_for_a_reason(
    before: Registry,
    req: Seed,
    roots: Seq<RootFact>,
    now: i64,
)
    requires
        before.sound(),
        unanswered(before.journal, req.request_key),
    ensures
        ({
            let o = seed::seed_outcome(before, req, roots, now);
            let all = Seq::new(req.pairs.len(), |i: int| req.pairs[i].root);
            &&& if req.source != "mc"@ {
                refused_with(o, "invalid_source"@, req.source)
            } else if !canonical(all, roots) {
                paths::canonical_all(all, roots) matches Err(e) && o.answer == Err::<
                    Seq<u8>,
                    Failure,
                >(e)
            } else {
                claims_known(before.tables, req) ==> goes_ahead(before, req.request_key, o)
            }
            &&& o.answer is Err ==> o.registry == before
        }),
{
    let t = before.tables;
    let o = seed::seed_outcome(before, req, roots, now);
    let all = Seq::new(req.pairs.len(), |i: int| req.pairs[i].root);
    assert(all =~= seed::roots_of(req.pairs));
    laws_registration::lemma_canonical_as_given(all, roots);
    if let Ok(r) = seed::seed_settled(req, roots) {
        let deed = seed::seed_deed(before, r, now);
        laws_rows::lemma_ran(before, req.request_key, deed);
        if claims_known(t, req) {
            let places = order::sorted_set(seed::roots_of(r.pairs));
            let identities = order::sorted_set(seed::winners(r.pairs, places));
            let (start, changed) = seed::import_titles(t, r.workspaces, now);
            let progress = Progress {
                tables: start,
                lines: seed::roots_lines(r.pairs, places),
                changed,
                failure: None,
            };
            seed::lemma_import_titles(t, r.workspaces, now);
            assert forall|i: int| 0 <= i < r.claims.len() implies model::known(
                start.workspaces,
                (#[trigger] r.claims[i]).workspace_id,
            ) by {
                assert(req.claims[i] == r.claims[i]);
                lemma_titles_known(t, r.workspaces, now, r.claims[i].workspace_id);
                upkeep::lemma_known(t.workspaces, r.claims[i].workspace_id);
            }
            lemma_groups_go_through(progress, r, places, identities, now);
            if deed.result is Err {
                lemma_append(before, req.request_key, o);
            }
        }
    }
}

} // verus!
