//! Which rows each request adds, changes and drops, and that it leaves all others
//! as they were.
use vstd::prelude::*;
use vstd::string::*;
use vstd::utf8::*;

use crate::error::Failure;
use crate::frame::{Deed, Outcome};
use crate::json::Json;
use crate::membership::{entered, leads, opened, referred, taken};
use crate::model::{
    Assign, Entry, Link, Member, Pair, Project, Record, Register, Registry, Remove, Seed, Tables,
    Upgrade, Workspace,
};
use crate::paths::RootFact;
use crate::text::Text;
use crate::{
    effects, frame, ids, laws_registration, membership, model, mutations, observed, order, queries,
    register, seed, upkeep,
};

verus! {

/// Whether a request key has no answer yet.
pub open spec fn unanswered(journal: Seq<Entry>, key: Option<Text>) -> bool {
    forall|i: int|
        0 <= i < journal.len() && key is Some && (#[trigger] journal[i]).request_key == key
            ==> journal[i].response is None
}

/// Whether a request ran and went through: it succeeded, and not because its key had
/// been answered.
pub open spec fn ran(before: Registry, key: Option<Text>, o: Outcome) -> bool {
    unanswered(before.journal, key) && o.answer is Ok
}

/// Whether a table gains a row for each key that was free, and no other.
pub open spec fn gains(
    before: Seq<Link>,
    after: Seq<Link>,
    keys: Seq<Text>,
    to: Text,
    at: i64,
) -> bool {
    forall|l: Link| #[trigger]
        after.contains(l) <==> before.contains(l) || (l.target == to && l.at == at && keys.contains(
            l.key,
        ) && !taken(before, l.key))
}

/// Whether a project has the name, as a new one or as it was but for the name, and
/// all others are as they were.
pub open spec fn names(
    before: Seq<Project>,
    after: Seq<Project>,
    id: Text,
    name: Text,
    now: i64,
) -> bool {
    &&& forall|p: Project|
        p.project_id != id ==> (#[trigger] after.contains(p) <==> before.contains(p))
    &&& forall|p: Project|
        p.project_id == id && #[trigger] after.contains(p) ==> {
            &&& p.name == name
            &&& p.updated_at == now
            &&& if entered(before, id) {
                exists|q: Project|
                    #![trigger before.contains(q)]
                    before.contains(q) && q.project_id == id && q.implicit == p.implicit
                        && q.seed_identity == p.seed_identity && q.created_at == p.created_at
            } else {
                !p.implicit && p.seed_identity is None && p.created_at == now
            }
        }
    &&& entered(after, id)
}

/// Whether a workspace that was unknown is known by the name, and all others are as
/// they were.
pub open spec fn opens(
    before: Seq<Workspace>,
    after: Seq<Workspace>,
    id: Text,
    name: Text,
    now: i64,
) -> bool {
    forall|w: Workspace| #[trigger]
        after.contains(w) <==> before.contains(w) || (w.workspace_id == id && w.name == name
            && w.created_at == now && w.updated_at == now && !opened(before, id))
}

/// Whether a project is placed in a workspace unless it was placed, and referred to
/// from it unless it was, and all else is as it was.
pub open spec fn seats(before: Tables, after: Tables, id: Text, w: Text) -> bool {
    &&& gains(before.placements, after.placements, seq![id], w, 0)
    &&& forall|m: Member| #[trigger]
        after.members.contains(m) <==> before.members.contains(m) || (m.workspace_id == w
            && !m.remote && m.device.len() == 0 && m.project_id == id && !referred(
            before.members,
            id,
        ))
}

/// Whether a project is placed where a request asks for it, in a workspace that goes
/// by its id where it was unknown.
pub open spec fn settles(
    before: Tables,
    after: Tables,
    id: Text,
    workspace_id: Option<Text>,
    now: i64,
) -> bool {
    match workspace_id {
        Some(w) => opens(before.workspaces, after.workspaces, w, w, now) && seats(
            before,
            after,
            id,
            w,
        ),
        None => after.workspaces == before.workspaces && after.placements == before.placements
            && after.members == before.members,
    }
}

/// Whether the journal has one entry more, which says what was asked by whom, when
/// and under which key, and keeps the answer.
pub open spec fn journals(
    before: Registry,
    o: Outcome,
    op: Text,
    actor: Option<Text>,
    fallback: Text,
    key: Option<Text>,
    now: i64,
) -> bool {
    let e = o.registry.journal.last();
    &&& o.registry.journal.len() == before.journal.len() + 1
    &&& o.registry.journal.drop_last() == before.journal
    &&& e.op == op
    &&& e.actor == (match actor {
        Some(a) => a,
        None => fallback,
    })
    &&& e.request_key == key
    &&& e.created_at == now
    &&& e.seq == before.generation() + 1
    &&& e.response matches Some(t) && o.answer == Ok::<Seq<u8>, Failure>(encode_utf8(t))
}

/// A key without an answer finds none.
pub proof fn lemma_unanswered(journal: Seq<Entry>, key: Option<Text>)
    ensures
        unanswered(journal, key) ==> frame::kept(journal, key) is None,
    decreases journal.len(),
{
    if unanswered(journal, key) && journal.len() > 0 && key is Some {
        let rest = journal.drop_first();
        assert forall|i: int|
            0 <= i < rest.len() && key is Some && (#[trigger] rest[i]).request_key
                == key implies rest[i].response is None by {
            assert(rest[i] == journal[i + 1]);
        }
        lemma_unanswered(rest, key);
        if journal[0].request_key == key {
            assert(journal[0].response is None);
        }
    }
}

/// An answered key finds its answer.
pub proof fn lemma_answered(journal: Seq<Entry>, i: int)
    requires
        model::sound_journal(journal),
        0 <= i < journal.len(),
        journal[i].request_key is Some,
    ensures
        frame::kept(journal, journal[i].request_key) == journal[i].response,
    decreases journal.len(),
{
    if i > 0 {
        let rest = journal.drop_first();
        assert forall|a: int| 0 <= a < rest.len() implies (#[trigger] rest[a]).seq >= 1 by {
            assert(rest[a] == journal[a + 1]);
        }
        assert forall|a: int, b: int| 0 <= a < b < rest.len() implies (#[trigger] rest[a]).seq < (
        #[trigger] rest[b]).seq by {
            assert(journal[a + 1].seq < journal[b + 1].seq);
        }
        assert forall|a: int, b: int|
            0 <= a < b < rest.len() && (
            #[trigger] rest[a]).request_key is Some implies rest[a].request_key != (
        #[trigger] rest[b]).request_key by {
            assert(journal[a + 1].request_key != journal[b + 1].request_key);
        }
        lemma_answered(rest, i - 1);
        if journal[0].request_key == journal[i].request_key {
            assert(journal[0].request_key != journal[i].request_key);
        }
    }
}

/// A request that was not answered does what its mutation does.
pub proof fn lemma_ran(before: Registry, key: Option<Text>, deed: Deed)
    requires
        unanswered(before.journal, key),
    ensures
        ({
            let o = frame::outcome(before, key, deed);
            &&& o.answer is Ok <==> deed.result is Ok
            &&& o.registry.tables == deed.registry.tables
            &&& deed.result is Err ==> o.registry == deed.registry
            &&& deed.result matches Err(e) ==> o.answer == Err::<Seq<u8>, Failure>(e)
            &&& deed.result matches Ok(d) ==> !d.changed ==> o.registry == deed.registry
        }),
{
    lemma_unanswered(before.journal, key);
}

/// A mutation that appended an entry leaves that entry, answered.
pub proof fn lemma_journals(before: Registry, key: Option<Text>, deed: Deed, note: frame::Note)
    requires
        unanswered(before.journal, key),
        deed.result matches Ok(d) && d.changed,
        deed.registry.journal == frame::appended(before.journal, note),
        frame::append_failure(before.journal, key) is None,
        note.request_key == key,
    ensures
        ({
            let o = frame::outcome(before, key, deed);
            let e = o.registry.journal.last();
            &&& o.registry.journal.len() == before.journal.len() + 1
            &&& o.registry.journal.drop_last() == before.journal
            &&& e.op == note.op && e.actor == note.actor && e.request_key == key && e.created_at
                == note.now && e.seq == before.generation() + 1
            &&& e.response matches Some(t) && o.answer == Ok::<Seq<u8>, Failure>(encode_utf8(t))
        }),
{
    lemma_unanswered(before.journal, key);
    let o = frame::outcome(before, key, deed);
    assert(o.registry.journal.drop_last() =~= before.journal);
}

proof fn lemma_gains(t: Seq<Link>, keys: Seq<Text>, to: Text, at: i64)
    ensures
        gains(t, effects::add_links(t, keys, to, at), keys, to, at),
{
    assert forall|l: Link| #[trigger]
        effects::add_links(t, keys, to, at).contains(l) <==> t.contains(l) || (l.target == to
            && l.at == at && keys.contains(l.key) && !taken(t, l.key)) by {
        membership::lemma_all_added(t, keys, to, at, l);
    }
}

proof fn lemma_seats(t: Tables, id: Text, w: Text)
    ensures
        seats(t, t.place(id, w), id, w),
{
    let u = t.place(id, w);
    assert forall|l: Link| #[trigger]
        u.placements.contains(l) <==> t.placements.contains(l) || (l.target == w && l.at == 0
            && seq![id].contains(l.key) && !taken(t.placements, l.key)) by {
        membership::lemma_added(t.placements, Link { key: id, target: w, at: 0 }, l);
        assert(seq![id][0] == id);
    }
    assert forall|m: Member| #[trigger]
        u.members.contains(m) <==> t.members.contains(m) || (m.workspace_id == w && !m.remote
            && m.device.len() == 0 && m.project_id == id && !referred(t.members, id)) by {
        membership::lemma_member_added(t.members, w, id, m);
        if m.device.len() == 0 {
            assert(m.device =~= Seq::empty());
        }
    }
}

proof fn lemma_opens(t: Seq<Workspace>, id: Text, name: Text, now: i64)
    ensures
        opens(
            t,
            model::add_workspace(
                t,
                Workspace { workspace_id: id, name, created_at: now, updated_at: now },
            ),
            id,
            name,
            now,
        ),
{
    let row = Workspace { workspace_id: id, name, created_at: now, updated_at: now };
    assert forall|w: Workspace| #[trigger]
        model::add_workspace(t, row).contains(w) <==> t.contains(w) || (w.workspace_id == id
            && w.name == name && w.created_at == now && w.updated_at == now && !opened(t, id)) by {
        membership::lemma_workspace_added(t, row, w);
    }
}

proof fn lemma_names(t: Tables, id: Text, name: Text, now: i64)
    requires
        t.sound(),
    ensures
        names(t.projects, register::named(t, id, name, now).projects, id, name, now),
{
    let u = register::named(t, id, name, now).projects;
    upkeep::lemma_live(t.projects, id);
    register::lemma_named(t, id, name, now);
    upkeep::lemma_live(u, id);
    assert(model::live(u, id));
    if model::live(t.projects, id) {
        assert forall|p: Project|
            p.project_id != id implies (#[trigger] u.contains(p) <==> t.projects.contains(p)) by {
            membership::lemma_project_renamed(t.projects, id, name, now, p);
        }
        assert forall|p: Project| p.project_id == id && #[trigger] u.contains(p) implies p.name
            == name && p.updated_at == now && exists|q: Project|
            #![trigger t.projects.contains(q)]
            t.projects.contains(q) && q.project_id == id && q.implicit == p.implicit
                && q.seed_identity == p.seed_identity && q.created_at == p.created_at by {
            membership::lemma_project_renamed(t.projects, id, name, now, p);
            let q = choose|q: Project| #[trigger]
                t.projects.contains(q) && p == (Project { name, updated_at: now, ..q });
            assert(t.projects.contains(q));
        }
    } else {
        let row = effects::new_project(id, name, None, now);
        assert forall|p: Project| #[trigger] u.contains(p) <==> t.projects.contains(p) || p
            == row by {
            membership::lemma_project_added(t.projects, row, p);
        }
        assert forall|p: Project| p.project_id == id && #[trigger] u.contains(p) implies p
            == row by {
            if t.projects.contains(p) {
                let i = choose|i: int| 0 <= i < t.projects.len() && t.projects[i] == p;
                assert(t.projects[i].project_id == id);
            }
        }
    }
}

proof fn lemma_settles(t: Tables, id: Text, workspace_id: Option<Text>, now: i64)
    ensures
        settles(t, register::settled_in(t, id, workspace_id, now), id, workspace_id, now),
{
    if let Some(w) = workspace_id {
        lemma_opens(t.workspaces, w, w, now);
        lemma_seats(t.open_workspace(w, w, now), id, w);
    }
}

proof fn lemma_gains_set(
    before: Seq<Link>,
    after: Seq<Link>,
    a: Seq<Text>,
    b: Seq<Text>,
    to: Text,
    at: i64,
)
    requires
        gains(before, after, a, to, at),
        forall|k: Text| a.contains(k) <==> b.contains(k),
    ensures
        gains(before, after, b, to, at),
{
}

/// The implicit ids of paths.
pub open spec fn implicit(paths: Seq<Text>) -> Seq<Text> {
    Seq::new(paths.len(), |i: int| ids::implicit_id(paths[i]))
}

proof fn lemma_implicit_set(a: Seq<Text>, b: Seq<Text>)
    requires
        forall|k: Text| a.contains(k) <==> b.contains(k),
    ensures
        effects::implicit_ids(a) =~= implicit(a),
        forall|k: Text| implicit(a).contains(k) <==> implicit(b).contains(k),
{
    assert forall|k: Text| implicit(a).contains(k) <==> implicit(b).contains(k) by {
        if implicit(a).contains(k) {
            let i = choose|i: int| 0 <= i < implicit(a).len() && implicit(a)[i] == k;
            assert(a.contains(a[i]));
            let j = choose|j: int| 0 <= j < b.len() && b[j] == a[i];
            assert(implicit(b)[j] == k);
        }
        if implicit(b).contains(k) {
            let i = choose|i: int| 0 <= i < implicit(b).len() && implicit(b)[i] == k;
            assert(b.contains(b[i]));
            let j = choose|j: int| 0 <= j < a.len() && a[j] == b[i];
            assert(implicit(a)[j] == k);
        }
    }
}

/// Whether a project is registered by the name.
pub open spec fn called(t: Seq<Project>, id: Text, name: Text) -> bool {
    exists|p: Project| #[trigger] t.contains(p) && p.project_id == id && p.name == name
}

/// Whether every key is taken.
pub open spec fn all_taken(t: Seq<Link>, keys: Seq<Text>) -> bool {
    forall|key: Text| #[trigger] keys.contains(key) ==> taken(t, key)
}

/// Whether a project has every one of the roots, and the implicit id of each is an
/// alias.
pub open spec fn owns(t: Tables, id: Text, roots: Seq<Text>) -> bool {
    forall|root: Text| #[trigger]
        roots.contains(root) ==> leads(t.roots, root, id) && taken(
            t.aliases,
            ids::implicit_id(root),
        )
}

/// Whether an alias is set, whatever it stood for, a row is gained for each of the
/// other keys that was free, and all else is as it was.
pub open spec fn points(
    before: Seq<Link>,
    after: Seq<Link>,
    alias: Text,
    keys: Seq<Text>,
    to: Text,
    at: i64,
) -> bool {
    forall|l: Link| #[trigger]
        after.contains(l) <==> if l.key == alias {
            l.target == to && l.at == at
        } else {
            before.contains(l) || (l.target == to && l.at == at && keys.contains(l.key) && !taken(
                before,
                l.key,
            ))
        }
}

/// A registration that runs either finds everything as it asks for and changes
/// nothing, or adds what it asks for where that is free, names the project, and
/// leaves every other row as it was.
pub proof fn law_registering_changes_these_rows(
    before: Registry,
    req: Register,
    roots: Seq<RootFact>,
    parents: Seq<RootFact>,
    now: i64,
    id: Text,
)
    requires
        before.sound(),
        ran(
            before,
            req.request_key,
            register::register_outcome(before, req, roots, parents, now),
        ),
        register::register_reply(before, req, roots, parents, now).at("result"@).at("projectId"@)
            == Json::Str(id),
    ensures
        ({
            let o = register::register_outcome(before, req, roots, parents, now);
            let t = before.tables;
            let u = o.registry.tables;
            if called(t.projects, id, req.name) && owns(t, id, req.roots) && all_taken(
                t.parents,
                req.parents,
            ) && (req.workspace_id matches Some(w) ==> leads(t.placements, id, w)) {
                o.registry == before
            } else {
                &&& gains(t.roots, u.roots, req.roots, id, now)
                &&& gains(t.parents, u.parents, req.parents, id, 0)
                &&& gains(t.aliases, u.aliases, implicit(req.roots), id, now)
                &&& names(t.projects, u.projects, id, req.name, now)
                &&& settles(t, u, id, req.workspace_id, now)
                &&& journals(
                    before,
                    o,
                    "register"@,
                    req.actor,
                    "module"@,
                    req.request_key,
                    now,
                )
            }
        }),
{
    let t = before.tables;
    let r = register::register_settled(req, roots, parents)->Ok_0;
    let deed = register::register_deed(before, r, now);
    lemma_ran(before, req.request_key, deed);
    let own = register::registrant(t, r)->Ok_0;
    laws_registration::lemma_register_answer(
        deed.result->Ok_0,
        deed.registry.generation(),
        t,
        r,
        own,
    );
    assert(own == id);
    laws_registration::lemma_canonical_as_given(req.roots, roots);
    laws_registration::lemma_canonical_as_given(req.parents, parents);
    order::law_sorted_set(req.roots);
    order::law_sorted_set(req.parents);
    lemma_implicit_set(r.roots, req.roots);
    lemma_names(t, id, req.name, now);
    lemma_gains(t.roots, r.roots, id, now);
    lemma_gains(t.parents, r.parents, id, 0);
    lemma_gains(t.aliases, implicit(r.roots), id, now);
    let a = register::named(t, id, r.name, now).claim_roots(r.roots, id, now).claim_parents(
        r.parents,
        id,
    );
    lemma_settles(a, id, r.workspace_id, now);
    assert forall|root: Text| #[trigger] req.roots.contains(root) implies (model::has(t.roots, root)
        <==> leads(t.roots, root, id)) && (model::has(t.aliases, ids::implicit_id(root)) <==> taken(
        t.aliases,
        ids::implicit_id(root),
    )) by {
        assert(r.roots.contains(root));
        let i = choose|i: int| 0 <= i < r.roots.len() && r.roots[i] == root;
        crate::laws_resolution::lemma_no_root_clash(t, id, r.roots, i);
        membership::lemma_lookup(t.roots, root, id);
        membership::lemma_lookup(t.aliases, ids::implicit_id(root), id);
    }
    assert forall|parent: Text| #[trigger] req.parents.contains(parent) implies (model::has(
        t.parents,
        parent,
    ) <==> taken(t.parents, parent)) by {
        membership::lemma_lookup(t.parents, parent, id);
    }
    if let Some(w) = req.workspace_id {
        membership::lemma_lookup(t.placements, id, w);
    }
    let settled = called(t.projects, id, req.name) && owns(t, id, req.roots) && all_taken(
        t.parents,
        req.parents,
    ) && (req.workspace_id matches Some(w) ==> leads(t.placements, id, w));
    assert(settled <==> !register::register_changes(t, r, id)) by {
        if let Some(p) = model::project(t.projects, id) {
            membership::lemma_project(t.projects, id, p);
            assert forall|q: Project|
                #![trigger t.projects.contains(q)]
                t.projects.contains(q) && q.project_id == id implies q == p by {
                membership::lemma_project(t.projects, id, q);
            }
        } else {
            assert forall|q: Project|
                #![trigger t.projects.contains(q)]
                t.projects.contains(q) implies q.project_id != id by {
                membership::lemma_project(t.projects, id, q);
            }
        }
        let aliases = effects::implicit_ids(r.roots);
        assert forall|i: int| 0 <= i < r.roots.len() implies req.roots.contains(
            #[trigger] r.roots[i],
        ) by {
            assert(r.roots.contains(r.roots[i]));
        }
        assert forall|i: int| 0 <= i < r.parents.len() implies req.parents.contains(
            #[trigger] r.parents[i],
        ) by {
            assert(r.parents.contains(r.parents[i]));
        }
        assert forall|i: int| 0 <= i < aliases.len() implies #[trigger] aliases[i]
            == ids::implicit_id(r.roots[i]) by {}
        if settled {
            assert forall|i: int| 0 <= i < aliases.len() implies model::has(
                t.aliases,
                #[trigger] aliases[i],
            ) by {
                assert(req.roots.contains(r.roots[i]));
            }
        }
        if !register::register_changes(t, r, id) {
            assert forall|root: Text| #[trigger] req.roots.contains(root) implies leads(
                t.roots,
                root,
                id,
            ) && taken(t.aliases, ids::implicit_id(root)) by {
                assert(r.roots.contains(root));
                let i = choose|i: int| 0 <= i < r.roots.len() && r.roots[i] == root;
                assert(model::has(t.roots, r.roots[i]));
                assert(model::has(t.aliases, aliases[i]));
            }
            assert forall|parent: Text| #[trigger] req.parents.contains(parent) implies taken(
                t.parents,
                parent,
            ) by {
                assert(r.parents.contains(parent));
                let i = choose|i: int| 0 <= i < r.parents.len() && r.parents[i] == parent;
                assert(model::has(t.parents, r.parents[i]));
            }
        }
    }
    if !settled {
        lemma_journals(before, req.request_key, deed, register::register_note(r, now));
        let u = deed.registry.tables;
        lemma_gains_set(t.roots, u.roots, r.roots, req.roots, id, now);
        lemma_gains_set(t.parents, u.parents, r.parents, req.parents, id, 0);
        lemma_gains_set(t.aliases, u.aliases, implicit(r.roots), implicit(req.roots), id, now);
    }
}

/// A placement that runs either finds the project in that workspace and changes
/// nothing, or places it there, where it was in none. A workspace that was unknown is
/// known by the name that the request gives, or else by its id; one that was known
/// keeps its name.
pub proof fn law_assigning_changes_these_rows(before: Registry, req: Assign, now: i64)
    requires
        before.sound(),
        ran(before, req.request_key, mutations::assign_outcome(before, req, now)),
    ensures
        ({
            let o = mutations::assign_outcome(before, req, now);
            let t = before.tables;
            let u = o.registry.tables;
            &&& entered(t.projects, req.project_id)
            &&& leads(u.placements, req.project_id, req.workspace_id)
            &&& if leads(t.placements, req.project_id, req.workspace_id) {
                o.registry == before
            } else {
                &&& !taken(t.placements, req.project_id)
                &&& opens(
                    t.workspaces,
                    u.workspaces,
                    req.workspace_id,
                    match req.workspace_name {
                        Some(name) => name,
                        None => req.workspace_id,
                    },
                    now,
                )
                &&& seats(t, u, req.project_id, req.workspace_id)
                &&& u.projects == t.projects && u.roots == t.roots && u.parents == t.parents
                    && u.aliases == t.aliases
                &&& journals(
                    before,
                    o,
                    "assign_workspace"@,
                    req.actor,
                    "module"@,
                    req.request_key,
                    now,
                )
            }
        }),
{
    let t = before.tables;
    let deed = mutations::assign_deed(before, req, now);
    lemma_ran(before, req.request_key, deed);
    upkeep::lemma_live(t.projects, req.project_id);
    membership::lemma_lookup(t.placements, req.project_id, req.workspace_id);
    if !leads(t.placements, req.project_id, req.workspace_id) {
        lemma_journals(before, req.request_key, deed, mutations::assign_note(req, now));
        let name = match req.workspace_name {
            Some(name) => name,
            None => req.workspace_id,
        };
        lemma_opens(t.workspaces, req.workspace_id, name, now);
        let a = t.open_workspace(req.workspace_id, name, now);
        lemma_seats(a, req.project_id, req.workspace_id);
        let u = deed.registry.tables;
        let row = Link { key: req.project_id, target: req.workspace_id, at: 0 };
        assert(seq![req.project_id][0] == req.project_id);
        assert(u.placements.contains(row));
        let i = choose|i: int| 0 <= i < u.placements.len() && u.placements[i] == row;
        assert(u.placements[i].key == req.project_id);
    }
}

/// An upgrade that runs either finds the project by its name, its roots and its alias
/// and changes nothing, or names the project, adds its roots where they are free, sets
/// the alias, and leaves every other row as it was.
pub proof fn law_upgrading_changes_these_rows(
    before: Registry,
    req: Upgrade,
    roots: Seq<RootFact>,
    now: i64,
)
    requires
        before.sound(),
        ran(before, req.request_key, mutations::upgrade_outcome(before, req, roots, now)),
    ensures
        ({
            let o = mutations::upgrade_outcome(before, req, roots, now);
            let t = before.tables;
            let u = o.registry.tables;
            let all = match req.root {
                Some(root) => req.roots.push(root),
                None => req.roots,
            };
            let id = match req.project_id {
                Some(id) => id,
                None => ids::minted_id("upgrade1"@, req.name, all),
            };
            if called(t.projects, id, req.name) && all_taken(t.roots, all) && leads(
                t.aliases,
                req.implicit_id,
                id,
            ) {
                o.registry == before
            } else {
                &&& names(t.projects, u.projects, id, req.name, now)
                &&& gains(t.roots, u.roots, all, id, now)
                &&& u.parents == t.parents
                &&& points(t.aliases, u.aliases, req.implicit_id, implicit(all), id, now)
                &&& settles(t, u, id, req.workspace_id, now)
                &&& journals(
                    before,
                    o,
                    "upgrade_implicit"@,
                    req.actor,
                    "module"@,
                    req.request_key,
                    now,
                )
            }
        }),
{
    let t = before.tables;
    let r = mutations::upgrade_settled(req, roots)->Ok_0;
    let all = mutations::upgrade_roots(req);
    laws_registration::lemma_canonical_as_given(all, roots);
    let id = mutations::upgrade_id(r);
    assert(r.roots == all);
    let deed = mutations::upgrade_deed(before, r, now);
    lemma_ran(before, req.request_key, deed);
    lemma_names(t, id, req.name, now);
    lemma_gains(t.roots, all, id, now);
    lemma_implicit_set(all, all);
    lemma_gains(t.aliases, implicit(all), id, now);
    let a = register::named(t, id, r.name, now).claim_roots(all, id, now);
    let row = Link { key: req.implicit_id, target: id, at: now };
    lemma_settles(a.point(req.implicit_id, id, now), id, r.workspace_id, now);
    membership::lemma_lookup(t.aliases, req.implicit_id, id);
    let settled = called(t.projects, id, req.name) && all_taken(t.roots, all) && leads(
        t.aliases,
        req.implicit_id,
        id,
    );
    assert(settled <==> !mutations::upgrade_changes(t, r, id)) by {
        if let Some(p) = model::project(t.projects, id) {
            membership::lemma_project(t.projects, id, p);
            assert forall|q: Project|
                #![trigger t.projects.contains(q)]
                t.projects.contains(q) && q.project_id == id implies q == p by {
                membership::lemma_project(t.projects, id, q);
            }
        } else {
            assert forall|q: Project|
                #![trigger t.projects.contains(q)]
                t.projects.contains(q) implies q.project_id != id by {
                membership::lemma_project(t.projects, id, q);
            }
        }
        assert forall|root: Text| model::has(t.roots, root) <==> taken(t.roots, root) by {
            membership::lemma_lookup(t.roots, root, id);
        }
        if settled {
            assert forall|i: int| 0 <= i < r.roots.len() implies model::has(
                t.roots,
                #[trigger] r.roots[i],
            ) by {
                assert(all.contains(r.roots[i]));
                assert(taken(t.roots, r.roots[i]));
            }
        }
        if register::all_present(t.roots, r.roots) {
            assert forall|root: Text| #[trigger] all.contains(root) implies taken(
                t.roots,
                root,
            ) by {
                let i = choose|i: int| 0 <= i < all.len() && all[i] == root;
                assert(model::has(t.roots, r.roots[i]));
            }
        }
    }
    if !settled {
        lemma_journals(before, req.request_key, deed, mutations::upgrade_note(r, now));
        let u = deed.registry.tables;
        assert forall|l: Link| #[trigger] u.aliases.contains(l) <==> if l.key == req.implicit_id {
            l.target == id && l.at == now
        } else {
            t.aliases.contains(l) || (l.target == id && l.at == now && implicit(all).contains(l.key)
                && !taken(t.aliases, l.key))
        } by {
            membership::lemma_put(a.aliases, row, l);
        }
    }
}

/// Whether a table is as it was but for the rows that led to a project, which lead to
/// the successor or else are gone.
pub open spec fn hands_over(
    before: Seq<Link>,
    after: Seq<Link>,
    id: Text,
    successor: Option<Text>,
) -> bool {
    forall|l: Link| #[trigger]
        after.contains(l) <==> before.contains(l) && l.target != id || successor == Some(l.target)
            && before.contains(Link { key: l.key, target: id, at: l.at })
}

proof fn lemma_hands_over(t: Seq<Link>, id: Text, successor: Option<Text>)
    ensures
        hands_over(
            t,
            match successor {
                Some(s) => model::retarget(t, id, s),
                None => model::drop_target(t, id),
            },
            id,
            successor,
        ),
{
    let u = match successor {
        Some(s) => model::retarget(t, id, s),
        None => model::drop_target(t, id),
    };
    assert forall|l: Link| #[trigger]
        u.contains(l) <==> t.contains(l) && l.target != id || successor == Some(l.target)
            && t.contains(Link { key: l.key, target: id, at: l.at }) by {
        match successor {
            Some(s) => {
                membership::lemma_retargeted(t, id, s, l);
            },
            None => {
                membership::lemma_kept(t, |m: Link| m.target != id, l);
            },
        }
    }
}

/// A removal of a project that runs drops the project, where it is placed and what
/// refers to it on this device. The roots, parents and aliases that led to it lead to
/// the successor, and so does its id; without a successor they are gone. Everything of
/// every other project stays as it was.
pub proof fn law_removing_a_project_changes_these_rows(
    before: Registry,
    req: Remove,
    now: i64,
    id: Text,
)
    requires
        before.sound(),
        req.workspace_id is None,
        req.project_id == Some(id),
        ran(before, req.request_key, mutations::remove_outcome(before, req, now)),
    ensures
        ({
            let o = mutations::remove_outcome(before, req, now);
            let t = before.tables;
            let u = o.registry.tables;
            &&& entered(t.projects, id)
            &&& req.successor matches Some(s) ==> s != id && entered(t.projects, s)
            &&& hands_over(t.roots, u.roots, id, req.successor)
            &&& hands_over(t.parents, u.parents, id, req.successor)
            &&& forall|l: Link| #[trigger]
                u.aliases.contains(l) <==> if l.key == id {
                    req.successor == Some(l.target) && l.at == now
                } else {
                    t.aliases.contains(l) && l.target != id || req.successor == Some(l.target)
                        && t.aliases.contains(Link { key: l.key, target: id, at: l.at })
                }
            &&& forall|l: Link| #[trigger]
                u.placements.contains(l) <==> t.placements.contains(l) && l.key != id
            &&& forall|m: Member| #[trigger]
                u.members.contains(m) <==> t.members.contains(m) && (m.remote || m.project_id != id)
            &&& forall|p: Project| #[trigger]
                u.projects.contains(p) <==> t.projects.contains(p) && p.project_id != id
            &&& u.workspaces == t.workspaces
            &&& journals(before, o, "remove"@, req.actor, "module"@, req.request_key, now)
        }),
{
    let t = before.tables;
    let deed = mutations::remove_deed(before, req, now);
    lemma_ran(before, req.request_key, deed);
    upkeep::lemma_live(t.projects, id);
    if let Some(s) = req.successor {
        upkeep::lemma_live(t.projects, s);
    }
    lemma_journals(before, req.request_key, deed, mutations::remove_note(req, now));
    let u = deed.registry.tables;
    lemma_hands_over(t.roots, id, req.successor);
    lemma_hands_over(t.parents, id, req.successor);
    assert forall|l: Link| #[trigger] u.aliases.contains(l) <==> if l.key == id {
        req.successor == Some(l.target) && l.at == now
    } else {
        t.aliases.contains(l) && l.target != id || req.successor == Some(l.target)
            && t.aliases.contains(Link { key: l.key, target: id, at: l.at })
    } by {
        match req.successor {
            Some(s) => {
                membership::lemma_retargeted(t.aliases, id, s, l);
                membership::lemma_put(
                    model::retarget(t.aliases, id, s),
                    Link { key: id, target: s, at: now },
                    l,
                );
            },
            None => {
                membership::lemma_kept(t.aliases, |m: Link| m.target != id, l);
                membership::lemma_kept(
                    model::drop_target(t.aliases, id),
                    |m: Link| m.key != id,
                    l,
                );
            },
        }
    }
    assert forall|l: Link| #[trigger]
        u.placements.contains(l) <==> t.placements.contains(l) && l.key != id by {
        membership::lemma_kept(t.placements, |m: Link| m.key != id, l);
    }
    assert forall|m: Member| #[trigger]
        u.members.contains(m) <==> t.members.contains(m) && (m.remote || m.project_id != id) by {
        membership::lemma_kept(t.members, |x: Member| x.remote || x.project_id != id, m);
    }
    assert forall|p: Project| #[trigger]
        u.projects.contains(p) <==> t.projects.contains(p) && p.project_id != id by {
        membership::lemma_kept(t.projects, |x: Project| x.project_id != id, p);
    }
}

/// A removal of a workspace that runs drops the workspace, what is placed in it and
/// what it refers to. Projects, roots, parents and aliases stay as they were.
pub proof fn law_removing_a_workspace_changes_these_rows(
    before: Registry,
    req: Remove,
    now: i64,
    w: Text,
)
    requires
        before.sound(),
        req.workspace_id == Some(w),
        ran(before, req.request_key, mutations::remove_outcome(before, req, now)),
    ensures
        ({
            let o = mutations::remove_outcome(before, req, now);
            let t = before.tables;
            let u = o.registry.tables;
            &&& opened(t.workspaces, w)
            &&& forall|x: Workspace| #[trigger]
                u.workspaces.contains(x) <==> t.workspaces.contains(x) && x.workspace_id != w
            &&& forall|l: Link| #[trigger]
                u.placements.contains(l) <==> t.placements.contains(l) && l.target != w
            &&& forall|m: Member| #[trigger]
                u.members.contains(m) <==> t.members.contains(m) && m.workspace_id != w
            &&& u.projects == t.projects && u.roots == t.roots && u.parents == t.parents
                && u.aliases == t.aliases
            &&& journals(before, o, "remove"@, req.actor, "module"@, req.request_key, now)
        }),
{
    let t = before.tables;
    let deed = mutations::remove_deed(before, req, now);
    lemma_ran(before, req.request_key, deed);
    upkeep::lemma_known(t.workspaces, w);
    lemma_journals(before, req.request_key, deed, mutations::remove_note(req, now));
    let u = deed.registry.tables;
    assert forall|x: Workspace| #[trigger]
        u.workspaces.contains(x) <==> t.workspaces.contains(x) && x.workspace_id != w by {
        membership::lemma_kept(t.workspaces, |y: Workspace| y.workspace_id != w, x);
    }
    assert forall|l: Link| #[trigger]
        u.placements.contains(l) <==> t.placements.contains(l) && l.target != w by {
        membership::lemma_kept(t.placements, |m: Link| m.target != w, l);
    }
    assert forall|m: Member| #[trigger]
        u.members.contains(m) <==> t.members.contains(m) && m.workspace_id != w by {
        membership::lemma_kept(t.members, |x: Member| x.workspace_id != w, m);
    }
}

proof fn lemma_row(t: Seq<Link>, key: Text, to: Text) -> (l: Link)
    requires
        leads(t, key, to),
    ensures
        t.contains(l),
        l.key == key,
        l.target == to,
{
    let i = choose|i: int| 0 <= i < t.len() && (#[trigger] t[i]).key == key && t[i].target == to;
    assert(t.contains(t[i]));
    t[i]
}

proof fn lemma_leads_row(t: Seq<Link>, l: Link)
    requires
        t.contains(l),
    ensures
        leads(t, l.key, l.target),
        taken(t, l.key),
{
    let i = choose|i: int| 0 <= i < t.len() && t[i] == l;
    assert(t[i].key == l.key && t[i].target == l.target);
}

/// Removing a project leaves every other project as it was: its row, its roots, its
/// parents, its aliases other than the removed id, and where it is placed. What it had
/// for a root still resolves to it. Unless it is the successor, it gains nothing either.
pub proof fn law_removals_leave_others_alone(
    before: Registry,
    req: Remove,
    now: i64,
    id: Text,
    other: Text,
    key: Text,
    exists_there: bool,
    device: Option<u64>,
    devices: Seq<Option<u64>>,
)
    requires
        before.sound(),
        req.workspace_id is None,
        req.project_id == Some(id),
        ran(before, req.request_key, mutations::remove_outcome(before, req, now)),
        other != id,
    ensures
        ({
            let t = before.tables;
            let after = mutations::remove_outcome(before, req, now).registry;
            let u = after.tables;
            let found = queries::resolution(after, key, exists_there, device, devices);
            &&& leads(t.roots, key, other) ==> leads(u.roots, key, other)
            &&& leads(t.roots, key, other) ==> found.via == "root"@ && found.project_id == other
            &&& leads(t.parents, key, other) ==> leads(u.parents, key, other)
            &&& leads(t.aliases, key, other) && key != id ==> leads(u.aliases, key, other)
            &&& leads(t.placements, other, key) <==> leads(u.placements, other, key)
            &&& forall|p: Project|
                p.project_id == other ==> (#[trigger] u.projects.contains(p)
                    <==> t.projects.contains(p))
            &&& req.successor != Some(other) ==> {
                &&& leads(u.roots, key, other) ==> leads(t.roots, key, other)
                &&& leads(u.parents, key, other) ==> leads(t.parents, key, other)
                &&& leads(u.aliases, key, other) ==> leads(t.aliases, key, other)
            }
        }),
{
    let t = before.tables;
    let after = mutations::remove_outcome(before, req, now).registry;
    let u = after.tables;
    law_removing_a_project_changes_these_rows(before, req, now, id);
    if leads(t.roots, key, other) {
        let l = lemma_row(t.roots, key, other);
        assert(u.roots.contains(l));
        lemma_leads_row(u.roots, l);
        let deed = mutations::remove_deed(before, req, now);
        lemma_ran(before, req.request_key, deed);
        effects::lemma_withdraw(t, id, req.successor, now);
        membership::lemma_lookup(u.roots, key, other);
    }
    if leads(t.parents, key, other) {
        let l = lemma_row(t.parents, key, other);
        assert(u.parents.contains(l));
        lemma_leads_row(u.parents, l);
    }
    if leads(t.aliases, key, other) && key != id {
        let l = lemma_row(t.aliases, key, other);
        assert(u.aliases.contains(l));
        lemma_leads_row(u.aliases, l);
    }
    if leads(t.placements, other, key) {
        let l = lemma_row(t.placements, other, key);
        assert(u.placements.contains(l));
        lemma_leads_row(u.placements, l);
    }
    if leads(u.placements, other, key) {
        let l = lemma_row(u.placements, other, key);
        assert(t.placements.contains(l));
        lemma_leads_row(t.placements, l);
    }
    if req.successor != Some(other) {
        if leads(u.roots, key, other) {
            let l = lemma_row(u.roots, key, other);
            assert(t.roots.contains(l));
            lemma_leads_row(t.roots, l);
        }
        if leads(u.parents, key, other) {
            let l = lemma_row(u.parents, key, other);
            assert(t.parents.contains(l));
            lemma_leads_row(t.parents, l);
        }
        if leads(u.aliases, key, other) {
            let l = lemma_row(u.aliases, key, other);
            assert(t.aliases.contains(l));
            lemma_leads_row(t.aliases, l);
        }
    }
}

/// A workspace that a placement opens is listed under the name that the request gives, or
/// under its id where the request gives none; a workspace that was known keeps its name.
pub proof fn law_placements_name_new_workspaces(
    before: Registry,
    req: Assign,
    now: i64,
    w: Workspace,
)
    requires
        before.sound(),
        ran(before, req.request_key, mutations::assign_outcome(before, req, now)),
    ensures
        ({
            let t = before.tables.workspaces;
            let after = mutations::assign_outcome(before, req, now).registry;
            let told = queries::listing(after, Some(req.workspace_id)).workspaces;
            &&& !opened(t, req.workspace_id) ==> told == seq![
                (
                    req.workspace_id,
                    match req.workspace_name {
                        Some(name) => name,
                        None => req.workspace_id,
                    },
                ),
            ]
            &&& t.contains(w) && w.workspace_id == req.workspace_id ==> told == seq![
                (w.workspace_id, w.name),
            ]
            &&& t.contains(w) ==> after.tables.workspaces.contains(w)
        }),
{
    let t = before.tables;
    let deed = mutations::assign_deed(before, req, now);
    let after = mutations::assign_outcome(before, req, now).registry;
    let u = after.tables;
    law_assigning_changes_these_rows(before, req, now);
    lemma_ran(before, req.request_key, deed);
    mutations::lemma_assigned(t, req, now);
    upkeep::lemma_live(t.projects, req.project_id);
    if !opened(t.workspaces, req.workspace_id) {
        if leads(t.placements, req.project_id, req.workspace_id) {
            let l = lemma_row(t.placements, req.project_id, req.workspace_id);
            let i = choose|i: int| 0 <= i < t.placements.len() && t.placements[i] == l;
            assert(model::known(t.workspaces, t.placements[i].target));
            upkeep::lemma_known(t.workspaces, req.workspace_id);
        }
        let row = Workspace {
            workspace_id: req.workspace_id,
            name: match req.workspace_name {
                Some(name) => name,
                None => req.workspace_id,
            },
            created_at: now,
            updated_at: now,
        };
        assert(u.workspaces.contains(row));
        membership::lemma_workspace(u.workspaces, req.workspace_id, row);
    }
    if t.workspaces.contains(w) {
        assert(u.workspaces.contains(w));
        membership::lemma_workspace(u.workspaces, w.workspace_id, w);
    }
}

/// What the entry of a request holds of it: the request itself, its roots and parents in
/// ascending order and each once, or in one list; so that it can be done again.
pub proof fn law_entries_hold_their_requests(
    before: Registry,
    register: Register,
    assign: Assign,
    upgrade: Upgrade,
    remove: Remove,
    import: Seed,
    roots: Seq<RootFact>,
    parents: Seq<RootFact>,
    now: i64,
)
    ensures
        ({
            let o = register::register_outcome(before, register, roots, parents, now);
            o.registry.journal.len() > before.journal.len() ==> o.registry.journal.last().record
                == Record::Register(
                Register {
                    roots: order::sorted_set(register.roots),
                    parents: order::sorted_set(register.parents),
                    ..register
                },
            )
        }),
        ({
            let o = mutations::assign_outcome(before, assign, now);
            o.registry.journal.len() > before.journal.len() ==> o.registry.journal.last().record
                == Record::Assign(assign)
        }),
        ({
            let o = mutations::upgrade_outcome(before, upgrade, roots, now);
            o.registry.journal.len() > before.journal.len() ==> o.registry.journal.last().record
                == Record::Upgrade(
                Upgrade {
                    root: None,
                    roots: match upgrade.root {
                        Some(root) => upgrade.roots.push(root),
                        None => upgrade.roots,
                    },
                    ..upgrade
                },
            )
        }),
        ({
            let o = mutations::remove_outcome(before, remove, now);
            o.registry.journal.len() > before.journal.len() ==> o.registry.journal.last().record
                == Record::Remove(remove)
        }),
        ({
            let o = seed::seed_outcome(before, import, roots, now);
            o.registry.journal.len() > before.journal.len() ==> (
            o.registry.journal.last().record matches Record::Seed(r) && r == (Seed {
                pairs: r.pairs,
                ..import
            }) && forall|p: Pair| #[trigger] r.pairs.contains(p) ==> import.pairs.contains(p))
        }),
{
    laws_registration::lemma_canonical_as_given(register.roots, roots);
    laws_registration::lemma_canonical_as_given(register.parents, parents);
    laws_registration::lemma_canonical_as_given(mutations::upgrade_roots(upgrade), roots);
    observed::lemma_tidy(import.pairs);
}

} // verus!
