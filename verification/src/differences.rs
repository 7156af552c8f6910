//! Holding tables against tables, row by row.
use vstd::prelude::*;
use vstd::string::*;

use crate::model::{Link, Member, Project, Tables, Workspace};
use crate::rows::{LinkRow, MemberRow, ProjectRow, WorkspaceRow};
use crate::store::TableRows;
use crate::text::{cat, cat3, str_eq, Text};
use crate::{rows, text};

verus! {

/// The rows of `a` that `b` does not have.
pub open spec fn strays<V>(a: Seq<V>, b: Seq<V>) -> Seq<V> {
    a.filter(|x: V| !b.contains(x))
}

/// What there is to say of a table that should hold the rows of `b` and holds
/// those of `a`: the rows that the journal does not account for, then those that
/// it accounts for and that are missing; else that the rows stand in another
/// order.
pub open spec fn differing<V>(
    table: Text,
    a: Seq<V>,
    b: Seq<V>,
    tell: spec_fn(V) -> Text,
) -> Seq<Text> {
    let more = strays(a, b).map_values(|x: V| "unjournaled "@ + table + " "@ + tell(x));
    let less = strays(b, a).map_values(|x: V| "missing "@ + table + " "@ + tell(x));
    if a != b && more.len() == 0 && less.len() == 0 {
        seq!["reordered "@ + table]
    } else {
        more + less
    }
}

/// A row by its key.
pub open spec fn link_told(l: Link) -> Text {
    l.key
}

/// A project by its id.
pub open spec fn project_told(p: Project) -> Text {
    p.project_id
}

/// A workspace by its id.
pub open spec fn workspace_told(w: Workspace) -> Text {
    w.workspace_id
}

/// A reference by its workspace, the other device where there is one, and its
/// project.
pub open spec fn member_told(m: Member) -> Text {
    m.workspace_id + ":"@ + m.device + ":"@ + m.project_id
}

/// How the tables `t` differ from the tables `u` that the journal leads to.
pub open spec fn differences(t: Tables, u: Tables) -> Seq<Text> {
    differing("workspace"@, t.workspaces, u.workspaces, |w: Workspace| workspace_told(w))
        + differing("workspace_member"@, t.members, u.members, |m: Member| member_told(m))
        + differing("project"@, t.projects, u.projects, |p: Project| project_told(p))
        + differing("project_workspace"@, t.placements, u.placements, |l: Link| link_told(l))
        + differing("project_root"@, t.roots, u.roots, |l: Link| link_told(l)) + differing(
        "derived_root_parent"@,
        t.parents,
        u.parents,
        |l: Link| link_told(l),
    ) + differing("project_alias"@, t.aliases, u.aliases, |l: Link| link_told(l))
}

/// The rows that vectors view.
pub open spec fn seen<R: View>(v: Seq<R>) -> Seq<R::V> {
    v.map_values(|r: R| r@)
}

/// A row that can be told from another one.
pub trait Row: View + Sized {
    /// What the row is called.
    spec fn told(v: Self::V) -> Text;

    /// Whether two rows hold the same.
    fn same(&self, other: &Self) -> (r: bool)
        ensures
            r == (self@ == other@),
    ;

    /// What the row is called.
    fn tell(&self) -> (r: String)
        ensures
            r@ == Self::told(self@),
    ;
}

impl Row for LinkRow {
    open spec fn told(v: Link) -> Text {
        link_told(v)
    }

    fn same(&self, other: &Self) -> (r: bool) {
        self.at == other.at && str_eq(self.key.as_str(), other.key.as_str()) && str_eq(
            self.target.as_str(),
            other.target.as_str(),
        )
    }

    fn tell(&self) -> (r: String) {
        self.key.clone()
    }
}

impl Row for ProjectRow {
    open spec fn told(v: Project) -> Text {
        project_told(v)
    }

    fn same(&self, other: &Self) -> (r: bool) {
        let alike = match (&self.seed_identity, &other.seed_identity) {
            (Some(a), Some(b)) => str_eq(a.as_str(), b.as_str()),
            (None, None) => true,
            _ => false,
        };
        alike && self.implicit == other.implicit && self.created_at == other.created_at
            && self.updated_at == other.updated_at && str_eq(
            self.project_id.as_str(),
            other.project_id.as_str(),
        ) && str_eq(self.name.as_str(), other.name.as_str())
    }

    fn tell(&self) -> (r: String) {
        self.project_id.clone()
    }
}

impl Row for WorkspaceRow {
    open spec fn told(v: Workspace) -> Text {
        workspace_told(v)
    }

    fn same(&self, other: &Self) -> (r: bool) {
        self.created_at == other.created_at && self.updated_at == other.updated_at && str_eq(
            self.workspace_id.as_str(),
            other.workspace_id.as_str(),
        ) && str_eq(self.name.as_str(), other.name.as_str())
    }

    fn tell(&self) -> (r: String) {
        self.workspace_id.clone()
    }
}

impl Row for MemberRow {
    open spec fn told(v: Member) -> Text {
        member_told(v)
    }

    fn same(&self, other: &Self) -> (r: bool) {
        self.remote == other.remote && str_eq(
            self.workspace_id.as_str(),
            other.workspace_id.as_str(),
        ) && str_eq(self.device_fingerprint.as_str(), other.device_fingerprint.as_str()) && str_eq(
            self.project_id.as_str(),
            other.project_id.as_str(),
        )
    }

    fn tell(&self) -> (r: String) {
        let place = cat3(self.workspace_id.as_str(), ":", self.device_fingerprint.as_str());
        cat3(place.as_str(), ":", self.project_id.as_str())
    }
}

fn has_row<R: Row>(v: &Vec<R>, row: &R) -> (r: bool)
    ensures
        r == seen(v@).contains(row@),
{
    let ghost all = seen(v@);
    let mut i: usize = 0;
    while i < v.len()
        invariant
            all == seen(v@),
            i <= v@.len(),
            forall|j: int| 0 <= j < i ==> #[trigger] all[j] != row@,
        decreases v@.len() - i,
    {
        assert(all[i as int] == v@[i as int]@);
        if v[i].same(row) {
            return true;
        }
        i = i + 1;
    }
    assert(!all.contains(row@));
    false
}

fn list_strays<R: Row>(head: &str, a: &Vec<R>, b: &Vec<R>, out: &mut Vec<String>)
    ensures
        text::texts(final(out)@) == text::texts(old(out)@) + strays(seen(a@), seen(b@)).map_values(
            |x: R::V| head@ + R::told(x),
        ),
{
    let ghost start = text::texts(out@);
    let ghost all = seen(a@);
    let ghost keep = |x: R::V| !seen(b@).contains(x);
    let ghost say = |x: R::V| head@ + R::told(x);
    let mut i: usize = 0;
    assert(text::texts(out@) =~= start + all.take(0).filter(keep).map_values(say)) by {
        reveal(Seq::filter);
    }
    while i < a.len()
        invariant
            all == seen(a@),
            keep == (|x: R::V| !seen(b@).contains(x)),
            say == (|x: R::V| head@ + R::told(x)),
            i <= a@.len(),
            text::texts(out@) == start + all.take(i as int).filter(keep).map_values(say),
        decreases a@.len() - i,
    {
        let ghost before = text::texts(out@);
        let ghost kept = all.take(i as int).filter(keep);
        let ghost x = a@[i as int]@;
        assert(all.take(i + 1).drop_last() =~= all.take(i as int));
        assert(all.take(i + 1).last() == x);
        assert(all.take(i + 1).filter(keep) == if keep(x) {
            kept.push(x)
        } else {
            kept
        }) by {
            reveal(Seq::filter);
        }
        if !has_row(b, &a[i]) {
            let name = a[i].tell();
            let s = cat(head, name.as_str());
            out.push(s);
            assert(text::texts(out@) =~= before.push(s@));
            assert(kept.push(x).map_values(say) =~= kept.map_values(say).push(say(x)));
            assert(text::texts(out@) =~= start + kept.push(x).map_values(say));
        }
        i = i + 1;
    }
    assert(all.take(i as int) =~= all);
}

fn is_same<R: Row>(a: &Vec<R>, b: &Vec<R>) -> (r: bool)
    ensures
        r == (seen(a@) == seen(b@)),
{
    let ghost x = seen(a@);
    let ghost y = seen(b@);
    if a.len() != b.len() {
        assert(x.len() != y.len());
        return false;
    }
    let mut i: usize = 0;
    while i < a.len()
        invariant
            x == seen(a@),
            y == seen(b@),
            a@.len() == b@.len(),
            i <= a@.len(),
            forall|j: int| 0 <= j < i ==> #[trigger] x[j] == y[j],
        decreases a@.len() - i,
    {
        assert(x[i as int] == a@[i as int]@ && y[i as int] == b@[i as int]@);
        if !a[i].same(&b[i]) {
            return false;
        }
        i = i + 1;
    }
    assert(x =~= y);
    true
}

fn list_differing<R: Row>(table: &str, a: &Vec<R>, b: &Vec<R>, out: &mut Vec<String>)
    ensures
        text::texts(final(out)@) == text::texts(old(out)@) + differing(
            table@,
            seen(a@),
            seen(b@),
            |x: R::V| R::told(x),
        ),
{
    let ghost start = text::texts(out@);
    let ghost tell = |x: R::V| R::told(x);
    let before: usize = out.len();
    assert(start.len() == before);
    let more = cat3("unjournaled ", table, " ");
    list_strays(more.as_str(), a, b, out);
    let ghost mid = text::texts(out@);
    let less = cat3("missing ", table, " ");
    list_strays(less.as_str(), b, a, out);
    let ghost m = strays(seen(a@), seen(b@)).map_values(
        |x: R::V| "unjournaled "@ + table@ + " "@ + tell(x),
    );
    let ghost l = strays(seen(b@), seen(a@)).map_values(
        |x: R::V| "missing "@ + table@ + " "@ + tell(x),
    );
    assert(mid =~= start + m);
    assert(text::texts(out@) =~= start + (m + l));
    assert(out@.len() == text::texts(out@).len());
    if out.len() == before && !is_same(a, b) {
        let s = cat("reordered ", table);
        out.push(s);
        assert(text::texts(out@) =~= start + seq![s@]);
    }
}

impl TableRows {
    /// Adds how the tables differ from those that the journal leads to.
    pub(crate) fn list_differences(&self, other: &TableRows, out: &mut Vec<String>)
        ensures
            text::texts(final(out)@) == text::texts(old(out)@) + differences(self@, other@),
    {
        let ghost start = text::texts(out@);
        let ghost t = self@;
        let ghost u = other@;
        assert(seen(self.workspaces@) =~= t.workspaces);
        assert(seen(self.members@) =~= t.members);
        assert(seen(self.projects@) =~= t.projects);
        assert(seen(self.placements@) =~= t.placements);
        assert(seen(self.roots@) =~= t.roots);
        assert(seen(self.parents@) =~= t.parents);
        assert(seen(self.aliases@) =~= t.aliases);
        assert(seen(other.workspaces@) =~= u.workspaces);
        assert(seen(other.members@) =~= u.members);
        assert(seen(other.projects@) =~= u.projects);
        assert(seen(other.placements@) =~= u.placements);
        assert(seen(other.roots@) =~= u.roots);
        assert(seen(other.parents@) =~= u.parents);
        assert(seen(other.aliases@) =~= u.aliases);
        list_differing("workspace", &self.workspaces, &other.workspaces, out);
        list_differing("workspace_member", &self.members, &other.members, out);
        list_differing("project", &self.projects, &other.projects, out);
        list_differing("project_workspace", &self.placements, &other.placements, out);
        list_differing("project_root", &self.roots, &other.roots, out);
        list_differing("derived_root_parent", &self.parents, &other.parents, out);
        list_differing("project_alias", &self.aliases, &other.aliases, out);
        assert((|w: Workspace| WorkspaceRow::told(w)) =~= (|w: Workspace| workspace_told(w)));
        assert((|m: Member| MemberRow::told(m)) =~= (|m: Member| member_told(m)));
        assert((|p: Project| ProjectRow::told(p)) =~= (|p: Project| project_told(p)));
        assert((|l: Link| LinkRow::told(l)) =~= (|l: Link| link_told(l)));
        assert(text::texts(out@) =~= start + differences(t, u));
    }
}

} // verus!
