//! Paths as the registry compares them: by their components, without asking
//! the file system.
use vstd::prelude::*;
use vstd::string::*;

use crate::text::{cat, cat3, chars_of, join_strs, split_str, str_eq, Text};
use crate::text;
use crate::error;
use crate::error::{domain, RegistryError};

verus! {

/// Whether a path is absolute.
pub open spec fn rooted(path: Text) -> bool {
    path.len() > 0 && path[0] == '/'
}

/// The pieces of a path that name something: neither empty nor `.`.
pub open spec fn named_pieces(pieces: Seq<Text>) -> Seq<Text> {
    pieces.filter(|t: Text| t.len() > 0 && t != seq!['.'])
}

/// The components of a path: `/` for the root, a leading `.` where a relative
/// path is spelled with one, `..` for a parent, and the names. Repeated and
/// trailing separators and other `.` pieces do not count.
pub open spec fn components(path: Text) -> Seq<Text> {
    let pieces = text::split(path, '/');
    if rooted(path) {
        seq![seq!['/']] + named_pieces(pieces)
    } else if pieces[0] == seq!['.'] {
        seq![seq!['.']] + named_pieces(pieces)
    } else {
        named_pieces(pieces)
    }
}

/// Whether `query` is `parent` or lies below it.
pub open spec fn contains_path(parent: Text, query: Text) -> bool {
    let p = components(parent);
    let q = components(query);
    p.len() <= q.len() && q.take(p.len() as int) == p
}

/// The name that the last component of a path gives, if it gives one.
pub open spec fn file_name_of(path: Text) -> Option<Text> {
    let c = components(path);
    if c.len() == 0 || c.last() == seq!['/'] || c.last() == seq!['.'] || c.last() == seq!['.', '.'] {
        None
    } else {
        Some(c.last())
    }
}

/// The place of the last `.` in a name, or -1.
pub open spec fn last_dot(name: Text) -> int
    decreases name.len(),
{
    if name.len() == 0 {
        -1
    } else if name.last() == '.' {
        name.len() - 1
    } else {
        last_dot(name.drop_last())
    }
}

/// A name without its extension. A name whose only dot is its first character
/// has none.
pub open spec fn stem_of(name: Text) -> Text {
    if last_dot(name) <= 0 {
        name
    } else {
        name.take(last_dot(name))
    }
}

/// The names left when `..` takes back the name before it.
pub open spec fn settle(components: Seq<Text>) -> Seq<Text>
    decreases components.len(),
{
    if components.len() == 0 {
        Seq::empty()
    } else {
        let head = settle(components.drop_last());
        let c = components.last();
        if c == seq!['/'] || c == seq!['.'] {
            head
        } else if c == seq!['.', '.'] {
            if head.len() > 0 {
                head.drop_last()
            } else {
                head
            }
        } else {
            head.push(c)
        }
    }
}

/// A path spelled from its names.
pub open spec fn spelled(absolute: bool, names: Seq<Text>) -> Text {
    if absolute {
        seq!['/'] + text::join(names, seq!['/'])
    } else {
        text::join(names, seq!['/'])
    }
}

/// `tail` looked up from the directory `base`.
pub open spec fn joined(base: Text, tail: Text) -> Text {
    if rooted(tail) {
        tail
    } else if base.len() == 0 || base.last() == '/' {
        base + tail
    } else {
        base + seq!['/'] + tail
    }
}

/// A path made absolute and cleared of `.` and `..` without following links.
pub open spec fn lexical(path: Text, cwd: Text) -> Text {
    let absolute = joined(cwd, path);
    spelled(rooted(absolute), settle(components(absolute)))
}

/// A path without slashes at its end.
pub open spec fn trimmed(path: Text) -> Text
    decreases path.len(),
{
    if path.len() > 0 && path.last() == '/' {
        trimmed(path.drop_last())
    } else {
        path
    }
}

fn is_dot(s: &str) -> (r: bool)
    ensures
        r == (s@ == seq!['.']),
{
    proof {
        reveal_strlit(".");
        assert("."@ =~= seq!['.']);
    }
    str_eq(s, ".")
}

fn is_dots(s: &str) -> (r: bool)
    ensures
        r == (s@ == seq!['.', '.']),
{
    proof {
        reveal_strlit("..");
        assert(".."@ =~= seq!['.', '.']);
    }
    str_eq(s, "..")
}

fn is_slash(s: &str) -> (r: bool)
    ensures
        r == (s@ == seq!['/']),
{
    proof {
        reveal_strlit("/");
        assert("/"@ =~= seq!['/']);
    }
    str_eq(s, "/")
}

/// Whether a path is absolute.
pub fn is_rooted(path: &str) -> (r: bool)
    ensures
        r == rooted(path@),
{
    if path.is_empty() {
        return false;
    }
    path.get_char(0) == '/'
}

/// The components of a path.
pub fn path_components(path: &str) -> (r: Vec<String>)
    ensures
        text::texts(r@) == components(path@),
{
    let pieces = split_str(path, '/');
    let ghost all = text::split(path@, '/');
    proof {
        text::lemma_split_nonempty(path@, '/');
        reveal_strlit("/");
        reveal_strlit(".");
        assert("/"@ =~= seq!['/']);
        assert("."@ =~= seq!['.']);
    }
    let mut out: Vec<String> = Vec::new();
    assert(text::texts(pieces@)[0] == pieces@[0]@);
    let ghost mut lead: Seq<Text> = Seq::empty();
    if is_rooted(path) {
        out.push("/".to_owned());
        proof {
            lead = seq![seq!['/']];
        }
    } else if is_dot(pieces[0].as_str()) {
        out.push(".".to_owned());
        proof {
            lead = seq![seq!['.']];
        }
    }
    assert(text::texts(out@) =~= lead);
    let ghost named = |t: Text| t.len() > 0 && t != seq!['.'];
    let mut i: usize = 0;
    assert(all.take(0).filter(named) =~= Seq::<Text>::empty()) by {
        reveal(Seq::filter);
    }
    assert(text::texts(out@) =~= lead + all.take(0).filter(named));
    while i < pieces.len()
        invariant
            all == text::texts(pieces@),
            named == (|t: Text| t.len() > 0 && t != seq!['.']),
            i <= pieces@.len(),
            text::texts(out@) == lead + all.take(i as int).filter(named),
        decreases pieces@.len() - i,
    {
        let ghost before = text::texts(out@);
        assert(all.take(i + 1).drop_last() =~= all.take(i as int));
        assert(all.take(i + 1).last() == pieces@[i as int]@);
        assert(all.take(i + 1).filter(named) == if named(pieces@[i as int]@) {
            all.take(i as int).filter(named).push(pieces@[i as int]@)
        } else {
            all.take(i as int).filter(named)
        }) by {
            reveal(Seq::filter);
        }
        if !pieces[i].as_str().is_empty() && !is_dot(pieces[i].as_str()) {
            out.push(pieces[i].clone());
            assert(text::texts(out@) =~= before.push(pieces@[i as int]@));
            assert(text::texts(out@) =~= lead + all.take(i + 1).filter(named));
        }
        i = i + 1;
    }
    assert(all.take(i as int) =~= all);
    assert(text::texts(out@) =~= components(path@));
    out
}

/// Whether `query` is `parent` or lies below it, component by component.
pub fn path_prefix_or_equal(parent: &str, query: &str) -> (r: bool)
    ensures
        r == contains_path(parent@, query@),
{
    let p = path_components(parent);
    let q = path_components(query);
    let ghost pt = text::texts(p@);
    let ghost qt = text::texts(q@);
    if p.len() > q.len() {
        return false;
    }
    let mut i: usize = 0;
    while i < p.len()
        invariant
            pt == text::texts(p@),
            qt == text::texts(q@),
            p@.len() <= q@.len(),
            i <= p@.len(),
            pt == components(parent@),
            qt == components(query@),
            forall|j: int| 0 <= j < i ==> pt[j] == qt[j],
        decreases p@.len() - i,
    {
        assert(pt[i as int] == p@[i as int]@);
        assert(qt[i as int] == q@[i as int]@);
        if !(p[i] == q[i]) {
            assert(qt.take(pt.len() as int)[i as int] != pt[i as int]);
            return false;
        }
        i = i + 1;
    }
    assert(qt.take(pt.len() as int) =~= pt);
    true
}

/// The number of components of a path.
pub fn path_depth(path: &str) -> (r: usize)
    ensures
        r == components(path@).len(),
{
    path_components(path).len()
}

/// The name that the last component of a path gives, if it gives one.
pub fn file_name(path: &str) -> (r: Option<String>)
    ensures
        text::opt_text(r) == file_name_of(path@),
{
    let c = path_components(path);
    let n = c.len();
    if n == 0 {
        return None;
    }
    let last = &c[n - 1];
    assert(components(path@).last() == last@) by {
        assert(text::texts(c@).last() == c@[n - 1]@);
    }
    if is_slash(last.as_str()) || is_dot(last.as_str()) || is_dots(last.as_str()) {
        None
    } else {
        Some(last.clone())
    }
}

/// A name without its extension.
pub fn file_stem(name: &str) -> (r: String)
    ensures
        r@ == stem_of(name@),
{
    let chars = chars_of(name);
    let mut n: usize = chars.len();
    assert(name@.take(n as int) =~= name@);
    while n > 0
        invariant
            chars@ == name@,
            n <= chars@.len(),
            last_dot(name@) == last_dot(name@.take(n as int)),
        decreases n,
    {
        let ghost head = name@.take(n as int);
        assert(head.last() == chars@[n - 1]);
        if chars[n - 1] == '.' {
            assert(last_dot(name@) == n - 1);
            if n == 1 {
                return name.to_owned();
            }
            assert(name@.subrange(0, n - 1) =~= name@.take(n - 1));
            return name.substring_char(0, n - 1).to_owned();
        }
        assert(head.drop_last() =~= name@.take(n - 1));
        n = n - 1;
    }
    name.to_owned()
}

/// `tail` looked up from the directory `base`.
pub fn join_path(base: &str, tail: &str) -> (r: String)
    ensures
        r@ == joined(base@, tail@),
{
    if is_rooted(tail) {
        return tail.to_owned();
    }
    let n = base.unicode_len();
    if n == 0 || base.get_char(n - 1) == '/' {
        cat(base, tail)
    } else {
        proof {
            reveal_strlit("/");
            assert("/"@ =~= seq!['/']);
        }
        cat3(base, "/", tail)
    }
}

/// A path without slashes at its end.
pub fn trim_slashes(path: &str) -> (r: String)
    ensures
        r@ == trimmed(path@),
{
    let mut n: usize = path.unicode_len();
    assert(path@.take(n as int) =~= path@);
    while n > 0 && path.get_char(n - 1) == '/'
        invariant
            n <= path@.len(),
            trimmed(path@) == trimmed(path@.take(n as int)),
        decreases n,
    {
        assert(path@.take(n as int).last() == path@[n - 1]);
        assert(path@.take(n as int).drop_last() =~= path@.take(n - 1));
        n = n - 1;
    }
    assert(n > 0 ==> path@.take(n as int).last() == path@[n - 1]);
    let s = path.substring_char(0, n).to_owned();
    assert(s@ =~= path@.take(n as int));
    s
}

/// The names left when `..` takes back the name before it.
fn settle_components(c: &Vec<String>) -> (r: Vec<String>)
    ensures
        text::texts(r@) == settle(text::texts(c@)),
{
    let ghost all = text::texts(c@);
    let mut out: Vec<String> = Vec::new();
    let mut i: usize = 0;
    assert(text::texts(out@) =~= settle(all.take(0)));
    while i < c.len()
        invariant
            all == text::texts(c@),
            i <= c@.len(),
            text::texts(out@) == settle(all.take(i as int)),
        decreases c@.len() - i,
    {
        let ghost before = text::texts(out@);
        assert(all.take(i + 1).drop_last() =~= all.take(i as int));
        assert(all.take(i + 1).last() == c@[i as int]@);
        if is_slash(c[i].as_str()) || is_dot(c[i].as_str()) {
        } else if is_dots(c[i].as_str()) {
            out.pop();
            assert(before.len() > 0 ==> text::texts(out@) =~= before.drop_last());
            assert(before.len() == 0 ==> text::texts(out@) =~= before);
        } else {
            out.push(c[i].clone());
            assert(text::texts(out@) =~= before.push(c@[i as int]@));
        }
        i = i + 1;
    }
    assert(all.take(i as int) =~= all);
    out
}

fn spell(absolute: bool, names: &Vec<String>) -> (r: String)
    ensures
        r@ == spelled(absolute, text::texts(names@)),
{
    proof {
        reveal_strlit("/");
        assert("/"@ =~= seq!['/']);
    }
    let tail = join_strs(names, "/");
    if absolute {
        cat("/", tail.as_str())
    } else {
        tail
    }
}

/// Makes a path absolute and clears it of `.` and `..` without following links.
pub fn lexical_absolute(path: &str, cwd: &str) -> (r: String)
    ensures
        r@ == lexical(path@, cwd@),
{
    let absolute = join_path(cwd, path);
    let names = settle_components(&path_components(absolute.as_str()));
    spell(is_rooted(absolute.as_str()), &names)
}

/// The path `climbed` names above the lexical path.
pub open spec fn ancestor(lexical: Text, climbed: int) -> Text {
    let names = settle(components(lexical));
    spelled(rooted(lexical), names.take(names.len() - climbed))
}

/// How many names a lexical path has.
pub open spec fn climbable(lexical: Text) -> nat {
    settle(components(lexical)).len()
}

/// A lexical path, then each of its ancestors, nearest first. These are the
/// places to look for, in this order, when the path itself is gone.
pub fn ancestors(lexical: &str) -> (r: Vec<String>)
    ensures
        text::texts(r@) == Seq::new(
            climbable(lexical@) + 1,
            |k: int| ancestor(lexical@, k),
        ),
{
    let mut names = settle_components(&path_components(lexical));
    let absolute = is_rooted(lexical);
    let ghost all = text::texts(names@);
    assert(all.take(all.len() as int) =~= all);
    let mut out: Vec<String> = Vec::new();
    out.push(spell(absolute, &names));
    while names.len() > 0
        invariant
            absolute == rooted(lexical@),
            all == settle(components(lexical@)),
            names@.len() <= all.len(),
            text::texts(names@) == all.take(names@.len() as int),
            out@.len() == all.len() - names@.len() + 1,
            forall|k: int| 0 <= k < out@.len() ==> (#[trigger] out@[k])@ == ancestor(lexical@, k),
        decreases names@.len(),
    {
        let ghost before = text::texts(names@);
        let ghost n = names@.len();
        names.pop();
        assert(text::texts(names@) =~= all.take(n - 1)) by {
            assert(text::texts(names@) =~= before.drop_last());
            assert(before.drop_last() =~= all.take(n - 1));
        }
        out.push(spell(absolute, &names));
    }
    assert(text::texts(out@) =~= Seq::new(climbable(lexical@) + 1, |k: int| ancestor(lexical@, k)));
    out
}

/// How the search for a path or its nearest existing ancestor goes on.
#[derive(Debug, Clone, Copy, PartialEq, Eq, Structural)]
pub enum Search {
    /// Look whether the place this many names up exists.
    Look(usize),
    /// The place this many names up is the nearest that exists.
    Nearest(usize),
    /// No place exists.
    Nowhere,
}

/// Whether `k` is the first place that exists.
pub open spec fn is_first(there: Seq<bool>, k: int) -> bool {
    0 <= k < there.len() && there[k] && forall|j: int| 0 <= j < k ==> !#[trigger] there[j]
}

/// A step of the search. `there` says which of the first places of [`ancestors`]
/// exist, and `places` how many places there are. The nearest existing place ends
/// the search; else the next place is looked at, until there is none left.
pub fn search(there: &Vec<bool>, places: usize) -> (r: Search)
    ensures
        match r {
            Search::Nearest(k) => is_first(there@, k as int),
            Search::Look(k) => k == there@.len() && k < places && forall|j: int|
                0 <= j < k ==> !#[trigger] there@[j],
            Search::Nowhere => there@.len() >= places && forall|j: int|
                0 <= j < there@.len() ==> !#[trigger] there@[j],
        },
{
    let mut i: usize = 0;
    while i < there.len()
        invariant
            i <= there@.len(),
            forall|j: int| 0 <= j < i ==> !#[trigger] there@[j],
        decreases there@.len() - i,
    {
        if there[i] {
            return Search::Nearest(i);
        }
        i = i + 1;
    }
    if i < places {
        Search::Look(i)
    } else {
        Search::Nowhere
    }
}

/// What the file system says of a path that a query names: whether the path, or
/// else its nearest ancestor `climbed` names up, exists, and how that place
/// resolves.
pub enum QueryProbe {
    /// Neither the path nor any ancestor exists.
    Missing,
    /// The place `climbed` names up exists and resolved.
    Found { climbed: usize, resolved: String },
    /// The place exists but did not resolve; the reason is given.
    Unresolved(String),
}

/// What a [`QueryProbe`] says.
pub enum Probe {
    Missing,
    Found { climbed: int, resolved: Text },
    Unresolved(Text),
}

impl View for QueryProbe {
    type V = Probe;

    open spec fn view(&self) -> Probe {
        match self {
            QueryProbe::Missing => Probe::Missing,
            QueryProbe::Found { climbed, resolved } => Probe::Found {
                climbed: *climbed as int,
                resolved: resolved@,
            },
            QueryProbe::Unresolved(e) => Probe::Unresolved(e@),
        }
    }
}

/// `base` with the names of `tail` put below it.
pub open spec fn descend(base: Text, tail: Seq<Text>) -> Text
    decreases tail.len(),
{
    if tail.len() == 0 {
        base
    } else {
        joined(descend(base, tail.drop_last()), tail.last())
    }
}

/// The path by which a query is answered, and whether it exists.
pub open spec fn query_path(lexical: Text, probe: Probe) -> Result<(Text, bool), error::Failure> {
    match probe {
        Probe::Missing => Ok((lexical, false)),
        Probe::Unresolved(e) => Err(error::Failure::Path(e)),
        Probe::Found { climbed, resolved } => {
            let names = settle(components(lexical));
            Ok((descend(resolved, names.skip(names.len() - climbed)), climbed == 0))
        },
    }
}

/// Settles the path by which a query is answered: the resolved path where it
/// exists, else the nearest existing ancestor resolved, with the missing names
/// put back below it.
pub fn canonical_query_path(lexical: &str, probe: QueryProbe) -> (r: Result<
    (String, bool),
    RegistryError,
>)
    requires
        probe@ matches Probe::Found { climbed, .. } ==> climbed <= climbable(lexical@),
    ensures
        match query_path(lexical@, probe@) {
            Ok((path, exists)) => r matches Ok(p) && p.0@ == path && p.1 == exists,
            Err(e) => r matches Err(f) && f@ == e,
        },
{
    match probe {
        QueryProbe::Missing => Ok((lexical.to_owned(), false)),
        QueryProbe::Unresolved(e) => Err(RegistryError::Path(e)),
        QueryProbe::Found { climbed, resolved } => {
            let names = settle_components(&path_components(lexical));
            let ghost tail = text::texts(names@).skip(names@.len() - climbed);
            let start = names.len() - climbed;
            let mut path = resolved.clone();
            let mut i: usize = start;
            assert(tail.take(0) =~= Seq::<Text>::empty());
            while i < names.len()
                invariant
                    start <= i <= names@.len(),
                    tail == text::texts(names@).skip(start as int),
                    path@ == descend(resolved@, tail.take(i - start)),
                decreases names@.len() - i,
            {
                assert(tail.take(i + 1 - start).drop_last() =~= tail.take(i - start));
                assert(tail.take(i + 1 - start).last() == names@[i as int]@);
                path = join_path(path.as_str(), names[i].as_str());
                i = i + 1;
            }
            assert(tail.take(i - start) =~= tail);
            Ok((path, climbed == 0))
        },
    }
}

/// What resolving a path for a mutation yielded.
pub enum RootProbe {
    /// The path exists; its canonical spelling is given.
    Canonical(String),
    /// The path does not exist.
    Absent,
    /// The path could not be resolved; the reason is given.
    Failed(String),
}

/// What a [`RootProbe`] says.
pub enum RootFact {
    Canonical(Text),
    Absent,
    Failed(Text),
}

impl View for RootProbe {
    type V = RootFact;

    open spec fn view(&self) -> RootFact {
        match self {
            RootProbe::Canonical(s) => RootFact::Canonical(s@),
            RootProbe::Absent => RootFact::Absent,
            RootProbe::Failed(e) => RootFact::Failed(e@),
        }
    }
}

/// The path a mutation may store: it exists and is spelled canonically.
pub open spec fn canonical_root(raw: Text, fact: RootFact) -> Result<Text, error::Failure> {
    match fact {
        RootFact::Canonical(value) => if value == raw {
            Ok(value)
        } else {
            Err(error::refusal("not_canonical"@, "path must be canonical: "@ + raw))
        },
        RootFact::Absent => Err(
            error::refusal("root_not_found"@, "path does not exist: "@ + raw),
        ),
        RootFact::Failed(e) => Err(error::refusal("not_canonical"@, e)),
    }
}

/// The canonical form of an existing path, however it was spelled.
pub open spec fn mutation_root(raw: Text, fact: RootFact) -> Result<Text, error::Failure> {
    match fact {
        RootFact::Canonical(value) => Ok(value),
        RootFact::Absent => Err(
            error::Failure::Path("project root does not exist: "@ + raw),
        ),
        RootFact::Failed(e) => Err(error::Failure::Path(e)),
    }
}

/// Admits a path into a mutation only where it exists and is spelled
/// canonically.
pub fn canonical(raw: &str, probe: &RootProbe) -> (r: Result<String, RegistryError>)
    ensures
        match canonical_root(raw@, probe@) {
            Ok(value) => r matches Ok(s) && s@ == value,
            Err(e) => r matches Err(f) && f@ == e,
        },
{
    match probe {
        RootProbe::Canonical(value) => {
            if !str_eq(value.as_str(), raw) {
                return Err(domain("not_canonical", cat("path must be canonical: ", raw)));
            }
            Ok(value.clone())
        },
        RootProbe::Absent => Err(domain("root_not_found", cat("path does not exist: ", raw))),
        RootProbe::Failed(e) => Err(domain("not_canonical", e.clone())),
    }
}

/// What the file system knows of paths.
pub open spec fn facts(v: Seq<RootProbe>) -> Seq<RootFact> {
    v.map_values(|p: RootProbe| p@)
}

/// The paths, where each is canonical; else the failure of the first that is
/// not.
pub open spec fn canonical_all(raws: Seq<Text>, facts: Seq<RootFact>) -> Result<
    Seq<Text>,
    error::Failure,
>
    decreases raws.len(),
{
    if raws.len() == 0 {
        Ok(Seq::empty())
    } else {
        match canonical_all(raws.drop_last(), facts) {
            Err(e) => Err(e),
            Ok(head) => match canonical_root(raws.last(), facts[raws.len() - 1]) {
                Err(e) => Err(e),
                Ok(value) => Ok(head.push(value)),
            },
        }
    }
}

proof fn lemma_canonical_fails(raws: Seq<Text>, facts: Seq<RootFact>, n: int)
    requires
        0 <= n <= raws.len(),
        canonical_all(raws.take(n), facts) is Err,
    ensures
        canonical_all(raws, facts) == canonical_all(raws.take(n), facts),
    decreases raws.len(),
{
    if n == raws.len() {
        assert(raws.take(n) =~= raws);
    } else {
        assert(raws.drop_last().take(n) =~= raws.take(n));
        lemma_canonical_fails(raws.drop_last(), facts, n);
    }
}

/// Holds paths against what the file system knows of them, in order.
pub fn canonical_roots(raws: &Vec<String>, probes: &Vec<RootProbe>) -> (r: Result<
    Vec<String>,
    RegistryError,
>)
    requires
        probes@.len() == raws@.len(),
    ensures
        match canonical_all(text::texts(raws@), facts(probes@)) {
            Ok(values) => r matches Ok(v) && text::texts(v@) == values,
            Err(e) => r matches Err(f) && f@ == e,
        },
{
    let ghost all = text::texts(raws@);
    let ghost known = facts(probes@);
    let mut out: Vec<String> = Vec::new();
    let mut i: usize = 0;
    assert(all.take(0) =~= Seq::empty());
    assert(text::texts(out@) =~= Seq::empty());
    while i < raws.len()
        invariant
            all == text::texts(raws@),
            known == facts(probes@),
            probes@.len() == raws@.len(),
            i <= raws@.len(),
            canonical_all(all.take(i as int), known) == Ok::<Seq<Text>, error::Failure>(
                text::texts(out@),
            ),
        decreases raws@.len() - i,
    {
        let ghost head = text::texts(out@);
        assert(all.take(i + 1).drop_last() =~= all.take(i as int));
        assert(all.take(i + 1).last() == raws@[i as int]@);
        assert(known[i as int] == probes@[i as int]@);
        match canonical(raws[i].as_str(), &probes[i]) {
            Ok(value) => {
                out.push(value);
                assert(text::texts(out@) =~= head.push(value@));
            },
            Err(e) => {
                proof {
                    lemma_canonical_fails(all, known, i + 1);
                }
                return Err(e);
            },
        }
        i = i + 1;
    }
    assert(all.take(i as int) =~= all);
    Ok(out)
}

} // verus!
