use vstd::prelude::*;
use ahash::AHashMap;
use crate::names::{contains_name, lemma_push_contains, lemma_push_no_duplicates};

verus! {

#[verifier::external_type_specification]
#[verifier::external_body]
#[verifier::reject_recursive_types(K)]
#[verifier::reject_recursive_types(V)]
#[verifier::reject_recursive_types(S)]
pub struct ExAHashMap<K, V, S>(ahash::AHashMap<K, V, S>);

#[verifier::external_type_specification]
#[verifier::external_body]
pub struct ExRandomState(ahash::RandomState);

/// Adjacency: identities mapped to the identities listed under each.
pub type AdjMap = AHashMap<&'static str, Vec<&'static str>>;

/// What an adjacency map holds: each identity, by its characters, with the
/// identities listed under it, in order.
pub uninterp spec fn adj_contents(m: AdjMap) -> Map<Seq<char>, Seq<Seq<char>>>;

/// Relies on HashMap::keys, reached through AHashMap's Deref: each key once,
/// in an order that the map's hasher decides.
#[verifier::external_body]
fn adj_keys(m: &AdjMap) -> (r: Vec<&'static str>)
    ensures
        r.deep_view().no_duplicates(),
        forall|k: Seq<char>| #[trigger] r.deep_view().contains(k) <==> adj_contents(*m).contains_key(k),
{
    m.keys().copied().collect()
}

/// Relies on ahash::AHashMap::new: a new map is empty.
#[verifier::external_body]
fn adj_new() -> (r: AdjMap)
    ensures
        adj_contents(r).dom() == Set::<Seq<char>>::empty(),
{
    AHashMap::new()
}

/// Relies on ahash::AHashMap::get: the list stored under a key equal to `k`.
#[verifier::external_body]
fn adj_get<'a>(m: &'a AdjMap, k: &str) -> (r: Option<&'a Vec<&'static str>>)
    ensures
        match r {
            Some(v) => adj_contents(*m).contains_key(k@) && v.deep_view() == adj_contents(*m)[k@],
            None => !adj_contents(*m).contains_key(k@),
        },
{
    m.get(k)
}

/// Relies on ahash::AHashMap::remove: takes out the entry under a key equal to `k`.
#[verifier::external_body]
fn adj_remove(m: &mut AdjMap, k: &str) -> (r: Option<Vec<&'static str>>)
    ensures
        adj_contents(*final(m)) == adj_contents(*old(m)).remove(k@),
        match r {
            Some(v) => adj_contents(*old(m)).contains_key(k@) && v.deep_view() == adj_contents(*old(m))[k@],
            None => !adj_contents(*old(m)).contains_key(k@),
        },
{
    m.remove(k)
}

/// Relies on ahash::AHashMap::insert: the entry under `k` becomes `v`.
#[verifier::external_body]
fn adj_insert(m: &mut AdjMap, k: &'static str, v: Vec<&'static str>)
    ensures
        adj_contents(*final(m)) == adj_contents(*old(m)).insert(k@, v.deep_view()),
{
    m.insert(k, v);
}

/// `m` with `v` appended to the list under `k`, the list starting empty.
pub open spec fn push_adj(m: Map<Seq<char>, Seq<Seq<char>>>, k: Seq<char>, v: Seq<char>) -> Map<Seq<char>, Seq<Seq<char>>> {
    if m.contains_key(k) {
        m.insert(k, m[k].push(v))
    } else {
        m.insert(k, seq![v])
    }
}

/// Whether `m` lists `b` under `a`.
pub open spec fn lists(m: Map<Seq<char>, Seq<Seq<char>>>, a: Seq<char>, b: Seq<char>) -> bool {
    m.contains_key(a) && m[a].contains(b)
}

/// Forward and reverse adjacency after declaring that `to` depends on `from`:
/// unchanged when the edge is already there, else each list grows at its end.
pub open spec fn edge_added(
    fwd: Map<Seq<char>, Seq<Seq<char>>>,
    rev: Map<Seq<char>, Seq<Seq<char>>>,
    from: Seq<char>,
    to: Seq<char>,
) -> (Map<Seq<char>, Seq<Seq<char>>>, Map<Seq<char>, Seq<Seq<char>>>) {
    if lists(fwd, from, to) {
        (fwd, rev)
    } else {
        (push_adj(fwd, from, to), push_adj(rev, to, from))
    }
}

/// Adjacency well-formed: each list is non-empty and free of repeats, and
/// the reverse map mirrors the forward one edge for edge.
pub open spec fn adj_wf(fwd: Map<Seq<char>, Seq<Seq<char>>>, rev: Map<Seq<char>, Seq<Seq<char>>>) -> bool {
    &&& forall|a: Seq<char>| #[trigger] fwd.contains_key(a) ==> fwd[a].len() > 0 && fwd[a].no_duplicates()
    &&& forall|a: Seq<char>| #[trigger] rev.contains_key(a) ==> rev[a].len() > 0 && rev[a].no_duplicates()
    &&& forall|a: Seq<char>, b: Seq<char>| #[trigger] lists(fwd, a, b) <==> #[trigger] lists(rev, b, a)
}

/// Declaring an edge a second time leaves the adjacency as the first
/// declaration left it.
pub proof fn lemma_add_edge_idempotent(
    fwd: Map<Seq<char>, Seq<Seq<char>>>,
    rev: Map<Seq<char>, Seq<Seq<char>>>,
    from: Seq<char>,
    to: Seq<char>,
)
    ensures
        edge_added(edge_added(fwd, rev, from, to).0, edge_added(fwd, rev, from, to).1, from, to)
            == edge_added(fwd, rev, from, to),
{
    let once = edge_added(fwd, rev, from, to);
    if !lists(fwd, from, to) {
        let l = if fwd.contains_key(from) { fwd[from].push(to) } else { seq![to] };
        assert(l[l.len() - 1] == to);
        assert(once.0[from] == l);
        assert(lists(once.0, from, to));
    }
}

proof fn lemma_push_adj_lists(m: Map<Seq<char>, Seq<Seq<char>>>, k: Seq<char>, v: Seq<char>, a: Seq<char>, b: Seq<char>)
    ensures
        lists(push_adj(m, k, v), a, b) <==> (lists(m, a, b) || (a == k && b == v)),
{
    if a == k {
        if m.contains_key(k) {
            lemma_push_contains(m[k], v, b);
        } else {
            lemma_push_contains(Seq::<Seq<char>>::empty(), v, b);
            assert(seq![v] =~= Seq::<Seq<char>>::empty().push(v));
        }
    }
}

/// The dependency graph: forward (prerequisite to its dependents) and
/// reverse (dependent to its prerequisites) adjacency.
pub struct Graph {
    forward: AdjMap,
    reverse: AdjMap,
}

impl Graph {
    /// Prerequisite to its direct dependents, in order of declaration.
    pub closed spec fn fwd(&self) -> Map<Seq<char>, Seq<Seq<char>>> {
        adj_contents(self.forward)
    }

    /// Dependent to its direct prerequisites, in order of declaration.
    pub closed spec fn rev(&self) -> Map<Seq<char>, Seq<Seq<char>>> {
        adj_contents(self.reverse)
    }

    pub open spec fn wf(&self) -> bool {
        adj_wf(self.fwd(), self.rev())
    }

    /// Whether `to` depends on `from`.
    pub open spec fn has_edge(&self, from: Seq<char>, to: Seq<char>) -> bool {
        lists(self.fwd(), from, to)
    }

    pub fn new() -> (r: Graph)
        ensures
            r.wf(),
            r.fwd().dom() == Set::<Seq<char>>::empty(),
            r.rev().dom() == Set::<Seq<char>>::empty(),
    {
        Graph { forward: adj_new(), reverse: adj_new() }
    }

    /// Every identity that has dependents, once each, in no fixed order.
    pub fn sources(&self) -> (r: Vec<&'static str>)
        ensures
            forall|k: Seq<char>| #[trigger] r.deep_view().contains(k) <==> self.fwd().contains_key(k),
    {
        adj_keys(&self.forward)
    }

    /// The direct dependents of `name`, if it has any.
    pub fn dependents(&self, name: &str) -> (r: Option<&Vec<&'static str>>)
        ensures
            match r {
                Some(v) => self.fwd().contains_key(name@) && v.deep_view() == self.fwd()[name@],
                None => !self.fwd().contains_key(name@),
            },
    {
        adj_get(&self.forward, name)
    }

    /// The direct prerequisites of `name`, if it has any.
    pub fn prerequisites(&self, name: &str) -> (r: Option<&Vec<&'static str>>)
        ensures
            match r {
                Some(v) => self.rev().contains_key(name@) && v.deep_view() == self.rev()[name@],
                None => !self.rev().contains_key(name@),
            },
    {
        adj_get(&self.reverse, name)
    }

    /// Whether `to` is declared to depend on `from`.
    pub fn contains_edge(&self, from: &str, to: &str) -> (r: bool)
        ensures
            r == self.has_edge(from@, to@),
    {
        match adj_get(&self.forward, from) {
            Some(v) => contains_name(v, to),
            None => false,
        }
    }

    /// Declares that `to` depends on `from`; a no-op when already declared.
    pub fn add_edge(&mut self, from: &'static str, to: &'static str)
        requires
            old(self).wf(),
        ensures
            final(self).wf(),
            (final(self).fwd(), final(self).rev()) == edge_added(old(self).fwd(), old(self).rev(), from@, to@),
    {
        if self.contains_edge(from, to) {
            return;
        }
        let ghost f0 = self.fwd();
        let ghost r0 = self.rev();
        Self::push_entry(&mut self.forward, from, to);
        Self::push_entry(&mut self.reverse, to, from);
        proof {
            let f1 = self.fwd();
            let r1 = self.rev();
            assert forall|a: Seq<char>, b: Seq<char>| #[trigger] lists(f1, a, b) <==> #[trigger] lists(r1, b, a) by {
                lemma_push_adj_lists(f0, from@, to@, a, b);
                lemma_push_adj_lists(r0, to@, from@, b, a);
            }
            assert forall|a: Seq<char>| #[trigger] r1.contains_key(a) implies r1[a].len() > 0 && r1[a].no_duplicates() by {
                if a == to@ && r0.contains_key(a) {
                    assert(!lists(f0, from@, to@));
                    assert(!lists(r0, to@, from@));
                    lemma_push_no_duplicates(r0[a], from@);
                }
            }
            assert forall|a: Seq<char>| #[trigger] f1.contains_key(a) implies f1[a].len() > 0 && f1[a].no_duplicates() by {
                if a == from@ && f0.contains_key(a) {
                    lemma_push_no_duplicates(f0[a], to@);
                }
            }
        }
    }

    /// Appends `v` to the list under `k`, starting the list where there is none.
    fn push_entry(m: &mut AdjMap, k: &'static str, v: &'static str)
        ensures
            adj_contents(*final(m)) == push_adj(adj_contents(*old(m)), k@, v@),
    {
        let ghost m0 = adj_contents(*m);
        let mut list = match adj_remove(m, k) {
            Some(l) => l,
            None => Vec::new(),
        };
        let ghost before = list.deep_view();
        proof {
            if !m0.contains_key(k@) {
                assert(before =~= Seq::<Seq<char>>::empty());
            }
        }
        list.push(v);
        assert(list.deep_view() =~= before.push(v@));
        adj_insert(m, k, list);
        proof {
            if m0.contains_key(k@) {
                assert(adj_contents(*m) =~= m0.insert(k@, m0[k@].push(v@)));
            } else {
                assert(seq![v@] =~= Seq::<Seq<char>>::empty().push(v@));
                assert(adj_contents(*m) =~= m0.insert(k@, seq![v@]));
            }
        }
    }
}

} // verus!
