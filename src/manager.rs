use vstd::prelude::*;
use crate::executor::Executor;
use crate::graph::{Graph, edge_added, lists, adj_wf};
use crate::ledger::{TracingInfoManager, TracingInfo, started_at, done_at};
use ahash::AHashSet;
use crate::names::{contains_name, position_of, all_in, lemma_push_contains, lemma_push_no_duplicates, lemma_remove_contains};

verus! {

/// Adjacency as the contracts see it: an identity mapped to the identities
/// listed under it.
pub type Adj = Map<Seq<char>, Seq<Seq<char>>>;

/// Why setting up or starting a run was refused.
#[derive(Debug)]
pub enum ScheduleError {
    /// A task with this identity is already registered.
    DuplicateTask(&'static str),
    /// No registered task is free of prerequisites.
    NoStartNodes,
    /// An edge names this identity, which no task waiting to start carries.
    UnknownTask(&'static str),
    /// These registered tasks could never be released: they sit on a cycle,
    /// behind one, or behind an identity that no task carries.
    Blocked(Vec<&'static str>),
}

/// Forward and reverse adjacency after `from` gains each of `tos` as a
/// dependent, in order.
pub open spec fn edges_added(fwd: Adj, rev: Adj, from: Seq<char>, tos: Seq<Seq<char>>) -> (Adj, Adj)
    decreases tos.len(),
{
    if tos.len() == 0 {
        (fwd, rev)
    } else {
        let g = edges_added(fwd, rev, from, tos.drop_last());
        edge_added(g.0, g.1, from, tos.last())
    }
}

/// Forward and reverse adjacency after `name` comes to depend on each of
/// `deps`, in order.
pub open spec fn deps_added(fwd: Adj, rev: Adj, name: Seq<char>, deps: Seq<Seq<char>>) -> (Adj, Adj)
    decreases deps.len(),
{
    if deps.len() == 0 {
        (fwd, rev)
    } else {
        let g = deps_added(fwd, rev, name, deps.drop_last());
        edge_added(g.0, g.1, deps.last(), name)
    }
}

/// Whether `n` is free of declared prerequisites.
pub open spec fn is_start(rev: Adj, n: Seq<char>) -> bool {
    !rev.contains_key(n)
}

/// `ord` lists identities once each, every one after all of its
/// prerequisites: an order in which releasing them never waits on a task
/// released later.
pub open spec fn is_release_order(ord: Seq<Seq<char>>, rev: Adj) -> bool {
    &&& ord.no_duplicates()
    &&& forall|i: int, p: Seq<char>| 0 <= i < ord.len() && #[trigger] lists(rev, ord[i], p) ==> ord.subrange(0, i).contains(p)
}

/// The identities of handed-out tasks, in order.
pub open spec fn names_of<T>(v: Seq<(&'static str, T)>) -> Seq<Seq<char>> {
    v.map_values(|e: (&'static str, T)| e.0@)
}

#[verifier::external_type_specification]
#[verifier::external_body]
#[verifier::reject_recursive_types(T)]
#[verifier::reject_recursive_types(S)]
pub struct ExAHashSet<T, S>(ahash::AHashSet<T, S>);

/// A set of identities.
pub type ReadySet = AHashSet<&'static str>;

/// What a set of identities holds, by their characters.
pub uninterp spec fn ready_contents(s: ReadySet) -> Set<Seq<char>>;

/// Relies on ahash::AHashSet::new: a new set is empty.
#[verifier::external_body]
fn ready_new() -> (r: ReadySet)
    ensures
        ready_contents(r) == Set::<Seq<char>>::empty(),
{
    AHashSet::new()
}

/// Relies on HashSet::insert, reached through AHashSet's Deref: the set
/// gains `k`.
#[verifier::external_body]
fn ready_insert(s: &mut ReadySet, k: &'static str)
    ensures
        ready_contents(*final(s)) == ready_contents(*old(s)).insert(k@),
{
    s.insert(k);
}

/// Relies on HashSet::contains, reached through AHashSet's Deref: whether an
/// identity equal to `k` is in the set.
#[verifier::external_body]
fn ready_contains(s: &ReadySet, k: &str) -> (r: bool)
    ensures
        r == ready_contents(*s).contains(k@),
{
    s.contains(k)
}

/// Whether every identity of `names` is in `ready`.
fn all_ready(names: &Vec<&'static str>, ready: &ReadySet) -> (r: bool)
    ensures
        r == forall|j: int| 0 <= j < names.deep_view().len() ==> ready_contents(*ready).contains(#[trigger] names.deep_view()[j]),
{
    let mut i: usize = 0;
    while i < names.len()
        invariant
            i <= names.len(),
            forall|j: int| 0 <= j < i ==> ready_contents(*ready).contains(#[trigger] names.deep_view()[j]),
        decreases names.len() - i,
    {
        if !ready_contains(ready, names[i]) {
            assert(!ready_contents(*ready).contains(names.deep_view()[i as int]));
            return false;
        }
        i = i + 1;
    }
    true
}

/// Every prerequisite of `n` is in `ready`.
pub open spec fn prerequisites_ready(rev: Adj, ready: Set<Seq<char>>, n: Seq<char>) -> bool {
    forall|q: Seq<char>| #[trigger] lists(rev, n, q) ==> ready.contains(q)
}

/// A record after `name` finishes at `now`, then after the tasks named in
/// `released` start at `now`.
pub open spec fn after_finish(key: Seq<char>, t: TracingInfo, name: Seq<char>, released: Seq<Seq<char>>, now: i64) -> TracingInfo {
    let mid = if key == name { done_at(t, now) } else { t };
    if released.contains(key) { started_at(mid, now) } else { mid }
}

/// A task handed out when `name` finishes starts at the instant that `name`
/// ended: whether `name` succeeded plays no part, and the dependent's start
/// is never before its prerequisite's end.
pub proof fn lemma_release_not_before_finish(
    tu: TracingInfo,
    td: TracingInfo,
    name: Seq<char>,
    dep: Seq<char>,
    released: Seq<Seq<char>>,
    now: i64,
)
    requires
        tu.status == crate::ledger::Status::Doing,
        td.status == crate::ledger::Status::NotStarted,
        dep != name,
        released.contains(dep),
        !released.contains(name),
    ensures
        after_finish(name, tu, name, released, now).status == crate::ledger::Status::Done,
        after_finish(dep, td, name, released, now).status == crate::ledger::Status::Doing,
        after_finish(dep, td, name, released, now).start_time >= after_finish(name, tu, name, released, now).end_time,
{
}

proof fn lemma_unstarted_absent(ord: Seq<Seq<char>>, rev: Adj, pending: Seq<Seq<char>>, ready: Set<Seq<char>>, m: int)
    requires
        is_release_order(ord, rev),
        forall|n: Seq<char>| #[trigger] ord.contains(n) ==> (pending.contains(n) || ready.contains(n)),
        forall|d: Seq<char>| #[trigger] pending.contains(d) ==> exists|q: Seq<char>| #[trigger] lists(rev, d, q) && !ready.contains(q),
        0 <= m <= ord.len(),
    ensures
        forall|a: int| 0 <= a < m ==> !pending.contains(#[trigger] ord[a]),
    decreases m,
{
    if m > 0 {
        lemma_unstarted_absent(ord, rev, pending, ready, m - 1);
        let d = ord[m - 1];
        if pending.contains(d) {
            let q = choose|q: Seq<char>| #[trigger] lists(rev, d, q) && !ready.contains(q);
            let pre = ord.subrange(0, m - 1);
            assert(pre.contains(q));
            let a = choose|a: int| 0 <= a < pre.len() && pre[a] == q;
            assert(ord[a] == q);
            assert(ord.contains(q));
            assert(pending.contains(ord[a]));
        }
    }
}

/// Every identity that an edge of `fwd` names is in `pending`.
pub open spec fn endpoints_in(fwd: Adj, pending: Seq<Seq<char>>) -> bool {
    forall|a: Seq<char>, b: Seq<char>| #[trigger] lists(fwd, a, b) ==> pending.contains(a) && pending.contains(b)
}

/// `after` is `before` with the records named in `names` started at `now`.
pub open spec fn started_for(before: Map<Seq<char>, TracingInfo>, after: Map<Seq<char>, TracingInfo>, names: Seq<Seq<char>>, now: i64) -> bool {
    &&& after.dom() == before.dom()
    &&& forall|k: Seq<char>| #[trigger] after.contains_key(k) ==> after[k]
        == if names.contains(k) { started_at(before[k], now) } else { before[k] }
}

/// `after` is `before` once `name` finishes at `now` and the tasks named in
/// `released` start at `now`.
pub open spec fn finished_for(before: Map<Seq<char>, TracingInfo>, after: Map<Seq<char>, TracingInfo>, name: Seq<char>, released: Seq<Seq<char>>, now: i64) -> bool {
    &&& after.dom() == before.dom()
    &&& forall|k: Seq<char>| #[trigger] after.contains_key(k) ==> after[k] == after_finish(k, before[k], name, released, now)
}

/// `c` is a cycle of `fwd`: each identity lists the next as a dependent,
/// and the last lists the first.
pub open spec fn is_cycle(c: Seq<Seq<char>>, fwd: Adj) -> bool {
    &&& c.len() > 0
    &&& forall|k: int| 0 <= k < c.len() ==> #[trigger] lists(fwd, c[k], c[(k + 1) % (c.len() as int)])
}

/// Where `x` stands in `ord`.
pub open spec fn pos(ord: Seq<Seq<char>>, x: Seq<char>) -> int {
    choose|i: int| 0 <= i < ord.len() && ord[i] == x
}

proof fn lemma_edge_ordered(ord: Seq<Seq<char>>, fwd: Adj, rev: Adj, a: Seq<char>, b: Seq<char>)
    requires
        adj_wf(fwd, rev),
        is_release_order(ord, rev),
        lists(fwd, a, b),
        ord.contains(a),
        ord.contains(b),
    ensures
        0 <= pos(ord, a) < pos(ord, b) < ord.len(),
        ord[pos(ord, a)] == a,
        ord[pos(ord, b)] == b,
{
    let ib = pos(ord, b);
    let ia = pos(ord, a);
    assert(lists(rev, b, a));
    assert(lists(rev, ord[ib], a));
    assert(ord.subrange(0, ib).contains(a));
    let j = choose|j: int| 0 <= j < ib && ord.subrange(0, ib)[j] == a;
    assert(ord[j] == a);
    assert(ord[ia] == a);
}

proof fn lemma_cycle_prefix(ord: Seq<Seq<char>>, fwd: Adj, rev: Adj, c: Seq<Seq<char>>, m: int)
    requires
        adj_wf(fwd, rev),
        is_release_order(ord, rev),
        is_cycle(c, fwd),
        forall|k: int| 0 <= k < c.len() ==> ord.contains(#[trigger] c[k]),
        0 <= m < c.len(),
    ensures
        pos(ord, c[0]) <= pos(ord, c[m]),
    decreases m,
{
    if m > 0 {
        let len = c.len() as int;
        lemma_cycle_prefix(ord, fwd, rev, c, m - 1);
        assert((m - 1 + 1) % len == m) by (nonlinear_arith)
            requires 0 < m < len;
        assert(lists(fwd, c[m - 1], c[(m - 1 + 1) % len]));
        assert(ord.contains(c[m - 1]));
        assert(ord.contains(c[m]));
        lemma_edge_ordered(ord, fwd, rev, c[m - 1], c[m]);
    }
}

/// In a release order no identity waits, through the graph's edges, on
/// itself: the identities of a cycle are never all in it.
pub proof fn lemma_release_order_acyclic(ord: Seq<Seq<char>>, fwd: Adj, rev: Adj, c: Seq<Seq<char>>)
    requires
        adj_wf(fwd, rev),
        is_release_order(ord, rev),
    ensures
        !(is_cycle(c, fwd) && forall|k: int| 0 <= k < c.len() ==> ord.contains(#[trigger] c[k])),
{
    if is_cycle(c, fwd) && forall|k: int| 0 <= k < c.len() ==> ord.contains(#[trigger] c[k]) {
        let len = c.len() as int;
        lemma_cycle_prefix(ord, fwd, rev, c, len - 1);
        assert((len - 1 + 1) % len == 0) by {
            assert(len % len == 0);
        }
        assert(lists(fwd, c[len - 1], c[(len - 1 + 1) % len]));
        assert(ord.contains(c[len - 1]));
        assert(ord.contains(c[0]));
        lemma_edge_ordered(ord, fwd, rev, c[len - 1], c[0]);
    }
}

/// `ord` is a release order of exactly the identities of `pending`.
pub open spec fn orders_pending(ord: Seq<Seq<char>>, pending: Seq<Seq<char>>, rev: Adj) -> bool {
    &&& is_release_order(ord, rev)
    &&& forall|n: Seq<char>| #[trigger] ord.contains(n) <==> pending.contains(n)
}

/// `d` has a prerequisite outside the first `i` identities of `released`.
pub open spec fn held_back(rev: Adj, released: Seq<Seq<char>>, i: int, d: Seq<char>) -> bool {
    exists|q: Seq<char>| #[trigger] lists(rev, d, q) && !released.subrange(0, i).contains(q)
}

/// The scheduler: the dependency graph, the tasks not yet started, the
/// tracing ledger of every registered task, the tasks that reached a
/// terminal state in the current run, and the run's deadline.
pub struct Manager<T> {
    timeout_ms: u64,
    graph: Graph,
    // The registry is a `Vec` of pairs rather than a hash map: a name for a
    // hash map's contents cannot range over the generic task type.
    exectors: Vec<(&'static str, T)>,
    tracing: TracingInfoManager,
    ready: ReadySet,
}

impl<T: Executor> Manager<T> {
    /// Identities of the tasks not yet started, in order of registration.
    pub closed spec fn pending(&self) -> Seq<Seq<char>> {
        self.exectors@.map_values(|e: (&'static str, T)| e.0@)
    }

    /// The tasks not yet started, in the order of `pending`.
    pub closed spec fn pending_tasks(&self) -> Seq<T> {
        self.exectors@.map_values(|e: (&'static str, T)| e.1)
    }

    /// Each task not yet started, with its identity, in order of registration.
    pub closed spec fn entries(&self) -> Seq<(Seq<char>, T)> {
        self.exectors@.map_values(|e: (&'static str, T)| (e.0@, e.1))
    }

    /// Identities of every registered task.
    pub closed spec fn registered(&self) -> Set<Seq<char>> {
        self.tracing.records().dom()
    }

    /// The tracing record of each registered task.
    pub closed spec fn infos(&self) -> Map<Seq<char>, TracingInfo> {
        self.tracing.records()
    }

    /// Identities that reached a terminal state in this run.
    pub closed spec fn ready_names(&self) -> Set<Seq<char>> {
        ready_contents(self.ready)
    }

    pub closed spec fn fwd(&self) -> Adj {
        self.graph.fwd()
    }

    pub closed spec fn rev(&self) -> Adj {
        self.graph.rev()
    }

    pub closed spec fn deadline(&self) -> u64 {
        self.timeout_ms
    }

    pub closed spec fn wf(&self) -> bool {
        &&& self.graph.wf()
        &&& self.pending().no_duplicates()
        &&& forall|i: int| 0 <= i < self.pending().len() ==> self.registered().contains(#[trigger] self.pending()[i])
        &&& forall|n: Seq<char>| #[trigger] self.pending().contains(n) ==> self.infos()[n].status == crate::ledger::Status::NotStarted
    }

    /// A well-formed scheduler's forward and reverse adjacency mirror each
    /// other edge for edge, each list free of repeats.
    pub proof fn lemma_wf_graph(&self)
        requires
            self.wf(),
        ensures
            adj_wf(self.fwd(), self.rev()),
    {
    }

    /// Each task not yet started waits on a prerequisite not yet ready: what
    /// holds through a run, so that nothing eligible is left behind.
    pub open spec fn waits_on_unready(&self) -> bool {
        forall|d: Seq<char>| #[trigger] self.pending().contains(d) ==> exists|q: Seq<char>| #[trigger] lists(self.rev(), d, q) && !self.ready_names().contains(q)
    }

    pub fn new(timeout_ms: u64) -> (r: Self)
        ensures
            r.wf(),
            r.deadline() == timeout_ms,
            r.pending().len() == 0,
            r.registered() == Set::<Seq<char>>::empty(),
            r.ready_names() == Set::<Seq<char>>::empty(),
            r.fwd().dom() == Set::<Seq<char>>::empty(),
            r.rev().dom() == Set::<Seq<char>>::empty(),
    {
        let r = Manager {
            timeout_ms,
            graph: Graph::new(),
            exectors: Vec::new(),
            tracing: TracingInfoManager::new(),
            ready: ready_new(),
        };
        assert(r.pending() =~= Seq::<Seq<char>>::empty());
        r
    }

    /// The run's deadline, in milliseconds.
    pub fn timeout_ms(&self) -> (r: u64)
        ensures
            r == self.deadline(),
    {
        self.timeout_ms
    }

    /// Registers `exector` under `name`, which must be the identity the task
    /// reports. A name already registered is refused and changes nothing.
    pub fn register(&mut self, name: &'static str, exector: T) -> (r: Result<(), ScheduleError>)
        requires
            old(self).wf(),
        ensures
            final(self).wf(),
            final(self).fwd() == old(self).fwd(),
            final(self).rev() == old(self).rev(),
            final(self).ready_names() == old(self).ready_names(),
            final(self).deadline() == old(self).deadline(),
            r is Ok <==> !old(self).registered().contains(name@),
            match r {
                Ok(()) => {
                    &&& final(self).infos() == old(self).infos().insert(name@, crate::ledger::fresh_info())
                    &&& final(self).pending() == old(self).pending().push(name@)
                    &&& final(self).pending_tasks() == old(self).pending_tasks().push(exector)
                },
                Err(ScheduleError::DuplicateTask(n)) => {
                    &&& n@ == name@
                    &&& final(self).pending() == old(self).pending()
                    &&& final(self).pending_tasks() == old(self).pending_tasks()
                    &&& final(self).infos() == old(self).infos()
                },
                Err(_) => false,
            },
    {
        if self.tracing.get_tracing_info(name).is_some() {
            return Err(ScheduleError::DuplicateTask(name));
        }
        let ghost old_pending = self.pending();
        self.exectors.push((name, exector));
        self.tracing.add_tracing_info(name);
        proof {
            assert(self.pending() =~= old_pending.push(name@));
            assert(self.pending_tasks() =~= old(self).pending_tasks().push(exector));
            assert(self.registered() =~= old(self).registered().insert(name@));
            assert forall|i: int| 0 <= i < self.pending().len() implies self.registered().contains(#[trigger] self.pending()[i]) by {
                if i < old_pending.len() {
                    assert(old(self).registered().contains(old_pending[i]));
                }
            }
            assert forall|i: int, j: int| 0 <= i < j < self.pending().len() implies self.pending()[i] != self.pending()[j] by {
                if j == old_pending.len() {
                    assert(old(self).registered().contains(old_pending[i]));
                }
            }
            assert forall|n: Seq<char>| #[trigger] self.pending().contains(n) implies self.infos()[n].status == crate::ledger::Status::NotStarted by {
                lemma_push_contains(old_pending, name@, n);
                if n != name@ {
                    assert(old_pending.contains(n));
                }
            }
        }
        Ok(())
    }

    /// Registers `exector` under the identity that its `name` reports; see
    /// `register`. What that identity is rests with the task.
    pub fn add_exector(&mut self, exector: T) -> (r: Result<(), ScheduleError>)
        requires
            old(self).wf(),
        ensures
            final(self).wf(),
            final(self).fwd() == old(self).fwd(),
            final(self).rev() == old(self).rev(),
            final(self).ready_names() == old(self).ready_names(),
            final(self).deadline() == old(self).deadline(),
            match r {
                Ok(()) => exists|n: Seq<char>| {
                    &&& !old(self).registered().contains(n)
                    &&& #[trigger] final(self).infos() == old(self).infos().insert(n, crate::ledger::fresh_info())
                    &&& final(self).pending() == old(self).pending().push(n)
                    &&& final(self).pending_tasks() == old(self).pending_tasks().push(exector)
                },
                Err(ScheduleError::DuplicateTask(n)) => {
                    &&& old(self).registered().contains(n@)
                    &&& final(self).pending() == old(self).pending()
                    &&& final(self).pending_tasks() == old(self).pending_tasks()
                    &&& final(self).infos() == old(self).infos()
                },
                Err(_) => false,
            },
    {
        let name = exector.name();
        self.register(name, exector)
    }

    /// Registers each task in turn; stops at the first whose identity is
    /// already registered, keeping those registered before it.
    pub fn add_exectors(&mut self, exectors: Vec<T>) -> (r: Result<(), ScheduleError>)
        requires
            old(self).wf(),
        ensures
            final(self).wf(),
            final(self).fwd() == old(self).fwd(),
            final(self).rev() == old(self).rev(),
            final(self).deadline() == old(self).deadline(),
            old(self).registered().subset_of(final(self).registered()),
            r is Ok ==> final(self).pending_tasks() == old(self).pending_tasks() + exectors@,
            match r {
                Err(ScheduleError::DuplicateTask(n)) => final(self).registered().contains(n@),
                Err(_) => false,
                Ok(()) => true,
            },
    {
        let ghost input = exectors@;
        let total = exectors.len();
        let mut rest = exectors;
        let mut k: usize = 0;
        while rest.len() > 0
            invariant
                self.wf(),
                self.fwd() == old(self).fwd(),
                self.rev() == old(self).rev(),
                self.deadline() == old(self).deadline(),
                old(self).registered().subset_of(self.registered()),
                k + rest@.len() == input.len(),
                total == input.len(),
                rest@ == input.subrange(k as int, input.len() as int),
                self.pending_tasks() == old(self).pending_tasks() + input.subrange(0, k as int),
            decreases rest@.len(),
        {
            let e = rest.remove(0);
            let ghost before = self.registered();
            match self.add_exector(e) {
                Ok(()) => {},
                Err(err) => {
                    proof {
                        assert(self.registered() == before);
                    }
                    return Err(err);
                },
            }
            proof {
                assert(before.subset_of(self.registered()));
                assert(input[k as int] == e);
                assert(input.subrange(0, k + 1) =~= input.subrange(0, k as int).push(e));
                assert(self.pending_tasks() =~= old(self).pending_tasks() + input.subrange(0, k + 1));
                assert(rest@ =~= input.subrange(k + 1, input.len() as int));
            }
            k = k + 1;
        }
        proof {
            assert(input.subrange(0, k as int) =~= input);
        }
        Ok(())
    }

    /// Declares that `to` depends on `from`; a no-op when already declared.
    pub fn add_edge(&mut self, from: &'static str, to: &'static str)
        requires
            old(self).wf(),
        ensures
            final(self).wf(),
            (final(self).fwd(), final(self).rev()) == edge_added(old(self).fwd(), old(self).rev(), from@, to@),
            final(self).registered() == old(self).registered(),
            final(self).infos() == old(self).infos(),
            final(self).pending() == old(self).pending(),
            final(self).pending_tasks() == old(self).pending_tasks(),
            final(self).ready_names() == old(self).ready_names(),
            final(self).deadline() == old(self).deadline(),
    {
        self.graph.add_edge(from, to);
    }

    /// Declares each of `to_list` dependent on `from`, in order.
    pub fn add_edges(&mut self, from: &'static str, to_list: Vec<&'static str>)
        requires
            old(self).wf(),
        ensures
            final(self).wf(),
            (final(self).fwd(), final(self).rev()) == edges_added(old(self).fwd(), old(self).rev(), from@, to_list.deep_view()),
            final(self).registered() == old(self).registered(),
            final(self).infos() == old(self).infos(),
            final(self).pending() == old(self).pending(),
            final(self).pending_tasks() == old(self).pending_tasks(),
            final(self).ready_names() == old(self).ready_names(),
            final(self).deadline() == old(self).deadline(),
    {
        let mut i: usize = 0;
        while i < to_list.len()
            invariant
                i <= to_list@.len(),
                self.wf(),
                (self.fwd(), self.rev()) == edges_added(old(self).fwd(), old(self).rev(), from@, to_list.deep_view().subrange(0, i as int)),
                self.registered() == old(self).registered(),
                self.infos() == old(self).infos(),
                self.pending() == old(self).pending(),
                self.pending_tasks() == old(self).pending_tasks(),
                self.ready_names() == old(self).ready_names(),
                self.deadline() == old(self).deadline(),
            decreases to_list@.len() - i,
        {
            let to = to_list[i];
            self.add_edge(from, to);
            proof {
                let s = to_list.deep_view().subrange(0, i + 1);
                assert(s.drop_last() =~= to_list.deep_view().subrange(0, i as int));
                assert(s.last() == to@);
            }
            i = i + 1;
        }
        assert(to_list.deep_view().subrange(0, i as int) =~= to_list.deep_view());
    }

    /// Declares that `name` depends on `dep`.
    pub fn add_dep(&mut self, name: &'static str, dep: &'static str)
        requires
            old(self).wf(),
        ensures
            final(self).wf(),
            (final(self).fwd(), final(self).rev()) == edge_added(old(self).fwd(), old(self).rev(), dep@, name@),
            final(self).registered() == old(self).registered(),
            final(self).infos() == old(self).infos(),
            final(self).pending() == old(self).pending(),
            final(self).pending_tasks() == old(self).pending_tasks(),
            final(self).ready_names() == old(self).ready_names(),
            final(self).deadline() == old(self).deadline(),
    {
        self.add_edge(dep, name);
    }

    /// Declares that `name` depends on each of `deps`, in order.
    pub fn add_deps(&mut self, name: &'static str, deps: Vec<&'static str>)
        requires
            old(self).wf(),
        ensures
            final(self).wf(),
            (final(self).fwd(), final(self).rev()) == deps_added(old(self).fwd(), old(self).rev(), name@, deps.deep_view()),
            final(self).registered() == old(self).registered(),
            final(self).infos() == old(self).infos(),
            final(self).pending() == old(self).pending(),
            final(self).pending_tasks() == old(self).pending_tasks(),
            final(self).ready_names() == old(self).ready_names(),
            final(self).deadline() == old(self).deadline(),
    {
        let mut i: usize = 0;
        while i < deps.len()
            invariant
                i <= deps@.len(),
                self.wf(),
                (self.fwd(), self.rev()) == deps_added(old(self).fwd(), old(self).rev(), name@, deps.deep_view().subrange(0, i as int)),
                self.registered() == old(self).registered(),
                self.infos() == old(self).infos(),
                self.pending() == old(self).pending(),
                self.pending_tasks() == old(self).pending_tasks(),
                self.ready_names() == old(self).ready_names(),
                self.deadline() == old(self).deadline(),
            decreases deps@.len() - i,
        {
            let dep = deps[i];
            self.add_dep(name, dep);
            proof {
                let s = deps.deep_view().subrange(0, i + 1);
                assert(s.drop_last() =~= deps.deep_view().subrange(0, i as int));
                assert(s.last() == dep@);
            }
            i = i + 1;
        }
        assert(deps.deep_view().subrange(0, i as int) =~= deps.deep_view());
    }

    /// Whether a task registered as `name` is waiting to start.
    pub fn is_pending(&self, name: &str) -> (r: bool)
        ensures
            r == self.pending().contains(name@),
    {
        let mut i: usize = 0;
        while i < self.exectors.len()
            invariant
                i <= self.exectors@.len(),
                self.exectors@.len() == self.pending().len(),
                forall|j: int| 0 <= j < i ==> self.pending()[j] != name@,
            decreases self.exectors@.len() - i,
        {
            if crate::names::same_name(self.exectors[i].0, name) {
                assert(self.pending()[i as int] == name@);
                return true;
            }
            i = i + 1;
        }
        false
    }

    /// The tasks not yet started that have no declared prerequisite, in
    /// order of registration.
    pub fn find_start_nodes(&self) -> (r: Vec<&'static str>)
        requires
            self.wf(),
        ensures
            r.deep_view().no_duplicates(),
            forall|n: Seq<char>| #[trigger] r.deep_view().contains(n) <==> (self.pending().contains(n) && is_start(self.rev(), n)),
    {
        let mut out: Vec<&'static str> = Vec::new();
        let mut k: usize = 0;
        while k < self.exectors.len()
            invariant
                self.wf(),
                k <= self.pending().len(),
                self.pending().len() == self.exectors@.len(),
                out.deep_view().no_duplicates(),
                forall|n: Seq<char>| #[trigger] out.deep_view().contains(n) <==> (self.pending().subrange(0, k as int).contains(n) && is_start(self.rev(), n)),
            decreases self.exectors@.len() - k,
        {
            let name = self.exectors[k].0;
            let ghost before = out.deep_view();
            let ghost seen = self.pending().subrange(0, k as int);
            assert(self.pending()[k as int] == name@);
            proof {
                assert(self.pending().subrange(0, k + 1) =~= seen.push(name@));
                assert(!seen.contains(name@)) by {
                    if seen.contains(name@) {
                        let j = choose|j: int| 0 <= j < seen.len() && seen[j] == name@;
                        assert(self.pending()[j] == self.pending()[k as int]);
                    }
                }
            }
            if self.graph.prerequisites(name).is_none() {
                out.push(name);
                proof {
                    assert(out.deep_view() =~= before.push(name@));
                    lemma_push_no_duplicates(before, name@);
                    assert forall|n: Seq<char>| #[trigger] out.deep_view().contains(n) <==> (self.pending().subrange(0, k + 1).contains(n) && is_start(self.rev(), n)) by {
                        lemma_push_contains(before, name@, n);
                        lemma_push_contains(seen, name@, n);
                    }
                }
            } else {
                proof {
                    assert forall|n: Seq<char>| #[trigger] out.deep_view().contains(n) <==> (self.pending().subrange(0, k + 1).contains(n) && is_start(self.rev(), n)) by {
                        lemma_push_contains(seen, name@, n);
                    }
                }
            }
            k = k + 1;
        }
        assert(self.pending().subrange(0, k as int) =~= self.pending());
        out
    }

    /// Checks the graph before a run and returns its start nodes. With no
    /// start node it fails with `NoStartNodes`; with an edge that names an
    /// identity no waiting task carries, with `UnknownTask`. Otherwise it
    /// releases tasks as a run would, each once all its prerequisites are
    /// released, and fails with `Blocked` naming the tasks never released.
    /// On success every waiting task has a place in a release order and the
    /// graph has no cycle.
    pub fn pre_check_and_find_start_nodes(&self) -> (r: Result<Vec<&'static str>, ScheduleError>)
        requires
            self.wf(),
        ensures
            match r {
                Ok(starts) => {
                    &&& starts.deep_view().len() > 0
                    &&& starts.deep_view().no_duplicates()
                    &&& forall|n: Seq<char>| #[trigger] starts.deep_view().contains(n) <==> (self.pending().contains(n) && is_start(self.rev(), n))
                    &&& endpoints_in(self.fwd(), self.pending())
                    &&& exists|ord: Seq<Seq<char>>| orders_pending(ord, self.pending(), self.rev())
                    &&& forall|c: Seq<Seq<char>>| !is_cycle(c, self.fwd())
                },
                Err(ScheduleError::NoStartNodes) => forall|n: Seq<char>| #[trigger] self.pending().contains(n) ==> !is_start(self.rev(), n),
                Err(ScheduleError::UnknownTask(n)) => {
                    &&& exists|m: Seq<char>| #[trigger] self.pending().contains(m) && is_start(self.rev(), m)
                    &&& !self.pending().contains(n@)
                    &&& exists|b: Seq<char>| lists(self.fwd(), n@, b) || lists(self.fwd(), b, n@)
                },
                Err(ScheduleError::Blocked(b)) => {
                    &&& b.deep_view().len() > 0
                    &&& forall|i: int| 0 <= i < b.deep_view().len() ==> self.pending().contains(#[trigger] b.deep_view()[i])
                    &&& exists|n: Seq<char>| #[trigger] self.pending().contains(n) && is_start(self.rev(), n)
                    &&& endpoints_in(self.fwd(), self.pending())
                    &&& forall|ord: Seq<Seq<char>>| !orders_pending(ord, self.pending(), self.rev())
                },
                Err(_) => false,
            },
    {
        let starts = self.find_start_nodes();
        if starts.len() == 0 {
            proof {
                assert forall|n: Seq<char>| #[trigger] self.pending().contains(n) implies !is_start(self.rev(), n) by {
                    if is_start(self.rev(), n) {
                        assert(starts.deep_view().contains(n));
                    }
                }
            }
            return Err(ScheduleError::NoStartNodes);
        }
        proof {
            assert(starts.deep_view().contains(starts.deep_view()[0]));
            assert(self.pending().contains(starts.deep_view()[0]) && is_start(self.rev(), starts.deep_view()[0]));
        }
        // Every identity that an edge names must be a task waiting to start.
        let ghost w = starts.deep_view()[0];
        let sources = self.graph.sources();
        let mut s: usize = 0;
        while s < sources.len()
            invariant
                self.wf(),
                self.pending().contains(w) && is_start(self.rev(), w),
                s <= sources@.len(),
                forall|k: Seq<char>| #[trigger] sources.deep_view().contains(k) <==> self.fwd().contains_key(k),
                forall|x: int, b: Seq<char>| 0 <= x < s && #[trigger] lists(self.fwd(), sources.deep_view()[x], b)
                    ==> self.pending().contains(sources.deep_view()[x]) && self.pending().contains(b),
            decreases sources@.len() - s,
        {
            let a = sources[s];
            proof {
                assert(sources.deep_view()[s as int] == a@);
                assert(sources.deep_view().contains(a@));
            }
            if !self.is_pending(a) {
                proof {
                    let l = self.fwd()[a@];
                    assert(lists(self.fwd(), a@, l[0]));
                    assert(exists|x: Seq<char>| lists(self.fwd(), a@, x) || lists(self.fwd(), x, a@));
                }
                return Err(ScheduleError::UnknownTask(a));
            }
            match self.graph.dependents(a) {
                Some(list) => {
                    let mut j: usize = 0;
                    while j < list.len()
                        invariant
                            self.wf(),
                            self.pending().contains(w) && is_start(self.rev(), w),
                            j <= list@.len(),
                            list.deep_view() == self.fwd()[a@],
                            self.fwd().contains_key(a@),
                            forall|y: int| 0 <= y < j ==> self.pending().contains(#[trigger] list.deep_view()[y]),
                        decreases list@.len() - j,
                    {
                        let b = list[j];
                        proof {
                            assert(list.deep_view()[j as int] == b@);
                            assert(lists(self.fwd(), a@, b@));
                        }
                        if !self.is_pending(b) {
                            assert(exists|x: Seq<char>| lists(self.fwd(), b@, x) || lists(self.fwd(), x, b@));
                            return Err(ScheduleError::UnknownTask(b));
                        }
                        j = j + 1;
                    }
                    proof {
                        assert forall|x: int, b: Seq<char>| 0 <= x < s + 1 && #[trigger] lists(self.fwd(), sources.deep_view()[x], b)
                            implies self.pending().contains(sources.deep_view()[x]) && self.pending().contains(b) by {
                            if x == s {
                                let y = choose|y: int| 0 <= y < list.deep_view().len() && list.deep_view()[y] == b;
                                assert(self.pending().contains(list.deep_view()[y]));
                            }
                        }
                    }
                },
                None => {},
            }
            s = s + 1;
        }
        proof {
            assert forall|a: Seq<char>, b: Seq<char>| #[trigger] lists(self.fwd(), a, b) implies self.pending().contains(a) && self.pending().contains(b) by {
                assert(sources.deep_view().contains(a));
                let x = choose|x: int| 0 <= x < sources.deep_view().len() && sources.deep_view()[x] == a;
                assert(lists(self.fwd(), sources.deep_view()[x], b));
            }
        }
        let ghost pend = self.pending();
        let ghost rev = self.rev();
        // Split the tasks not yet started into the start nodes, released
        // at once, and the rest, which wait.
        let mut released: Vec<&'static str> = Vec::new();
        let mut waiting: Vec<&'static str> = Vec::new();
        let mut k: usize = 0;
        while k < self.exectors.len()
            invariant
                self.wf(),
                pend == self.pending(),
                rev == self.rev(),
                k <= pend.len(),
                pend.len() == self.exectors@.len(),
                forall|n: Seq<char>| #[trigger] starts.deep_view().contains(n) <==> (pend.contains(n) && is_start(rev, n)),
                released.deep_view().no_duplicates(),
                waiting.deep_view().no_duplicates(),
                forall|n: Seq<char>| #[trigger] released.deep_view().contains(n) <==> (pend.subrange(0, k as int).contains(n) && is_start(rev, n)),
                forall|n: Seq<char>| #[trigger] waiting.deep_view().contains(n) <==> (pend.subrange(0, k as int).contains(n) && !is_start(rev, n)),
            decreases self.exectors@.len() - k,
        {
            let name = self.exectors[k].0;
            let ghost seen = pend.subrange(0, k as int);
            let ghost rel0 = released.deep_view();
            let ghost wait0 = waiting.deep_view();
            proof {
                assert(pend[k as int] == name@);
                assert(pend.subrange(0, k + 1) =~= seen.push(name@));
                assert(!seen.contains(name@)) by {
                    if seen.contains(name@) {
                        let j = choose|j: int| 0 <= j < seen.len() && seen[j] == name@;
                        assert(pend[j] == pend[k as int]);
                    }
                }
                assert(pend.contains(name@));
            }
            if contains_name(&starts, name) {
                released.push(name);
                proof {
                    assert(released.deep_view() =~= rel0.push(name@));
                    lemma_push_no_duplicates(rel0, name@);
                }
            } else {
                waiting.push(name);
                proof {
                    assert(waiting.deep_view() =~= wait0.push(name@));
                    lemma_push_no_duplicates(wait0, name@);
                }
            }
            proof {
                assert forall|n: Seq<char>| #[trigger] released.deep_view().contains(n) <==> (pend.subrange(0, k + 1).contains(n) && is_start(rev, n)) by {
                    lemma_push_contains(seen, name@, n);
                    lemma_push_contains(rel0, name@, n);
                }
                assert forall|n: Seq<char>| #[trigger] waiting.deep_view().contains(n) <==> (pend.subrange(0, k + 1).contains(n) && !is_start(rev, n)) by {
                    lemma_push_contains(seen, name@, n);
                    lemma_push_contains(wait0, name@, n);
                }
            }
            k = k + 1;
        }
        proof {
            assert(pend.subrange(0, k as int) =~= pend);
            assert forall|i: int, q: Seq<char>| 0 <= i < released.deep_view().len() && #[trigger] lists(rev, released.deep_view()[i], q)
                implies released.deep_view().subrange(0, i).contains(q) by {
                assert(released.deep_view().contains(released.deep_view()[i]));
            }
        }
        // Release as a run would: a waiting task goes once every one of its
        // prerequisites is released.
        let mut i: usize = 0;
        while i < released.len()
            invariant
                self.wf(),
                pend == self.pending(),
                rev == self.rev(),
                i <= released@.len(),
                released.deep_view().no_duplicates(),
                waiting.deep_view().no_duplicates(),
                forall|n: Seq<char>| #[trigger] pend.contains(n) <==> (released.deep_view().contains(n) || waiting.deep_view().contains(n)),
                forall|n: Seq<char>| #[trigger] released.deep_view().contains(n) ==> !waiting.deep_view().contains(n),
                is_release_order(released.deep_view(), rev),
                forall|n: Seq<char>| #[trigger] waiting.deep_view().contains(n) ==> !is_start(rev, n),
                forall|k: int, d: Seq<char>| 0 <= k < i && #[trigger] lists(self.fwd(), released.deep_view()[k], d) && waiting.deep_view().contains(d)
                    ==> held_back(rev, released.deep_view(), i as int, d),
            decreases 2 * waiting@.len() + released@.len() - i,
        {
            let n = released[i];
            let ghost m0 = 2 * waiting@.len() + released@.len();
            let ghost rel_start = released.deep_view();
            match self.graph.dependents(n) {
                Some(deps) => {
                    let mut j: usize = 0;
                    while j < deps.len()
                        invariant
                            self.wf(),
                            pend == self.pending(),
                            rev == self.rev(),
                            i < released@.len(),
                            j <= deps@.len(),
                            2 * waiting@.len() + released@.len() <= m0,
                            released.deep_view().no_duplicates(),
                            waiting.deep_view().no_duplicates(),
                            forall|n: Seq<char>| #[trigger] pend.contains(n) <==> (released.deep_view().contains(n) || waiting.deep_view().contains(n)),
                            forall|n: Seq<char>| #[trigger] released.deep_view().contains(n) ==> !waiting.deep_view().contains(n),
                            is_release_order(released.deep_view(), rev),
                            forall|n: Seq<char>| #[trigger] waiting.deep_view().contains(n) ==> !is_start(rev, n),
                            released.deep_view().subrange(0, i + 1) == rel_start.subrange(0, i + 1),
                            rel_start[i as int] == n@,
                            deps.deep_view() == self.fwd()[n@],
                            self.fwd().contains_key(n@),
                            forall|k: int, d: Seq<char>| 0 <= k < i && #[trigger] lists(self.fwd(), rel_start[k], d) && waiting.deep_view().contains(d)
                                ==> held_back(rev, rel_start, i as int, d),
                            forall|a: int| 0 <= a < j && waiting.deep_view().contains(#[trigger] deps.deep_view()[a])
                                ==> held_back(rev, rel_start, i + 1, deps.deep_view()[a]),
                        decreases deps@.len() - j,
                    {
                        let d = deps[j];
                        let ghost wait_j = waiting.deep_view();
                        proof {
                            assert(deps.deep_view()[j as int] == d@);
                            assert(lists(self.fwd(), n@, d@));
                            assert(lists(rev, d@, n@));
                        }
                        match position_of(&waiting, d) {
                            Some(p) => {
                                match self.graph.prerequisites(d) {
                                    Some(pre) => {
                                        if all_in(pre, &released) {
                                            let ghost rel0 = released.deep_view();
                                            let ghost wait0 = waiting.deep_view();
                                            waiting.remove(p);
                                            released.push(d);
                                            proof {
                                                assert(waiting.deep_view() =~= wait0.remove(p as int));
                                                assert(released.deep_view() =~= rel0.push(d@));
                                                assert(released.deep_view().subrange(0, i + 1) =~= rel0.subrange(0, i + 1));
                                                lemma_push_no_duplicates(rel0, d@);
                                                assert forall|x: Seq<char>| #[trigger] pend.contains(x) <==> (released.deep_view().contains(x) || waiting.deep_view().contains(x)) by {
                                                    lemma_remove_contains(wait0, p as int, x);
                                                    lemma_push_contains(rel0, d@, x);
                                                }
                                                assert forall|x: Seq<char>| #[trigger] released.deep_view().contains(x) implies !waiting.deep_view().contains(x) by {
                                                    lemma_remove_contains(wait0, p as int, x);
                                                    lemma_push_contains(rel0, d@, x);
                                                }
                                                assert forall|x: Seq<char>| #[trigger] waiting.deep_view().contains(x) implies wait0.contains(x) by {
                                                    lemma_remove_contains(wait0, p as int, x);
                                                }
                                                lemma_remove_contains(wait0, p as int, d@);
                                                let ord = released.deep_view();
                                                assert forall|a: int, q: Seq<char>| 0 <= a < ord.len() && #[trigger] lists(rev, ord[a], q)
                                                    implies ord.subrange(0, a).contains(q) by {
                                                    if a < rel0.len() {
                                                        assert(ord.subrange(0, a) =~= rel0.subrange(0, a));
                                                    } else {
                                                        assert(ord.subrange(0, a) =~= rel0);
                                                        let c = choose|c: int| 0 <= c < rev[d@].len() && rev[d@][c] == q;
                                                        assert(pre.deep_view()[c] == q);
                                                    }
                                                }
                                            }
                                        } else {
                                            proof {
                                                let pv = rev[d@];
                                                let c = choose|c: int| 0 <= c < pv.len() && !released.deep_view().contains(#[trigger] pv[c]);
                                                let q = pv[c];
                                                assert(lists(rev, d@, q));
                                                assert(!rel_start.subrange(0, i + 1).contains(q)) by {
                                                    let pre_i = rel_start.subrange(0, i + 1);
                                                    if pre_i.contains(q) {
                                                        let x = choose|x: int| 0 <= x < pre_i.len() && pre_i[x] == q;
                                                        assert(released.deep_view().subrange(0, i + 1)[x] == q);
                                                        assert(released.deep_view()[x] == q);
                                                    }
                                                }
                                                assert(held_back(rev, rel_start, i + 1, d@));
                                            }
                                        }
                                    },
                                    None => {},
                                }
                            },
                            None => {},
                        }
                        proof {
                            assert forall|a: int| 0 <= a < j + 1 && waiting.deep_view().contains(#[trigger] deps.deep_view()[a])
                                implies held_back(rev, rel_start, i + 1, deps.deep_view()[a]) by {
                                if a < j {
                                    assert(wait_j.contains(deps.deep_view()[a]));
                                }
                            }
                        }
                        j = j + 1;
                    }
                    proof {
                        let rd = released.deep_view();
                        assert forall|k: int, d: Seq<char>| 0 <= k < i + 1 && #[trigger] lists(self.fwd(), rd[k], d) && waiting.deep_view().contains(d)
                            implies held_back(rev, rd, i + 1, d) by {
                            assert(rd.subrange(0, i + 1)[k] == rel_start.subrange(0, i + 1)[k]);
                            assert(rd[k] == rel_start[k]);
                            if k == i {
                                let a = choose|a: int| 0 <= a < deps.deep_view().len() && deps.deep_view()[a] == d;
                                assert(held_back(rev, rel_start, i + 1, deps.deep_view()[a]));
                            } else {
                                assert(held_back(rev, rel_start, i as int, d));
                                let q = choose|q: Seq<char>| #[trigger] lists(rev, d, q) && !rel_start.subrange(0, i as int).contains(q);
                                if q == n@ {
                                    assert(lists(self.fwd(), n@, d));
                                    let a = choose|a: int| 0 <= a < deps.deep_view().len() && deps.deep_view()[a] == d;
                                    assert(held_back(rev, rel_start, i + 1, deps.deep_view()[a]));
                                } else {
                                    assert(rel_start.subrange(0, i + 1) =~= rel_start.subrange(0, i as int).push(n@));
                                    lemma_push_contains(rel_start.subrange(0, i as int), n@, q);
                                    assert(held_back(rev, rel_start, i + 1, d));
                                }
                            }
                        }
                    }
                },
                None => {
                    proof {
                        let rd = released.deep_view();
                        assert forall|k: int, d: Seq<char>| 0 <= k < i + 1 && #[trigger] lists(self.fwd(), rd[k], d) && waiting.deep_view().contains(d)
                            implies held_back(rev, rd, i + 1, d) by {
                            if k < i {
                                let q = choose|q: Seq<char>| #[trigger] lists(rev, d, q) && !rd.subrange(0, i as int).contains(q);
                                if q == n@ {
                                    assert(lists(self.fwd(), n@, d));
                                } else {
                                    assert(rd.subrange(0, i + 1) =~= rd.subrange(0, i as int).push(n@));
                                    lemma_push_contains(rd.subrange(0, i as int), n@, q);
                                }
                            }
                        }
                    }
                },
            }
            i = i + 1;
        }
        if waiting.len() == 0 {
            proof {
                let ord = released.deep_view();
                assert forall|n: Seq<char>| #[trigger] ord.contains(n) <==> pend.contains(n) by {
                    if !ord.contains(n) {
                        assert(!waiting.deep_view().contains(n));
                    }
                }
                assert(orders_pending(ord, pend, rev));
                assert forall|c: Seq<Seq<char>>| !is_cycle(c, self.fwd()) by {
                    if is_cycle(c, self.fwd()) {
                        self.lemma_validated_graph_acyclic(ord, c);
                    }
                }
            }
            Ok(starts)
        } else {
            proof {
                assert forall|a: int| 0 <= a < waiting.deep_view().len() implies pend.contains(#[trigger] waiting.deep_view()[a]) by {
                    assert(waiting.deep_view().contains(waiting.deep_view()[a]));
                }
            }
            proof {
                let rd = released.deep_view();
                let wd = waiting.deep_view();
                assert(rd.subrange(0, i as int) =~= rd);
                assert forall|d: Seq<char>| #[trigger] wd.contains(d) implies exists|q: Seq<char>| #[trigger] lists(rev, d, q) && !rd.contains(q) by {
                    let q0 = rev[d][0];
                    assert(lists(rev, d, q0));
                    if rd.contains(q0) {
                        let k = choose|k: int| 0 <= k < rd.len() && rd[k] == q0;
                        assert(lists(self.fwd(), rd[k], d));
                        assert(held_back(rev, rd, i as int, d));
                    }
                }
                assert forall|ord: Seq<Seq<char>>| !orders_pending(ord, pend, rev) by {
                    if orders_pending(ord, pend, rev) {
                        let done = Set::new(|x: Seq<char>| rd.contains(x));
                        assert forall|x: Seq<char>| #[trigger] ord.contains(x) implies (wd.contains(x) || done.contains(x)) by {
                            assert(pend.contains(x));
                        }
                        assert forall|d: Seq<char>| #[trigger] wd.contains(d) implies exists|q: Seq<char>| #[trigger] lists(rev, d, q) && !done.contains(q) by {
                            let q = choose|q: Seq<char>| #[trigger] lists(rev, d, q) && !rd.contains(q);
                            assert(lists(rev, d, q) && !done.contains(q));
                        }
                        lemma_unstarted_absent(ord, rev, wd, done, ord.len() as int);
                        let w = wd[0];
                        assert(wd.contains(w));
                        assert(ord.contains(w));
                        let a = choose|a: int| 0 <= a < ord.len() && ord[a] == w;
                        assert(!wd.contains(ord[a]));
                    }
                }
            }
            Err(ScheduleError::Blocked(waiting))
        }
    }

    /// A graph that passes validation has no cycle through tasks not yet
    /// started: the release order that validation finds rules one out.
    pub proof fn lemma_validated_graph_acyclic(&self, ord: Seq<Seq<char>>, c: Seq<Seq<char>>)
        requires
            self.wf(),
            orders_pending(ord, self.pending(), self.rev()),
            endpoints_in(self.fwd(), self.pending()),
        ensures
            !is_cycle(c, self.fwd()),
    {
        if is_cycle(c, self.fwd()) {
            assert forall|k: int| 0 <= k < c.len() implies ord.contains(#[trigger] c[k]) by {
                assert(lists(self.fwd(), c[k], c[(k + 1) % (c.len() as int)]));
                assert(self.pending().contains(c[k]));
            }
        }
        lemma_release_order_acyclic(ord, self.fwd(), self.rev(), c);
    }

    /// Takes the task registered as `name` out of the tasks not yet started.
    fn take(&mut self, name: &str) -> (r: Option<(&'static str, T)>)
        requires
            old(self).wf(),
        ensures
            final(self).wf(),
            final(self).fwd() == old(self).fwd(),
            final(self).rev() == old(self).rev(),
            final(self).registered() == old(self).registered(),
            final(self).infos() == old(self).infos(),
            final(self).ready_names() == old(self).ready_names(),
            final(self).deadline() == old(self).deadline(),
            match r {
                Some(e) => e.0@ == name@ && exists|i: int| 0 <= i < old(self).pending().len()
                    && old(self).pending()[i] == name@
                    && final(self).pending() == old(self).pending().remove(i)
                    && final(self).pending_tasks() == old(self).pending_tasks().remove(i)
                    && e.1 == old(self).pending_tasks()[i],
                None => !old(self).pending().contains(name@) && final(self).pending() == old(self).pending()
                    && final(self).pending_tasks() == old(self).pending_tasks(),
            },
            forall|n: Seq<char>| #[trigger] final(self).pending().contains(n) <==> (old(self).pending().contains(n) && n != name@),
            r is Some <==> old(self).pending().contains(name@),
            r is Some ==> old(self).entries().contains(((r->0).0@, (r->0).1)),
            forall|x: (Seq<char>, T)| #[trigger] final(self).entries().contains(x) ==> old(self).entries().contains(x),
    {
        let mut i: usize = 0;
        while i < self.exectors.len()
            invariant
                i <= self.exectors@.len(),
                self.exectors@.len() == self.pending().len(),
                *self == *old(self),
                self.wf(),
                forall|j: int| 0 <= j < i ==> self.pending()[j] != name@,
            decreases self.exectors@.len() - i,
        {
            if crate::names::same_name(self.exectors[i].0, name) {
                let ghost pend0 = self.pending();
                assert(pend0[i as int] == name@);
                let ghost en0 = self.entries();
                let e = self.exectors.remove(i);
                proof {
                    assert(self.entries() =~= en0.remove(i as int));
                    assert(en0[i as int] == (e.0@, e.1));
                    assert forall|x: (Seq<char>, T)| #[trigger] self.entries().contains(x) implies en0.contains(x) by {
                        let j = choose|j: int| 0 <= j < self.entries().len() && self.entries()[j] == x;
                        let jj = if j < i { j } else { j + 1 };
                        assert(en0[jj] == x);
                    }
                    assert(self.pending() =~= pend0.remove(i as int));
                    assert(self.pending_tasks() =~= old(self).pending_tasks().remove(i as int));
                    crate::names::lemma_remove_contains(pend0, i as int, name@);
                    assert forall|n: Seq<char>| #[trigger] self.pending().contains(n) <==> (pend0.contains(n) && n != name@) by {
                        crate::names::lemma_remove_contains(pend0, i as int, n);
                    }
                    assert forall|j: int| 0 <= j < self.pending().len() implies self.registered().contains(#[trigger] self.pending()[j]) by {
                        let jj = if j < i { j } else { j + 1 };
                        assert(self.pending()[j] == pend0[jj]);
                        assert(old(self).registered().contains(pend0[jj]));
                    }
                }
                return Some(e);
            }
            i = i + 1;
        }
        None
    }

    /// Records that `name` reached a terminal state at `now`, whether it
    /// succeeded or failed, and hands out each of its dependents that is
    /// not yet started and now has every prerequisite ready, marking it
    /// started at `now`.
    pub fn finish_at(&mut self, name: &'static str, now: i64) -> (r: Vec<(&'static str, T)>)
        requires
            old(self).wf(),
        ensures
            final(self).wf(),
            final(self).fwd() == old(self).fwd(),
            final(self).rev() == old(self).rev(),
            final(self).registered() == old(self).registered(),
            final(self).deadline() == old(self).deadline(),
            final(self).ready_names() == old(self).ready_names().insert(name@),
            final(self).ready_names().contains(name@),
            names_of(r@).no_duplicates(),
            forall|k: int| #![trigger r@[k]] 0 <= k < r@.len() ==> old(self).entries().contains((r@[k].0@, r@[k].1)),
            forall|x: (Seq<char>, T)| #[trigger] final(self).entries().contains(x) ==> old(self).entries().contains(x),
            forall|n: Seq<char>| #[trigger] names_of(r@).contains(n) <==> (old(self).pending().contains(n)
                && lists(old(self).fwd(), name@, n) && prerequisites_ready(old(self).rev(), final(self).ready_names(), n)),
            forall|n: Seq<char>| #[trigger] final(self).pending().contains(n) <==> (old(self).pending().contains(n) && !names_of(r@).contains(n)),
            forall|k: Seq<char>| #[trigger] final(self).infos().contains_key(k) ==> final(self).infos()[k]
                == after_finish(k, old(self).infos()[k], name@, names_of(r@), now),
            forall|n: Seq<char>| #[trigger] names_of(r@).contains(n) ==> final(self).infos()[n].status == crate::ledger::Status::Doing
                && final(self).infos()[n].start_time == now
                && (old(self).infos().contains_key(name@) && old(self).infos()[name@].status == crate::ledger::Status::Doing
                    ==> final(self).infos()[name@].end_time == now),
            old(self).waits_on_unready() ==> final(self).waits_on_unready(),
    {
        ready_insert(&mut self.ready, name);
        self.tracing.done_at(name, now);
        let ghost mid = self.infos();
        proof {
            assert(self.registered() =~= old(self).registered());
        }
        let mut out: Vec<(&'static str, T)> = Vec::new();
        let ghost ready = self.ready_names();
        match self.graph.dependents(name) {
            Some(listed) => {
                let deps = crate::names::copy_names(listed);
                assert(deps.deep_view() =~= listed.deep_view());
                let mut j: usize = 0;
                while j < deps.len()
                    invariant
                        self.wf(),
                        j <= deps@.len(),
                        deps.deep_view() == old(self).fwd()[name@],
                        old(self).fwd().contains_key(name@),
                        deps.deep_view().no_duplicates(),
                        self.fwd() == old(self).fwd(),
                        self.rev() == old(self).rev(),
                        self.registered() == old(self).registered(),
                        self.deadline() == old(self).deadline(),
                        self.ready_names() == ready,
                        names_of(out@).no_duplicates(),
                        forall|k: int| #![trigger out@[k]] 0 <= k < out@.len() ==> old(self).entries().contains((out@[k].0@, out@[k].1)),
                        forall|x: (Seq<char>, T)| #[trigger] self.entries().contains(x) ==> old(self).entries().contains(x),
                        forall|n: Seq<char>| #[trigger] names_of(out@).contains(n) <==> (deps.deep_view().subrange(0, j as int).contains(n)
                            && old(self).pending().contains(n) && prerequisites_ready(old(self).rev(), ready, n)),
                        forall|n: Seq<char>| #[trigger] self.pending().contains(n) <==> (old(self).pending().contains(n) && !names_of(out@).contains(n)),
                        self.infos().dom() == mid.dom(),
                        forall|k: Seq<char>| #[trigger] self.infos().contains_key(k) ==> self.infos()[k]
                            == if names_of(out@).contains(k) { started_at(mid[k], now) } else { mid[k] },
                    decreases deps@.len() - j,
                {
                    let d = deps[j];
                    let ghost en_pre = self.entries();
                    let ghost seen = deps.deep_view().subrange(0, j as int);
                    let ghost out0 = names_of(out@);
                    let ghost pend0 = self.pending();
                    let ghost i0 = self.infos();
                    proof {
                        assert(deps.deep_view()[j as int] == d@);
                        assert(deps.deep_view().subrange(0, j + 1) =~= seen.push(d@));
                        assert(!seen.contains(d@)) by {
                            if seen.contains(d@) {
                                let a = choose|a: int| 0 <= a < seen.len() && seen[a] == d@;
                                assert(deps.deep_view()[a] == deps.deep_view()[j as int]);
                            }
                        }
                        assert(!out0.contains(d@));
                        assert(lists(old(self).fwd(), name@, d@));
                        assert(lists(old(self).rev(), d@, name@));
                    }
                    let pre = self.graph.prerequisites(d);
                    let ok = match pre {
                        Some(pre) => all_ready(pre, &self.ready),
                        None => false,
                    };
                    proof {
                        assert(ok == prerequisites_ready(old(self).rev(), ready, d@)) by {
                            if ok {
                                assert forall|q: Seq<char>| #[trigger] lists(old(self).rev(), d@, q) implies ready.contains(q) by {
                                    let c = choose|c: int| 0 <= c < old(self).rev()[d@].len() && old(self).rev()[d@][c] == q;
                                }
                            } else {
                                let pv = old(self).rev()[d@];
                                let c = choose|c: int| 0 <= c < pv.len() && !ready.contains(#[trigger] pv[c]);
                                assert(lists(old(self).rev(), d@, pv[c]));
                            }
                        }
                    }
                    if ok {
                        match self.take(d) {
                            Some(e) => {
                                let ghost en_taken = self.entries();
                                assert(en_pre.contains((e.0@, e.1)));
                                self.tracing.start_at(d, now);
                                assert(self.entries() == en_taken);
                                let ghost outv0 = out@;
                                out.push(e);
                                proof {
                                    assert forall|k: int| #![trigger out@[k]] 0 <= k < out@.len() implies old(self).entries().contains((out@[k].0@, out@[k].1)) by {
                                        if k < outv0.len() {
                                            assert(out@[k] == outv0[k]);
                                        }
                                    }
                                    assert(names_of(out@) =~= out0.push(d@));
                                    lemma_push_no_duplicates(out0, d@);
                                    assert forall|n: Seq<char>| #[trigger] names_of(out@).contains(n) <==> (deps.deep_view().subrange(0, j + 1).contains(n)
                                        && old(self).pending().contains(n) && prerequisites_ready(old(self).rev(), ready, n)) by {
                                        lemma_push_contains(out0, d@, n);
                                        lemma_push_contains(seen, d@, n);
                                    }
                                    assert forall|n: Seq<char>| #[trigger] self.pending().contains(n) <==> (old(self).pending().contains(n) && !names_of(out@).contains(n)) by {
                                        lemma_push_contains(out0, d@, n);
                                    }
                                    assert(self.infos().dom() =~= mid.dom());
                                    assert(self.registered() =~= old(self).registered());
                                    assert forall|k: Seq<char>| #[trigger] self.infos().contains_key(k) implies self.infos()[k]
                                        == if names_of(out@).contains(k) { started_at(mid[k], now) } else { mid[k] } by {
                                        lemma_push_contains(out0, d@, k);
                                    }
                                }
                            },
                            None => {
                                proof {
                                    assert forall|n: Seq<char>| #[trigger] names_of(out@).contains(n) <==> (deps.deep_view().subrange(0, j + 1).contains(n)
                                        && old(self).pending().contains(n) && prerequisites_ready(old(self).rev(), ready, n)) by {
                                        lemma_push_contains(seen, d@, n);
                                    }
                                }
                            },
                        }
                    } else {
                        proof {
                            assert forall|n: Seq<char>| #[trigger] names_of(out@).contains(n) <==> (deps.deep_view().subrange(0, j + 1).contains(n)
                                && old(self).pending().contains(n) && prerequisites_ready(old(self).rev(), ready, n)) by {
                                lemma_push_contains(seen, d@, n);
                            }
                        }
                    }
                    proof {
                        assert forall|x: (Seq<char>, T)| #[trigger] self.entries().contains(x) implies old(self).entries().contains(x) by {
                            assert(en_pre.contains(x));
                        }
                    }
                    j = j + 1;
                }
                proof {
                    assert(deps.deep_view().subrange(0, j as int) =~= deps.deep_view());
                }
            },
            None => {
                proof {
                    assert(names_of(out@) =~= Seq::<Seq<char>>::empty());
                }
            },
        }
        proof {
            assert forall|n: Seq<char>| #[trigger] names_of(out@).contains(n) <==> (old(self).pending().contains(n)
                && lists(old(self).fwd(), name@, n) && prerequisites_ready(old(self).rev(), self.ready_names(), n)) by {
            }
            if old(self).waits_on_unready() {
                assert forall|d: Seq<char>| #[trigger] self.pending().contains(d) implies exists|q: Seq<char>| #[trigger] lists(self.rev(), d, q) && !self.ready_names().contains(q) by {
                    assert(old(self).pending().contains(d));
                    assert(!names_of(out@).contains(d));
                    if lists(old(self).fwd(), name@, d) {
                        assert(!prerequisites_ready(old(self).rev(), self.ready_names(), d));
                        let q = choose|q: Seq<char>| #[trigger] lists(old(self).rev(), d, q) && !self.ready_names().contains(q);
                        assert(lists(self.rev(), d, q));
                    } else {
                        let q = choose|q: Seq<char>| #[trigger] lists(old(self).rev(), d, q) && !old(self).ready_names().contains(q);
                        if q == name@ {
                            assert(lists(old(self).fwd(), name@, d));
                        }
                        assert(!self.ready_names().contains(q));
                        assert(lists(self.rev(), d, q));
                    }
                }
            }
        }
        out
    }

    /// A run from a validated graph leaves nothing behind: once every task
    /// of the release order found by validation is either ready or not yet
    /// started (none still running), no task is left unstarted.
    pub proof fn lemma_run_completes(&self, ord: Seq<Seq<char>>)
        requires
            self.wf(),
            self.waits_on_unready(),
            is_release_order(ord, self.rev()),
            forall|n: Seq<char>| #[trigger] ord.contains(n) ==> (self.pending().contains(n) || self.ready_names().contains(n)),
            forall|n: Seq<char>| #[trigger] self.pending().contains(n) ==> ord.contains(n),
        ensures
            self.pending().len() == 0,
    {
        lemma_unstarted_absent(ord, self.rev(), self.pending(), self.ready_names(), ord.len() as int);
        if self.pending().len() > 0 {
            let d = self.pending()[0];
            assert(self.pending().contains(d));
            let a = choose|a: int| 0 <= a < ord.len() && ord[a] == d;
            assert(!self.pending().contains(ord[a]));
        }
    }

    /// Opens a run at `now`: validates the graph, then hands out every start
    /// node, marking each started at `now`, and clears the ready set. A
    /// failed validation changes nothing.
    pub fn begin_at(&mut self, now: i64) -> (r: Result<Vec<(&'static str, T)>, ScheduleError>)
        requires
            old(self).wf(),
        ensures
            final(self).wf(),
            final(self).fwd() == old(self).fwd(),
            final(self).rev() == old(self).rev(),
            final(self).registered() == old(self).registered(),
            final(self).deadline() == old(self).deadline(),
            match r {
                Ok(tasks) => {
                    &&& names_of(tasks@).len() > 0
                    &&& names_of(tasks@).no_duplicates()
                    &&& forall|k: int| #![trigger tasks@[k]] 0 <= k < tasks@.len() ==> old(self).entries().contains((tasks@[k].0@, tasks@[k].1))
                    &&& forall|x: (Seq<char>, T)| #[trigger] final(self).entries().contains(x) ==> old(self).entries().contains(x)
                    &&& forall|n: Seq<char>| #[trigger] names_of(tasks@).contains(n) <==> (old(self).pending().contains(n) && is_start(old(self).rev(), n))
                    &&& forall|n: Seq<char>| #[trigger] final(self).pending().contains(n) <==> (old(self).pending().contains(n) && !is_start(old(self).rev(), n))
                    &&& final(self).infos().dom() == old(self).infos().dom()
                    &&& forall|k: Seq<char>| #[trigger] final(self).infos().contains_key(k) ==> final(self).infos()[k]
                        == if names_of(tasks@).contains(k) { started_at(old(self).infos()[k], now) } else { old(self).infos()[k] }
                    &&& final(self).ready_names() == Set::<Seq<char>>::empty()
                    &&& final(self).waits_on_unready()
                    &&& exists|ord: Seq<Seq<char>>| orders_pending(ord, old(self).pending(), old(self).rev())
                    &&& endpoints_in(old(self).fwd(), old(self).pending())
                    &&& forall|c: Seq<Seq<char>>| !is_cycle(c, old(self).fwd())
                },
                Err(ScheduleError::NoStartNodes) => {
                    &&& *final(self) == *old(self)
                    &&& forall|n: Seq<char>| #[trigger] old(self).pending().contains(n) ==> !is_start(old(self).rev(), n)
                },
                Err(ScheduleError::UnknownTask(n)) => {
                    &&& *final(self) == *old(self)
                    &&& exists|m: Seq<char>| #[trigger] old(self).pending().contains(m) && is_start(old(self).rev(), m)
                    &&& !old(self).pending().contains(n@)
                    &&& exists|b: Seq<char>| lists(old(self).fwd(), n@, b) || lists(old(self).fwd(), b, n@)
                },
                Err(ScheduleError::Blocked(b)) => {
                    &&& *final(self) == *old(self)
                    &&& b.deep_view().len() > 0
                    &&& forall|i: int| 0 <= i < b.deep_view().len() ==> old(self).pending().contains(#[trigger] b.deep_view()[i])
                    &&& exists|n: Seq<char>| #[trigger] old(self).pending().contains(n) && is_start(old(self).rev(), n)
                    &&& endpoints_in(old(self).fwd(), old(self).pending())
                    &&& forall|ord: Seq<Seq<char>>| !orders_pending(ord, old(self).pending(), old(self).rev())
                },
                Err(_) => false,
            },
    {
        let starts = match self.pre_check_and_find_start_nodes() {
            Ok(starts) => starts,
            Err(e) => {
                return Err(e);
            },
        };
        self.ready = ready_new();
        let ghost sv = starts.deep_view();
        let mut out: Vec<(&'static str, T)> = Vec::new();
        let mut j: usize = 0;
        while j < starts.len()
            invariant
                self.wf(),
                j <= sv.len(),
                sv == starts.deep_view(),
                sv.no_duplicates(),
                forall|n: Seq<char>| #[trigger] sv.contains(n) <==> (old(self).pending().contains(n) && is_start(old(self).rev(), n)),
                self.fwd() == old(self).fwd(),
                self.rev() == old(self).rev(),
                self.registered() == old(self).registered(),
                self.deadline() == old(self).deadline(),
                self.ready_names() == Set::<Seq<char>>::empty(),
                names_of(out@).no_duplicates(),
                forall|k: int| #![trigger out@[k]] 0 <= k < out@.len() ==> old(self).entries().contains((out@[k].0@, out@[k].1)),
                forall|x: (Seq<char>, T)| #[trigger] self.entries().contains(x) ==> old(self).entries().contains(x),
                forall|n: Seq<char>| #[trigger] names_of(out@).contains(n) <==> sv.subrange(0, j as int).contains(n),
                forall|n: Seq<char>| #[trigger] self.pending().contains(n) <==> (old(self).pending().contains(n) && !names_of(out@).contains(n)),
                self.infos().dom() == old(self).infos().dom(),
                forall|k: Seq<char>| #[trigger] self.infos().contains_key(k) ==> self.infos()[k]
                    == if names_of(out@).contains(k) { started_at(old(self).infos()[k], now) } else { old(self).infos()[k] },
            decreases sv.len() - j,
        {
            let d = starts[j];
            let ghost seen = sv.subrange(0, j as int);
            let ghost out0 = names_of(out@);
            proof {
                assert(sv[j as int] == d@);
                assert(sv.subrange(0, j + 1) =~= seen.push(d@));
                assert(!seen.contains(d@)) by {
                    if seen.contains(d@) {
                        let a = choose|a: int| 0 <= a < seen.len() && seen[a] == d@;
                        assert(sv[a] == sv[j as int]);
                    }
                }
                assert(sv.contains(d@));
                assert(self.pending().contains(d@));
            }
            let ghost en_pre = self.entries();
            match self.take(d) {
                Some(e) => {
                    let ghost en_taken = self.entries();
                    assert(en_pre.contains((e.0@, e.1)));
                    self.tracing.start_at(d, now);
                    assert(self.entries() == en_taken);
                    let ghost outv0 = out@;
                    out.push(e);
                    proof {
                        assert forall|x: (Seq<char>, T)| #[trigger] self.entries().contains(x) implies old(self).entries().contains(x) by {
                            assert(en_pre.contains(x));
                        }
                        assert forall|k: int| #![trigger out@[k]] 0 <= k < out@.len() implies old(self).entries().contains((out@[k].0@, out@[k].1)) by {
                            if k < outv0.len() {
                                assert(out@[k] == outv0[k]);
                            }
                        }
                        assert(names_of(out@) =~= out0.push(d@));
                        lemma_push_no_duplicates(out0, d@);
                        assert forall|n: Seq<char>| #[trigger] names_of(out@).contains(n) <==> sv.subrange(0, j + 1).contains(n) by {
                            lemma_push_contains(out0, d@, n);
                            lemma_push_contains(seen, d@, n);
                        }
                        assert forall|n: Seq<char>| #[trigger] self.pending().contains(n) <==> (old(self).pending().contains(n) && !names_of(out@).contains(n)) by {
                            lemma_push_contains(out0, d@, n);
                        }
                        assert(self.infos().dom() =~= old(self).infos().dom());
                        assert(self.registered() =~= old(self).registered());
                        assert forall|k: Seq<char>| #[trigger] self.infos().contains_key(k) implies self.infos()[k]
                            == if names_of(out@).contains(k) { started_at(old(self).infos()[k], now) } else { old(self).infos()[k] } by {
                            lemma_push_contains(out0, d@, k);
                        }
                    }
                },
                None => {},
            }
            j = j + 1;
        }
        proof {
            assert(sv.subrange(0, j as int) =~= sv);
            assert(sv.contains(sv[0]));
            assert(names_of(out@).contains(sv[0]));
            assert forall|n: Seq<char>| #[trigger] self.pending().contains(n) <==> (old(self).pending().contains(n) && !is_start(old(self).rev(), n)) by {
            }
            assert forall|d: Seq<char>| #[trigger] self.pending().contains(d) implies exists|q: Seq<char>| #[trigger] lists(self.rev(), d, q) && !self.ready_names().contains(q) by {
                let q = self.rev()[d][0];
                assert(lists(self.rev(), d, q));
            }
        }
        Ok(out)
    }

    /// `begin_at` with the current time.
    pub fn begin(&mut self) -> (r: Result<Vec<(&'static str, T)>, ScheduleError>)
        requires
            old(self).wf(),
        ensures
            final(self).wf(),
            final(self).fwd() == old(self).fwd(),
            final(self).rev() == old(self).rev(),
            final(self).registered() == old(self).registered(),
            final(self).deadline() == old(self).deadline(),
            match r {
                Ok(tasks) => {
                    &&& names_of(tasks@).len() > 0
                    &&& names_of(tasks@).no_duplicates()
                    &&& forall|k: int| #![trigger tasks@[k]] 0 <= k < tasks@.len() ==> old(self).entries().contains((tasks@[k].0@, tasks@[k].1))
                    &&& forall|x: (Seq<char>, T)| #[trigger] final(self).entries().contains(x) ==> old(self).entries().contains(x)
                    &&& forall|n: Seq<char>| #[trigger] names_of(tasks@).contains(n) <==> (old(self).pending().contains(n) && is_start(old(self).rev(), n))
                    &&& forall|n: Seq<char>| #[trigger] final(self).pending().contains(n) <==> (old(self).pending().contains(n) && !is_start(old(self).rev(), n))
                    &&& exists|now: i64| #[trigger] started_for(old(self).infos(), final(self).infos(), names_of(tasks@), now)
                    &&& final(self).ready_names() == Set::<Seq<char>>::empty()
                    &&& final(self).waits_on_unready()
                    &&& exists|ord: Seq<Seq<char>>| orders_pending(ord, old(self).pending(), old(self).rev())
                    &&& endpoints_in(old(self).fwd(), old(self).pending())
                    &&& forall|c: Seq<Seq<char>>| !is_cycle(c, old(self).fwd())
                },
                Err(ScheduleError::NoStartNodes) => {
                    &&& *final(self) == *old(self)
                    &&& forall|n: Seq<char>| #[trigger] old(self).pending().contains(n) ==> !is_start(old(self).rev(), n)
                },
                Err(ScheduleError::UnknownTask(n)) => {
                    &&& *final(self) == *old(self)
                    &&& exists|m: Seq<char>| #[trigger] old(self).pending().contains(m) && is_start(old(self).rev(), m)
                    &&& !old(self).pending().contains(n@)
                    &&& exists|b: Seq<char>| lists(old(self).fwd(), n@, b) || lists(old(self).fwd(), b, n@)
                },
                Err(ScheduleError::Blocked(b)) => {
                    &&& *final(self) == *old(self)
                    &&& b.deep_view().len() > 0
                    &&& forall|i: int| 0 <= i < b.deep_view().len() ==> old(self).pending().contains(#[trigger] b.deep_view()[i])
                    &&& exists|n: Seq<char>| #[trigger] old(self).pending().contains(n) && is_start(old(self).rev(), n)
                    &&& endpoints_in(old(self).fwd(), old(self).pending())
                    &&& forall|ord: Seq<Seq<char>>| !orders_pending(ord, old(self).pending(), old(self).rev())
                },
                Err(_) => false,
            },
    {
        let now = crate::ledger::now_micros();
        let r = self.begin_at(now);
        proof {
            if r is Ok {
                assert(started_for(old(self).infos(), self.infos(), names_of(r->Ok_0@), now));
            }
        }
        r
    }

    /// `finish_at` with the current time.
    pub fn finish(&mut self, name: &'static str) -> (r: Vec<(&'static str, T)>)
        requires
            old(self).wf(),
        ensures
            final(self).wf(),
            final(self).fwd() == old(self).fwd(),
            final(self).rev() == old(self).rev(),
            final(self).registered() == old(self).registered(),
            final(self).deadline() == old(self).deadline(),
            final(self).ready_names() == old(self).ready_names().insert(name@),
            final(self).ready_names().contains(name@),
            names_of(r@).no_duplicates(),
            forall|k: int| #![trigger r@[k]] 0 <= k < r@.len() ==> old(self).entries().contains((r@[k].0@, r@[k].1)),
            forall|x: (Seq<char>, T)| #[trigger] final(self).entries().contains(x) ==> old(self).entries().contains(x),
            forall|n: Seq<char>| #[trigger] names_of(r@).contains(n) <==> (old(self).pending().contains(n)
                && lists(old(self).fwd(), name@, n) && prerequisites_ready(old(self).rev(), final(self).ready_names(), n)),
            forall|n: Seq<char>| #[trigger] final(self).pending().contains(n) <==> (old(self).pending().contains(n) && !names_of(r@).contains(n)),
            exists|now: i64| #[trigger] finished_for(old(self).infos(), final(self).infos(), name@, names_of(r@), now),
            forall|n: Seq<char>| #[trigger] names_of(r@).contains(n) ==> final(self).infos()[n].status == crate::ledger::Status::Doing
                && (old(self).infos().contains_key(name@) && old(self).infos()[name@].status == crate::ledger::Status::Doing
                    ==> final(self).infos()[n].start_time == final(self).infos()[name@].end_time),
            old(self).waits_on_unready() ==> final(self).waits_on_unready(),
    {
        let now = crate::ledger::now_micros();
        let r = self.finish_at(name, now);
        assert(finished_for(old(self).infos(), self.infos(), name@, names_of(r@), now));
        r
    }

    /// The tracing record of `name`, if it is registered.
    pub fn tracing_info(&self, name: &str) -> (r: Option<TracingInfo>)
        requires
            self.wf(),
        ensures
            match r {
                Some(t) => self.infos().contains_key(name@) && self.infos()[name@] == t,
                None => !self.infos().contains_key(name@),
            },
    {
        self.tracing.get_tracing_info(name)
    }

    /// Every tracing record in order of registration, as a diagnostic shows
    /// it at `now`: a running record shows `now` as its end.
    pub fn tracing_snapshot_at(&self, now: i64) -> (r: Vec<(&'static str, TracingInfo)>)
        requires
            self.wf(),
        ensures
            names_of(r@).no_duplicates(),
            forall|k: Seq<char>| #[trigger] names_of(r@).contains(k) <==> self.infos().contains_key(k),
            forall|i: int| 0 <= i < r@.len() ==> (#[trigger] r@[i]).1 == crate::ledger::shown_at(self.infos()[r@[i].0@], now),
    {
        self.tracing.snapshot_at(now)
    }

    /// Whether every registered task has been handed out.
    pub fn all_started(&self) -> (r: bool)
        ensures
            r == (self.pending().len() == 0),
    {
        self.exectors.len() == 0
    }
}

} // verus!
