use vstd::prelude::*;
use ahash::AHashMap;
use crate::manager::names_of;

verus! {

/// Where a task stands in its life: it moves only forward,
/// `NotStarted` to `Doing` to `Done`.
#[derive(Clone, Copy, Debug, PartialEq, Eq, Structural)]
pub enum Status {
    NotStarted,
    Doing,
    Done,
}

impl Status {
    /// The status's name, as a diagnostic shows it.
    pub fn label(&self) -> (r: &'static str)
        ensures
            *self == Status::NotStarted ==> r@ == "NotStarted"@,
            *self == Status::Doing ==> r@ == "Doing"@,
            *self == Status::Done ==> r@ == "Done"@,
    {
        match self {
            Status::NotStarted => "NotStarted",
            Status::Doing => "Doing",
            Status::Done => "Done",
        }
    }
}

/// A task's status with its start and end times, in microseconds; a time
/// stays 0 until it is set.
#[derive(Clone, Copy, Debug, PartialEq, Eq, Structural)]
pub struct TracingInfo {
    pub status: Status,
    pub start_time: i64,
    pub end_time: i64,
}

/// A record that has not started.
pub open spec fn fresh_info() -> TracingInfo {
    TracingInfo { status: Status::NotStarted, start_time: 0, end_time: 0 }
}

/// The record after a start at `now`: only a record that has not started moves.
pub open spec fn started_at(t: TracingInfo, now: i64) -> TracingInfo {
    if t.status == Status::NotStarted {
        TracingInfo { status: Status::Doing, start_time: now, ..t }
    } else {
        t
    }
}

/// The record after a finish at `now`: only a running record moves.
pub open spec fn done_at(t: TracingInfo, now: i64) -> TracingInfo {
    if t.status == Status::Doing {
        TracingInfo { status: Status::Done, end_time: now, ..t }
    } else {
        t
    }
}

/// The record as a diagnostic shows it at `now`: a running record ends now.
pub open spec fn shown_at(t: TracingInfo, now: i64) -> TracingInfo {
    if t.status == Status::Doing {
        TracingInfo { end_time: now, ..t }
    } else {
        t
    }
}

/// A record moves through each transition at most once: a second start or
/// a second finish changes nothing, and a start then a finish ends `Done`
/// with the start time kept.
pub proof fn lemma_transitions_once(t: TracingInfo, a: i64, b: i64)
    ensures
        started_at(started_at(t, a), b) == started_at(t, a),
        done_at(done_at(t, a), b) == done_at(t, a),
        started_at(done_at(started_at(t, a), b), a) == done_at(started_at(t, a), b),
        t.status == Status::NotStarted ==> done_at(started_at(t, a), b) == (TracingInfo { status: Status::Done, start_time: a, end_time: b }),
{
}

/// Relies on chrono::Local::now and DateTime::timestamp_micros: the current
/// time, in microseconds since the epoch.
#[verifier::external_body]
pub(crate) fn now_micros() -> (r: i64) {
    chrono::Local::now().timestamp_micros()
}

impl TracingInfo {
    pub fn new() -> (r: TracingInfo)
        ensures
            r == fresh_info(),
    {
        TracingInfo { status: Status::NotStarted, start_time: 0, end_time: 0 }
    }

    /// Moves a record that has not started to `Doing`, started at `now`;
    /// returns whether it moved. Any other record stays as it is.
    pub fn start_at(&mut self, now: i64) -> (r: bool)
        ensures
            *final(self) == started_at(*old(self), now),
            r == (old(self).status == Status::NotStarted),
    {
        match self.status {
            Status::NotStarted => {
                self.status = Status::Doing;
                self.start_time = now;
                true
            },
            _ => false,
        }
    }

    /// Moves a running record to `Done`, ended at `now`; returns whether it
    /// moved. Any other record stays as it is.
    pub fn done_at(&mut self, now: i64) -> (r: bool)
        ensures
            *final(self) == done_at(*old(self), now),
            r == (old(self).status == Status::Doing),
    {
        match self.status {
            Status::Doing => {
                self.status = Status::Done;
                self.end_time = now;
                true
            },
            _ => false,
        }
    }

    /// `start_at` with the current time.
    pub fn start(&mut self) -> (r: bool)
        ensures
            r == (old(self).status == Status::NotStarted),
            exists|now: i64| *final(self) == started_at(*old(self), now),
    {
        let now = now_micros();
        self.start_at(now)
    }

    /// `done_at` with the current time.
    pub fn done(&mut self) -> (r: bool)
        ensures
            r == (old(self).status == Status::Doing),
            exists|now: i64| *final(self) == done_at(*old(self), now),
    {
        let now = now_micros();
        self.done_at(now)
    }
}

/// A record per identity.
pub type InfoMap = AHashMap<&'static str, TracingInfo>;

/// What a ledger map holds: each identity, by its characters, with its record.
pub uninterp spec fn info_contents(m: InfoMap) -> Map<Seq<char>, TracingInfo>;

/// Relies on ahash::AHashMap::new: a new map is empty.
#[verifier::external_body]
fn info_new() -> (r: InfoMap)
    ensures
        info_contents(r).dom() == Set::<Seq<char>>::empty(),
{
    AHashMap::new()
}

/// Relies on ahash::AHashMap::get: the record stored under a key equal to `k`.
#[verifier::external_body]
fn info_get<'a>(m: &'a InfoMap, k: &str) -> (r: Option<&'a TracingInfo>)
    ensures
        match r {
            Some(t) => info_contents(*m).contains_key(k@) && *t == info_contents(*m)[k@],
            None => !info_contents(*m).contains_key(k@),
        },
{
    m.get(k)
}

/// Relies on ahash::AHashMap::insert: the record under `k` becomes `v`.
#[verifier::external_body]
fn info_insert(m: &mut InfoMap, k: &'static str, v: TracingInfo)
    ensures
        info_contents(*final(m)) == info_contents(*old(m)).insert(k@, v),
{
    m.insert(k, v);
}

/// Relies on HashMap::keys, reached through AHashMap's Deref: each key once,
/// in an order that the map's hasher decides.
#[verifier::external_body]
fn info_keys(m: &InfoMap) -> (r: Vec<&'static str>)
    ensures
        r.deep_view().no_duplicates(),
        forall|k: Seq<char>| #[trigger] r.deep_view().contains(k) <==> info_contents(*m).contains_key(k),
{
    m.keys().copied().collect()
}

/// The ledger after the record of `key`, if there is one, starts at `now`.
pub open spec fn ledger_started(m: Map<Seq<char>, TracingInfo>, key: Seq<char>, now: i64) -> Map<Seq<char>, TracingInfo> {
    if m.contains_key(key) { m.insert(key, started_at(m[key], now)) } else { m }
}

/// The ledger after the record of `key`, if there is one, finishes at `now`.
pub open spec fn ledger_done(m: Map<Seq<char>, TracingInfo>, key: Seq<char>, now: i64) -> Map<Seq<char>, TracingInfo> {
    if m.contains_key(key) { m.insert(key, done_at(m[key], now)) } else { m }
}

/// The ledger: one tracing record per registered identity.
pub struct TracingInfoManager {
    tracing_infos: InfoMap,
}

impl TracingInfoManager {
    /// Each identity with its record.
    pub closed spec fn records(&self) -> Map<Seq<char>, TracingInfo> {
        info_contents(self.tracing_infos)
    }

    pub fn new() -> (r: TracingInfoManager)
        ensures
            r.records().dom() == Set::<Seq<char>>::empty(),
    {
        TracingInfoManager { tracing_infos: info_new() }
    }

    /// Gives `key` a record that has not started, replacing any it had.
    pub fn add_tracing_info(&mut self, key: &'static str)
        ensures
            final(self).records() == old(self).records().insert(key@, fresh_info()),
    {
        info_insert(&mut self.tracing_infos, key, TracingInfo::new());
    }

    /// Starts the record of `key` at `now`; returns whether a record that had
    /// not started moved. An unknown key, or a record already started, leaves
    /// the ledger as it is.
    pub fn start_at(&mut self, key: &'static str, now: i64) -> (r: bool)
        ensures
            final(self).records() == ledger_started(old(self).records(), key@, now),
            r == (old(self).records().contains_key(key@) && old(self).records()[key@].status == Status::NotStarted),
    {
        match info_get(&self.tracing_infos, key) {
            Some(t) => {
                let mut t = *t;
                let moved = t.start_at(now);
                info_insert(&mut self.tracing_infos, key, t);
                proof {
                    let m0 = old(self).records();
                    if !moved {
                        assert(self.records() =~= m0);
                    }
                }
                moved
            },
            None => false,
        }
    }

    /// Finishes the record of `key` at `now`; returns whether a running
    /// record moved. An unknown key, or a record not running, leaves the
    /// ledger as it is.
    pub fn done_at(&mut self, key: &'static str, now: i64) -> (r: bool)
        ensures
            final(self).records() == ledger_done(old(self).records(), key@, now),
            r == (old(self).records().contains_key(key@) && old(self).records()[key@].status == Status::Doing),
    {
        match info_get(&self.tracing_infos, key) {
            Some(t) => {
                let mut t = *t;
                let moved = t.done_at(now);
                info_insert(&mut self.tracing_infos, key, t);
                proof {
                    let m0 = old(self).records();
                    if !moved {
                        assert(self.records() =~= m0);
                    }
                }
                moved
            },
            None => false,
        }
    }

    /// `start_at` with the current time.
    pub fn start(&mut self, key: &'static str) -> (r: bool)
        ensures
            exists|now: i64| final(self).records() == #[trigger] ledger_started(old(self).records(), key@, now),
            r == (old(self).records().contains_key(key@) && old(self).records()[key@].status == Status::NotStarted),
    {
        let now = now_micros();
        self.start_at(key, now)
    }

    /// `done_at` with the current time.
    pub fn done(&mut self, key: &'static str) -> (r: bool)
        ensures
            exists|now: i64| final(self).records() == #[trigger] ledger_done(old(self).records(), key@, now),
            r == (old(self).records().contains_key(key@) && old(self).records()[key@].status == Status::Doing),
    {
        let now = now_micros();
        self.done_at(key, now)
    }

    /// The record of `key`, if it has one.
    pub fn get_tracing_info(&self, key: &str) -> (r: Option<TracingInfo>)
        ensures
            match r {
                Some(t) => self.records().contains_key(key@) && t == self.records()[key@],
                None => !self.records().contains_key(key@),
            },
    {
        match info_get(&self.tracing_infos, key) {
            Some(t) => Some(*t),
            None => None,
        }
    }

    /// Every record, once each, as a diagnostic shows it at `now`: a running
    /// record shows `now` as its end.
    pub fn snapshot_at(&self, now: i64) -> (r: Vec<(&'static str, TracingInfo)>)
        ensures
            names_of(r@).no_duplicates(),
            forall|k: Seq<char>| #[trigger] names_of(r@).contains(k) <==> self.records().contains_key(k),
            forall|i: int| 0 <= i < r@.len() ==> (#[trigger] r@[i]).1 == shown_at(self.records()[r@[i].0@], now),
    {
        let keys = info_keys(&self.tracing_infos);
        let mut out: Vec<(&'static str, TracingInfo)> = Vec::new();
        let mut i: usize = 0;
        while i < keys.len()
            invariant
                i <= keys@.len(),
                keys.deep_view().no_duplicates(),
                forall|k: Seq<char>| #[trigger] keys.deep_view().contains(k) <==> self.records().contains_key(k),
                out@.len() == i,
                forall|j: int| 0 <= j < i ==> (#[trigger] out@[j]).0@ == keys.deep_view()[j]
                    && out@[j].1 == shown_at(self.records()[out@[j].0@], now),
            decreases keys.len() - i,
        {
            let k = keys[i];
            assert(keys.deep_view()[i as int] == k@);
            assert(keys.deep_view().contains(k@));
            match info_get(&self.tracing_infos, k) {
                Some(t) => {
                    let t = *t;
                    let shown = match t.status {
                        Status::Doing => TracingInfo { end_time: now, ..t },
                        _ => t,
                    };
                    out.push((k, shown));
                },
                None => {
                    assert(false);
                },
            }
            i = i + 1;
        }
        proof {
            let names = names_of(out@);
            assert(names =~= keys.deep_view());
        }
        out
    }
}

} // verus!
