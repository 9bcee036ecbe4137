//! A single-flight memoizing map from token address to metadata.
//!
//! Concurrency itself lives with the caller: the caller serializes access
//! to the map (one lock around it) and runs remote fetches between calls
//! into it. The map records, per key, whether a fetch is in flight
//! (`Pending`), has succeeded (`Resolved`), or is not running and has
//! nothing cached (`Vacant` or no entry yet). The contracts of the three
//! transitions — `begin_resolve`, `finish_resolve`, `abandon_resolve` —
//! together give the single-flight discipline: a caller is told to fetch
//! only when no fetch for that key is in flight and nothing is cached, a
//! success is cached for every later caller, and a failure leaves the key
//! retryable rather than caching the error.

use crate::erc20::{Address, CachedERC20};
use vstd::prelude::*;

verus! {

/// The lifecycle of one key's slot.
#[derive(Debug, PartialEq, Eq)]
pub enum EntryState {
    /// Created, empty, and nobody is fetching: the next caller fetches.
    Vacant,
    /// A fetch for this key is in flight; concurrent callers wait.
    Pending,
    /// The fetch succeeded once; the value is handed to every caller.
    Resolved(CachedERC20),
}

/// What a caller must do after asking for a key.
#[derive(Debug, PartialEq, Eq)]
pub enum Action {
    /// Run the remote fetch and report back with `finish_resolve` or
    /// `abandon_resolve`; this caller is the key's only fetcher.
    Fetch,
    /// Another caller's fetch is in flight: wait and ask again.
    Wait,
    /// Already resolved: use this value, fetch nothing.
    UseCached(CachedERC20),
}

/// The map's abstract state: each created key's slot.
pub type CacheModel = Map<Address, EntryState>;

/// Is a fetch for `k` in flight?
pub open spec fn is_pending(m: CacheModel, k: Address) -> bool {
    m.contains_key(k) && m[k] is Pending
}

/// Is `k` resolved, whatever the value?
pub open spec fn has_resolved(m: CacheModel, k: Address) -> bool {
    m.contains_key(k) && m[k] is Resolved
}

/// Is `k` resolved to `v`?
pub open spec fn is_resolved(m: CacheModel, k: Address, v: CachedERC20) -> bool {
    m.contains_key(k) && m[k] == EntryState::Resolved(v)
}

/// May the next caller for `k` fetch (nothing cached, nobody fetching)?
pub open spec fn is_fetchable(m: CacheModel, k: Address) -> bool {
    !m.contains_key(k) || m[k] is Vacant
}

/// State after a caller asks for `k`: a fetchable slot becomes pending
/// (that caller now holds the key's one fetch); anything else is kept.
pub open spec fn begin_step(m: CacheModel, k: Address) -> CacheModel {
    if is_fetchable(m, k) {
        m.insert(k, EntryState::Pending)
    } else {
        m
    }
}

/// What the caller asking for `k` is told.
pub open spec fn begin_action(m: CacheModel, k: Address) -> Action {
    if is_fetchable(m, k) {
        Action::Fetch
    } else if m[k] is Pending {
        Action::Wait
    } else {
        Action::UseCached(m[k]->Resolved_0)
    }
}

/// State after the in-flight fetch for `k` succeeds with `v`.
pub open spec fn finish_step(m: CacheModel, k: Address, v: CachedERC20) -> CacheModel {
    m.insert(k, EntryState::Resolved(v))
}

/// State after the in-flight fetch for `k` fails or is abandoned:
/// the slot is empty again, the error is not cached.
pub open spec fn abandon_step(m: CacheModel, k: Address) -> CacheModel {
    m.insert(k, EntryState::Vacant)
}

/// No two slots share a key, so the entry list is a map.
pub open spec fn keys_unique(s: Seq<(Address, EntryState)>) -> bool {
    forall|i: int, j: int| 0 <= i < j < s.len() ==> s[i].0 != s[j].0
}

/// The map an entry list denotes.
pub open spec fn entries_map(s: Seq<(Address, EntryState)>) -> CacheModel
    decreases s.len(),
{
    if s.len() == 0 {
        Map::empty()
    } else {
        entries_map(s.drop_last()).insert(s.last().0, s.last().1)
    }
}

pub proof fn lemma_entries_map_index(s: Seq<(Address, EntryState)>, i: int)
    requires
        keys_unique(s),
        0 <= i < s.len(),
    ensures
        entries_map(s).contains_key(s[i].0),
        entries_map(s)[s[i].0] == s[i].1,
    decreases s.len(),
{
    if i < s.len() - 1 {
        assert(s[i].0 != s.last().0);
        assert(s.drop_last()[i] == s[i]);
        lemma_entries_map_index(s.drop_last(), i);
    }
}

pub proof fn lemma_entries_map_domain(s: Seq<(Address, EntryState)>, k: Address)
    ensures
        entries_map(s).contains_key(k) <==> exists|i: int| 0 <= i < s.len() && s[i].0 == k,
    decreases s.len(),
{
    if s.len() > 0 {
        lemma_entries_map_domain(s.drop_last(), k);
        if s.last().0 == k {
            assert(s[s.len() - 1].0 == k);
        } else if entries_map(s).contains_key(k) {
            let i = choose|i: int| 0 <= i < s.drop_last().len() && s.drop_last()[i].0 == k;
            assert(s[i].0 == k);
        } else {
            assert forall|i: int| 0 <= i < s.len() implies s[i].0 != k by {
                if i < s.len() - 1 {
                    assert(s.drop_last()[i].0 == s[i].0);
                }
            }
        }
    }
}

/// The single-flight map. The caller guards the whole structure with one
/// lock; every remote fetch runs outside that lock, between transitions.
#[derive(Debug)]
pub struct CachedMap {
    pub entries: Vec<(Address, EntryState)>,
}

impl View for CachedMap {
    type V = CacheModel;

    open spec fn view(&self) -> CacheModel {
        entries_map(self.entries@)
    }
}

impl Default for CachedMap {
    /// The default cache is the empty one.
    fn default() -> (r: Self)
        ensures
            r.wf(),
            r@ == Map::<Address, EntryState>::empty(),
    {
        CachedMap::new()
    }
}

impl CachedMap {
    /// Slot keys stay distinct, so the list really is a map.
    pub open spec fn wf(&self) -> bool {
        keys_unique(self.entries@)
    }

    /// An empty cache: no key has been asked for yet.
    pub fn new() -> (r: Self)
        ensures
            r.wf(),
            r@ == Map::<Address, EntryState>::empty(),
    {
        CachedMap { entries: Vec::new() }
    }

    /// A caller asks for `key`. The state moves by `begin_step` and the
    /// caller is told, by `begin_action`, to fetch, to wait, or to use
    /// the cached value.
    pub fn begin_resolve(&mut self, key: &Address) -> (r: Action)
        requires
            old(self).wf(),
        ensures
            final(self).wf(),
            final(self)@ == begin_step(old(self)@, *key),
            r == begin_action(old(self)@, *key),
    {
        let ghost s = self.entries@;
        let mut i: usize = 0;
        while i < self.entries.len()
            invariant
                *self == *old(self),
                s == self.entries@,
                old(self).wf(),
                i <= s.len(),
                forall|j: int| 0 <= j < i ==> s[j].0 != *key,
            decreases s.len() - i,
        {
            if self.entries[i].0 == *key {
                proof {
                    lemma_entries_map_index(s, i as int);
                }
                match &self.entries[i].1 {
                    EntryState::Vacant => {
                        self.entries[i] = (*key, EntryState::Pending);
                        proof {
                            lemma_entries_map_update(s, i as int, EntryState::Pending);
                        }
                        return Action::Fetch;
                    },
                    EntryState::Pending => {
                        return Action::Wait;
                    },
                    EntryState::Resolved(v) => {
                        let value = v.clone();
                        return Action::UseCached(value);
                    },
                }
            }
            i += 1;
        }
        proof {
            lemma_entries_map_domain(s, *key);
        }
        self.entries.push((*key, EntryState::Pending));
        proof {
            assert(self.entries@.drop_last() =~= s);
            assert forall|a: int, b: int|
                0 <= a < b < self.entries@.len() implies self.entries@[a].0
                != self.entries@[b].0 by {
                if b < self.entries@.len() - 1 {
                    assert(s[a] == self.entries@[a] && s[b] == self.entries@[b]);
                } else {
                    assert(s[a] == self.entries@[a]);
                }
            }
        }
        Action::Fetch
    }

    /// The key's one in-flight fetch succeeded: cache the value.
    pub fn finish_resolve(&mut self, key: &Address, value: CachedERC20)
        requires
            old(self).wf(),
            is_pending(old(self)@, *key),
        ensures
            final(self).wf(),
            final(self)@ == finish_step(old(self)@, *key, value),
    {
        self.set_entry(key, EntryState::Resolved(value));
    }

    /// The key's one in-flight fetch failed or was abandoned: leave the
    /// slot empty so the next caller retries; never cache a failure.
    pub fn abandon_resolve(&mut self, key: &Address)
        requires
            old(self).wf(),
            is_pending(old(self)@, *key),
        ensures
            final(self).wf(),
            final(self)@ == abandon_step(old(self)@, *key),
    {
        self.set_entry(key, EntryState::Vacant);
    }

    /// The resolved value for `key`, if there is one.
    pub fn get_resolved(&self, key: &Address) -> (r: Option<CachedERC20>)
        requires
            self.wf(),
        ensures
            match r {
                Some(v) => is_resolved(self@, *key, v),
                None => !(exists|v: CachedERC20| is_resolved(self@, *key, v)),
            },
    {
        let ghost s = self.entries@;
        let mut i: usize = 0;
        while i < self.entries.len()
            invariant
                s == self.entries@,
                self.wf(),
                i <= s.len(),
                forall|j: int| 0 <= j < i ==> s[j].0 != *key,
            decreases s.len() - i,
        {
            if self.entries[i].0 == *key {
                proof {
                    lemma_entries_map_index(s, i as int);
                }
                match &self.entries[i].1 {
                    EntryState::Resolved(v) => {
                        return Some(v.clone());
                    },
                    _ => {
                        return None;
                    },
                }
            }
            i += 1;
        }
        proof {
            lemma_entries_map_domain(s, *key);
        }
        None
    }

    /// Overwrite the slot of a key that is present.
    fn set_entry(&mut self, key: &Address, state: EntryState)
        requires
            old(self).wf(),
            old(self)@.contains_key(*key),
        ensures
            final(self).wf(),
            final(self)@ == old(self)@.insert(*key, state),
    {
        let ghost s = self.entries@;
        proof {
            lemma_entries_map_domain(s, *key);
        }
        let n = self.entries.len();
        let mut i: usize = 0;
        loop
            invariant
                *self == *old(self),
                s == self.entries@,
                n == s.len(),
                old(self).wf(),
                i <= s.len(),
                forall|j: int| 0 <= j < i ==> s[j].0 != *key,
                exists|j: int| i <= j < s.len() && s[j].0 == *key,
            decreases s.len() - i,
        {
            if self.entries[i].0 == *key {
                self.entries[i] = (*key, state);
                proof {
                    lemma_entries_map_update(s, i as int, state);
                }
                return;
            }
            proof {
                let j = choose|j: int| i <= j < s.len() && s[j].0 == *key;
                assert(j != i);
            }
            i += 1;
        }
    }
}

/// One transition of the cache, as an event: some caller asked for a
/// key, or the in-flight fetch for a key ended.
pub enum CacheStep {
    Begin(Address),
    Finish(Address, CachedERC20),
    Abandon(Address),
}

/// The key a step concerns.
pub open spec fn step_key(s: CacheStep) -> Address {
    match s {
        CacheStep::Begin(k) => k,
        CacheStep::Finish(k, _) => k,
        CacheStep::Abandon(k) => k,
    }
}

/// May this step happen in state `m`? A fetch can only end while it is
/// in flight; a caller may ask at any time.
pub open spec fn step_enabled(m: CacheModel, s: CacheStep) -> bool {
    match s {
        CacheStep::Begin(_) => true,
        CacheStep::Finish(k, _) => is_pending(m, k),
        CacheStep::Abandon(k) => is_pending(m, k),
    }
}

/// The state a step leads to.
pub open spec fn apply_step(m: CacheModel, s: CacheStep) -> CacheModel {
    match s {
        CacheStep::Begin(k) => begin_step(m, k),
        CacheStep::Finish(k, v) => finish_step(m, k, v),
        CacheStep::Abandon(k) => abandon_step(m, k),
    }
}

/// A key's slot, or nothing if the key was never asked for.
pub open spec fn slot(m: CacheModel, k: Address) -> Option<EntryState> {
    if m.contains_key(k) {
        Option::Some(m[k])
    } else {
        Option::None
    }
}

/// Single-flight invariant: the caller that is told to fetch a key makes
/// that key pending, and every caller that asks while the fetch is in
/// flight is told to wait — a second fetch for the key cannot start.
pub proof fn lemma_single_flight(m: CacheModel, k: Address)
    requires
        begin_action(m, k) is Fetch,
    ensures
        is_pending(begin_step(m, k), k),
        begin_action(begin_step(m, k), k) is Wait,
{
}

/// The one caller told to fetch determines what every later caller
/// sees: after its success, asking for the key answers exactly the
/// value it stored.
pub proof fn lemma_fetch_shares_result(m: CacheModel, k: Address, v: CachedERC20)
    requires
        begin_action(m, k) is Fetch,
    ensures
        begin_action(finish_step(begin_step(m, k), k, v), k) == Action::UseCached(v),
{
}

/// While a fetch for a key is in flight, asking for the key changes
/// nothing and answers `Wait`.
pub proof fn lemma_pending_waits(m: CacheModel, k: Address)
    requires
        is_pending(m, k),
    ensures
        begin_action(m, k) is Wait,
        begin_step(m, k) == m,
{
}

/// A resolved key serves its one value to every caller, at no fetch.
pub proof fn lemma_resolved_serves_all(m: CacheModel, k: Address, v: CachedERC20)
    requires
        is_resolved(m, k, v),
    ensures
        begin_action(m, k) == Action::UseCached(v),
        begin_step(m, k) == m,
{
}

/// Once resolved, a key stays resolved to the same value under every
/// enabled transition: together with `lemma_single_flight`, the fetch
/// for a key succeeds at most once, and all callers share its result.
pub proof fn lemma_resolved_stable(m: CacheModel, s: CacheStep, k: Address, v: CachedERC20)
    requires
        is_resolved(m, k, v),
        step_enabled(m, s),
    ensures
        is_resolved(apply_step(m, s), k, v),
{
}

/// No negative caching: when an in-flight fetch fails, the key's slot is
/// empty again and the next caller is told to fetch.
pub proof fn lemma_failure_leaves_retryable(m: CacheModel, k: Address)
    requires
        is_pending(m, k),
    ensures
        begin_action(abandon_step(m, k), k) is Fetch,
{
}

/// Cross-key independence: a step for one key leaves every other key's
/// slot, and the answer its callers get, unchanged.
pub proof fn lemma_cross_key_independent(m: CacheModel, s: CacheStep, k: Address)
    requires
        step_key(s) != k,
    ensures
        slot(apply_step(m, s), k) == slot(m, k),
        begin_action(apply_step(m, s), k) == begin_action(m, k),
{
}

/// Updating the slot at `i` updates exactly its key in the denoted map.
pub proof fn lemma_entries_map_update(s: Seq<(Address, EntryState)>, i: int, st: EntryState)
    requires
        keys_unique(s),
        0 <= i < s.len(),
    ensures
        keys_unique(s.update(i, (s[i].0, st))),
        entries_map(s.update(i, (s[i].0, st))) == entries_map(s).insert(s[i].0, st),
    decreases s.len(),
{
    let t = s.update(i, (s[i].0, st));
    assert forall|a: int, b: int| 0 <= a < b < t.len() implies t[a].0 != t[b].0 by {
        assert(t[a].0 == s[a].0 && t[b].0 == s[b].0);
    }
    if i == s.len() - 1 {
        assert(t.drop_last() =~= s.drop_last());
        assert(t.last() == (s[i].0, st));
    } else {
        lemma_entries_map_update(s.drop_last(), i, st);
        assert(t.drop_last() =~= s.drop_last().update(i, (s[i].0, st)));
        assert(s.drop_last()[i] == s[i]);
        assert(t.last() == s.last());
        // the two inserted keys differ, so the inserts commute
        assert(s[i].0 != s.last().0);
        assert(entries_map(t) == entries_map(s.drop_last()).insert(s[i].0, st).insert(
            s.last().0,
            s.last().1,
        ));
        assert(entries_map(s.drop_last()).insert(s[i].0, st).insert(s.last().0, s.last().1)
            =~= entries_map(s.drop_last()).insert(s.last().0, s.last().1).insert(s[i].0, st));
    }
}

} // verus!
