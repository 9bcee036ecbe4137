//! Orchestration of a batch: deduplicate keys, collect one fetch
//! outcome per distinct key, fail fast on the first error, and join
//! every event with its token's resolved metadata in input order.
//!
//! The remote fetches themselves run with the caller, one per distinct
//! key; the caller hands their outcomes in, in the order of the
//! deduplicated key list, and gets back either the fully joined batch or
//! the first error — never a partial result.

use crate::cached::{has_resolved, is_resolved, Action, CacheModel, CachedMap};
use crate::erc20::{Address, ApprovalEvent, CachedERC20, FetchError, TokenApproval};
use vstd::prelude::*;

verus! {

/// The key of every event, in input order.
pub open spec fn event_keys(s: Seq<ApprovalEvent>) -> Seq<Address> {
    Seq::new(s.len(), |i: int| s[i].meta.address)
}

/// The distinct elements of `s`, each at its first occurrence.
pub open spec fn dedup_first(s: Seq<Address>) -> Seq<Address>
    decreases s.len(),
{
    if s.len() == 0 {
        Seq::empty()
    } else {
        let d = dedup_first(s.drop_last());
        if d.contains(s.last()) {
            d
        } else {
            d.push(s.last())
        }
    }
}

/// Deduplication is exact: the result repeats nothing and holds
/// precisely the elements of its input — one fetch per distinct key.
pub proof fn lemma_dedup_first(s: Seq<Address>)
    ensures
        dedup_first(s).no_duplicates(),
        forall|a: Address| #[trigger] dedup_first(s).contains(a) <==> s.contains(a),
    decreases s.len(),
{
    if s.len() > 0 {
        lemma_dedup_first(s.drop_last());
        let d = dedup_first(s.drop_last());
        let x = s.last();
        assert forall|a: Address| #[trigger] s.contains(a) implies (a == x || s.drop_last()
            .contains(a)) by {
            let i = choose|i: int| 0 <= i < s.len() && s[i] == a;
            if i < s.len() - 1 {
                assert(s.drop_last()[i] == a);
            }
        }
        assert forall|a: Address| s.drop_last().contains(a) implies s.contains(a) by {
            let i = choose|i: int| 0 <= i < s.drop_last().len() && s.drop_last()[i] == a;
            assert(s[i] == a);
        }
        assert(s[s.len() - 1] == x);
        assert(s.contains(x));
        if !d.contains(x) {
            let t = d.push(x);
            assert forall|a: Address| #[trigger] t.contains(a) implies (d.contains(a) || a
                == x) by {
                let i = choose|i: int| 0 <= i < t.len() && t[i] == a;
                if i < d.len() {
                    assert(d[i] == a);
                }
            }
            assert forall|a: Address| d.contains(a) implies t.contains(a) by {
                let i = choose|i: int| 0 <= i < d.len() && d[i] == a;
                assert(t[i] == a);
            }
            assert(t[d.len() as int] == x);
            assert(t.contains(x));
            assert forall|i: int, j: int| 0 <= i < j < t.len() implies t[i] != t[j] by {
                if j < d.len() {
                } else {
                    assert(t[j] == x);
                    assert(t[i] == d[i]);
                    if d[i] == x {
                        assert(d.contains(x));
                    }
                }
            }
        }
    }
}

/// However many events mention a key, the batch fetches once per
/// distinct key: the deduplicated list is exactly as long as the set of
/// keys the input mentions.
pub proof fn lemma_dedup_first_count(s: Seq<Address>)
    ensures
        dedup_first(s).len() == s.to_set().len(),
{
    lemma_dedup_first(s);
    dedup_first(s).unique_seq_to_set();
    assert(dedup_first(s).to_set() =~= s.to_set());
}

/// Does `v` hold this address?
fn contains_addr(v: &Vec<Address>, a: &Address) -> (r: bool)
    ensures
        r == v@.contains(*a),
{
    let mut i: usize = 0;
    while i < v.len()
        invariant
            i <= v@.len(),
            forall|j: int| 0 <= j < i ==> v@[j] != *a,
        decreases v@.len() - i,
    {
        if v[i] == *a {
            return true;
        }
        i += 1;
    }
    proof {
        if v@.contains(*a) {
            let j = choose|j: int| 0 <= j < v@.len() && v@[j] == *a;
            assert(false);
        }
    }
    false
}

/// Every distinct key of the batch, at its first occurrence: these, and
/// nothing else, are the fetches the batch needs.
pub fn distinct_keys(events: &Vec<ApprovalEvent>) -> (r: Vec<Address>)
    ensures
        r@ == dedup_first(event_keys(events@)),
        r@.no_duplicates(),
        forall|a: Address| #[trigger] r@.contains(a) <==> event_keys(events@).contains(a),
{
    let ghost ks = event_keys(events@);
    let mut out: Vec<Address> = Vec::new();
    let mut i: usize = 0;
    while i < events.len()
        invariant
            i <= events@.len(),
            ks == event_keys(events@),
            out@ == dedup_first(ks.take(i as int)),
        decreases events@.len() - i,
    {
        let a = events[i].meta.address;
        proof {
            assert(ks.take(i + 1).drop_last() =~= ks.take(i as int));
            assert(ks.take(i + 1).last() == ks[i as int]);
            assert(ks[i as int] == a);
        }
        if !contains_addr(&out, &a) {
            out.push(a);
        }
        i += 1;
    }
    proof {
        assert(ks.take(ks.len() as int) =~= ks);
        lemma_dedup_first(ks);
    }
    out
}

/// The joined record for event `ev` under cache state `m`: the event's
/// own fields unchanged, and the token resolved for the event's key.
pub open spec fn joined_at(out: TokenApproval, ev: ApprovalEvent, m: CacheModel) -> bool {
    &&& out.meta == ev.meta
    &&& out.approval.owner == ev.approval.owner
    &&& out.approval.spender == ev.approval.spender
    &&& out.approval.value.digits@ == ev.approval.value.digits@
    &&& is_resolved(m, ev.meta.address, out.token)
}

/// Join every event with its key's resolved token, in input order.
/// The caller guarantees every key is resolved; a missing key would be
/// an invariant violation, not an error this function can return.
pub fn join_approvals(events: &Vec<ApprovalEvent>, cache: &CachedMap) -> (r: Vec<TokenApproval>)
    requires
        cache.wf(),
        forall|i: int|
            0 <= i < events@.len() ==> has_resolved(cache@, (#[trigger] events@[i]).meta.address),
    ensures
        r@.len() == events@.len(),
        forall|i: int| 0 <= i < events@.len() ==> joined_at(#[trigger] r@[i], events@[i], cache@),
{
    let mut out: Vec<TokenApproval> = Vec::new();
    let mut i: usize = 0;
    while i < events.len()
        invariant
            i <= events@.len(),
            cache.wf(),
            forall|t: int|
                0 <= t < events@.len() ==> has_resolved(
                    cache@,
                    (#[trigger] events@[t]).meta.address,
                ),
            out@.len() == i,
            forall|t: int| 0 <= t < i ==> joined_at(#[trigger] out@[t], events@[t], cache@),
        decreases events@.len() - i,
    {
        let ev = &events[i];
        match cache.get_resolved(&ev.meta.address) {
            Option::Some(token) => {
                out.push(TokenApproval::new(token, ev.approval.clone(), ev.meta));
            },
            Option::None => {
                // the caller resolved every key first
                proof {
                    let a = events@[i as int].meta.address;
                    assert(is_resolved(cache@, a, cache@[a]->Resolved_0));
                }
                return unreached();
            },
        }
        i += 1;
    }
    out
}

/// The fetch outcome that belongs to event `i`: the one handed in for
/// its key's position in the deduplicated key list.
pub open spec fn key_outcome(
    events: Seq<ApprovalEvent>,
    outcomes: Seq<Result<CachedERC20, FetchError>>,
    i: int,
) -> Result<CachedERC20, FetchError> {
    outcomes[dedup_first(event_keys(events)).index_of(events[i].meta.address)]
}

/// Event `i` of the joined batch is correct: the event's own fields
/// unchanged, and as token the value its key's fetch returned.
pub open spec fn joined_event_ok(
    out: Seq<TokenApproval>,
    events: Seq<ApprovalEvent>,
    outcomes: Seq<Result<CachedERC20, FetchError>>,
    i: int,
) -> bool {
    &&& out[i].meta == events[i].meta
    &&& out[i].approval.owner == events[i].approval.owner
    &&& out[i].approval.spender == events[i].approval.spender
    &&& out[i].approval.value.digits@ == events[i].approval.value.digits@
    &&& out[i].token == key_outcome(events, outcomes, i)->Ok_0
}

/// Resolve a whole batch, all or nothing. `outcomes` holds one fetch
/// outcome per distinct key, in the order of `distinct_keys`; the batch
/// either joins completely or fails with the first error, and a key's
/// failed fetch is abandoned, never cached.
pub fn resolve_many(
    events: &Vec<ApprovalEvent>,
    outcomes: &Vec<Result<CachedERC20, FetchError>>,
) -> (r: Result<Vec<TokenApproval>, FetchError>)
    requires
        outcomes@.len() == dedup_first(event_keys(events@)).len(),
    ensures
        r is Ok <==> (forall|t: int| 0 <= t < outcomes@.len() ==> outcomes@[t] is Ok),
        r matches Err(e) ==> exists|t: int|
            {
                &&& 0 <= t < outcomes@.len()
                &&& (forall|u: int| 0 <= u < t ==> outcomes@[u] is Ok)
                &&& outcomes@[t] is Err
                &&& e == outcomes@[t]->Err_0
            },
        r matches Ok(out) ==> out@.len() == events@.len() && (forall|i: int|
            0 <= i < events@.len() ==> joined_event_ok(out@, events@, outcomes@, i)),
{
    let keys = distinct_keys(events);
    let mut cache = CachedMap::new();
    let mut j: usize = 0;
    while j < keys.len()
        invariant
            cache.wf(),
            keys@ == dedup_first(event_keys(events@)),
            keys@.no_duplicates(),
            j <= keys@.len() == outcomes@.len(),
            forall|t: int| 0 <= t < j ==> outcomes@[t] is Ok,
            forall|t: int|
                0 <= t < j ==> is_resolved(cache@, keys@[t], #[trigger] outcomes@[t]->Ok_0),
            forall|a: Address| #[trigger] cache@.contains_key(a) ==> keys@.take(j as int).contains(a),
        decreases keys@.len() - j,
    {
        let key = keys[j];
        proof {
            if cache@.contains_key(key) {
                let t = choose|t: int|
                    0 <= t < j && #[trigger] keys@.take(j as int)[t] == key;
                assert(keys@[t] == keys@[j as int]);
                assert(false);
            }
        }
        let act = cache.begin_resolve(&key);
        match act {
            Action::Fetch => {},
            _ => {
                return unreached();
            },
        }
        match &outcomes[j] {
            Result::Ok(v) => {
                cache.finish_resolve(&key, v.clone());
                proof {
                    assert forall|t: int|
                        0 <= t < j + 1 implies is_resolved(
                        cache@,
                        keys@[t],
                        #[trigger] outcomes@[t]->Ok_0,
                    ) by {
                        if t < j {
                            assert(keys@[t] != keys@[j as int]);
                        }
                    }
                    assert forall|a: Address| #[trigger] cache@.contains_key(a) implies keys@.take(
                        j + 1,
                    ).contains(a) by {
                        if a == key {
                            assert(keys@.take(j + 1)[j as int] == key);
                        } else {
                            let t = choose|t: int|
                                0 <= t < j && #[trigger] keys@.take(j as int)[t] == a;
                            assert(keys@.take(j + 1)[t] == a);
                        }
                    }
                }
            },
            Result::Err(e) => {
                // release the key's slot before failing the batch
                cache.abandon_resolve(&key);
                return Result::Err(e.clone());
            },
        }
        j += 1;
    }
    proof {
        lemma_dedup_first(event_keys(events@));
        assert forall|i: int| 0 <= i < events@.len() implies has_resolved(
            cache@,
            (#[trigger] events@[i]).meta.address,
        ) by {
            let a = events@[i].meta.address;
            assert(event_keys(events@)[i] == a);
            assert(event_keys(events@).contains(a));
            assert(keys@.contains(a));
            let t = choose|t: int| 0 <= t < keys@.len() && keys@[t] == a;
            assert(is_resolved(cache@, keys@[t], outcomes@[t]->Ok_0));
        }
    }
    let out = join_approvals(events, &cache);
    proof {
        assert forall|i: int| 0 <= i < events@.len() implies joined_event_ok(
            out@,
            events@,
            outcomes@,
            i,
        ) by {
            let a = events@[i].meta.address;
            assert(joined_at(out@[i], events@[i], cache@));
            let t = keys@.index_of(a);
            assert(event_keys(events@)[i] == a);
            assert(event_keys(events@).contains(a));
            assert(keys@.contains(a));
            assert(0 <= t < keys@.len() && keys@[t] == a);
            assert(is_resolved(cache@, a, outcomes@[t]->Ok_0));
            assert(is_resolved(cache@, a, out@[i].token));
        }
    }
    Result::Ok(out)
}

} // verus!
