use my_approvals::amount::Amount;
use my_approvals::cached::{Action, CachedMap};
use my_approvals::erc20::{
    Address, Approval, ApprovalEvent, CachedERC20, EventMeta, FetchError, TxHash,
};
use my_approvals::orchestrate::{distinct_keys, join_approvals, resolve_many};

fn addr(n: u128) -> Address {
    Address { hi: 0, lo: n }
}

fn token(n: u128, symbol: &str) -> CachedERC20 {
    CachedERC20::new(addr(n), symbol.to_string(), 18)
}

fn event(token_addr: u128, spender: u128, value: u128, tx: u128) -> ApprovalEvent {
    ApprovalEvent {
        approval: Approval {
            owner: addr(1),
            spender: addr(spender),
            value: Amount::from_u128(value),
        },
        meta: EventMeta {
            address: addr(token_addr),
            transaction_hash: TxHash { hi: 0, lo: tx },
        },
    }
}

#[test]
fn single_flight_one_fetch_shared_by_all() {
    let mut cache = CachedMap::new();
    let key = addr(10);

    // the first caller is told to fetch
    assert!(matches!(cache.begin_resolve(&key), Action::Fetch));
    // every caller arriving while that fetch is in flight waits:
    // no second fetch for the key can start
    assert!(matches!(cache.begin_resolve(&key), Action::Wait));
    assert!(matches!(cache.begin_resolve(&key), Action::Wait));

    cache.finish_resolve(&key, token(10, "WETH"));

    // all later callers observe the one resolved value, at no fetch
    for _ in 0..3 {
        match cache.begin_resolve(&key) {
            Action::UseCached(v) => assert_eq!(v, token(10, "WETH")),
            other => panic!("expected the cached value, got {:?}", other),
        }
    }
    assert_eq!(cache.get_resolved(&key), Some(token(10, "WETH")));
}

#[test]
fn failure_is_not_cached() {
    let mut cache = CachedMap::new();
    let key = addr(10);

    // the first fetch fails; the slot must become retryable
    assert!(matches!(cache.begin_resolve(&key), Action::Fetch));
    cache.abandon_resolve(&key);
    assert_eq!(cache.get_resolved(&key), None);

    // the next caller retries, and its success is cached
    assert!(matches!(cache.begin_resolve(&key), Action::Fetch));
    cache.finish_resolve(&key, token(10, "USDC"));
    match cache.begin_resolve(&key) {
        Action::UseCached(v) => assert_eq!(v.symbol(), "USDC"),
        other => panic!("expected the retried value, got {:?}", other),
    }
}

#[test]
fn keys_resolve_independently() {
    let mut cache = CachedMap::new();
    let slow = addr(10);
    let fast = addr(20);

    // a fetch for the slow key is in flight
    assert!(matches!(cache.begin_resolve(&slow), Action::Fetch));

    // the fast key is not blocked by it: it fetches, finishes and
    // serves its value while the slow fetch is still pending
    assert!(matches!(cache.begin_resolve(&fast), Action::Fetch));
    cache.finish_resolve(&fast, token(20, "DAI"));
    assert!(matches!(cache.begin_resolve(&fast), Action::UseCached(_)));

    // and the slow key's fetch is still the only one in flight
    assert!(matches!(cache.begin_resolve(&slow), Action::Wait));
}

#[test]
fn dedup_fetches_once_per_distinct_key() {
    // 100 events over 3 distinct tokens need exactly 3 fetches
    let mut events = Vec::new();
    for i in 0..100u128 {
        events.push(event(10 + i % 3, 2, 500, i));
    }
    let keys = distinct_keys(&events);
    assert_eq!(keys, vec![addr(10), addr(11), addr(12)]);
}

#[test]
fn dedup_keeps_first_occurrence_order() {
    let events = vec![
        event(30, 2, 1, 0),
        event(10, 2, 1, 1),
        event(30, 2, 1, 2),
        event(20, 2, 1, 3),
        event(10, 2, 1, 4),
    ];
    assert_eq!(distinct_keys(&events), vec![addr(30), addr(10), addr(20)]);
}

#[test]
fn join_preserves_input_order_and_shares_values() {
    let events = vec![
        event(10, 2, 100, 0),
        event(20, 3, 200, 1),
        event(10, 4, 300, 2),
    ];
    // distinct keys: [10, 20]; both fetches succeed
    let outcomes = vec![Ok(token(10, "T1")), Ok(token(20, "T2"))];
    let joined = resolve_many(&events, &outcomes).expect("all fetches succeeded");

    assert_eq!(joined.len(), 3);
    // input order is preserved: [V1, V2, V1]
    assert_eq!(joined[0].token, token(10, "T1"));
    assert_eq!(joined[1].token, token(20, "T2"));
    assert_eq!(joined[2].token, token(10, "T1"));
    // the first and third record carry the same resolved value
    assert_eq!(joined[0].token, joined[2].token);
    // each record keeps its own payload
    assert_eq!(joined[0].approval.spender, addr(2));
    assert_eq!(joined[1].approval.spender, addr(3));
    assert_eq!(joined[2].approval.spender, addr(4));
    assert_eq!(joined[2].approval.value, Amount::from_u128(300));
    assert_eq!(joined[0].meta.transaction_hash.lo, 0);
    assert_eq!(joined[2].meta.transaction_hash.lo, 2);

    // newest-first display is the exact reverse of the joined batch
    let newest_first: Vec<_> = joined.iter().rev().collect();
    assert_eq!(newest_first[0].meta.transaction_hash.lo, 2);
    assert_eq!(newest_first[2].meta.transaction_hash.lo, 0);
}

#[test]
fn one_failed_fetch_fails_the_whole_batch() {
    let events = vec![
        event(10, 2, 100, 0),
        event(20, 3, 200, 1),
        event(30, 4, 300, 2),
    ];
    // of the 3 distinct keys, the second fetch fails
    let outcomes = vec![
        Ok(token(10, "T1")),
        Err(FetchError { message: "execution reverted".to_string() }),
        Ok(token(30, "T3")),
    ];
    let r = resolve_many(&events, &outcomes);
    // all-or-nothing: an error, never a partial mapping
    assert_eq!(
        r,
        Err(FetchError { message: "execution reverted".to_string() })
    );
}

#[test]
fn first_error_wins() {
    let events = vec![event(10, 2, 100, 0), event(20, 3, 200, 1)];
    let outcomes = vec![
        Err(FetchError { message: "first".to_string() }),
        Err(FetchError { message: "second".to_string() }),
    ];
    assert_eq!(
        resolve_many(&events, &outcomes),
        Err(FetchError { message: "first".to_string() })
    );
}

#[test]
fn empty_batch_resolves_to_nothing() {
    let events = Vec::new();
    let outcomes = Vec::new();
    assert_eq!(resolve_many(&events, &outcomes), Ok(Vec::new()));
}

#[test]
fn join_looks_tokens_up_in_the_cache() {
    let mut cache = CachedMap::new();
    let key = addr(10);
    assert!(matches!(cache.begin_resolve(&key), Action::Fetch));
    cache.finish_resolve(&key, token(10, "WBTC"));

    let events = vec![event(10, 2, 100, 0), event(10, 3, 200, 1)];
    let joined = join_approvals(&events, &cache);
    assert_eq!(joined.len(), 2);
    assert_eq!(joined[0].token.symbol(), "WBTC");
    assert_eq!(joined[1].token.symbol(), "WBTC");
    assert_eq!(joined[0].meta, events[0].meta);
    assert_eq!(joined[1].meta, events[1].meta);
}
