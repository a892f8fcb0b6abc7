use view_query::getter::{Getter, Readers, TxnStep};
use view_query::protocol::TokenGenerator;
use view_query::store::ShardStore;
use view_query::value::Value;

fn key(x: i64) -> Vec<Value> {
    vec![Value::Int(x)]
}

fn rows_for(x: i64) -> Vec<Vec<Value>> {
    vec![vec![Value::Int(x), Value::Text(b"row".to_vec())]]
}

fn singleton_readers(node: u64, ts: i64) -> Readers {
    let mut store = ShardStore::new(ts);
    store.insert(key(1), rows_for(1), false);
    store.insert(key(2), rows_for(2), true);
    let mut readers = Readers::new();
    readers.register(node, 0, store);
    readers
}

#[test]
fn construction_fails_until_every_shard_is_registered() {
    let readers = singleton_readers(4, 0);
    assert!(Getter::new(4, None, &readers, None).is_some());
    assert!(Getter::new(5, None, &readers, None).is_none());
    // a two-shard view needs both shards registered
    assert!(Getter::new(4, Some(2), &readers, None).is_none());
}

#[test]
fn lookup_returns_rows_and_empty_for_absent_keys() {
    let readers = singleton_readers(4, 0);
    let g = Getter::new(4, None, &readers, None).unwrap();
    assert_eq!(g.lookup(&key(1), false).unwrap(), rows_for(1));
    assert_eq!(g.lookup(&key(99), false).unwrap(), Vec::<Vec<Value>>::new());
}

#[test]
fn pending_entry_needs_a_blocking_lookup() {
    let readers = singleton_readers(4, 0);
    let g = Getter::new(4, None, &readers, None).unwrap();
    assert!(g.lookup(&key(2), false).is_err());
    assert_eq!(g.lookup(&key(2), true).unwrap(), rows_for(2));
}

#[test]
fn lookup_map_applies_the_transform() {
    let readers = singleton_readers(4, 0);
    let g = Getter::new(4, None, &readers, None).unwrap();
    let n = g.lookup_map(&key(1), |d: &Vec<Vec<Value>>| d.len(), false).unwrap();
    assert_eq!(n, Some(1));
    let none = g.lookup_map(&key(99), |d: &Vec<Vec<Value>>| d.len(), false).unwrap();
    assert_eq!(none, None);
}

#[test]
fn len_counts_keys_across_shards() {
    let mut readers = Readers::new();
    let mut s0 = ShardStore::new(0);
    s0.insert(key(0), rows_for(0), false);
    s0.insert(key(2), rows_for(2), false);
    let mut s1 = ShardStore::new(0);
    s1.insert(key(1), rows_for(1), false);
    readers.register(8, 0, s0);
    readers.register(8, 1, s1);
    let g = Getter::new(8, Some(2), &readers, None).unwrap();
    assert_eq!(g.len(), 3);
}

#[test]
fn transactions_need_a_generator() {
    let readers = singleton_readers(4, 0);
    let mut g = Getter::new(4, None, &readers, None).unwrap();
    assert!(!g.supports_transactions());
    assert!(g.transactional_lookup(&key(1)).is_err());

    let mut t = Getter::new(4, None, &readers, Some(TokenGenerator::new())).unwrap();
    assert!(t.supports_transactions());
    assert!(t.transactional_lookup(&key(1)).is_ok());
}

#[test]
fn transactional_timestamps_never_decrease() {
    let readers = singleton_readers(4, 17);
    let mut g = Getter::new(4, None, &readers, Some(TokenGenerator::new())).unwrap();
    let mut last = i64::MIN;
    for x in [1i64, 2, 1, 99] {
        let (_rows, tok) = g.transactional_lookup(&key(x)).unwrap();
        assert!(tok.ts >= last);
        last = tok.ts;
    }
    assert_eq!(last, 17);
}

#[test]
fn token_binds_timestamp_and_key() {
    let readers = singleton_readers(4, 23);
    let mut g = Getter::new(4, None, &readers, Some(TokenGenerator::new())).unwrap();
    let (rows, tok) = g.transactional_lookup(&key(1)).unwrap();
    assert_eq!(rows, rows_for(1));
    assert_eq!(tok.ts, 23);
    assert_eq!(tok.key, key(1));
}

#[test]
fn stale_observation_is_discarded_without_advancing_the_tracker() {
    // two shards whose timestamps have not converged: integer keys 0 and 1
    // route to shards 0 and 1
    let mut readers = Readers::new();
    let mut s0 = ShardStore::new(10);
    s0.insert(key(0), rows_for(0), false);
    let mut s1 = ShardStore::new(5);
    s1.insert(key(1), rows_for(1), false);
    readers.register(8, 0, s0);
    readers.register(8, 1, s1);
    let mut g = Getter::new(8, Some(2), &readers, Some(TokenGenerator::new())).unwrap();

    let (_rows, tok) = g.transactional_lookup(&key(0)).unwrap();
    assert_eq!(tok.ts, 10);

    // the second shard is behind: the observation is stale and discarded
    match g.transactional_step(&key(1)) {
        TxnStep::Stale => {}
        _ => panic!("expected a stale observation"),
    }
    // the tracker did not move backward: a fresh read still observes 10
    match g.transactional_step(&key(0)) {
        TxnStep::Fresh(_rows, tok2) => assert_eq!(tok2.ts, 10),
        _ => panic!("expected a fresh observation"),
    }
}
