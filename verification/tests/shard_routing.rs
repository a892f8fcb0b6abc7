use view_query::value::{shard_of, Value};

#[test]
fn routed_shard_is_in_range_for_every_count() {
    let keys = vec![
        Value::Null,
        Value::Int(0),
        Value::Int(1),
        Value::Int(-7),
        Value::Int(i64::MAX),
        Value::Int(i64::MIN),
        Value::Text(b"A".to_vec()),
        Value::Text(b"blue".to_vec()),
        Value::Text(Vec::new()),
    ];
    for n in 1..9usize {
        for k in &keys {
            let s = shard_of(k, n);
            assert!(s < n);
        }
    }
}

#[test]
fn routing_is_deterministic_across_repeated_calls() {
    let keys = vec![
        Value::Null,
        Value::Int(42),
        Value::Int(-3),
        Value::Text(b"repeat me".to_vec()),
    ];
    for n in 1..6usize {
        for k in &keys {
            let first = shard_of(k, n);
            for _ in 0..4 {
                assert_eq!(shard_of(k, n), first);
            }
        }
    }
}

#[test]
fn small_nonnegative_integers_route_by_value() {
    // the hash of a non-negative integer is the integer itself, so routing
    // reduces to the remainder modulo the shard count
    assert_eq!(shard_of(&Value::Int(0), 2), 0);
    assert_eq!(shard_of(&Value::Int(1), 2), 1);
    assert_eq!(shard_of(&Value::Int(5), 2), 1);
    assert_eq!(shard_of(&Value::Int(5), 3), 2);
}
