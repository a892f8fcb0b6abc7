use view_query::protocol::TokenGenerator;
use view_query::remote::{
    ConnCache, Endpoints, RemoteGetterBuilder, ShardServer, EPHEMERAL_PORT,
};
use view_query::store::ShardStore;
use view_query::value::Value;

fn key(x: i64) -> Vec<Value> {
    vec![Value::Int(x)]
}

fn rows_for(x: i64) -> Vec<Vec<Value>> {
    vec![vec![Value::Int(x), Value::Text(b"payload".to_vec())]]
}

fn store_with_keys(ts: i64, keys: &[i64]) -> ShardStore {
    let mut s = ShardStore::new(ts);
    for &k in keys {
        s.insert(key(k), rows_for(k), false);
    }
    s
}

fn network(node: u64, shard_keys: &[&[i64]], transactional: bool) -> Endpoints {
    let mut net = Endpoints::new();
    for (i, ks) in shard_keys.iter().enumerate() {
        let server = ShardServer {
            node,
            shard: i,
            store: store_with_keys(7, ks),
            generator: if transactional { Some(TokenGenerator::new()) } else { None },
        };
        net.register(100 + i as u64, server);
    }
    net
}

fn builder(node: u64, shards: usize) -> RemoteGetterBuilder {
    RemoteGetterBuilder {
        node,
        columns: vec!["id".to_string(), "body".to_string()],
        shards: (0..shards).map(|i| (100 + i as u64, i == 0)).collect(),
        local_port: None,
    }
}

#[test]
fn len_sums_the_size_replies_of_all_shards() {
    // shard sizes 3, 5 and 2 add up to 10
    let net = network(1, &[&[0, 2, 4], &[1, 3, 5, 7, 9], &[6, 8]], false);
    let g = builder(1, 3).build_exclusive(&net).unwrap();
    assert_eq!(g.len().unwrap(), 10);
}

#[test]
fn build_fails_when_an_address_has_no_endpoint() {
    let net = network(1, &[&[0]], false);
    assert!(builder(1, 2).build_exclusive(&net).is_err());
}

#[test]
fn multi_shard_lookup_merges_the_groups_of_both_shards() {
    // integer keys 0 and 1 route to shards 0 and 1
    let net = network(1, &[&[0], &[1]], false);
    let g = builder(1, 2).build_exclusive(&net).unwrap();
    let out = g.multi_lookup(vec![key(0), key(1)], false).unwrap();
    assert_eq!(out.len(), 2);
    assert!(out.contains(&rows_for(0)));
    assert!(out.contains(&rows_for(1)));
}

#[test]
fn one_unavailable_shard_fails_the_whole_lookup() {
    let mut net = Endpoints::new();
    net.register(
        100,
        ShardServer { node: 1, shard: 0, store: store_with_keys(7, &[0]), generator: None },
    );
    let mut pending = ShardStore::new(7);
    pending.insert(key(1), rows_for(1), true);
    net.register(101, ShardServer { node: 1, shard: 1, store: pending, generator: None });

    let g = builder(1, 2).build_exclusive(&net).unwrap();
    // the pending entry makes shard 1 unavailable to a non-blocking read
    assert!(g.multi_lookup(vec![key(0), key(1)], false).is_err());
    // blocking resolves it
    assert!(g.multi_lookup(vec![key(0), key(1)], true).is_ok());
}

#[test]
fn single_key_lookup_equals_multi_lookup_of_that_key() {
    let net = network(1, &[&[0], &[1]], false);
    let g = builder(1, 2).build_exclusive(&net).unwrap();
    for k in [0i64, 1] {
        let single = g.lookup(&key(k), false).unwrap();
        let multi = g.multi_lookup(vec![key(k)], false).unwrap();
        assert_eq!(multi.len(), 1);
        assert_eq!(single, multi[0]);
    }
}

#[test]
fn transactional_lookup_pairs_rows_with_tokens() {
    let net = network(1, &[&[0], &[1]], true);
    let g = builder(1, 2).build_exclusive(&net).unwrap();
    let out = g.transactional_multi_lookup(vec![key(0), key(1)]).unwrap();
    assert_eq!(out.len(), 2);
    for (rows, tok) in &out {
        assert_eq!(tok.ts, 7);
        let k = match tok.key[0] {
            Value::Int(x) => x,
            _ => panic!("token bound to an unexpected key"),
        };
        assert_eq!(rows, &rows_for(k));
    }
    let (rows, tok) = g.transactional_lookup(&key(1)).unwrap();
    assert_eq!(rows, rows_for(1));
    assert_eq!(tok.ts, 7);
    assert_eq!(tok.key, key(1));
}

#[test]
fn transactional_lookup_fails_without_a_generator() {
    let net = network(1, &[&[0], &[1]], false);
    let g = builder(1, 2).build_exclusive(&net).unwrap();
    assert!(g.transactional_lookup(&key(0)).is_err());
}

#[test]
fn columns_and_local_port_are_kept() {
    let net = network(1, &[&[0]], false);
    let g = builder(1, 1).with_local_port(4321).build_exclusive(&net).unwrap();
    assert_eq!(g.columns(), &vec!["id".to_string(), "body".to_string()]);
    // an exclusive build opens fresh connections with a transport-chosen port
    assert_eq!(g.local_addr(), EPHEMERAL_PORT);
}

#[test]
fn pooled_builds_share_cached_connections() {
    let net = network(1, &[&[0], &[1]], false);
    let mut cache = ConnCache::new();
    let g1 = builder(1, 2).with_local_port(4000).build(&mut cache, &net).unwrap();
    assert_eq!(cache.conns.len(), 2);
    assert_eq!(g1.local_addr(), 4000);
    // the second build reuses both pooled connections
    let g2 = builder(1, 2).build(&mut cache, &net).unwrap();
    assert_eq!(cache.conns.len(), 2);
    assert_eq!(g2.len().unwrap(), g1.len().unwrap());

    let g3 = g2.clone();
    assert_eq!(g3.columns(), g1.columns());
    // converting to exclusive rebinds fresh dedicated connections
    let excl = g3.into_exclusive();
    assert_eq!(excl.local_addr(), EPHEMERAL_PORT);
    assert_eq!(excl.lookup(&key(0), false).unwrap(), rows_for(0));
}

#[test]
fn a_pooled_connection_is_reused_with_its_recorded_port() {
    let net = network(1, &[&[0]], false);
    let mut cache = ConnCache::new();
    let g1 = builder(1, 1).with_local_port(5005).build(&mut cache, &net).unwrap();
    assert_eq!(g1.local_addr(), 5005);
    // a later build without a preferred port still reuses the cached
    // connection, bound port included
    let g2 = builder(1, 1).build(&mut cache, &net).unwrap();
    assert_eq!(cache.conns.len(), 1);
    assert_eq!(g2.local_addr(), 5005);
}
