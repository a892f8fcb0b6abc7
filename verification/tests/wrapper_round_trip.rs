use view_query::envelope::{PackedQuery, PackedReply};
use view_query::protocol::{ReadQuery, ReadReply, Token};
use view_query::value::Value;

fn sample_keys() -> Vec<Vec<Value>> {
    vec![
        vec![Value::Int(3), Value::Text(b"alpha".to_vec())],
        vec![Value::Null],
    ]
}

#[test]
fn wire_query_round_trip_is_structural_identity() {
    let q = ReadQuery::Normal { target: (7, 1), keys: sample_keys(), block: true };
    let w = PackedQuery::make(q, false);
    assert!(!w.is_local());
    match w.take() {
        ReadQuery::Normal { target, keys, block } => {
            assert_eq!(target, (7, 1));
            assert!(block);
            assert_eq!(keys, sample_keys());
        }
        _ => panic!("wrong query variant after round trip"),
    }
}

#[test]
fn local_query_passes_through_without_serialization() {
    let q = ReadQuery::Size { target: (9, 4) };
    let w = PackedQuery::make(q, true);
    assert!(w.is_local());
    match w.take() {
        ReadQuery::Size { target } => assert_eq!(target, (9, 4)),
        _ => panic!("wrong query variant from local wrapper"),
    }
}

#[test]
fn wire_reply_round_trip_keeps_rows_and_tokens() {
    let rows = vec![vec![Value::Int(1), Value::Text(b"x".to_vec())], vec![Value::Null]];
    let tok = Token { ts: -5, key: vec![Value::Int(1)] };
    let reply = ReadReply::WithToken(Ok(vec![(rows.clone(), tok.clone())]));
    let w = PackedReply::make(reply, false);
    assert!(!w.is_local());
    match w.take() {
        ReadReply::WithToken(Ok(pairs)) => {
            assert_eq!(pairs.len(), 1);
            assert_eq!(pairs[0].0, rows);
            assert_eq!(pairs[0].1, tok);
        }
        _ => panic!("wrong reply variant after round trip"),
    }
}

#[test]
fn wire_reply_round_trip_keeps_unavailable() {
    let w = PackedReply::make(ReadReply::Normal(Err(())), false);
    match w.take() {
        ReadReply::Normal(Err(())) => {}
        _ => panic!("wrong reply variant after round trip"),
    }
}

#[test]
fn local_reply_passes_through() {
    let w = PackedReply::make(ReadReply::Size(12), true);
    assert!(w.is_local());
    match w.take() {
        ReadReply::Size(n) => assert_eq!(n, 12),
        _ => panic!("wrong reply variant from local wrapper"),
    }
}

#[test]
fn size_query_encoding_is_tag_then_little_endian_target() {
    let mut out: Vec<u8> = Vec::new();
    view_query::codec::enc_query(&mut out, &ReadQuery::Size { target: (1, 2) });
    let mut expected = vec![2u8];
    expected.extend_from_slice(&1u64.to_le_bytes());
    expected.extend_from_slice(&2u64.to_le_bytes());
    assert_eq!(out, expected);
}
