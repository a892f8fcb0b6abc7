//! The byte codec for queries and replies: the serialized form that the
//! wire envelope carries over a real transport boundary.
//!
//! Layout: integers are eight little-endian bytes; a list is its length
//! followed by its elements; a value, a query and a reply start with a one
//! byte tag.

use crate::protocol::{QueryModel, ReadQuery, ReadReply, ReplyModel, Token, TokenModel};
use crate::value::{spec_int_bits, Datas, Row, Value, ValueModel};
use vstd::bytes::{lemma_auto_spec_u64_to_from_le_bytes, spec_u64_from_le_bytes, spec_u64_to_le_bytes};
use vstd::prelude::*;

verus! {

/// The signed integer whose bit pattern `u` is.
pub open spec fn spec_int_from_bits(u: u64) -> i64 {
    if u < 0x8000_0000_0000_0000 {
        u as i64
    } else {
        (u as int - 0x1_0000_0000_0000_0000) as i64
    }
}

pub proof fn lemma_int_bits_roundtrip(x: i64)
    ensures
        spec_int_from_bits(spec_int_bits(x)) == x,
{
}

// ------------------------------------------------------------------
// encoders (model level)
// ------------------------------------------------------------------

pub open spec fn spec_enc_value(v: ValueModel) -> Seq<u8> {
    match v {
        ValueModel::Null => seq![0u8],
        ValueModel::Int(x) => seq![1u8] + spec_u64_to_le_bytes(spec_int_bits(x)),
        ValueModel::Text(s) => seq![2u8] + spec_u64_to_le_bytes(s.len() as u64) + s,
    }
}

pub open spec fn spec_enc_each<T>(xs: Seq<T>, f: spec_fn(T) -> Seq<u8>) -> Seq<u8>
    decreases xs.len(),
{
    if xs.len() == 0 {
        Seq::empty()
    } else {
        f(xs.first()) + spec_enc_each(xs.drop_first(), f)
    }
}

pub open spec fn spec_enc_list<T>(xs: Seq<T>, f: spec_fn(T) -> Seq<u8>) -> Seq<u8> {
    spec_u64_to_le_bytes(xs.len() as u64) + spec_enc_each(xs, f)
}

pub open spec fn enc_value_fn() -> spec_fn(ValueModel) -> Seq<u8> {
    |v: ValueModel| spec_enc_value(v)
}

pub open spec fn spec_enc_row(r: Seq<ValueModel>) -> Seq<u8> {
    spec_enc_list(r, enc_value_fn())
}

pub open spec fn enc_row_fn() -> spec_fn(Seq<ValueModel>) -> Seq<u8> {
    |r: Seq<ValueModel>| spec_enc_row(r)
}

pub open spec fn spec_enc_rows(rs: Seq<Seq<ValueModel>>) -> Seq<u8> {
    spec_enc_list(rs, enc_row_fn())
}

pub open spec fn enc_rows_fn() -> spec_fn(Seq<Seq<ValueModel>>) -> Seq<u8> {
    |rs: Seq<Seq<ValueModel>>| spec_enc_rows(rs)
}

pub open spec fn spec_enc_rows_list(ds: Seq<Seq<Seq<ValueModel>>>) -> Seq<u8> {
    spec_enc_list(ds, enc_rows_fn())
}

pub open spec fn spec_enc_token(t: TokenModel) -> Seq<u8> {
    spec_u64_to_le_bytes(spec_int_bits(t.ts)) + spec_enc_row(t.key)
}

pub open spec fn spec_enc_pair(p: (Seq<Seq<ValueModel>>, TokenModel)) -> Seq<u8> {
    spec_enc_rows(p.0) + spec_enc_token(p.1)
}

pub open spec fn enc_pair_fn() -> spec_fn((Seq<Seq<ValueModel>>, TokenModel)) -> Seq<u8> {
    |p: (Seq<Seq<ValueModel>>, TokenModel)| spec_enc_pair(p)
}

pub open spec fn spec_enc_pairs(ps: Seq<(Seq<Seq<ValueModel>>, TokenModel)>) -> Seq<u8> {
    spec_enc_list(ps, enc_pair_fn())
}

pub open spec fn spec_enc_target(t: (u64, usize)) -> Seq<u8> {
    spec_u64_to_le_bytes(t.0) + spec_u64_to_le_bytes(t.1 as u64)
}

pub open spec fn spec_enc_query(q: QueryModel) -> Seq<u8> {
    match q {
        QueryModel::Normal { target, keys, block } => seq![0u8] + spec_enc_target(target)
            + spec_enc_rows(keys) + seq![if block { 1u8 } else { 0u8 }],
        QueryModel::WithToken { target, keys } => seq![1u8] + spec_enc_target(target)
            + spec_enc_rows(keys),
        QueryModel::Size { target } => seq![2u8] + spec_enc_target(target),
    }
}

pub open spec fn spec_enc_reply(r: ReplyModel) -> Seq<u8> {
    match r {
        ReplyModel::Normal(res) => seq![0u8] + match res {
            Ok(v) => seq![1u8] + spec_enc_rows_list(v),
            Err(_) => seq![0u8],
        },
        ReplyModel::WithToken(res) => seq![1u8] + match res {
            Ok(v) => seq![1u8] + spec_enc_pairs(v),
            Err(_) => seq![0u8],
        },
        ReplyModel::Size(n) => seq![2u8] + spec_u64_to_le_bytes(n as u64),
    }
}

// ------------------------------------------------------------------
// length bounds under which the encoding is faithful
// ------------------------------------------------------------------

pub open spec fn spec_value_ok(v: ValueModel) -> bool {
    match v {
        ValueModel::Text(s) => s.len() <= u64::MAX,
        _ => true,
    }
}

pub open spec fn value_ok_fn() -> spec_fn(ValueModel) -> bool {
    |v: ValueModel| spec_value_ok(v)
}

pub open spec fn spec_row_ok(r: Seq<ValueModel>) -> bool {
    r.len() <= u64::MAX && forall|i: int| 0 <= i < r.len() ==> spec_value_ok(#[trigger] r[i])
}

pub open spec fn row_ok_fn() -> spec_fn(Seq<ValueModel>) -> bool {
    |r: Seq<ValueModel>| spec_row_ok(r)
}

pub open spec fn spec_rows_ok(rs: Seq<Seq<ValueModel>>) -> bool {
    rs.len() <= u64::MAX && forall|i: int| 0 <= i < rs.len() ==> spec_row_ok(#[trigger] rs[i])
}

pub open spec fn rows_ok_fn() -> spec_fn(Seq<Seq<ValueModel>>) -> bool {
    |rs: Seq<Seq<ValueModel>>| spec_rows_ok(rs)
}

pub open spec fn spec_rows_list_ok(ds: Seq<Seq<Seq<ValueModel>>>) -> bool {
    ds.len() <= u64::MAX && forall|i: int| 0 <= i < ds.len() ==> spec_rows_ok(#[trigger] ds[i])
}

pub open spec fn spec_pair_ok(p: (Seq<Seq<ValueModel>>, TokenModel)) -> bool {
    spec_rows_ok(p.0) && spec_row_ok(p.1.key)
}

pub open spec fn pair_ok_fn() -> spec_fn((Seq<Seq<ValueModel>>, TokenModel)) -> bool {
    |p: (Seq<Seq<ValueModel>>, TokenModel)| spec_pair_ok(p)
}

pub open spec fn spec_pairs_ok(ps: Seq<(Seq<Seq<ValueModel>>, TokenModel)>) -> bool {
    ps.len() <= u64::MAX && forall|i: int| 0 <= i < ps.len() ==> spec_pair_ok(#[trigger] ps[i])
}

pub open spec fn spec_query_ok(q: QueryModel) -> bool {
    match q {
        QueryModel::Normal { target: _, keys, block: _ } => spec_rows_ok(keys),
        QueryModel::WithToken { target: _, keys } => spec_rows_ok(keys),
        QueryModel::Size { target: _ } => true,
    }
}

pub open spec fn spec_reply_ok(r: ReplyModel) -> bool {
    match r {
        ReplyModel::Normal(res) => match res {
            Ok(v) => spec_rows_list_ok(v),
            Err(_) => true,
        },
        ReplyModel::WithToken(res) => match res {
            Ok(v) => spec_pairs_ok(v),
            Err(_) => true,
        },
        ReplyModel::Size(_) => true,
    }
}

// ------------------------------------------------------------------
// decoders (model level); each returns the decoded value and the rest
// ------------------------------------------------------------------

pub open spec fn spec_dec_u64(s: Seq<u8>) -> Option<(u64, Seq<u8>)> {
    if s.len() < 8 {
        None
    } else {
        Some((spec_u64_from_le_bytes(s.take(8)), s.skip(8)))
    }
}

pub open spec fn spec_dec_value(s: Seq<u8>) -> Option<(ValueModel, Seq<u8>)> {
    if s.len() < 1 {
        None
    } else if s[0] == 0 {
        Some((ValueModel::Null, s.skip(1)))
    } else if s[0] == 1 {
        match spec_dec_u64(s.skip(1)) {
            None => None,
            Some((u, rest)) => Some((ValueModel::Int(spec_int_from_bits(u)), rest)),
        }
    } else if s[0] == 2 {
        match spec_dec_u64(s.skip(1)) {
            None => None,
            Some((n, rest)) => if rest.len() < n {
                None
            } else {
                Some((ValueModel::Text(rest.take(n as int)), rest.skip(n as int)))
            },
        }
    } else {
        None
    }
}

pub open spec fn spec_dec_items<T>(
    s: Seq<u8>,
    f: spec_fn(Seq<u8>) -> Option<(T, Seq<u8>)>,
    n: nat,
) -> Option<(Seq<T>, Seq<u8>)>
    decreases n,
{
    if n == 0 {
        Some((Seq::empty(), s))
    } else {
        match f(s) {
            None => None,
            Some((x, rest)) => match spec_dec_items(rest, f, (n - 1) as nat) {
                None => None,
                Some((xs, rest2)) => Some((seq![x] + xs, rest2)),
            },
        }
    }
}

pub open spec fn spec_dec_list<T>(s: Seq<u8>, f: spec_fn(Seq<u8>) -> Option<(T, Seq<u8>)>) -> Option<
    (Seq<T>, Seq<u8>),
> {
    match spec_dec_u64(s) {
        None => None,
        Some((n, rest)) => spec_dec_items(rest, f, n as nat),
    }
}

pub open spec fn dec_value_fn() -> spec_fn(Seq<u8>) -> Option<(ValueModel, Seq<u8>)> {
    |s: Seq<u8>| spec_dec_value(s)
}

pub open spec fn spec_dec_row(s: Seq<u8>) -> Option<(Seq<ValueModel>, Seq<u8>)> {
    spec_dec_list(s, dec_value_fn())
}

pub open spec fn dec_row_fn() -> spec_fn(Seq<u8>) -> Option<(Seq<ValueModel>, Seq<u8>)> {
    |s: Seq<u8>| spec_dec_row(s)
}

pub open spec fn spec_dec_rows(s: Seq<u8>) -> Option<(Seq<Seq<ValueModel>>, Seq<u8>)> {
    spec_dec_list(s, dec_row_fn())
}

pub open spec fn dec_rows_fn() -> spec_fn(Seq<u8>) -> Option<(Seq<Seq<ValueModel>>, Seq<u8>)> {
    |s: Seq<u8>| spec_dec_rows(s)
}

pub open spec fn spec_dec_rows_list(s: Seq<u8>) -> Option<(Seq<Seq<Seq<ValueModel>>>, Seq<u8>)> {
    spec_dec_list(s, dec_rows_fn())
}

pub open spec fn spec_dec_token(s: Seq<u8>) -> Option<(TokenModel, Seq<u8>)> {
    match spec_dec_u64(s) {
        None => None,
        Some((u, rest)) => match spec_dec_row(rest) {
            None => None,
            Some((k, rest2)) => Some((TokenModel { ts: spec_int_from_bits(u), key: k }, rest2)),
        },
    }
}

pub open spec fn spec_dec_pair(s: Seq<u8>) -> Option<
    ((Seq<Seq<ValueModel>>, TokenModel), Seq<u8>),
> {
    match spec_dec_rows(s) {
        None => None,
        Some((d, rest)) => match spec_dec_token(rest) {
            None => None,
            Some((t, rest2)) => Some(((d, t), rest2)),
        },
    }
}

pub open spec fn dec_pair_fn() -> spec_fn(Seq<u8>) -> Option<
    ((Seq<Seq<ValueModel>>, TokenModel), Seq<u8>),
> {
    |s: Seq<u8>| spec_dec_pair(s)
}

pub open spec fn spec_dec_pairs(s: Seq<u8>) -> Option<
    (Seq<(Seq<Seq<ValueModel>>, TokenModel)>, Seq<u8>),
> {
    spec_dec_list(s, dec_pair_fn())
}

pub open spec fn spec_dec_target(s: Seq<u8>) -> Option<((u64, usize), Seq<u8>)> {
    match spec_dec_u64(s) {
        None => None,
        Some((a, rest)) => match spec_dec_u64(rest) {
            None => None,
            Some((b, rest2)) => if b <= usize::MAX as u64 {
                Some(((a, b as usize), rest2))
            } else {
                None
            },
        },
    }
}

pub open spec fn spec_dec_query(s: Seq<u8>) -> Option<(QueryModel, Seq<u8>)> {
    if s.len() < 1 {
        None
    } else if s[0] == 0 {
        match spec_dec_target(s.skip(1)) {
            None => None,
            Some((t, r1)) => match spec_dec_rows(r1) {
                None => None,
                Some((keys, r2)) => if r2.len() < 1 {
                    None
                } else {
                    Some(
                        (
                            QueryModel::Normal { target: t, keys, block: r2[0] == 1 },
                            r2.skip(1),
                        ),
                    )
                },
            },
        }
    } else if s[0] == 1 {
        match spec_dec_target(s.skip(1)) {
            None => None,
            Some((t, r1)) => match spec_dec_rows(r1) {
                None => None,
                Some((keys, r2)) => Some((QueryModel::WithToken { target: t, keys }, r2)),
            },
        }
    } else if s[0] == 2 {
        match spec_dec_target(s.skip(1)) {
            None => None,
            Some((t, r1)) => Some((QueryModel::Size { target: t }, r1)),
        }
    } else {
        None
    }
}

pub open spec fn spec_dec_reply(s: Seq<u8>) -> Option<(ReplyModel, Seq<u8>)> {
    if s.len() < 2 {
        None
    } else if s[0] == 0 {
        if s[1] == 0 {
            Some((ReplyModel::Normal(Err(())), s.skip(2)))
        } else if s[1] == 1 {
            match spec_dec_rows_list(s.skip(2)) {
                None => None,
                Some((v, rest)) => Some((ReplyModel::Normal(Ok(v)), rest)),
            }
        } else {
            None
        }
    } else if s[0] == 1 {
        if s[1] == 0 {
            Some((ReplyModel::WithToken(Err(())), s.skip(2)))
        } else if s[1] == 1 {
            match spec_dec_pairs(s.skip(2)) {
                None => None,
                Some((v, rest)) => Some((ReplyModel::WithToken(Ok(v)), rest)),
            }
        } else {
            None
        }
    } else if s[0] == 2 {
        match spec_dec_u64(s.skip(1)) {
            None => None,
            Some((n, rest)) => if n <= usize::MAX as u64 {
                Some((ReplyModel::Size(n as usize), rest))
            } else {
                None
            },
        }
    } else {
        None
    }
}

// ------------------------------------------------------------------
// round trips: decoding an encoding yields the value and the rest
// ------------------------------------------------------------------

proof fn lemma_dec_enc_u64(x: u64, rest: Seq<u8>)
    ensures
        spec_dec_u64(spec_u64_to_le_bytes(x) + rest) == Some((x, rest)),
{
    lemma_auto_spec_u64_to_from_le_bytes();
    let s = spec_u64_to_le_bytes(x) + rest;
    assert(s.take(8) =~= spec_u64_to_le_bytes(x));
    assert(s.skip(8) =~= rest);
}

pub proof fn lemma_dec_enc_value(v: ValueModel, rest: Seq<u8>)
    requires
        spec_value_ok(v),
    ensures
        spec_dec_value(spec_enc_value(v) + rest) == Some((v, rest)),
{
    let s = spec_enc_value(v) + rest;
    match v {
        ValueModel::Null => {
            assert(s[0] == 0);
            assert(s.skip(1) =~= rest);
        },
        ValueModel::Int(x) => {
            assert(s[0] == 1);
            assert(s.skip(1) =~= spec_u64_to_le_bytes(spec_int_bits(x)) + rest);
            lemma_dec_enc_u64(spec_int_bits(x), rest);
            lemma_int_bits_roundtrip(x);
        },
        ValueModel::Text(t) => {
            assert(s[0] == 2);
            assert(s.skip(1) =~= spec_u64_to_le_bytes(t.len() as u64) + (t + rest));
            lemma_dec_enc_u64(t.len() as u64, t + rest);
            assert((t + rest).take(t.len() as int) =~= t);
            assert((t + rest).skip(t.len() as int) =~= rest);
        },
    }
}

proof fn lemma_dec_enc_items<T>(
    xs: Seq<T>,
    rest: Seq<u8>,
    fe: spec_fn(T) -> Seq<u8>,
    fd: spec_fn(Seq<u8>) -> Option<(T, Seq<u8>)>,
    ok: spec_fn(T) -> bool,
)
    requires
        forall|i: int| 0 <= i < xs.len() ==> ok(#[trigger] xs[i]),
        forall|x: T, r: Seq<u8>| ok(x) ==> #[trigger] fd(fe(x) + r) == Some((x, r)),
    ensures
        spec_dec_items(spec_enc_each(xs, fe) + rest, fd, xs.len() as nat) == Some((xs, rest)),
    decreases xs.len(),
{
    if xs.len() == 0 {
        assert(spec_enc_each(xs, fe) + rest =~= rest);
        assert(xs =~= Seq::<T>::empty());
    } else {
        let x0 = xs.first();
        let tail = xs.drop_first();
        assert forall|i: int| 0 <= i < tail.len() implies ok(#[trigger] tail[i]) by {
            assert(tail[i] == xs[i + 1]);
        }
        lemma_dec_enc_items(tail, rest, fe, fd, ok);
        assert((fe(x0) + spec_enc_each(tail, fe)) + rest =~= fe(x0) + (spec_enc_each(tail, fe)
            + rest));
        assert(fd(fe(x0) + (spec_enc_each(tail, fe) + rest)) == Some(
            (x0, spec_enc_each(tail, fe) + rest),
        ));
        assert(seq![x0] + tail =~= xs);
    }
}

proof fn lemma_dec_enc_list<T>(
    xs: Seq<T>,
    rest: Seq<u8>,
    fe: spec_fn(T) -> Seq<u8>,
    fd: spec_fn(Seq<u8>) -> Option<(T, Seq<u8>)>,
    ok: spec_fn(T) -> bool,
)
    requires
        xs.len() <= u64::MAX,
        forall|i: int| 0 <= i < xs.len() ==> ok(#[trigger] xs[i]),
        forall|x: T, r: Seq<u8>| ok(x) ==> #[trigger] fd(fe(x) + r) == Some((x, r)),
    ensures
        spec_dec_list(spec_enc_list(xs, fe) + rest, fd) == Some((xs, rest)),
{
    let s = spec_enc_list(xs, fe) + rest;
    assert(s =~= spec_u64_to_le_bytes(xs.len() as u64) + (spec_enc_each(xs, fe) + rest));
    lemma_dec_enc_u64(xs.len() as u64, spec_enc_each(xs, fe) + rest);
    lemma_dec_enc_items(xs, rest, fe, fd, ok);
}

pub proof fn lemma_dec_enc_row(r: Seq<ValueModel>, rest: Seq<u8>)
    requires
        spec_row_ok(r),
    ensures
        spec_dec_row(spec_enc_row(r) + rest) == Some((r, rest)),
{
    assert forall|x: ValueModel, rr: Seq<u8>| value_ok_fn()(x) implies #[trigger] dec_value_fn()(
        enc_value_fn()(x) + rr,
    ) == Some((x, rr)) by {
        lemma_dec_enc_value(x, rr);
    }
    lemma_dec_enc_list(r, rest, enc_value_fn(), dec_value_fn(), value_ok_fn());
}

pub proof fn lemma_dec_enc_rows(rs: Seq<Seq<ValueModel>>, rest: Seq<u8>)
    requires
        spec_rows_ok(rs),
    ensures
        spec_dec_rows(spec_enc_rows(rs) + rest) == Some((rs, rest)),
{
    assert forall|x: Seq<ValueModel>, rr: Seq<u8>| row_ok_fn()(x) implies #[trigger] dec_row_fn()(
        enc_row_fn()(x) + rr,
    ) == Some((x, rr)) by {
        lemma_dec_enc_row(x, rr);
    }
    lemma_dec_enc_list(rs, rest, enc_row_fn(), dec_row_fn(), row_ok_fn());
}

pub proof fn lemma_dec_enc_rows_list(ds: Seq<Seq<Seq<ValueModel>>>, rest: Seq<u8>)
    requires
        spec_rows_list_ok(ds),
    ensures
        spec_dec_rows_list(spec_enc_rows_list(ds) + rest) == Some((ds, rest)),
{
    assert forall|x: Seq<Seq<ValueModel>>, rr: Seq<u8>| rows_ok_fn()(x) implies
        #[trigger] dec_rows_fn()(enc_rows_fn()(x) + rr) == Some((x, rr)) by {
        lemma_dec_enc_rows(x, rr);
    }
    lemma_dec_enc_list(ds, rest, enc_rows_fn(), dec_rows_fn(), rows_ok_fn());
}

pub proof fn lemma_dec_enc_token(t: TokenModel, rest: Seq<u8>)
    requires
        spec_row_ok(t.key),
    ensures
        spec_dec_token(spec_enc_token(t) + rest) == Some((t, rest)),
{
    let s = spec_enc_token(t) + rest;
    assert(s =~= spec_u64_to_le_bytes(spec_int_bits(t.ts)) + (spec_enc_row(t.key) + rest));
    lemma_dec_enc_u64(spec_int_bits(t.ts), spec_enc_row(t.key) + rest);
    lemma_dec_enc_row(t.key, rest);
    lemma_int_bits_roundtrip(t.ts);
}

pub proof fn lemma_dec_enc_pair(p: (Seq<Seq<ValueModel>>, TokenModel), rest: Seq<u8>)
    requires
        spec_pair_ok(p),
    ensures
        spec_dec_pair(spec_enc_pair(p) + rest) == Some((p, rest)),
{
    let s = spec_enc_pair(p) + rest;
    assert(s =~= spec_enc_rows(p.0) + (spec_enc_token(p.1) + rest));
    lemma_dec_enc_rows(p.0, spec_enc_token(p.1) + rest);
    lemma_dec_enc_token(p.1, rest);
}

pub proof fn lemma_dec_enc_pairs(ps: Seq<(Seq<Seq<ValueModel>>, TokenModel)>, rest: Seq<u8>)
    requires
        spec_pairs_ok(ps),
    ensures
        spec_dec_pairs(spec_enc_pairs(ps) + rest) == Some((ps, rest)),
{
    assert forall|x: (Seq<Seq<ValueModel>>, TokenModel), rr: Seq<u8>| pair_ok_fn()(x) implies
        #[trigger] dec_pair_fn()(enc_pair_fn()(x) + rr) == Some((x, rr)) by {
        lemma_dec_enc_pair(x, rr);
    }
    lemma_dec_enc_list(ps, rest, enc_pair_fn(), dec_pair_fn(), pair_ok_fn());
}

proof fn lemma_dec_enc_target(t: (u64, usize), rest: Seq<u8>)
    ensures
        spec_dec_target(spec_enc_target(t) + rest) == Some((t, rest)),
{
    let s = spec_enc_target(t) + rest;
    assert(s =~= spec_u64_to_le_bytes(t.0) + (spec_u64_to_le_bytes(t.1 as u64) + rest));
    lemma_dec_enc_u64(t.0, spec_u64_to_le_bytes(t.1 as u64) + rest);
    lemma_dec_enc_u64(t.1 as u64, rest);
}

pub proof fn lemma_dec_enc_query(q: QueryModel, rest: Seq<u8>)
    requires
        spec_query_ok(q),
    ensures
        spec_dec_query(spec_enc_query(q) + rest) == Some((q, rest)),
{
    let s = spec_enc_query(q) + rest;
    match q {
        QueryModel::Normal { target, keys, block } => {
            let tb: Seq<u8> = seq![if block { 1u8 } else { 0u8 }];
            assert(s[0] == 0);
            assert(s.skip(1) =~= spec_enc_target(target) + (spec_enc_rows(keys) + (tb + rest)));
            lemma_dec_enc_target(target, spec_enc_rows(keys) + (tb + rest));
            lemma_dec_enc_rows(keys, tb + rest);
            assert((tb + rest)[0] == tb[0]);
            assert((tb + rest).skip(1) =~= rest);
        },
        QueryModel::WithToken { target, keys } => {
            assert(s[0] == 1);
            assert(s.skip(1) =~= spec_enc_target(target) + (spec_enc_rows(keys) + rest));
            lemma_dec_enc_target(target, spec_enc_rows(keys) + rest);
            lemma_dec_enc_rows(keys, rest);
        },
        QueryModel::Size { target } => {
            assert(s[0] == 2);
            assert(s.skip(1) =~= spec_enc_target(target) + rest);
            lemma_dec_enc_target(target, rest);
        },
    }
}

pub proof fn lemma_dec_enc_reply(r: ReplyModel, rest: Seq<u8>)
    requires
        spec_reply_ok(r),
    ensures
        spec_dec_reply(spec_enc_reply(r) + rest) == Some((r, rest)),
{
    let s = spec_enc_reply(r) + rest;
    match r {
        ReplyModel::Normal(res) => {
            assert(s[0] == 0);
            match res {
                Ok(v) => {
                    assert(s[1] == 1);
                    assert(s.skip(2) =~= spec_enc_rows_list(v) + rest);
                    lemma_dec_enc_rows_list(v, rest);
                },
                Err(e) => {
                    assert(s[1] == 0);
                    assert(s.skip(2) =~= rest);
                    assert(e == ());
                },
            }
        },
        ReplyModel::WithToken(res) => {
            assert(s[0] == 1);
            match res {
                Ok(v) => {
                    assert(s[1] == 1);
                    assert(s.skip(2) =~= spec_enc_pairs(v) + rest);
                    lemma_dec_enc_pairs(v, rest);
                },
                Err(e) => {
                    assert(s[1] == 0);
                    assert(s.skip(2) =~= rest);
                    assert(e == ());
                },
            }
        },
        ReplyModel::Size(n) => {
            assert(s[0] == 2);
            assert(s.skip(1) =~= spec_u64_to_le_bytes(n as u64) + rest);
            lemma_dec_enc_u64(n as u64, rest);
            assert(s.len() >= 2);
        },
    }
}

// ------------------------------------------------------------------
// executable encoders, each appending to `out`
// ------------------------------------------------------------------

fn enc_u64(out: &mut Vec<u8>, x: u64)
    ensures
        final(out)@ == old(out)@ + spec_u64_to_le_bytes(x),
{
    let mut b = vstd::bytes::u64_to_le_bytes(x);
    out.append(&mut b);
}

fn enc_value(out: &mut Vec<u8>, v: &Value)
    ensures
        final(out)@ == old(out)@ + spec_enc_value(v@),
        spec_value_ok(v@),
{
    let ghost base = out@;
    match v {
        Value::Null => {
            out.push(0u8);
            proof {
                assert(out@ =~= base + spec_enc_value(v@));
            }
        },
        Value::Int(x) => {
            out.push(1u8);
            enc_u64(out, crate::value::int_bits(*x));
            proof {
                assert(out@ =~= base + spec_enc_value(v@));
            }
        },
        Value::Text(t) => {
            out.push(2u8);
            enc_u64(out, t.len() as u64);
            let ghost mid = out@;
            let mut i: usize = 0;
            while i < t.len()
                invariant
                    i <= t.len(),
                    out@ == mid + t@.take(i as int),
                decreases t.len() - i,
            {
                out.push(t[i]);
                proof {
                    assert(out@ =~= mid + t@.take(i as int + 1));
                }
                i = i + 1;
            }
            proof {
                assert(t@.take(t@.len() as int) =~= t@);
                assert(out@ =~= base + spec_enc_value(v@));
            }
        },
    }
}

fn enc_row_items(out: &mut Vec<u8>, r: &Row, i: usize)
    requires
        i <= r@.len(),
    ensures
        final(out)@ == old(out)@ + spec_enc_each(r.deep_view().skip(i as int), enc_value_fn()),
        forall|j: int| i <= j < r.deep_view().len() ==> spec_value_ok(#[trigger] r.deep_view()[j]),
    decreases r@.len() - i,
{
    let ghost base = out@;
    let ghost d = r.deep_view();
    if i == r.len() {
        proof {
            assert(d.skip(i as int) =~= Seq::<ValueModel>::empty());
            assert(base + spec_enc_each(d.skip(i as int), enc_value_fn()) =~= base);
        }
    } else {
        enc_value(out, &r[i]);
        enc_row_items(out, r, i + 1);
        proof {
            assert(d[i as int] == r@[i as int]@);
            assert(d.skip(i as int).first() == d[i as int]);
            assert(d.skip(i as int).drop_first() =~= d.skip(i as int + 1));
            assert(out@ =~= base + (spec_enc_value(d[i as int]) + spec_enc_each(
                d.skip(i as int + 1),
                enc_value_fn(),
            )));
        }
    }
}

fn enc_row(out: &mut Vec<u8>, r: &Row)
    ensures
        final(out)@ == old(out)@ + spec_enc_row(r.deep_view()),
        spec_row_ok(r.deep_view()),
{
    let ghost base = out@;
    enc_u64(out, r.len() as u64);
    enc_row_items(out, r, 0);
    proof {
        assert(r.deep_view().skip(0) =~= r.deep_view());
        assert(out@ =~= base + spec_enc_row(r.deep_view()));
    }
}

fn enc_rows_items(out: &mut Vec<u8>, rs: &Vec<Row>, i: usize)
    requires
        i <= rs@.len(),
    ensures
        final(out)@ == old(out)@ + spec_enc_each(rs.deep_view().skip(i as int), enc_row_fn()),
        forall|j: int|
            i <= j < rs.deep_view().len() ==> spec_row_ok(#[trigger] rs.deep_view()[j]),
    decreases rs@.len() - i,
{
    let ghost base = out@;
    let ghost d = rs.deep_view();
    if i == rs.len() {
        proof {
            assert(d.skip(i as int) =~= Seq::<Seq<ValueModel>>::empty());
            assert(base + spec_enc_each(d.skip(i as int), enc_row_fn()) =~= base);
        }
    } else {
        enc_row(out, &rs[i]);
        enc_rows_items(out, rs, i + 1);
        proof {
            assert(d[i as int] == rs@[i as int].deep_view());
            assert(d.skip(i as int).first() == d[i as int]);
            assert(d.skip(i as int).drop_first() =~= d.skip(i as int + 1));
            assert(out@ =~= base + (spec_enc_row(d[i as int]) + spec_enc_each(
                d.skip(i as int + 1),
                enc_row_fn(),
            )));
        }
    }
}

fn enc_rows(out: &mut Vec<u8>, rs: &Vec<Row>)
    ensures
        final(out)@ == old(out)@ + spec_enc_rows(rs.deep_view()),
        spec_rows_ok(rs.deep_view()),
{
    let ghost base = out@;
    enc_u64(out, rs.len() as u64);
    enc_rows_items(out, rs, 0);
    proof {
        assert(rs.deep_view().skip(0) =~= rs.deep_view());
        assert(out@ =~= base + spec_enc_rows(rs.deep_view()));
    }
}

fn enc_rows_list_items(out: &mut Vec<u8>, ds: &Vec<Datas>, i: usize)
    requires
        i <= ds@.len(),
    ensures
        final(out)@ == old(out)@ + spec_enc_each(ds.deep_view().skip(i as int), enc_rows_fn()),
        forall|j: int|
            i <= j < ds.deep_view().len() ==> spec_rows_ok(#[trigger] ds.deep_view()[j]),
    decreases ds@.len() - i,
{
    let ghost base = out@;
    let ghost d = ds.deep_view();
    if i == ds.len() {
        proof {
            assert(d.skip(i as int) =~= Seq::<Seq<Seq<ValueModel>>>::empty());
            assert(base + spec_enc_each(d.skip(i as int), enc_rows_fn()) =~= base);
        }
    } else {
        enc_rows(out, &ds[i]);
        enc_rows_list_items(out, ds, i + 1);
        proof {
            assert(d[i as int] == ds@[i as int].deep_view());
            assert(d.skip(i as int).first() == d[i as int]);
            assert(d.skip(i as int).drop_first() =~= d.skip(i as int + 1));
            assert(out@ =~= base + (spec_enc_rows(d[i as int]) + spec_enc_each(
                d.skip(i as int + 1),
                enc_rows_fn(),
            )));
        }
    }
}

fn enc_rows_list(out: &mut Vec<u8>, ds: &Vec<Datas>)
    ensures
        final(out)@ == old(out)@ + spec_enc_rows_list(ds.deep_view()),
        spec_rows_list_ok(ds.deep_view()),
{
    let ghost base = out@;
    enc_u64(out, ds.len() as u64);
    enc_rows_list_items(out, ds, 0);
    proof {
        assert(ds.deep_view().skip(0) =~= ds.deep_view());
        assert(out@ =~= base + spec_enc_rows_list(ds.deep_view()));
    }
}

fn enc_token(out: &mut Vec<u8>, t: &Token)
    ensures
        final(out)@ == old(out)@ + spec_enc_token(t@),
        spec_row_ok(t@.key),
{
    let ghost base = out@;
    enc_u64(out, crate::value::int_bits(t.ts));
    enc_row(out, &t.key);
    proof {
        assert(out@ =~= base + spec_enc_token(t@));
    }
}

fn enc_pairs_items(out: &mut Vec<u8>, ps: &Vec<(Datas, Token)>, i: usize)
    requires
        i <= ps@.len(),
    ensures
        final(out)@ == old(out)@ + spec_enc_each(ps.deep_view().skip(i as int), enc_pair_fn()),
        forall|j: int|
            i <= j < ps.deep_view().len() ==> spec_pair_ok(#[trigger] ps.deep_view()[j]),
    decreases ps@.len() - i,
{
    let ghost base = out@;
    let ghost d = ps.deep_view();
    if i == ps.len() {
        proof {
            assert(d.skip(i as int) =~= Seq::<(Seq<Seq<ValueModel>>, TokenModel)>::empty());
            assert(base + spec_enc_each(d.skip(i as int), enc_pair_fn()) =~= base);
        }
    } else {
        let p = &ps[i];
        enc_rows(out, &p.0);
        enc_token(out, &p.1);
        enc_pairs_items(out, ps, i + 1);
        proof {
            assert(d[i as int] == ps@[i as int].deep_view());
            assert(ps@[i as int].deep_view() == (
                ps@[i as int].0.deep_view(),
                ps@[i as int].1.deep_view(),
            ));
            assert(d.skip(i as int).first() == d[i as int]);
            assert(d.skip(i as int).drop_first() =~= d.skip(i as int + 1));
            assert(out@ =~= base + (spec_enc_pair(d[i as int]) + spec_enc_each(
                d.skip(i as int + 1),
                enc_pair_fn(),
            )));
        }
    }
}

fn enc_pairs(out: &mut Vec<u8>, ps: &Vec<(Datas, Token)>)
    ensures
        final(out)@ == old(out)@ + spec_enc_pairs(ps.deep_view()),
        spec_pairs_ok(ps.deep_view()),
{
    let ghost base = out@;
    enc_u64(out, ps.len() as u64);
    enc_pairs_items(out, ps, 0);
    proof {
        assert(ps.deep_view().skip(0) =~= ps.deep_view());
        assert(out@ =~= base + spec_enc_pairs(ps.deep_view()));
    }
}

fn enc_target(out: &mut Vec<u8>, t: (u64, usize))
    ensures
        final(out)@ == old(out)@ + spec_enc_target(t),
{
    let ghost base = out@;
    enc_u64(out, t.0);
    enc_u64(out, t.1 as u64);
    proof {
        assert(out@ =~= base + spec_enc_target(t));
    }
}

/// Serialize a query.
pub fn enc_query(out: &mut Vec<u8>, q: &ReadQuery)
    ensures
        final(out)@ == old(out)@ + spec_enc_query(q@),
        spec_query_ok(q@),
{
    let ghost base = out@;
    match q {
        ReadQuery::Normal { target, keys, block } => {
            out.push(0u8);
            enc_target(out, *target);
            enc_rows(out, keys);
            out.push(if *block {
                1u8
            } else {
                0u8
            });
            proof {
                assert(out@ =~= base + spec_enc_query(q@));
            }
        },
        ReadQuery::WithToken { target, keys } => {
            out.push(1u8);
            enc_target(out, *target);
            enc_rows(out, keys);
            proof {
                assert(out@ =~= base + spec_enc_query(q@));
            }
        },
        ReadQuery::Size { target } => {
            out.push(2u8);
            enc_target(out, *target);
            proof {
                assert(out@ =~= base + spec_enc_query(q@));
            }
        },
    }
}

/// Serialize a reply.
pub fn enc_reply(out: &mut Vec<u8>, r: &ReadReply)
    ensures
        final(out)@ == old(out)@ + spec_enc_reply(r@),
        spec_reply_ok(r@),
{
    let ghost base = out@;
    match r {
        ReadReply::Normal(res) => {
            out.push(0u8);
            match res {
                Ok(v) => {
                    out.push(1u8);
                    enc_rows_list(out, v);
                },
                Err(_) => {
                    out.push(0u8);
                },
            }
            proof {
                assert(out@ =~= base + spec_enc_reply(r@));
            }
        },
        ReadReply::WithToken(res) => {
            out.push(1u8);
            match res {
                Ok(v) => {
                    out.push(1u8);
                    enc_pairs(out, v);
                },
                Err(_) => {
                    out.push(0u8);
                },
            }
            proof {
                assert(out@ =~= base + spec_enc_reply(r@));
            }
        },
        ReadReply::Size(n) => {
            out.push(2u8);
            enc_u64(out, *n as u64);
            proof {
                assert(out@ =~= base + spec_enc_reply(r@));
            }
        },
    }
}

// ------------------------------------------------------------------
// executable decoders over a byte buffer and a cursor; each requires
// that the model-level decoder succeeds at that position
// ------------------------------------------------------------------

fn int_from_bits(u: u64) -> (r: i64)
    ensures
        r == spec_int_from_bits(u),
{
    if u < 0x8000_0000_0000_0000 {
        u as i64
    } else {
        ((u as i128) - 0x1_0000_0000_0000_0000) as i64
    }
}

fn dec_u64(b: &Vec<u8>, pos: usize) -> (r: (u64, usize))
    requires
        pos <= b@.len(),
        spec_dec_u64(b@.skip(pos as int)) is Some,
    ensures
        r.1 == pos + 8 <= b@.len(),
        spec_dec_u64(b@.skip(pos as int)) == Some((r.0, b@.skip(r.1 as int))),
{
    let total = b.len();
    proof {
        assert(b@.skip(pos as int).len() >= 8);
        assert(pos + 8 <= total);
    }
    let sl = vstd::slice::slice_subrange(b.as_slice(), pos, pos + 8);
    let x = vstd::bytes::u64_from_le_bytes(sl);
    proof {
        assert(sl@ =~= b@.skip(pos as int).take(8));
        assert(b@.skip(pos as int).skip(8) =~= b@.skip(pos as int + 8));
    }
    (x, pos + 8)
}

fn dec_value(b: &Vec<u8>, pos: usize) -> (r: (Value, usize))
    requires
        pos <= b@.len(),
        spec_dec_value(b@.skip(pos as int)) is Some,
    ensures
        pos <= r.1 <= b@.len(),
        spec_dec_value(b@.skip(pos as int)) == Some((r.0@, b@.skip(r.1 as int))),
    decreases 0int,
{
    let total = b.len();
    let ghost s = b@.skip(pos as int);
    proof {
        assert(s.len() >= 1);
        assert(s[0] == b@[pos as int]);
        assert(pos + 1 <= total);
    }
    let tag = b[pos];
    if tag == 0 {
        proof {
            assert(s.skip(1) =~= b@.skip(pos as int + 1));
        }
        (Value::Null, pos + 1)
    } else if tag == 1 {
        proof {
            assert(s.skip(1) =~= b@.skip(pos as int + 1));
        }
        let (u, p1) = dec_u64(b, pos + 1);
        (Value::Int(int_from_bits(u)), p1)
    } else {
        proof {
            assert(tag == 2);
            assert(s.skip(1) =~= b@.skip(pos as int + 1));
        }
        let (n, p1) = dec_u64(b, pos + 1);
        let ghost rest = b@.skip(p1 as int);
        proof {
            assert(rest.len() >= n);
            assert(b@.len() - p1 >= n);
        }
        let n_us = n as usize;
        proof {
            assert(p1 + n_us <= total);
        }
        let mut t: Vec<u8> = Vec::new();
        let mut i: usize = 0;
        while i < n_us
            invariant
                i <= n_us,
                p1 + n_us <= b@.len(),
                b@.len() <= usize::MAX,
                t@.len() == i,
                forall|j: int| 0 <= j < i ==> t@[j] == b@[p1 + j],
            decreases n_us - i,
        {
            t.push(b[p1 + i]);
            i = i + 1;
        }
        proof {
            assert(t@ =~= rest.take(n as int));
            assert(rest.skip(n as int) =~= b@.skip(p1 as int + n_us as int));
        }
        (Value::Text(t), p1 + n_us)
    }
}

fn dec_values(b: &Vec<u8>, pos: usize, n: u64) -> (r: (Vec<Value>, usize))
    requires
        pos <= b@.len(),
        spec_dec_items(b@.skip(pos as int), dec_value_fn(), n as nat) is Some,
    ensures
        pos <= r.1 <= b@.len(),
        spec_dec_items(b@.skip(pos as int), dec_value_fn(), n as nat) == Some(
            (r.0.deep_view(), b@.skip(r.1 as int)),
        ),
    decreases n,
{
    if n == 0 {
        let out: Vec<Value> = Vec::new();
        proof {
            assert(out.deep_view() =~= Seq::<ValueModel>::empty());
        }
        (out, pos)
    } else {
        proof {
            assert(dec_value_fn()(b@.skip(pos as int)) == spec_dec_value(b@.skip(pos as int)));
        }
        let (v, p1) = dec_value(b, pos);
        let (mut xs, p2) = dec_values(b, p1, n - 1);
        let ghost old_deep = xs.deep_view();
        let ghost old_v = xs@;
        xs.insert(0, v);
        proof {
            assert(xs@ == old_v.insert(0, v));
            assert forall|j: int| 0 <= j < xs@.len() implies xs.deep_view()[j] == (seq![v@]
                + old_deep)[j] by {
                assert(xs.deep_view()[j] == xs@[j]@);
                if j > 0 {
                    assert(xs@[j] == old_v[j - 1]);
                    assert(old_deep[j - 1] == old_v[j - 1]@);
                }
            }
            assert(xs.deep_view() =~= seq![v@] + old_deep);
        }
        (xs, p2)
    }
}

fn dec_row(b: &Vec<u8>, pos: usize) -> (r: (Row, usize))
    requires
        pos <= b@.len(),
        spec_dec_row(b@.skip(pos as int)) is Some,
    ensures
        pos <= r.1 <= b@.len(),
        spec_dec_row(b@.skip(pos as int)) == Some((r.0.deep_view(), b@.skip(r.1 as int))),
{
    let (n, p1) = dec_u64(b, pos);
    let (xs, p2) = dec_values(b, p1, n);
    (xs, p2)
}

fn dec_rows_items(b: &Vec<u8>, pos: usize, n: u64) -> (r: (Vec<Row>, usize))
    requires
        pos <= b@.len(),
        spec_dec_items(b@.skip(pos as int), dec_row_fn(), n as nat) is Some,
    ensures
        pos <= r.1 <= b@.len(),
        spec_dec_items(b@.skip(pos as int), dec_row_fn(), n as nat) == Some(
            (r.0.deep_view(), b@.skip(r.1 as int)),
        ),
    decreases n,
{
    if n == 0 {
        let out: Vec<Row> = Vec::new();
        proof {
            assert(out.deep_view() =~= Seq::<Seq<ValueModel>>::empty());
        }
        (out, pos)
    } else {
        proof {
            assert(dec_row_fn()(b@.skip(pos as int)) == spec_dec_row(b@.skip(pos as int)));
        }
        let (v, p1) = dec_row(b, pos);
        let (mut xs, p2) = dec_rows_items(b, p1, n - 1);
        let ghost old_deep = xs.deep_view();
        let ghost old_v = xs@;
        let ghost vd = v.deep_view();
        xs.insert(0, v);
        proof {
            assert(xs@ == old_v.insert(0, v));
            assert forall|j: int| 0 <= j < xs@.len() implies xs.deep_view()[j] == (seq![vd]
                + old_deep)[j] by {
                assert(xs.deep_view()[j] == xs@[j].deep_view());
                if j > 0 {
                    assert(xs@[j] == old_v[j - 1]);
                    assert(old_deep[j - 1] == old_v[j - 1].deep_view());
                }
            }
            assert(xs.deep_view() =~= seq![vd] + old_deep);
        }
        (xs, p2)
    }
}

fn dec_rows(b: &Vec<u8>, pos: usize) -> (r: (Vec<Row>, usize))
    requires
        pos <= b@.len(),
        spec_dec_rows(b@.skip(pos as int)) is Some,
    ensures
        pos <= r.1 <= b@.len(),
        spec_dec_rows(b@.skip(pos as int)) == Some((r.0.deep_view(), b@.skip(r.1 as int))),
{
    let (n, p1) = dec_u64(b, pos);
    let (xs, p2) = dec_rows_items(b, p1, n);
    (xs, p2)
}

fn dec_rows_list_items(b: &Vec<u8>, pos: usize, n: u64) -> (r: (Vec<Datas>, usize))
    requires
        pos <= b@.len(),
        spec_dec_items(b@.skip(pos as int), dec_rows_fn(), n as nat) is Some,
    ensures
        pos <= r.1 <= b@.len(),
        spec_dec_items(b@.skip(pos as int), dec_rows_fn(), n as nat) == Some(
            (r.0.deep_view(), b@.skip(r.1 as int)),
        ),
    decreases n,
{
    if n == 0 {
        let out: Vec<Datas> = Vec::new();
        proof {
            assert(out.deep_view() =~= Seq::<Seq<Seq<ValueModel>>>::empty());
        }
        (out, pos)
    } else {
        proof {
            assert(dec_rows_fn()(b@.skip(pos as int)) == spec_dec_rows(b@.skip(pos as int)));
        }
        let (v, p1) = dec_rows(b, pos);
        let (mut xs, p2) = dec_rows_list_items(b, p1, n - 1);
        let ghost old_deep = xs.deep_view();
        let ghost old_v = xs@;
        let ghost vd = v.deep_view();
        xs.insert(0, v);
        proof {
            assert(xs@ == old_v.insert(0, v));
            assert forall|j: int| 0 <= j < xs@.len() implies xs.deep_view()[j] == (seq![vd]
                + old_deep)[j] by {
                assert(xs.deep_view()[j] == xs@[j].deep_view());
                if j > 0 {
                    assert(xs@[j] == old_v[j - 1]);
                    assert(old_deep[j - 1] == old_v[j - 1].deep_view());
                }
            }
            assert(xs.deep_view() =~= seq![vd] + old_deep);
        }
        (xs, p2)
    }
}

fn dec_rows_list(b: &Vec<u8>, pos: usize) -> (r: (Vec<Datas>, usize))
    requires
        pos <= b@.len(),
        spec_dec_rows_list(b@.skip(pos as int)) is Some,
    ensures
        pos <= r.1 <= b@.len(),
        spec_dec_rows_list(b@.skip(pos as int)) == Some((r.0.deep_view(), b@.skip(r.1 as int))),
{
    let (n, p1) = dec_u64(b, pos);
    let (xs, p2) = dec_rows_list_items(b, p1, n);
    (xs, p2)
}

fn dec_token(b: &Vec<u8>, pos: usize) -> (r: (Token, usize))
    requires
        pos <= b@.len(),
        spec_dec_token(b@.skip(pos as int)) is Some,
    ensures
        pos <= r.1 <= b@.len(),
        spec_dec_token(b@.skip(pos as int)) == Some((r.0@, b@.skip(r.1 as int))),
{
    let (u, p1) = dec_u64(b, pos);
    let (k, p2) = dec_row(b, p1);
    (Token { ts: int_from_bits(u), key: k }, p2)
}

fn dec_pairs_items(b: &Vec<u8>, pos: usize, n: u64) -> (r: (Vec<(Datas, Token)>, usize))
    requires
        pos <= b@.len(),
        spec_dec_items(b@.skip(pos as int), dec_pair_fn(), n as nat) is Some,
    ensures
        pos <= r.1 <= b@.len(),
        spec_dec_items(b@.skip(pos as int), dec_pair_fn(), n as nat) == Some(
            (r.0.deep_view(), b@.skip(r.1 as int)),
        ),
    decreases n,
{
    if n == 0 {
        let out: Vec<(Datas, Token)> = Vec::new();
        proof {
            assert(out.deep_view() =~= Seq::<(Seq<Seq<ValueModel>>, TokenModel)>::empty());
        }
        (out, pos)
    } else {
        proof {
            assert(dec_pair_fn()(b@.skip(pos as int)) == spec_dec_pair(b@.skip(pos as int)));
        }
        let (d, p1) = dec_rows(b, pos);
        let (t, p2) = dec_token(b, p1);
        let (mut xs, p3) = dec_pairs_items(b, p2, n - 1);
        let ghost old_deep = xs.deep_view();
        let ghost old_v = xs@;
        let ghost vd = (d.deep_view(), t@);
        let pair = (d, t);
        proof {
            assert(pair.deep_view() == (pair.0.deep_view(), pair.1.deep_view()));
        }
        xs.insert(0, pair);
        proof {
            assert(xs@ == old_v.insert(0, pair));
            assert forall|j: int| 0 <= j < xs@.len() implies xs.deep_view()[j] == (seq![vd]
                + old_deep)[j] by {
                assert(xs.deep_view()[j] == xs@[j].deep_view());
                if j > 0 {
                    assert(xs@[j] == old_v[j - 1]);
                    assert(old_deep[j - 1] == old_v[j - 1].deep_view());
                } else {
                    assert(xs@[0] == pair);
                }
            }
            assert(xs.deep_view() =~= seq![vd] + old_deep);
        }
        (xs, p3)
    }
}

fn dec_pairs(b: &Vec<u8>, pos: usize) -> (r: (Vec<(Datas, Token)>, usize))
    requires
        pos <= b@.len(),
        spec_dec_pairs(b@.skip(pos as int)) is Some,
    ensures
        pos <= r.1 <= b@.len(),
        spec_dec_pairs(b@.skip(pos as int)) == Some((r.0.deep_view(), b@.skip(r.1 as int))),
{
    let (n, p1) = dec_u64(b, pos);
    let (xs, p2) = dec_pairs_items(b, p1, n);
    (xs, p2)
}

fn dec_target(b: &Vec<u8>, pos: usize) -> (r: ((u64, usize), usize))
    requires
        pos <= b@.len(),
        spec_dec_target(b@.skip(pos as int)) is Some,
    ensures
        pos <= r.1 <= b@.len(),
        spec_dec_target(b@.skip(pos as int)) == Some((r.0, b@.skip(r.1 as int))),
{
    let (a, p1) = dec_u64(b, pos);
    let (s, p2) = dec_u64(b, p1);
    ((a, s as usize), p2)
}

/// Deserialize a query.
pub fn dec_query(b: &Vec<u8>, pos: usize) -> (r: (ReadQuery, usize))
    requires
        pos <= b@.len(),
        spec_dec_query(b@.skip(pos as int)) is Some,
    ensures
        pos <= r.1 <= b@.len(),
        spec_dec_query(b@.skip(pos as int)) == Some((r.0@, b@.skip(r.1 as int))),
{
    let total = b.len();
    let ghost s = b@.skip(pos as int);
    proof {
        assert(s.len() >= 1);
        assert(s[0] == b@[pos as int]);
        assert(s.skip(1) =~= b@.skip(pos as int + 1));
        assert(pos + 1 <= total);
    }
    let tag = b[pos];
    if tag == 0 {
        let (t, p1) = dec_target(b, pos + 1);
        let (keys, p2) = dec_rows(b, p1);
        proof {
            assert(b@.skip(p2 as int)[0] == b@[p2 as int]);
            assert(b@.skip(p2 as int).skip(1) =~= b@.skip(p2 as int + 1));
        }
        let block = b[p2] == 1;
        (ReadQuery::Normal { target: t, keys, block }, p2 + 1)
    } else if tag == 1 {
        let (t, p1) = dec_target(b, pos + 1);
        let (keys, p2) = dec_rows(b, p1);
        (ReadQuery::WithToken { target: t, keys }, p2)
    } else {
        proof {
            assert(tag == 2);
        }
        let (t, p1) = dec_target(b, pos + 1);
        (ReadQuery::Size { target: t }, p1)
    }
}

/// Deserialize a reply.
pub fn dec_reply(b: &Vec<u8>, pos: usize) -> (r: (ReadReply, usize))
    requires
        pos <= b@.len(),
        spec_dec_reply(b@.skip(pos as int)) is Some,
    ensures
        pos <= r.1 <= b@.len(),
        spec_dec_reply(b@.skip(pos as int)) == Some((r.0@, b@.skip(r.1 as int))),
{
    let total = b.len();
    let ghost s = b@.skip(pos as int);
    proof {
        assert(s.len() >= 2);
        assert(s[0] == b@[pos as int]);
        assert(s[1] == b@[pos as int + 1]);
        assert(s.skip(1) =~= b@.skip(pos as int + 1));
        assert(s.skip(2) =~= b@.skip(pos as int + 2));
        assert(pos + 2 <= total);
    }
    let tag = b[pos];
    if tag == 0 {
        let ok = b[pos + 1];
        if ok == 0 {
            (ReadReply::Normal(Err(())), pos + 2)
        } else {
            proof {
                assert(ok == 1);
            }
            let (v, p1) = dec_rows_list(b, pos + 2);
            (ReadReply::Normal(Ok(v)), p1)
        }
    } else if tag == 1 {
        let ok = b[pos + 1];
        if ok == 0 {
            (ReadReply::WithToken(Err(())), pos + 2)
        } else {
            proof {
                assert(ok == 1);
            }
            let (v, p1) = dec_pairs(b, pos + 2);
            (ReadReply::WithToken(Ok(v)), p1)
        }
    } else {
        proof {
            assert(tag == 2);
        }
        let (n, p1) = dec_u64(b, pos + 1);
        (ReadReply::Size(n as usize), p1)
    }
}

} // verus!
