//! Values, rows, and the deterministic shard router.

use vstd::prelude::*;

verus! {

/// An atomic unit of data held in a view row.
///
/// The layer treats values as opaque except for two capabilities: a
/// deterministic hash used to route a lookup key to a shard, and a deep copy
/// used to hand rows out of shared internal storage.
#[derive(Debug, Clone, PartialEq, Eq)]
pub enum Value {
    /// The absent value.
    Null,
    /// A signed integer.
    Int(i64),
    /// An owned byte string.
    Text(Vec<u8>),
}

/// Mathematical model of a [`Value`].
pub enum ValueModel {
    Null,
    Int(i64),
    Text(Seq<u8>),
}

impl View for Value {
    type V = ValueModel;

    open spec fn view(&self) -> ValueModel {
        match self {
            Value::Null => ValueModel::Null,
            Value::Int(x) => ValueModel::Int(*x),
            Value::Text(b) => ValueModel::Text(b@),
        }
    }
}

impl DeepView for Value {
    type V = ValueModel;

    open spec fn deep_view(&self) -> ValueModel {
        self.view()
    }
}

/// An ordered sequence of values: one row of a view, and also the shape of a
/// lookup key.
pub type Row = Vec<Value>;

/// The set of rows returned for one lookup key.
pub type Datas = Vec<Row>;

fn bytes_eq(a: &Vec<u8>, b: &Vec<u8>) -> (r: bool)
    ensures
        r == (a@ == b@),
{
    if a.len() != b.len() {
        return false;
    }
    let mut i: usize = 0;
    while i < a.len()
        invariant
            i <= a.len(),
            a.len() == b.len(),
            forall|j: int| 0 <= j < i ==> a@[j] == b@[j],
        decreases a.len() - i,
    {
        if a[i] != b[i] {
            return false;
        }
        i = i + 1;
    }
    proof {
        assert(a@ =~= b@);
    }
    true
}

/// Structural equality of two values.
pub fn value_eq(a: &Value, b: &Value) -> (r: bool)
    ensures
        r == (a@ == b@),
{
    match (a, b) {
        (Value::Null, Value::Null) => true,
        (Value::Int(x), Value::Int(y)) => *x == *y,
        (Value::Text(x), Value::Text(y)) => bytes_eq(x, y),
        _ => false,
    }
}

/// Structural equality of two keys (or rows).
pub fn key_eq(a: &Row, b: &Row) -> (r: bool)
    ensures
        r == (a.deep_view() == b.deep_view()),
{
    proof {
        assert(a.deep_view().len() == a@.len());
        assert(b.deep_view().len() == b@.len());
    }
    if a.len() != b.len() {
        return false;
    }
    let mut i: usize = 0;
    while i < a.len()
        invariant
            i <= a.len(),
            a.len() == b.len(),
            forall|j: int| 0 <= j < i ==> a.deep_view()[j] == b.deep_view()[j],
        decreases a.len() - i,
    {
        proof {
            assert(a.deep_view()[i as int] == a@[i as int]@);
            assert(b.deep_view()[i as int] == b@[i as int]@);
        }
        if !value_eq(&a[i], &b[i]) {
            return false;
        }
        i = i + 1;
    }
    proof {
        assert(a.deep_view() =~= b.deep_view());
    }
    true
}

fn clone_bytes(b: &Vec<u8>) -> (r: Vec<u8>)
    ensures
        r@ == b@,
{
    let mut out: Vec<u8> = Vec::new();
    let mut i: usize = 0;
    while i < b.len()
        invariant
            i <= b.len(),
            out@ == b@.take(i as int),
        decreases b.len() - i,
    {
        out.push(b[i]);
        proof {
            assert(out@ =~= b@.take(i as int + 1));
        }
        i = i + 1;
    }
    proof {
        assert(b@.take(b@.len() as int) =~= b@);
    }
    out
}

/// A caller-owned copy of a value, independent of any internal storage the
/// original was read from.
pub fn deep_clone_value(v: &Value) -> (r: Value)
    ensures
        r@ == v@,
{
    match v {
        Value::Null => Value::Null,
        Value::Int(x) => Value::Int(*x),
        Value::Text(b) => Value::Text(clone_bytes(b)),
    }
}

/// A caller-owned copy of a row, every value deep-copied.
pub fn deep_clone_row(row: &Row) -> (r: Row)
    ensures
        r.deep_view() == row.deep_view(),
{
    let mut out: Row = Vec::new();
    let mut i: usize = 0;
    while i < row.len()
        invariant
            i <= row.len(),
            out@.len() == i,
            forall|j: int| 0 <= j < i ==> out.deep_view()[j] == row.deep_view()[j],
        decreases row.len() - i,
    {
        let v = deep_clone_value(&row[i]);
        out.push(v);
        proof {
            assert(out.deep_view()[i as int] == out@[i as int]@);
            assert(row.deep_view()[i as int] == row@[i as int]@);
            assert forall|j: int| 0 <= j < i as int implies out.deep_view()[j]
                == row.deep_view()[j] by {
                assert(out.deep_view()[j] == out@[j]@);
            }
        }
        i = i + 1;
    }
    proof {
        assert(out.deep_view() =~= row.deep_view());
    }
    out
}

/// A caller-owned copy of a row set, every row deep-copied.
pub fn deep_clone_rows(rows: &Datas) -> (r: Datas)
    ensures
        r.deep_view() == rows.deep_view(),
{
    let mut out: Datas = Vec::new();
    let mut i: usize = 0;
    while i < rows.len()
        invariant
            i <= rows.len(),
            out@.len() == i,
            forall|j: int| 0 <= j < i ==> out.deep_view()[j] == rows.deep_view()[j],
        decreases rows.len() - i,
    {
        let r = deep_clone_row(&rows[i]);
        out.push(r);
        proof {
            assert(out.deep_view()[i as int] == out@[i as int].deep_view());
            assert(rows.deep_view()[i as int] == rows@[i as int].deep_view());
            assert forall|j: int| 0 <= j < i as int implies out.deep_view()[j]
                == rows.deep_view()[j] by {
                assert(out.deep_view()[j] == out@[j].deep_view());
            }
        }
        i = i + 1;
    }
    proof {
        assert(out.deep_view() =~= rows.deep_view());
    }
    out
}

/// One mixing step of the byte-string hash: rotate left by seven, then fold
/// in the next byte.
pub open spec fn spec_hash_step(h: u64, b: u8) -> u64 {
    ((h << 7) | (h >> 57)) ^ (b as u64)
}

/// Hash of a byte string, folded left to right from a fixed seed.
pub open spec fn spec_bytes_hash(s: Seq<u8>) -> u64
    decreases s.len(),
{
    if s.len() == 0 {
        0x9e3779b97f4a7c15
    } else {
        spec_hash_step(spec_bytes_hash(s.drop_last()), s.last())
    }
}

/// The bit pattern of a signed integer read as unsigned.
pub open spec fn spec_int_bits(x: i64) -> u64 {
    if x >= 0 {
        x as u64
    } else {
        (x as int + 0x1_0000_0000_0000_0000) as u64
    }
}

/// Deterministic hash of a value, the sole input to shard routing.
pub open spec fn spec_value_hash(v: ValueModel) -> u64 {
    match v {
        ValueModel::Null => 0,
        ValueModel::Int(x) => spec_int_bits(x),
        ValueModel::Text(s) => spec_bytes_hash(s),
    }
}

/// The shard index that holds the given routing value.
pub open spec fn spec_shard_of(v: ValueModel, shards: int) -> int
    recommends
        1 <= shards,
{
    spec_value_hash(v) as int % shards
}

pub(crate) fn int_bits(x: i64) -> (r: u64)
    ensures
        r == spec_int_bits(x),
{
    if x >= 0 {
        x as u64
    } else {
        let w: i128 = x as i128 + 0x1_0000_0000_0000_0000;
        w as u64
    }
}

fn bytes_hash(s: &Vec<u8>) -> (r: u64)
    ensures
        r == spec_bytes_hash(s@),
{
    let mut h: u64 = 0x9e3779b97f4a7c15;
    let mut i: usize = 0;
    while i < s.len()
        invariant
            i <= s.len(),
            h == spec_bytes_hash(s@.take(i as int)),
        decreases s.len() - i,
    {
        h = ((h << 7) | (h >> 57)) ^ (s[i] as u64);
        proof {
            assert(s@.take(i as int + 1).drop_last() =~= s@.take(i as int));
            assert(s@.take(i as int + 1).last() == s@[i as int]);
        }
        i = i + 1;
    }
    proof {
        assert(s@.take(s@.len() as int) =~= s@);
    }
    h
}

/// Deterministic hash of a value.
pub fn value_hash(v: &Value) -> (r: u64)
    ensures
        r == spec_value_hash(v@),
{
    match v {
        Value::Null => 0,
        Value::Int(x) => int_bits(*x),
        Value::Text(b) => bytes_hash(b),
    }
}

/// Route a single-value key to the shard holding it.
///
/// The result is a pure function of the key and the shard count, and always
/// lies in `[0, shards)`; the same bucketing must be used by whatever
/// partitioned the view, or lookups silently go to the wrong shard.
pub fn shard_of(key: &Value, shards: usize) -> (r: usize)
    requires
        1 <= shards,
    ensures
        r == spec_shard_of(key@, shards as int),
        r < shards,
{
    let h = value_hash(key);
    (h % (shards as u64)) as usize
}

/// Law: shard routing is deterministic and total — for every value and every
/// shard count of at least one, the routed index is a function of the two
/// alone and lies in `[0, shards)`.
pub proof fn lemma_shard_routing_in_range(v: ValueModel, shards: int)
    requires
        1 <= shards,
    ensures
        0 <= spec_shard_of(v, shards) < shards,
{
}

} // verus!
