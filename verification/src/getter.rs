//! The in-process view client: blocking lookups against one view's backing
//! stores and transactional reads with a monotonic timestamp tracker.

use crate::protocol::{Token, TokenGenerator, TokenModel};
use crate::store::{spec_find_rows, ShardStore, StoreModel};
use crate::value::{shard_of, spec_shard_of, Datas, Row, ValueModel};
use vstd::prelude::*;

verus! {

/// The store handles backing one view: one store, or one per shard.
pub enum ReadHandle {
    Singleton(ShardStore),
    Sharded(Vec<ShardStore>),
}

/// The stores behind a handle, in ascending shard order.
pub open spec fn handle_stores(h: &ReadHandle) -> Seq<StoreModel> {
    match h {
        ReadHandle::Singleton(s) => seq![s@],
        ReadHandle::Sharded(v) => v.deep_view(),
    }
}

/// A probe is well-formed for a handle: a sharded handle has at least one
/// shard and is probed with single-value keys only (routing is undefined for
/// composite keys).
pub open spec fn handle_key_wf(h: &ReadHandle, key: Seq<ValueModel>) -> bool {
    match h {
        ReadHandle::Singleton(_) => true,
        ReadHandle::Sharded(v) => v@.len() >= 1 && key.len() == 1,
    }
}

/// The store a probe of `key` is routed to.
pub open spec fn spec_route(h: &ReadHandle, key: Seq<ValueModel>) -> StoreModel {
    match h {
        ReadHandle::Singleton(s) => s@,
        ReadHandle::Sharded(v) => v.deep_view()[spec_shard_of(key[0], v@.len() as int)],
    }
}

/// What probing the view for `key` returns.
pub open spec fn spec_handle_find(h: &ReadHandle, key: Seq<ValueModel>, block: bool) -> Result<
    (Option<Seq<Seq<ValueModel>>>, i64),
    (),
> {
    spec_find_rows(spec_route(h, key), key, block)
}

/// Total number of materialized keys across a sequence of stores.
pub open spec fn spec_stores_len(stores: Seq<StoreModel>) -> int
    decreases stores.len(),
{
    if stores.len() == 0 {
        0
    } else {
        spec_stores_len(stores.drop_last()) + stores.last().entries.len()
    }
}

pub(crate) proof fn lemma_stores_len_take_succ(stores: Seq<StoreModel>, i: int)
    requires
        0 <= i < stores.len(),
    ensures
        spec_stores_len(stores.take(i + 1)) == spec_stores_len(stores.take(i))
            + stores[i].entries.len(),
{
    assert(stores.take(i + 1).drop_last() =~= stores.take(i));
    assert(stores.take(i + 1).last() == stores[i]);
}

pub(crate) proof fn lemma_stores_len_take_le(stores: Seq<StoreModel>, i: int)
    requires
        0 <= i <= stores.len(),
    ensures
        spec_stores_len(stores.take(i)) <= spec_stores_len(stores),
    decreases stores.len() - i,
{
    if i == stores.len() {
        assert(stores.take(i) =~= stores);
    } else {
        lemma_stores_len_take_succ(stores, i);
        lemma_stores_len_take_le(stores, i + 1);
    }
}

impl ReadHandle {
    /// Probe the backing store(s) for `key`, routing by shard when sharded.
    pub fn find_rows(&self, key: &Row, block: bool) -> (r: Result<(Option<Datas>, i64), ()>)
        requires
            handle_key_wf(self, key.deep_view()),
        ensures
            match r {
                Ok((opt, ts)) => {
                    &&& ts == spec_route(self, key.deep_view()).ts
                    &&& match opt {
                        Some(d) => spec_handle_find(self, key.deep_view(), block) == Ok::<_, ()>((
                            Some(d.deep_view()),
                            ts,
                        )),
                        None => spec_handle_find(self, key.deep_view(), block) == Ok::<_, ()>((
                            None::<Seq<Seq<ValueModel>>>,
                            ts,
                        )),
                    }
                },
                Err(_) => spec_handle_find(self, key.deep_view(), block) is Err,
            },
    {
        match self {
            ReadHandle::Singleton(s) => s.find_rows(key, block),
            ReadHandle::Sharded(v) => {
                proof {
                    assert(key.deep_view().len() == key@.len());
                }
                let idx = shard_of(&key[0], v.len());
                proof {
                    assert(key.deep_view()[0] == key@[0]@);
                    assert(v.deep_view()[idx as int] == v@[idx as int]@);
                }
                let s = &v[idx];
                s.find_rows(key, block)
            },
        }
    }

    /// The number of materialized keys, summed over all shards.
    pub fn len(&self) -> (r: usize)
        requires
            spec_stores_len(handle_stores(self)) <= usize::MAX,
        ensures
            r == spec_stores_len(handle_stores(self)),
    {
        match self {
            ReadHandle::Singleton(s) => {
                proof {
                    let stores = handle_stores(self);
                    assert(stores.len() == 1);
                    assert(stores.last() == s@);
                    assert(stores.drop_last() =~= Seq::<StoreModel>::empty());
                    assert(spec_stores_len(Seq::<StoreModel>::empty()) == 0);
                }
                s.len()
            },
            ReadHandle::Sharded(v) => {
                let ghost stores = handle_stores(self);
                let mut total: usize = 0;
                let mut i: usize = 0;
                while i < v.len()
                    invariant
                        i <= v.len(),
                        stores == v.deep_view(),
                        stores.len() == v@.len(),
                        spec_stores_len(stores) <= usize::MAX,
                        total == spec_stores_len(stores.take(i as int)),
                    decreases v.len() - i,
                {
                    proof {
                        assert(stores[i as int] == v@[i as int]@);
                        lemma_stores_len_take_succ(stores, i as int);
                        lemma_stores_len_take_le(stores, i as int + 1);
                    }
                    let n = v[i].len();
                    total = total + n;
                    i = i + 1;
                }
                proof {
                    assert(stores.take(v@.len() as int) =~= stores);
                }
                total
            },
        }
    }
}

/// A registry slot: the store serving one shard of one view.
pub struct ReaderSlot {
    pub node: u64,
    pub shard: usize,
    pub store: ShardStore,
}

/// Mathematical model of a [`ReaderSlot`].
pub struct SlotModel {
    pub node: u64,
    pub shard: usize,
    pub store: StoreModel,
}

impl View for ReaderSlot {
    type V = SlotModel;

    open spec fn view(&self) -> SlotModel {
        SlotModel { node: self.node, shard: self.shard, store: self.store@ }
    }
}

impl DeepView for ReaderSlot {
    type V = SlotModel;

    open spec fn deep_view(&self) -> SlotModel {
        self.view()
    }
}

/// The registry of stores that have been announced for serving, keyed by
/// (view, shard).
pub struct Readers {
    pub slots: Vec<ReaderSlot>,
}

impl View for Readers {
    type V = Seq<SlotModel>;

    open spec fn view(&self) -> Seq<SlotModel> {
        self.slots.deep_view()
    }
}

/// The registered store for (node, shard), if any: first match wins.
pub open spec fn spec_reader_lookup(slots: Seq<SlotModel>, node: u64, shard: usize) -> Option<
    StoreModel,
>
    decreases slots.len(),
{
    if slots.len() == 0 {
        None
    } else if slots[0].node == node && slots[0].shard == shard {
        Some(slots[0].store)
    } else {
        spec_reader_lookup(slots.drop_first(), node, shard)
    }
}

proof fn lemma_reader_lookup_skip(slots: Seq<SlotModel>, node: u64, shard: usize, i: int)
    requires
        0 <= i <= slots.len(),
        forall|j: int| 0 <= j < i ==> !(slots[j].node == node && slots[j].shard == shard),
    ensures
        spec_reader_lookup(slots, node, shard) == spec_reader_lookup(slots.skip(i), node, shard),
    decreases i,
{
    if i > 0 {
        assert(slots.skip(i - 1).drop_first() =~= slots.skip(i));
        lemma_reader_lookup_skip(slots, node, shard, i - 1);
    } else {
        assert(slots.skip(0) =~= slots);
    }
}

impl Readers {
    /// An empty registry.
    pub fn new() -> (r: Readers)
        ensures
            r@ == Seq::<SlotModel>::empty(),
    {
        let r = Readers { slots: Vec::new() };
        proof {
            assert(r@ =~= Seq::<SlotModel>::empty());
        }
        r
    }

    /// Announce a store as serving (node, shard).
    pub fn register(&mut self, node: u64, shard: usize, store: ShardStore)
        ensures
            final(self)@ == old(self)@.push(SlotModel { node, shard, store: store@ }),
    {
        let ghost prev = self.slots@;
        let ghost prev_deep = self@;
        let slot = ReaderSlot { node, shard, store };
        self.slots.push(slot);
        proof {
            assert forall|j: int| 0 <= j < self.slots@.len() implies self@[j] == prev_deep.push(
                slot@,
            )[j] by {
                if j < prev.len() {
                    assert(self.slots@[j] == prev[j]);
                    assert(self@[j] == self.slots@[j]@);
                    assert(prev_deep[j] == prev[j]@);
                } else {
                    assert(self@[j] == self.slots@[j]@);
                }
            }
            assert(self@ =~= prev_deep.push(slot@));
        }
    }

    /// The registered store for (node, shard), if any.
    pub fn lookup(&self, node: u64, shard: usize) -> (r: Option<&ShardStore>)
        ensures
            match r {
                Some(s) => spec_reader_lookup(self@, node, shard) == Some(s@),
                None => spec_reader_lookup(self@, node, shard) is None,
            },
    {
        let mut i: usize = 0;
        while i < self.slots.len()
            invariant
                i <= self.slots.len(),
                self@.len() == self.slots@.len(),
                forall|j: int|
                    0 <= j < i ==> !(self@[j].node == node && self@[j].shard == shard),
            decreases self.slots.len() - i,
        {
            proof {
                assert(self@[i as int] == self.slots@[i as int]@);
            }
            if self.slots[i].node == node && self.slots[i].shard == shard {
                proof {
                    lemma_reader_lookup_skip(self@, node, shard, i as int);
                    assert(self@.skip(i as int)[0] == self@[i as int]);
                }
                return Some(&self.slots[i].store);
            }
            i = i + 1;
        }
        proof {
            lemma_reader_lookup_skip(self@, node, shard, i as int);
        }
        None
    }
}

/// An in-process accessor to one view's backing stores, with the per-instance
/// transactional timestamp tracker.
pub struct Getter {
    /// Bound iff the view is transactional.
    pub generator: Option<TokenGenerator>,
    pub handle: ReadHandle,
    /// Highest timestamp accepted by a transactional read; never decreases.
    pub last_ts: i64,
}

/// The outcome of one transactional probe.
pub enum TxnStep {
    /// A fresh observation: the rows and the token bound to the observation.
    Fresh(Datas, Token),
    /// The observation's timestamp had regressed behind the tracker; it was
    /// discarded and the state left unchanged. The caller retries once the
    /// lagging shard has caught up.
    Stale,
    /// The view is unavailable, or it has no token generator bound.
    Unavailable,
}

impl Getter {
    /// Build an accessor for `node` from the registry: one store when
    /// `shards` is `None`, else one store per shard in `0..n`. Returns `None`
    /// (not ready) iff some required shard has no registered store.
    pub fn new(
        node: u64,
        shards: Option<usize>,
        readers: &Readers,
        generator: Option<TokenGenerator>,
    ) -> (r: Option<Getter>)
        requires
            shards matches Some(n) ==> n >= 1,
        ensures
            match shards {
                None => (r is Some) == (spec_reader_lookup(readers@, node, 0) is Some),
                Some(n) => (r is Some) == (forall|s: int|
                    0 <= s < n ==> (#[trigger] spec_reader_lookup(readers@, node, s as usize))
                        is Some),
            },
            r matches Some(g) ==> {
                &&& g.generator == generator
                &&& g.last_ts == i64::MIN
                &&& match shards {
                    None => handle_stores(&g.handle) == seq![
                        spec_reader_lookup(readers@, node, 0).unwrap(),
                    ],
                    Some(n) => handle_stores(&g.handle).len() == n && forall|s: int|
                        0 <= s < n ==> handle_stores(&g.handle)[s] == (
                        #[trigger] spec_reader_lookup(readers@, node, s as usize)).unwrap(),
                }
            },
    {
        match shards {
            None => {
                match readers.lookup(node, 0) {
                    Some(s) => Some(
                        Getter {
                            generator,
                            handle: ReadHandle::Singleton(s.clone_store()),
                            last_ts: i64::MIN,
                        },
                    ),
                    None => None,
                }
            },
            Some(n) => {
                let mut stores: Vec<ShardStore> = Vec::new();
                let mut s: usize = 0;
                while s < n
                    invariant
                        shards == Some(n),
                        s <= n,
                        stores@.len() == s,
                        forall|j: int|
                            0 <= j < s ==> (#[trigger] spec_reader_lookup(readers@, node, j as usize))
                                is Some && stores.deep_view()[j] == spec_reader_lookup(
                                readers@,
                                node,
                                j as usize,
                            ).unwrap(),
                    decreases n - s,
                {
                    match readers.lookup(node, s) {
                        Some(st) => {
                            let ghost prev = stores@;
                            let ghost prev_deep = stores.deep_view();
                            let copied = st.clone_store();
                            stores.push(copied);
                            proof {
                                assert(stores.deep_view()[s as int] == stores@[s as int]@);
                                assert forall|j: int| 0 <= j < s as int implies stores.deep_view()[j]
                                    == prev_deep[j] by {
                                    assert(stores@[j] == prev[j]);
                                    assert(stores.deep_view()[j] == stores@[j]@);
                                    assert(prev_deep[j] == prev[j]@);
                                }
                            }
                            s = s + 1;
                        },
                        None => {
                            proof {
                                let jj: int = s as int;
                                assert(jj as usize == s);
                                assert(spec_reader_lookup(readers@, node, jj as usize) is None);
                            }
                            return None;
                        },
                    }
                }
                Some(
                    Getter {
                        generator,
                        handle: ReadHandle::Sharded(stores),
                        last_ts: i64::MIN,
                    },
                )
            },
        }
    }

    /// True iff the view supports transactional reads.
    pub fn supports_transactions(&self) -> (r: bool)
        ensures
            r == (self.generator is Some),
    {
        self.generator.is_some()
    }

    /// The number of materialized keys across the view's shards.
    pub fn len(&self) -> (r: usize)
        requires
            spec_stores_len(handle_stores(&self.handle)) <= usize::MAX,
        ensures
            r == spec_stores_len(handle_stores(&self.handle)),
    {
        self.handle.len()
    }

    /// Probe for `q` and apply `f` to the found row set, if any.
    pub fn lookup_map<T, F: Fn(&Datas) -> T>(&self, q: &Row, f: F, block: bool) -> (r: Result<
        Option<T>,
        (),
    >)
        requires
            handle_key_wf(&self.handle, q.deep_view()),
            forall|d: &Datas| call_requires(f, (d,)),
        ensures
            match spec_handle_find(&self.handle, q.deep_view(), block) {
                Ok(p) => match p.0 {
                    Some(rows) => r matches Ok(o) && o matches Some(t) && exists|d: Datas|
                        d.deep_view() == rows && call_ensures(f, (&d,), t),
                    None => r matches Ok(o) && o is None,
                },
                Err(_) => r is Err,
            },
    {
        match self.handle.find_rows(q, block) {
            Ok((Some(d), _ts)) => {
                let t = f(&d);
                proof {
                    assert(call_ensures(f, (&d,), t));
                }
                Ok(Some(t))
            },
            Ok((None, _ts)) => Ok(None),
            Err(_) => Err(()),
        }
    }

    /// Look up `q`, deep-copying every value out of internal storage; the
    /// result is empty when the key has no entry.
    pub fn lookup(&self, q: &Row, block: bool) -> (r: Result<Datas, ()>)
        requires
            handle_key_wf(&self.handle, q.deep_view()),
        ensures
            match spec_handle_find(&self.handle, q.deep_view(), block) {
                Ok(p) => r matches Ok(d) && d.deep_view() == match p.0 {
                    Some(rows) => rows,
                    None => Seq::<Seq<ValueModel>>::empty(),
                },
                Err(_) => r is Err,
            },
    {
        match self.handle.find_rows(q, block) {
            Ok((Some(d), _ts)) => Ok(d),
            Ok((None, _ts)) => {
                let empty: Datas = Vec::new();
                proof {
                    assert(empty.deep_view() =~= Seq::<Seq<ValueModel>>::empty());
                }
                Ok(empty)
            },
            Err(_) => Err(()),
        }
    }

    /// One step of the transactional read state machine: probe with blocking
    /// enabled and accept the observation iff its timestamp has not regressed
    /// behind the tracker.
    pub fn transactional_step(&mut self, q: &Row) -> (r: TxnStep)
        requires
            handle_key_wf(&old(self).handle, q.deep_view()),
        ensures
            final(self).generator == old(self).generator,
            final(self).handle == old(self).handle,
            final(self).last_ts >= old(self).last_ts,
            match r {
                TxnStep::Fresh(rows, tok) => {
                    &&& old(self).generator is Some
                    &&& match spec_handle_find(&old(self).handle, q.deep_view(), true) {
                        Ok(p) => {
                            &&& p.1 >= old(self).last_ts
                            &&& final(self).last_ts == p.1
                            &&& tok@ == (TokenModel { ts: p.1, key: q.deep_view() })
                            &&& rows.deep_view() == match p.0 {
                                Some(rs) => rs,
                                None => Seq::<Seq<ValueModel>>::empty(),
                            }
                        },
                        Err(_) => false,
                    }
                },
                TxnStep::Stale => {
                    &&& old(self).generator is Some
                    &&& final(self).last_ts == old(self).last_ts
                    &&& match spec_handle_find(&old(self).handle, q.deep_view(), true) {
                        Ok(p) => p.1 < old(self).last_ts,
                        Err(_) => false,
                    }
                },
                TxnStep::Unavailable => {
                    &&& final(self).last_ts == old(self).last_ts
                    &&& (old(self).generator is None || spec_handle_find(
                        &old(self).handle,
                        q.deep_view(),
                        true,
                    ) is Err)
                },
            },
    {
        if self.generator.is_none() {
            return TxnStep::Unavailable;
        }
        match self.handle.find_rows(q, true) {
            Err(_) => TxnStep::Unavailable,
            Ok((opt, ts)) => {
                if ts < self.last_ts {
                    TxnStep::Stale
                } else {
                    self.last_ts = ts;
                    let tok = match &self.generator {
                        Some(g) => g.generate(ts, q),
                        None => {
                            proof {
                                assert(false);
                            }
                            Token { ts, key: Vec::new() }
                        },
                    };
                    let rows = match opt {
                        Some(d) => d,
                        None => {
                            let empty: Datas = Vec::new();
                            proof {
                                assert(empty.deep_view() =~= Seq::<Seq<ValueModel>>::empty());
                            }
                            empty
                        },
                    };
                    TxnStep::Fresh(rows, tok)
                }
            },
        }
    }

    /// Transactionally read `q`, blocking until it is materialized: accept
    /// the observation, advance the tracker to its timestamp, and return the
    /// rows with a token bound to the observation.
    ///
    /// The caller must not be ahead of the store: an observation whose
    /// timestamp had regressed would be discarded and retried, and against a
    /// quiescent store that retry could never succeed.
    pub fn transactional_lookup(&mut self, q: &Row) -> (r: Result<(Datas, Token), ()>)
        requires
            handle_key_wf(&old(self).handle, q.deep_view()),
            old(self).generator is Some ==> match spec_handle_find(
                &old(self).handle,
                q.deep_view(),
                true,
            ) {
                Ok(p) => p.1 >= old(self).last_ts,
                Err(_) => true,
            },
        ensures
            final(self).generator == old(self).generator,
            final(self).handle == old(self).handle,
            final(self).last_ts >= old(self).last_ts,
            old(self).generator is None ==> r is Err && final(self).last_ts == old(self).last_ts,
            old(self).generator is Some ==> match spec_handle_find(
                &old(self).handle,
                q.deep_view(),
                true,
            ) {
                Ok(p) => r matches Ok(pair) && {
                    &&& pair.1@ == (TokenModel { ts: p.1, key: q.deep_view() })
                    &&& final(self).last_ts == p.1
                    &&& pair.0.deep_view() == match p.0 {
                        Some(rs) => rs,
                        None => Seq::<Seq<ValueModel>>::empty(),
                    }
                },
                Err(_) => r is Err && final(self).last_ts == old(self).last_ts,
            },
    {
        match self.transactional_step(q) {
            TxnStep::Fresh(rows, tok) => Ok((rows, tok)),
            TxnStep::Stale => {
                proof {
                    assert(false);
                }
                Err(())
            },
            TxnStep::Unavailable => Err(()),
        }
    }
}

/// Law: over two successive successful transactional reads on one client
/// handle, the observed timestamps never strictly decrease. Each successful
/// read returns a token at the tracker's new value, and the tracker never
/// moves backward, so the second token's timestamp is at least the first's.
pub proof fn lemma_transactional_timestamps_monotonic(
    after_first: Getter,
    after_second: Getter,
    tok1: TokenModel,
    tok2: TokenModel,
)
    requires
        tok1.ts == after_first.last_ts,
        after_second.last_ts >= after_first.last_ts,
        tok2.ts == after_second.last_ts,
    ensures
        tok2.ts >= tok1.ts,
{
}

} // verus!
