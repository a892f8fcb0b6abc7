//! The remote view client: per-shard connections to serving endpoints,
//! fan-out of lookups by shard routing, and fan-in of the replies.

use crate::envelope::{PackedQuery, PackedReply};
use crate::getter::{lemma_stores_len_take_le, lemma_stores_len_take_succ, spec_stores_len};
use crate::protocol::{QueryModel, ReadQuery, ReadReply, ReplyModel, Token, TokenGenerator, TokenModel};
use crate::store::{spec_find_rows, ShardStore, StoreModel};
use crate::value::{deep_clone_row, deep_clone_rows, shard_of, spec_shard_of, Datas, Row, ValueModel};
use vstd::prelude::*;

verus! {

/// The local port the model assigns when the caller lets the transport pick.
pub const EPHEMERAL_PORT: u16 = 49152;

/// The local port every fresh connection of one pooled build binds: the
/// caller's preferred port when one is set, else the transport-chosen port
/// of the first fresh connection, which the build records and reuses.
pub open spec fn spec_build_port(preferred: Option<u16>) -> u16 {
    match preferred {
        Some(p) => p,
        None => EPHEMERAL_PORT,
    }
}

/// The serving side of one shard of one view: its backing store and, when
/// the view is transactional, a token generator.
pub struct ShardServer {
    pub node: u64,
    pub shard: usize,
    pub store: ShardStore,
    pub generator: Option<TokenGenerator>,
}

/// Mathematical model of a [`ShardServer`].
pub struct ServerModel {
    pub node: u64,
    pub shard: usize,
    pub store: StoreModel,
    pub transactional: bool,
}

impl View for ShardServer {
    type V = ServerModel;

    open spec fn view(&self) -> ServerModel {
        ServerModel {
            node: self.node,
            shard: self.shard,
            store: self.store@,
            transactional: self.generator is Some,
        }
    }
}

impl DeepView for ShardServer {
    type V = ServerModel;

    open spec fn deep_view(&self) -> ServerModel {
        self.view()
    }
}

/// Whether any requested key is unavailable in the store.
pub open spec fn spec_any_unavailable(
    store: StoreModel,
    keys: Seq<Seq<ValueModel>>,
    block: bool,
) -> bool {
    exists|k: int| 0 <= k < keys.len() && (#[trigger] spec_find_rows(store, keys[k], block)) is Err
}

/// The rows a shard returns for one key: the entry's rows, or empty when the
/// key is absent.
pub open spec fn spec_rows_for(store: StoreModel, key: Seq<ValueModel>, block: bool) -> Seq<
    Seq<ValueModel>,
> {
    match spec_find_rows(store, key, block) {
        Ok(p) => match p.0 {
            Some(rs) => rs,
            None => Seq::empty(),
        },
        Err(_) => Seq::empty(),
    }
}

/// A shard's answer to a plain lookup of a batch of keys: unavailable iff
/// any key is, else one row set per key in key order.
pub open spec fn spec_normal_result(
    store: StoreModel,
    keys: Seq<Seq<ValueModel>>,
    block: bool,
) -> Result<Seq<Seq<Seq<ValueModel>>>, ()> {
    if spec_any_unavailable(store, keys, block) {
        Err(())
    } else {
        Ok(Seq::new(keys.len(), |k: int| spec_rows_for(store, keys[k], block)))
    }
}

/// A shard's answer to a tokened lookup: as the plain lookup with blocking
/// always on, each row set paired with a token at the shard's timestamp;
/// unavailable when the view has no token generator.
pub open spec fn spec_token_result(server: ServerModel, keys: Seq<Seq<ValueModel>>) -> Result<
    Seq<(Seq<Seq<ValueModel>>, TokenModel)>,
    (),
> {
    if !server.transactional || spec_any_unavailable(server.store, keys, true) {
        Err(())
    } else {
        Ok(
            Seq::new(
                keys.len(),
                |k: int|
                    (
                        spec_rows_for(server.store, keys[k], true),
                        TokenModel { ts: server.store.ts, key: keys[k] },
                    ),
            ),
        )
    }
}

/// What a serving endpoint replies to each query. The endpoint is bound to
/// one shard of one view, so the query's target names it redundantly.
pub open spec fn spec_handle_query(server: ServerModel, q: QueryModel) -> ReplyModel {
    match q {
        QueryModel::Normal { target: _, keys, block } => ReplyModel::Normal(
            spec_normal_result(server.store, keys, block),
        ),
        QueryModel::WithToken { target: _, keys } => ReplyModel::WithToken(
            spec_token_result(server, keys),
        ),
        QueryModel::Size { target: _ } => ReplyModel::Size(server.store.entries.len() as usize),
    }
}

impl ShardServer {
    /// Execute one query against this shard's store and reply.
    pub fn handle_query(&self, q: &ReadQuery) -> (r: ReadReply)
        ensures
            r@ == spec_handle_query(self@, q@),
    {
        match q {
            ReadQuery::Size { target: _ } => ReadReply::Size(self.store.len()),
            ReadQuery::Normal { target: _, keys, block } => {
                let mut out: Vec<Datas> = Vec::new();
                let mut err = false;
                let mut k: usize = 0;
                while k < keys.len()
                    invariant
                        k <= keys.len(),
                        keys.deep_view().len() == keys@.len(),
                        err == exists|j: int|
                            0 <= j < k && (#[trigger] spec_find_rows(
                                self@.store,
                                keys.deep_view()[j],
                                *block,
                            )) is Err,
                        !err ==> out@.len() == k,
                        !err ==> forall|j: int|
                            0 <= j < k ==> out.deep_view()[j] == spec_rows_for(
                                self@.store,
                                keys.deep_view()[j],
                                *block,
                            ),
                    decreases keys.len() - k,
                {
                    proof {
                        assert(keys.deep_view()[k as int] == keys@[k as int].deep_view());
                    }
                    match self.store.find_rows(&keys[k], *block) {
                        Err(_) => {
                            err = true;
                        },
                        Ok((opt, _ts)) => {
                            if !err {
                                let ghost prev = out@;
                                let ghost prev_deep = out.deep_view();
                                let rows = match opt {
                                    Some(d) => d,
                                    None => Vec::new(),
                                };
                                proof {
                                    if rows@.len() == 0 {
                                        assert(rows.deep_view() =~= Seq::<Seq<ValueModel>>::empty());
                                    }
                                }
                proof {
                                    assert(rows.deep_view() == spec_rows_for(
                                        self@.store,
                                        keys.deep_view()[k as int],
                                        *block,
                                    ));
                                }
                                out.push(rows);
                                proof {
                                    assert(out.deep_view()[k as int] == out@[k as int].deep_view());
                                    assert forall|j: int| 0 <= j < k as int implies out.deep_view()[j]
                                        == spec_rows_for(self@.store, keys.deep_view()[j], *block) by {
                                        assert(out@[j] == prev[j]);
                                        assert(out.deep_view()[j] == out@[j].deep_view());
                                        assert(prev_deep[j] == prev[j].deep_view());
                                        assert(prev_deep[j] == spec_rows_for(
                                            self@.store,
                                            keys.deep_view()[j],
                                            *block,
                                        ));
                                    }
                                }
                            }
                        },
                    }
                    k = k + 1;
                }
                if err {
                    ReadReply::Normal(Err(()))
                } else {
                    proof {
                        assert(out.deep_view() =~= Seq::new(
                            keys.deep_view().len(),
                            |j: int| spec_rows_for(self@.store, keys.deep_view()[j], *block),
                        ));
                    }
                    ReadReply::Normal(Ok(out))
                }
            },
            ReadQuery::WithToken { target: _, keys } => {
                let g = match &self.generator {
                    None => {
                        return ReadReply::WithToken(Err(()));
                    },
                    Some(g) => g,
                };
                let mut out: Vec<(Datas, crate::protocol::Token)> = Vec::new();
                let mut err = false;
                let mut k: usize = 0;
                while k < keys.len()
                    invariant
                        k <= keys.len(),
                        keys.deep_view().len() == keys@.len(),
                        self.generator is Some,
                        err == exists|j: int|
                            0 <= j < k && (#[trigger] spec_find_rows(
                                self@.store,
                                keys.deep_view()[j],
                                true,
                            )) is Err,
                        !err ==> out@.len() == k,
                        !err ==> forall|j: int|
                            0 <= j < k ==> out.deep_view()[j] == (
                            spec_rows_for(self@.store, keys.deep_view()[j], true),
                            TokenModel { ts: self@.store.ts, key: keys.deep_view()[j] },
                            ),
                    decreases keys.len() - k,
                {
                    proof {
                        assert(keys.deep_view()[k as int] == keys@[k as int].deep_view());
                    }
                    match self.store.find_rows(&keys[k], true) {
                        Err(_) => {
                            err = true;
                        },
                        Ok((opt, ts)) => {
                            if !err {
                                let ghost prev = out@;
                                let ghost prev_deep = out.deep_view();
                                let rows = match opt {
                                    Some(d) => d,
                                    None => Vec::new(),
                                };
                                proof {
                                    if rows@.len() == 0 {
                                        assert(rows.deep_view() =~= Seq::<Seq<ValueModel>>::empty());
                                    }
                                }
                                let tok = g.generate(ts, &keys[k]);
                                proof {
                                    assert(rows.deep_view() == spec_rows_for(
                                        self@.store,
                                        keys.deep_view()[k as int],
                                        true,
                                    ));
                                    assert(ts == self@.store.ts);
                                }
                                out.push((rows, tok));
                                proof {
                                    assert(out.deep_view()[k as int] == out@[k as int].deep_view());
                                    assert(out@[k as int] == (rows, tok));
                                    assert(out@[k as int].deep_view() == (rows.deep_view(), tok@));
                                    assert forall|j: int| 0 <= j < k as int implies out.deep_view()[j]
                                        == (
                                        spec_rows_for(self@.store, keys.deep_view()[j], true),
                                        TokenModel { ts: self@.store.ts, key: keys.deep_view()[j] },
                                        ) by {
                                        assert(out@[j] == prev[j]);
                                        assert(out.deep_view()[j] == out@[j].deep_view());
                                        assert(prev_deep[j] == prev[j].deep_view());
                                        assert(prev_deep[j] == (
                                        spec_rows_for(self@.store, keys.deep_view()[j], true),
                                        TokenModel { ts: self@.store.ts, key: keys.deep_view()[j] },
                                        ));
                                    }
                                }
                            }
                        },
                    }
                    k = k + 1;
                }
                if err {
                    ReadReply::WithToken(Err(()))
                } else {
                    proof {
                        assert(out.deep_view() =~= Seq::new(
                            keys.deep_view().len(),
                            |j: int|
                                (
                                    spec_rows_for(self@.store, keys.deep_view()[j], true),
                                    TokenModel { ts: self@.store.ts, key: keys.deep_view()[j] },
                                ),
                        ));
                    }
                    ReadReply::WithToken(Ok(out))
                }
            },
        }
    }

    /// A caller-owned copy of this serving endpoint.
    pub fn clone_server(&self) -> (r: ShardServer)
        ensures
            r@ == self@,
    {
        ShardServer {
            node: self.node,
            shard: self.shard,
            store: self.store.clone_store(),
            generator: match &self.generator {
                Some(_) => Some(TokenGenerator::new()),
                None => None,
            },
        }
    }
}

/// One endpoint reachable on the network.
pub struct Endpoint {
    pub addr: u64,
    pub server: ShardServer,
}

/// Mathematical model of an [`Endpoint`].
pub struct EndpointModel {
    pub addr: u64,
    pub server: ServerModel,
}

impl View for Endpoint {
    type V = EndpointModel;

    open spec fn view(&self) -> EndpointModel {
        EndpointModel { addr: self.addr, server: self.server@ }
    }
}

impl DeepView for Endpoint {
    type V = EndpointModel;

    open spec fn deep_view(&self) -> EndpointModel {
        self.view()
    }
}

/// The serving endpoints reachable from this process, keyed by address.
pub struct Endpoints {
    pub eps: Vec<Endpoint>,
}

impl View for Endpoints {
    type V = Seq<EndpointModel>;

    open spec fn view(&self) -> Seq<EndpointModel> {
        self.eps.deep_view()
    }
}

/// The server reachable at `addr`, if any: first match wins.
pub open spec fn spec_endpoint_lookup(eps: Seq<EndpointModel>, addr: u64) -> Option<ServerModel>
    decreases eps.len(),
{
    if eps.len() == 0 {
        None
    } else if eps[0].addr == addr {
        Some(eps[0].server)
    } else {
        spec_endpoint_lookup(eps.drop_first(), addr)
    }
}

proof fn lemma_endpoint_lookup_skip(eps: Seq<EndpointModel>, addr: u64, i: int)
    requires
        0 <= i <= eps.len(),
        forall|j: int| 0 <= j < i ==> eps[j].addr != addr,
    ensures
        spec_endpoint_lookup(eps, addr) == spec_endpoint_lookup(eps.skip(i), addr),
    decreases i,
{
    if i > 0 {
        assert(eps.skip(i - 1).drop_first() =~= eps.skip(i));
        lemma_endpoint_lookup_skip(eps, addr, i - 1);
    } else {
        assert(eps.skip(0) =~= eps);
    }
}

impl Endpoints {
    /// A network with no reachable endpoints.
    pub fn new() -> (r: Endpoints)
        ensures
            r@ == Seq::<EndpointModel>::empty(),
    {
        let r = Endpoints { eps: Vec::new() };
        proof {
            assert(r@ =~= Seq::<EndpointModel>::empty());
        }
        r
    }

    /// Make a serving endpoint reachable at `addr`.
    pub fn register(&mut self, addr: u64, server: ShardServer)
        ensures
            final(self)@ == old(self)@.push(EndpointModel { addr, server: server@ }),
    {
        let ghost prev = self.eps@;
        let ghost prev_deep = self@;
        let ep = Endpoint { addr, server };
        self.eps.push(ep);
        proof {
            assert forall|j: int| 0 <= j < self.eps@.len() implies self@[j] == prev_deep.push(
                ep@,
            )[j] by {
                if j < prev.len() {
                    assert(self.eps@[j] == prev[j]);
                    assert(self@[j] == self.eps@[j]@);
                    assert(prev_deep[j] == prev[j]@);
                } else {
                    assert(self@[j] == self.eps@[j]@);
                }
            }
            assert(self@ =~= prev_deep.push(ep@));
        }
    }

    /// The endpoint serving `addr`, if any.
    pub fn lookup(&self, addr: u64) -> (r: Option<&ShardServer>)
        ensures
            match r {
                Some(s) => spec_endpoint_lookup(self@, addr) == Some(s@),
                None => spec_endpoint_lookup(self@, addr) is None,
            },
    {
        let mut i: usize = 0;
        while i < self.eps.len()
            invariant
                i <= self.eps.len(),
                self@.len() == self.eps@.len(),
                forall|j: int| 0 <= j < i ==> self@[j].addr != addr,
            decreases self.eps.len() - i,
        {
            proof {
                assert(self@[i as int] == self.eps@[i as int]@);
            }
            if self.eps[i].addr == addr {
                proof {
                    lemma_endpoint_lookup_skip(self@, addr, i as int);
                    assert(self@.skip(i as int)[0] == self@[i as int]);
                }
                return Some(&self.eps[i].server);
            }
            i = i + 1;
        }
        proof {
            lemma_endpoint_lookup_skip(self@, addr, i as int);
        }
        None
    }
}

/// One bound channel to one shard's serving endpoint. The locality flag is
/// fixed at construction: a local connection hands requests over in process,
/// a remote one sends them through the byte-encoded wire envelope.
pub struct Connection {
    pub addr: u64,
    pub local_port: u16,
    pub is_local: bool,
    pub server: ShardServer,
}

/// Mathematical model of a [`Connection`].
pub struct ConnModel {
    pub addr: u64,
    pub local_port: u16,
    pub is_local: bool,
    pub server: ServerModel,
}

impl View for Connection {
    type V = ConnModel;

    open spec fn view(&self) -> ConnModel {
        ConnModel {
            addr: self.addr,
            local_port: self.local_port,
            is_local: self.is_local,
            server: self.server@,
        }
    }
}

impl DeepView for Connection {
    type V = ConnModel;

    open spec fn deep_view(&self) -> ConnModel {
        self.view()
    }
}

impl Connection {
    /// Connect to the endpoint at `addr`, binding the caller-chosen local
    /// port when one is given. Fails iff no endpoint serves `addr`.
    pub fn connect_from(port: Option<u16>, addr: u64, is_local: bool, net: &Endpoints) -> (r:
        Result<Connection, ()>)
        ensures
            match r {
                Ok(c) => {
                    &&& spec_endpoint_lookup(net@, addr) == Some(c@.server)
                    &&& c@.addr == addr
                    &&& c@.is_local == is_local
                    &&& c@.local_port == match port {
                        Some(p) => p,
                        None => EPHEMERAL_PORT,
                    }
                },
                Err(_) => spec_endpoint_lookup(net@, addr) is None,
            },
    {
        match net.lookup(addr) {
            None => Err(()),
            Some(server) => {
                let local_port = match port {
                    Some(p) => p,
                    None => EPHEMERAL_PORT,
                };
                Ok(Connection { addr, local_port, is_local, server: server.clone_server() })
            },
        }
    }

    /// Connect to the endpoint at `addr` with a transport-chosen local port.
    pub fn connect(addr: u64, is_local: bool, net: &Endpoints) -> (r: Result<Connection, ()>)
        ensures
            match r {
                Ok(c) => {
                    &&& spec_endpoint_lookup(net@, addr) == Some(c@.server)
                    &&& c@.addr == addr
                    &&& c@.is_local == is_local
                    &&& c@.local_port == EPHEMERAL_PORT
                },
                Err(_) => spec_endpoint_lookup(net@, addr) is None,
            },
    {
        Connection::connect_from(None, addr, is_local, net)
    }

    /// The local port this connection is bound to.
    pub fn local_addr(&self) -> (r: u16)
        ensures
            r == self@.local_port,
    {
        self.local_port
    }

    /// Whether the endpoint shares this process.
    pub fn is_local(&self) -> (r: bool)
        ensures
            r == self@.is_local,
    {
        self.is_local
    }

    /// A duplicate handle to the same endpoint.
    pub fn clone_conn(&self) -> (r: Connection)
        ensures
            r@ == self@,
    {
        Connection {
            addr: self.addr,
            local_port: self.local_port,
            is_local: self.is_local,
            server: self.server.clone_server(),
        }
    }

    /// Send one request and wait for the reply. A local connection hands the
    /// request over in process; a remote one carries it (and the reply) in
    /// the serialized wire envelope.
    pub fn send(&self, q: ReadQuery) -> (r: ReadReply)
        ensures
            r@ == spec_handle_query(self@.server, q@),
    {
        let packed = PackedQuery::make(q, self.is_local);
        let request = packed.take();
        let reply = self.server.handle_query(&request);
        let packed_reply = PackedReply::make(reply, self.is_local);
        packed_reply.take()
    }
}

/// Marker for a client whose connections are dedicated to it alone; such a
/// client can move across concurrent contexts.
pub struct ExclusiveConnection;

/// Marker for a client whose connections are pooled by remote address and
/// shared with every client built from the same cache.
pub struct SharedConnection;

/// The keys routed to shard `s`, in arrival order.
pub open spec fn spec_bucket_of(keys: Seq<Seq<ValueModel>>, n: int, s: int) -> Seq<Seq<ValueModel>>
    decreases keys.len(),
{
    if keys.len() == 0 {
        Seq::empty()
    } else {
        let rest = spec_bucket_of(keys.drop_last(), n, s);
        if spec_shard_of(keys.last()[0], n) == s {
            rest.push(keys.last())
        } else {
            rest
        }
    }
}

/// All keys bucketed by shard, in ascending shard order.
pub open spec fn spec_buckets(keys: Seq<Seq<ValueModel>>, n: int) -> Seq<Seq<Seq<ValueModel>>> {
    Seq::new(n as nat, |s: int| spec_bucket_of(keys, n, s))
}

/// Whether any probed shard reports unavailable; shards that hold none of
/// the keys are not probed.
pub open spec fn spec_shard_err(
    stores: Seq<StoreModel>,
    buckets: Seq<Seq<Seq<ValueModel>>>,
    block: bool,
) -> bool {
    exists|i: int|
        0 <= i < stores.len() && buckets[i].len() > 0 && (#[trigger] spec_normal_result(
            stores[i],
            buckets[i],
            block,
        )) is Err
}

/// The row groups of the first `i` shards, concatenated in ascending shard
/// order; a shard holding no keys contributes nothing.
pub open spec fn spec_concat_normal(
    stores: Seq<StoreModel>,
    buckets: Seq<Seq<Seq<ValueModel>>>,
    block: bool,
    i: int,
) -> Seq<Seq<Seq<ValueModel>>>
    decreases i,
{
    if i <= 0 {
        Seq::empty()
    } else {
        spec_concat_normal(stores, buckets, block, i - 1) + (if buckets[i - 1].len() == 0 {
            Seq::empty()
        } else {
            match spec_normal_result(stores[i - 1], buckets[i - 1], block) {
                Ok(rs) => rs,
                Err(_) => Seq::empty(),
            }
        })
    }
}

/// What looking up a batch of keys across the whole view returns: a single
/// shard answers the whole batch; across shards, the result is unavailable
/// iff any probed shard is, else the per-shard groups concatenated in
/// ascending shard order (not in key order).
pub open spec fn spec_multi_lookup(
    stores: Seq<StoreModel>,
    keys: Seq<Seq<ValueModel>>,
    block: bool,
) -> Result<Seq<Seq<Seq<ValueModel>>>, ()>
    recommends
        stores.len() >= 1,
{
    if stores.len() == 1 {
        spec_normal_result(stores[0], keys, block)
    } else {
        let buckets = spec_buckets(keys, stores.len() as int);
        if spec_shard_err(stores, buckets, block) {
            Err(())
        } else {
            Ok(spec_concat_normal(stores, buckets, block, stores.len() as int))
        }
    }
}

/// Whether any shard fails a tokened lookup; every shard is probed, with
/// whatever keys route to it.
pub open spec fn spec_token_err(
    servers: Seq<ServerModel>,
    buckets: Seq<Seq<Seq<ValueModel>>>,
) -> bool {
    exists|i: int|
        0 <= i < servers.len() && (#[trigger] spec_token_result(servers[i], buckets[i])) is Err
}

/// The tokened row groups of the first `i` shards, concatenated in ascending
/// shard order.
pub open spec fn spec_concat_token(
    servers: Seq<ServerModel>,
    buckets: Seq<Seq<Seq<ValueModel>>>,
    i: int,
) -> Seq<(Seq<Seq<ValueModel>>, TokenModel)>
    decreases i,
{
    if i <= 0 {
        Seq::empty()
    } else {
        spec_concat_token(servers, buckets, i - 1) + (match spec_token_result(
            servers[i - 1],
            buckets[i - 1],
        ) {
            Ok(rs) => rs,
            Err(_) => Seq::empty(),
        })
    }
}

/// What a tokened lookup of a batch of keys across the whole view returns.
pub open spec fn spec_multi_txn(servers: Seq<ServerModel>, keys: Seq<Seq<ValueModel>>) -> Result<
    Seq<(Seq<Seq<ValueModel>>, TokenModel)>,
    (),
>
    recommends
        servers.len() >= 1,
{
    if servers.len() == 1 {
        spec_token_result(servers[0], keys)
    } else {
        let buckets = spec_buckets(keys, servers.len() as int);
        if spec_token_err(servers, buckets) {
            Err(())
        } else {
            Ok(spec_concat_token(servers, buckets, servers.len() as int))
        }
    }
}

/// A handle for querying one materialized view over per-shard connections.
pub struct RemoteGetter<E> {
    pub node: u64,
    pub columns: Vec<String>,
    pub shards: Vec<Connection>,
    pub shard_addrs: Vec<(u64, bool)>,
    pub exclusivity: E,
}

impl<E> RemoteGetter<E> {
    /// One connection per shard, in ascending shard order; at least one.
    pub open spec fn wf(&self) -> bool {
        self.shards@.len() >= 1 && self.shards@.len() == self.shard_addrs@.len()
    }

    /// The serving endpoints behind the connections, in shard order.
    pub open spec fn servers(&self) -> Seq<ServerModel> {
        Seq::new(self.shards@.len(), |i: int| self.shards@[i]@.server)
    }

    /// Their backing stores, in shard order.
    pub open spec fn stores(&self) -> Seq<StoreModel> {
        Seq::new(self.shards@.len(), |i: int| self.shards@[i]@.server.store)
    }

    /// The column names of the view.
    pub fn columns(&self) -> (r: &Vec<String>)
        ensures
            r@ == self.columns@,
    {
        &self.columns
    }

    /// The local port the first shard connection is bound to.
    pub fn local_addr(&self) -> (r: u16)
        requires
            self.wf(),
        ensures
            r == self.shards@[0]@.local_port,
    {
        self.shards[0].local_addr()
    }

    /// The number of keys in the view: one size query per shard, summed.
    pub fn len(&self) -> (r: Result<usize, ()>)
        requires
            self.wf(),
            spec_stores_len(self.stores()) <= usize::MAX,
        ensures
            r matches Ok(n) && n == spec_stores_len(self.stores()),
    {
        let ghost stores = self.stores();
        let mut total: usize = 0;
        let mut i: usize = 0;
        while i < self.shards.len()
            invariant
                i <= self.shards.len(),
                stores == self.stores(),
                stores.len() == self.shards@.len(),
                spec_stores_len(stores) <= usize::MAX,
                total == spec_stores_len(stores.take(i as int)),
            decreases self.shards.len() - i,
        {
            proof {
                lemma_stores_len_take_succ(stores, i as int);
                lemma_stores_len_take_le(stores, i as int + 1);
            }
            let reply = self.shards[i].send(ReadQuery::Size { target: (self.node, i) });
            match reply {
                ReadReply::Size(n) => {
                    total = total + n;
                },
                _ => {
                    proof {
                        assert(false);
                    }
                },
            }
            i = i + 1;
        }
        proof {
            assert(stores.take(self.shards@.len() as int) =~= stores);
        }
        Ok(total)
    }
}

impl<E> RemoteGetter<E> {
    /// Look up a batch of keys, optionally blocking on keys still being
    /// materialized. A single shard answers the whole batch; across shards
    /// each key is routed to its shard, one query goes to every shard that
    /// holds keys, and the replies are concatenated in ascending shard order
    /// (not key order). If any probed shard is unavailable the whole call is,
    /// but the other shards are still queried.
    pub fn multi_lookup(&self, keys: Vec<Row>, block: bool) -> (r: Result<Vec<Datas>, ()>)
        requires
            self.wf(),
            self.shards@.len() > 1 ==> forall|k: int|
                0 <= k < keys.deep_view().len() ==> (#[trigger] keys.deep_view()[k]).len() == 1,
        ensures
            match spec_multi_lookup(self.stores(), keys.deep_view(), block) {
                Ok(v) => r matches Ok(d) && d.deep_view() == v,
                Err(_) => r is Err,
            },
    {
        let ghost kd = keys.deep_view();
        let ghost stores = self.stores();
        let n = self.shards.len();
        if n == 1 {
            let reply = self.shards[0].send(
                ReadQuery::Normal { target: (self.node, 0), keys, block },
            );
            proof {
                assert(stores[0] == self.shards@[0]@.server.store);
            }
            match reply {
                ReadReply::Normal(res) => res,
                _ => {
                    proof {
                        assert(false);
                    }
                    Err(())
                },
            }
        } else {
            let ghost buckets_m = spec_buckets(kd, n as int);
            let mut buckets: Vec<Vec<Row>> = Vec::new();
            let mut s: usize = 0;
            while s < n
                invariant
                    s <= n,
                    n == self.shards@.len(),
                    n >= 1,
                    kd == keys.deep_view(),
                    kd.len() == keys@.len(),
                    n > 1 ==> forall|k: int| 0 <= k < kd.len() ==> (#[trigger] kd[k]).len() == 1,
                    n > 1,
                    buckets@.len() == s,
                    forall|t: int|
                        0 <= t < s ==> buckets.deep_view()[t] == spec_bucket_of(kd, n as int, t),
                decreases n - s,
            {
                let mut b: Vec<Row> = Vec::new();
                let mut k: usize = 0;
                proof {
                    assert(kd.take(0) =~= Seq::<Seq<ValueModel>>::empty());
                }
                while k < keys.len()
                    invariant
                        k <= keys.len(),
                        kd == keys.deep_view(),
                        kd.len() == keys@.len(),
                        1 <= n,
                        s < n,
                        forall|kk: int| 0 <= kk < kd.len() ==> (#[trigger] kd[kk]).len() == 1,
                        b.deep_view() == spec_bucket_of(kd.take(k as int), n as int, s as int),
                    decreases keys.len() - k,
                {
                    proof {
                        assert(kd[k as int] == keys@[k as int].deep_view());
                        assert(keys@[k as int].deep_view().len() == keys@[k as int]@.len());
                        assert(kd.take(k as int + 1).drop_last() =~= kd.take(k as int));
                        assert(kd.take(k as int + 1).last() == kd[k as int]);
                    }
                    let key = &keys[k];
                    let shard = shard_of(&key[0], n);
                    proof {
                        assert(key@[0]@ == kd[k as int][0]);
                    }
                    if shard == s {
                        let ghost prev_b = b@;
                        let ghost prev_deep = b.deep_view();
                        let row = deep_clone_row(key);
                        b.push(row);
                        proof {
                            assert(b.deep_view()[prev_b.len() as int] == b@[prev_b.len() as int].deep_view());
                            assert forall|j: int| 0 <= j < prev_b.len() implies b.deep_view()[j]
                                == prev_deep[j] by {
                                assert(b@[j] == prev_b[j]);
                                assert(b.deep_view()[j] == b@[j].deep_view());
                                assert(prev_deep[j] == prev_b[j].deep_view());
                            }
                            assert(b.deep_view() =~= prev_deep.push(kd[k as int]));
                        }
                    }
                    k = k + 1;
                }
                proof {
                    assert(kd.take(kd.len() as int) =~= kd);
                }
                let ghost prev_buckets = buckets@;
                let ghost prev_bdeep = buckets.deep_view();
                buckets.push(b);
                proof {
                    assert(buckets.deep_view()[s as int] == buckets@[s as int].deep_view());
                    assert forall|t: int| 0 <= t < s as int implies buckets.deep_view()[t]
                        == spec_bucket_of(kd, n as int, t) by {
                        assert(buckets@[t] == prev_buckets[t]);
                        assert(buckets.deep_view()[t] == buckets@[t].deep_view());
                        assert(prev_bdeep[t] == prev_buckets[t].deep_view());
                        assert(prev_bdeep[t] == spec_bucket_of(kd, n as int, t));
                    }
                }
                s = s + 1;
            }
            let mut out: Vec<Datas> = Vec::new();
            let mut err = false;
            let mut i: usize = 0;
            while i < n
                invariant
                    i <= n,
                    n == self.shards@.len(),
                    n > 1,
                    self.wf(),
                    stores == self.stores(),
                    kd == keys.deep_view(),
                    buckets_m == spec_buckets(kd, n as int),
                    buckets@.len() == n,
                    forall|t: int| 0 <= t < n ==> buckets.deep_view()[t] == buckets_m[t],
                    err == (exists|j: int|
                        0 <= j < i && buckets_m[j].len() > 0 && (#[trigger] spec_normal_result(
                            stores[j],
                            buckets_m[j],
                            block,
                        )) is Err),
                    !err ==> out.deep_view() == spec_concat_normal(
                        stores,
                        buckets_m,
                        block,
                        i as int,
                    ),
                decreases n - i,
            {
                proof {
                    assert(buckets.deep_view()[i as int] == buckets@[i as int].deep_view());
                    assert(buckets@[i as int].deep_view().len() == buckets@[i as int]@.len());
                    assert(stores[i as int] == self.shards@[i as int]@.server.store);
                }
                let bucket = &buckets[i];
                if bucket.len() > 0 {
                    let cloned = deep_clone_rows(bucket);
                    let reply = self.shards[i].send(
                        ReadQuery::Normal { target: (self.node, i), keys: cloned, block },
                    );
                    match reply {
                        ReadReply::Normal(res) => {
                            match res {
                                Ok(mut rows) => {
                                    proof {
                                        assert(spec_normal_result(
                                            stores[i as int],
                                            buckets_m[i as int],
                                            block,
                                        ) == Ok::<_, ()>(rows.deep_view()));
                                    }
                                    if !err {
                                        let ghost prev = out@;
                                        let ghost prev_deep = out.deep_view();
                                        let ghost rows_v = rows@;
                                        let ghost rows_d = rows.deep_view();
                                        out.append(&mut rows);
                                        proof {
                                            assert(spec_normal_result(
                                                stores[i as int],
                                                buckets_m[i as int],
                                                block,
                                            ) == Ok::<_, ()>(rows_d));
                                            assert forall|j: int| 0 <= j < out@.len() implies out.deep_view()[j]
                                                == (prev_deep + rows_d)[j] by {
                                                assert(out.deep_view()[j] == out@[j].deep_view());
                                                if j < prev.len() {
                                                    assert(out@[j] == prev[j]);
                                                    assert(prev_deep[j] == prev[j].deep_view());
                                                } else {
                                                    assert(out@[j] == rows_v[j - prev.len()]);
                                                    assert(rows_d[j - prev.len()] == rows_v[j
                                                        - prev.len()].deep_view());
                                                }
                                            }
                                            assert(out.deep_view() =~= prev_deep + rows_d);
                                        }
                                    }
                                },
                                Err(_) => {
                                    proof {
                                        assert(spec_normal_result(
                                            stores[i as int],
                                            buckets_m[i as int],
                                            block,
                                        ) is Err);
                                    }
                                    err = true;
                                },
                            }
                        },
                        _ => {
                            proof {
                                assert(false);
                            }
                        },
                    }
                } else {
                    proof {
                        assert(spec_concat_normal(stores, buckets_m, block, i as int)
                            + Seq::<Seq<Seq<ValueModel>>>::empty() =~= spec_concat_normal(
                            stores,
                            buckets_m,
                            block,
                            i as int,
                        ));
                    }
                }
                i = i + 1;
            }
            if err {
                Err(())
            } else {
                proof {
                    assert(!spec_shard_err(stores, buckets_m, block));
                }
                Ok(out)
            }
        }
    }
}

impl<E> RemoteGetter<E> {
    /// Look up a batch of keys and obtain one consistency token per key.
    /// Fan-out and fan-in work as in a plain batch lookup, with blocking
    /// always on, except that every shard is probed (with whatever keys
    /// route to it) and any shard's failure fails the whole call.
    pub fn transactional_multi_lookup(&self, keys: Vec<Row>) -> (r: Result<
        Vec<(Datas, Token)>,
        (),
    >)
        requires
            self.wf(),
            self.shards@.len() > 1 ==> forall|k: int|
                0 <= k < keys.deep_view().len() ==> (#[trigger] keys.deep_view()[k]).len() == 1,
        ensures
            match spec_multi_txn(self.servers(), keys.deep_view()) {
                Ok(v) => r matches Ok(d) && d.deep_view() == v,
                Err(_) => r is Err,
            },
    {
        let ghost kd = keys.deep_view();
        let ghost servers = self.servers();
        let n = self.shards.len();
        if n == 1 {
            let reply = self.shards[0].send(
                ReadQuery::WithToken { target: (self.node, 0), keys },
            );
            proof {
                assert(servers[0] == self.shards@[0]@.server);
            }
            match reply {
                ReadReply::WithToken(res) => res,
                _ => {
                    proof {
                        assert(false);
                    }
                    Err(())
                },
            }
        } else {
            let ghost buckets_m = spec_buckets(kd, n as int);
            let mut buckets: Vec<Vec<Row>> = Vec::new();
            let mut s: usize = 0;
            while s < n
                invariant
                    s <= n,
                    n == self.shards@.len(),
                    n > 1,
                    kd == keys.deep_view(),
                    kd.len() == keys@.len(),
                    forall|k: int| 0 <= k < kd.len() ==> (#[trigger] kd[k]).len() == 1,
                    buckets@.len() == s,
                    forall|t: int|
                        0 <= t < s ==> buckets.deep_view()[t] == spec_bucket_of(kd, n as int, t),
                decreases n - s,
            {
                let mut b: Vec<Row> = Vec::new();
                let mut k: usize = 0;
                proof {
                    assert(kd.take(0) =~= Seq::<Seq<ValueModel>>::empty());
                }
                while k < keys.len()
                    invariant
                        k <= keys.len(),
                        kd == keys.deep_view(),
                        kd.len() == keys@.len(),
                        1 <= n,
                        s < n,
                        forall|kk: int| 0 <= kk < kd.len() ==> (#[trigger] kd[kk]).len() == 1,
                        b.deep_view() == spec_bucket_of(kd.take(k as int), n as int, s as int),
                    decreases keys.len() - k,
                {
                    proof {
                        assert(kd[k as int] == keys@[k as int].deep_view());
                        assert(keys@[k as int].deep_view().len() == keys@[k as int]@.len());
                        assert(kd.take(k as int + 1).drop_last() =~= kd.take(k as int));
                        assert(kd.take(k as int + 1).last() == kd[k as int]);
                    }
                    let key = &keys[k];
                    let shard = shard_of(&key[0], n);
                    proof {
                        assert(key@[0]@ == kd[k as int][0]);
                    }
                    if shard == s {
                        let ghost prev_b = b@;
                        let ghost prev_deep = b.deep_view();
                        let row = deep_clone_row(key);
                        b.push(row);
                        proof {
                            assert(b.deep_view()[prev_b.len() as int] == b@[prev_b.len() as int].deep_view());
                            assert forall|j: int| 0 <= j < prev_b.len() implies b.deep_view()[j]
                                == prev_deep[j] by {
                                assert(b@[j] == prev_b[j]);
                                assert(b.deep_view()[j] == b@[j].deep_view());
                                assert(prev_deep[j] == prev_b[j].deep_view());
                            }
                            assert(b.deep_view() =~= prev_deep.push(kd[k as int]));
                        }
                    }
                    k = k + 1;
                }
                proof {
                    assert(kd.take(kd.len() as int) =~= kd);
                }
                let ghost prev_buckets = buckets@;
                let ghost prev_bdeep = buckets.deep_view();
                buckets.push(b);
                proof {
                    assert(buckets.deep_view()[s as int] == buckets@[s as int].deep_view());
                    assert forall|t: int| 0 <= t < s as int implies buckets.deep_view()[t]
                        == spec_bucket_of(kd, n as int, t) by {
                        assert(buckets@[t] == prev_buckets[t]);
                        assert(buckets.deep_view()[t] == buckets@[t].deep_view());
                        assert(prev_bdeep[t] == prev_buckets[t].deep_view());
                        assert(prev_bdeep[t] == spec_bucket_of(kd, n as int, t));
                    }
                }
                s = s + 1;
            }
            let mut out: Vec<(Datas, Token)> = Vec::new();
            let mut err = false;
            let mut i: usize = 0;
            while i < n
                invariant
                    i <= n,
                    n == self.shards@.len(),
                    n > 1,
                    self.wf(),
                    servers == self.servers(),
                    kd == keys.deep_view(),
                    buckets_m == spec_buckets(kd, n as int),
                    buckets@.len() == n,
                    forall|t: int| 0 <= t < n ==> buckets.deep_view()[t] == buckets_m[t],
                    err == (exists|j: int|
                        0 <= j < i && (#[trigger] spec_token_result(
                            servers[j],
                            buckets_m[j],
                        )) is Err),
                    !err ==> out.deep_view() == spec_concat_token(servers, buckets_m, i as int),
                decreases n - i,
            {
                proof {
                    assert(buckets.deep_view()[i as int] == buckets@[i as int].deep_view());
                    assert(servers[i as int] == self.shards@[i as int]@.server);
                }
                let bucket = &buckets[i];
                let cloned = deep_clone_rows(bucket);
                let reply = self.shards[i].send(
                    ReadQuery::WithToken { target: (self.node, i), keys: cloned },
                );
                match reply {
                    ReadReply::WithToken(res) => {
                        match res {
                            Ok(mut rows) => {
                                proof {
                                    assert(spec_token_result(servers[i as int], buckets_m[i as int])
                                        == Ok::<_, ()>(rows.deep_view()));
                                }
                                if !err {
                                    let ghost prev = out@;
                                    let ghost prev_deep = out.deep_view();
                                    let ghost rows_v = rows@;
                                    let ghost rows_d = rows.deep_view();
                                    out.append(&mut rows);
                                    proof {
                                        assert forall|j: int| 0 <= j < out@.len() implies out.deep_view()[j]
                                            == (prev_deep + rows_d)[j] by {
                                            assert(out.deep_view()[j] == out@[j].deep_view());
                                            if j < prev.len() {
                                                assert(out@[j] == prev[j]);
                                                assert(prev_deep[j] == prev[j].deep_view());
                                            } else {
                                                assert(out@[j] == rows_v[j - prev.len()]);
                                                assert(rows_d[j - prev.len()] == rows_v[j
                                                    - prev.len()].deep_view());
                                            }
                                        }
                                        assert(out.deep_view() =~= prev_deep + rows_d);
                                    }
                                }
                            },
                            Err(_) => {
                                proof {
                                    assert(spec_token_result(
                                        servers[i as int],
                                        buckets_m[i as int],
                                    ) is Err);
                                }
                                err = true;
                            },
                        }
                    },
                    _ => {
                        proof {
                            assert(false);
                        }
                    },
                }
                i = i + 1;
            }
            if err {
                Err(())
            } else {
                proof {
                    assert(!spec_token_err(servers, buckets_m));
                }
                Ok(out)
            }
        }
    }
}

/// With a single key, its shard's bucket holds exactly that key and every
/// other bucket is empty.
proof fn lemma_buckets_single(key: Seq<ValueModel>, n: int)
    requires
        n >= 1,
    ensures
        forall|s: int|
            0 <= s < n ==> (#[trigger] spec_bucket_of(seq![key], n, s)) == if s == spec_shard_of(
                key[0],
                n,
            ) {
                seq![key]
            } else {
                Seq::<Seq<ValueModel>>::empty()
            },
{
    let keys = seq![key];
    assert(keys.drop_last() =~= Seq::<Seq<ValueModel>>::empty());
    assert(keys.last() == key);
    assert forall|s: int| 0 <= s < n implies (#[trigger] spec_bucket_of(seq![key], n, s))
        == if s == spec_shard_of(key[0], n) {
        seq![key]
    } else {
        Seq::<Seq<ValueModel>>::empty()
    } by {
        assert(spec_bucket_of(Seq::<Seq<ValueModel>>::empty(), n, s)
            == Seq::<Seq<ValueModel>>::empty());
        if s == spec_shard_of(key[0], n) {
            assert(spec_bucket_of(keys, n, s) =~= seq![key]);
        } else {
            assert(spec_bucket_of(keys, n, s) =~= Seq::<Seq<ValueModel>>::empty());
        }
    }
}

proof fn lemma_concat_single_normal(
    stores: Seq<StoreModel>,
    buckets: Seq<Seq<Seq<ValueModel>>>,
    block: bool,
    i: int,
    s0: int,
)
    requires
        0 <= s0 < stores.len(),
        buckets.len() == stores.len(),
        0 <= i <= stores.len(),
        forall|t: int| 0 <= t < stores.len() && t != s0 ==> (#[trigger] buckets[t]).len() == 0,
        buckets[s0].len() == 1,
        !spec_shard_err(stores, buckets, block),
    ensures
        spec_concat_normal(stores, buckets, block, i) == if i > s0 {
            spec_normal_result(stores[s0], buckets[s0], block)->Ok_0
        } else {
            Seq::<Seq<Seq<ValueModel>>>::empty()
        },
        i > s0 ==> spec_concat_normal(stores, buckets, block, i).len() == 1,
    decreases i,
{
    assert(spec_normal_result(stores[s0], buckets[s0], block) is Ok);
    let payload = spec_normal_result(stores[s0], buckets[s0], block)->Ok_0;
    assert(payload.len() == 1);
    if i > 0 {
        lemma_concat_single_normal(stores, buckets, block, i - 1, s0);
        let prefix = spec_concat_normal(stores, buckets, block, i - 1);
        if i - 1 == s0 {
            assert(prefix + payload =~= payload);
        } else if i - 1 < s0 {
            assert(prefix + Seq::<Seq<Seq<ValueModel>>>::empty() =~= prefix);
        } else {
            assert(prefix + Seq::<Seq<Seq<ValueModel>>>::empty() =~= prefix);
        }
    }
}

proof fn lemma_concat_single_token(
    servers: Seq<ServerModel>,
    buckets: Seq<Seq<Seq<ValueModel>>>,
    i: int,
    s0: int,
)
    requires
        0 <= s0 < servers.len(),
        buckets.len() == servers.len(),
        0 <= i <= servers.len(),
        forall|t: int| 0 <= t < servers.len() && t != s0 ==> (#[trigger] buckets[t]).len() == 0,
        buckets[s0].len() == 1,
        !spec_token_err(servers, buckets),
    ensures
        spec_concat_token(servers, buckets, i).len() == if i > s0 {
            1int
        } else {
            0int
        },
        i > s0 ==> spec_concat_token(servers, buckets, i)[0] == spec_token_result(
            servers[s0],
            buckets[s0],
        )->Ok_0[0],
    decreases i,
{
    assert(spec_token_result(servers[s0], buckets[s0]) is Ok);
    if i > 0 {
        lemma_concat_single_token(servers, buckets, i - 1, s0);
        assert(spec_token_result(servers[i - 1], buckets[i - 1]) is Ok);
        let part = spec_token_result(servers[i - 1], buckets[i - 1])->Ok_0;
        assert(part.len() == buckets[i - 1].len());
    }
}

/// A lookup of one key yields exactly one row group on success.
proof fn lemma_single_lookup_len(stores: Seq<StoreModel>, key: Seq<ValueModel>, block: bool)
    requires
        stores.len() >= 1,
    ensures
        match spec_multi_lookup(stores, seq![key], block) {
            Ok(v) => v.len() == 1,
            Err(_) => true,
        },
{
    if stores.len() == 1 {
    } else {
        let n = stores.len() as int;
        let buckets = spec_buckets(seq![key], n);
        lemma_buckets_single(key, n);
        if !spec_shard_err(stores, buckets, block) {
            let s0 = spec_shard_of(key[0], n);
            lemma_concat_single_normal(stores, buckets, block, n, s0);
        }
    }
}

/// A tokened lookup of one key yields exactly one (rows, token) pair on
/// success.
proof fn lemma_single_txn_len(servers: Seq<ServerModel>, key: Seq<ValueModel>)
    requires
        servers.len() >= 1,
    ensures
        match spec_multi_txn(servers, seq![key]) {
            Ok(v) => v.len() == 1,
            Err(_) => true,
        },
{
    if servers.len() == 1 {
    } else {
        let n = servers.len() as int;
        let buckets = spec_buckets(seq![key], n);
        lemma_buckets_single(key, n);
        if !spec_token_err(servers, buckets) {
            let s0 = spec_shard_of(key[0], n);
            lemma_concat_single_token(servers, buckets, n, s0);
        }
    }
}

impl<E> RemoteGetter<E> {
    /// Look up a single key: the batch lookup of just that key, with the one
    /// resulting row group extracted.
    pub fn lookup(&self, key: &Row, block: bool) -> (r: Result<Datas, ()>)
        requires
            self.wf(),
            self.shards@.len() > 1 ==> key.deep_view().len() == 1,
        ensures
            match spec_multi_lookup(self.stores(), seq![key.deep_view()], block) {
                Ok(v) => v.len() == 1 && (r matches Ok(d) && d.deep_view() == v[0]),
                Err(_) => r is Err,
            },
    {
        let mut keys: Vec<Row> = Vec::new();
        keys.push(deep_clone_row(key));
        proof {
            assert(keys.deep_view()[0] == keys@[0].deep_view());
            assert(keys.deep_view() =~= seq![key.deep_view()]);
            lemma_single_lookup_len(self.stores(), key.deep_view(), block);
        }
        match self.multi_lookup(keys, block) {
            Ok(mut v) => {
                let ghost vd = v.deep_view();
                proof {
                    assert(vd.len() == v@.len());
                    assert(vd[0] == v@[0].deep_view());
                }
                match v.pop() {
                    Some(d) => Ok(d),
                    None => {
                        proof {
                            assert(false);
                        }
                        Err(())
                    },
                }
            },
            Err(_) => Err(()),
        }
    }

    /// Transactionally look up a single key: the tokened batch lookup of just
    /// that key, with the one resulting pair extracted.
    pub fn transactional_lookup(&self, key: &Row) -> (r: Result<(Datas, Token), ()>)
        requires
            self.wf(),
            self.shards@.len() > 1 ==> key.deep_view().len() == 1,
        ensures
            match spec_multi_txn(self.servers(), seq![key.deep_view()]) {
                Ok(v) => v.len() == 1 && (r matches Ok(p) && p.0.deep_view() == v[0].0 && p.1@
                    == v[0].1),
                Err(_) => r is Err,
            },
    {
        let mut keys: Vec<Row> = Vec::new();
        keys.push(deep_clone_row(key));
        proof {
            assert(keys.deep_view()[0] == keys@[0].deep_view());
            assert(keys.deep_view() =~= seq![key.deep_view()]);
            lemma_single_txn_len(self.servers(), key.deep_view());
        }
        match self.transactional_multi_lookup(keys) {
            Ok(mut v) => {
                let ghost vd = v.deep_view();
                proof {
                    assert(vd.len() == v@.len());
                    assert(vd[0] == v@[0].deep_view());
                    assert(v@[0].deep_view() == (v@[0].0.deep_view(), v@[0].1.deep_view()));
                }
                match v.pop() {
                    Some(d) => {
                        proof {
                            assert(d.deep_view() == (d.0.deep_view(), d.1.deep_view()));
                        }
                        Ok(d)
                    },
                    None => {
                        proof {
                            assert(false);
                        }
                        Err(())
                    },
                }
            },
            Err(_) => Err(()),
        }
    }
}

fn clone_columns(cols: &Vec<String>) -> (r: Vec<String>)
    ensures
        r@ == cols@,
{
    let mut out: Vec<String> = Vec::new();
    let mut i: usize = 0;
    while i < cols.len()
        invariant
            i <= cols.len(),
            out@ == cols@.take(i as int),
        decreases cols.len() - i,
    {
        out.push(cols[i].clone());
        proof {
            assert(out@ =~= cols@.take(i as int + 1));
        }
        i = i + 1;
    }
    proof {
        assert(cols@.take(cols@.len() as int) =~= cols@);
    }
    out
}

fn clone_addrs(addrs: &Vec<(u64, bool)>) -> (r: Vec<(u64, bool)>)
    ensures
        r@ == addrs@,
{
    let mut out: Vec<(u64, bool)> = Vec::new();
    let mut i: usize = 0;
    while i < addrs.len()
        invariant
            i <= addrs.len(),
            out@ == addrs@.take(i as int),
        decreases addrs.len() - i,
    {
        out.push(addrs[i]);
        proof {
            assert(out@ =~= addrs@.take(i as int + 1));
        }
        i = i + 1;
    }
    proof {
        assert(addrs@.take(addrs@.len() as int) =~= addrs@);
    }
    out
}

/// The pool of connections shared among clients, keyed by remote address.
pub struct ConnCache {
    pub conns: Vec<Connection>,
}

impl View for ConnCache {
    type V = Seq<ConnModel>;

    open spec fn view(&self) -> Seq<ConnModel> {
        self.conns.deep_view()
    }
}

/// The pooled connection for `addr`, if any: first match wins.
pub open spec fn spec_cache_lookup(cache: Seq<ConnModel>, addr: u64) -> Option<ConnModel>
    decreases cache.len(),
{
    if cache.len() == 0 {
        None
    } else if cache[0].addr == addr {
        Some(cache[0])
    } else {
        spec_cache_lookup(cache.drop_first(), addr)
    }
}

/// Where a pooled build takes the connection for `addr` from: the cache when
/// it holds one, else a fresh connection to the endpoint.
pub open spec fn spec_conn_source(
    cache: Seq<ConnModel>,
    net: Seq<EndpointModel>,
    addr: u64,
) -> Option<ServerModel> {
    match spec_cache_lookup(cache, addr) {
        Some(c) => Some(c.server),
        None => spec_endpoint_lookup(net, addr),
    }
}

proof fn lemma_cache_lookup_append(a: Seq<ConnModel>, b: Seq<ConnModel>, addr: u64)
    ensures
        spec_cache_lookup(a + b, addr) == match spec_cache_lookup(a, addr) {
            Some(c) => Some(c),
            None => spec_cache_lookup(b, addr),
        },
    decreases a.len(),
{
    if a.len() == 0 {
        assert(a + b =~= b);
    } else {
        assert((a + b)[0] == a[0]);
        assert((a + b).len() > 0);
        if a[0].addr == addr {
        } else {
            assert((a + b).drop_first() =~= a.drop_first() + b);
            lemma_cache_lookup_append(a.drop_first(), b, addr);
        }
    }
}

proof fn lemma_cache_lookup_addr(cache: Seq<ConnModel>, addr: u64)
    ensures
        spec_cache_lookup(cache, addr) matches Some(c) ==> c.addr == addr,
    decreases cache.len(),
{
    if cache.len() > 0 && cache[0].addr != addr {
        lemma_cache_lookup_addr(cache.drop_first(), addr);
    }
}

proof fn lemma_cache_lookup_member(cache: Seq<ConnModel>, addr: u64)
    ensures
        spec_cache_lookup(cache, addr) matches Some(c) ==> exists|j: int|
            0 <= j < cache.len() && cache[j] == c,
    decreases cache.len(),
{
    if cache.len() > 0 {
        if cache[0].addr == addr {
            assert(cache[0] == spec_cache_lookup(cache, addr)->Some_0);
        } else {
            lemma_cache_lookup_member(cache.drop_first(), addr);
            if spec_cache_lookup(cache, addr) is Some {
                let c = spec_cache_lookup(cache, addr)->Some_0;
                let j = choose|j: int|
                    0 <= j < cache.drop_first().len() && cache.drop_first()[j] == c;
                assert(cache[j + 1] == c);
            }
        }
    }
}

proof fn lemma_cache_lookup_absent(cache: Seq<ConnModel>, addr: u64)
    requires
        forall|j: int| 0 <= j < cache.len() ==> (#[trigger] cache[j]).addr != addr,
    ensures
        spec_cache_lookup(cache, addr) is None,
    decreases cache.len(),
{
    if cache.len() > 0 {
        assert forall|j: int| 0 <= j < cache.drop_first().len() implies (#[trigger] cache.drop_first()[j]).addr != addr by {
            assert(cache.drop_first()[j] == cache[j + 1]);
        }
        lemma_cache_lookup_absent(cache.drop_first(), addr);
    }
}

proof fn lemma_cache_lookup_skip(cache: Seq<ConnModel>, addr: u64, i: int)
    requires
        0 <= i <= cache.len(),
        forall|j: int| 0 <= j < i ==> cache[j].addr != addr,
    ensures
        spec_cache_lookup(cache, addr) == spec_cache_lookup(cache.skip(i), addr),
    decreases i,
{
    if i > 0 {
        assert(cache.skip(i - 1).drop_first() =~= cache.skip(i));
        lemma_cache_lookup_skip(cache, addr, i - 1);
    } else {
        assert(cache.skip(0) =~= cache);
    }
}

impl ConnCache {
    /// An empty pool.
    pub fn new() -> (r: ConnCache)
        ensures
            r@ == Seq::<ConnModel>::empty(),
    {
        let r = ConnCache { conns: Vec::new() };
        proof {
            assert(r@ =~= Seq::<ConnModel>::empty());
        }
        r
    }

    /// The pooled connection for `addr`, if any.
    pub fn lookup_conn(&self, addr: u64) -> (r: Option<&Connection>)
        ensures
            match r {
                Some(c) => spec_cache_lookup(self@, addr) == Some(c@),
                None => spec_cache_lookup(self@, addr) is None,
            },
    {
        let mut i: usize = 0;
        while i < self.conns.len()
            invariant
                i <= self.conns.len(),
                self@.len() == self.conns@.len(),
                forall|j: int| 0 <= j < i ==> self@[j].addr != addr,
            decreases self.conns.len() - i,
        {
            proof {
                assert(self@[i as int] == self.conns@[i as int]@);
            }
            if self.conns[i].addr == addr {
                proof {
                    lemma_cache_lookup_skip(self@, addr, i as int);
                    assert(self@.skip(i as int)[0] == self@[i as int]);
                }
                return Some(&self.conns[i]);
            }
            i = i + 1;
        }
        proof {
            lemma_cache_lookup_skip(self@, addr, i as int);
        }
        None
    }

    /// Pool a connection.
    pub fn insert(&mut self, conn: Connection)
        ensures
            final(self)@ == old(self)@.push(conn@),
    {
        let ghost prev = self.conns@;
        let ghost prev_deep = self@;
        let ghost cm = conn@;
        self.conns.push(conn);
        proof {
            assert forall|j: int| 0 <= j < self.conns@.len() implies self@[j] == prev_deep.push(
                cm,
            )[j] by {
                if j < prev.len() {
                    assert(self.conns@[j] == prev[j]);
                    assert(self@[j] == self.conns@[j]@);
                    assert(prev_deep[j] == prev[j]@);
                } else {
                    assert(self@[j] == self.conns@[j]@);
                }
            }
            assert(self@ =~= prev_deep.push(cm));
        }
    }
}

/// The portable description a remote client is built from: the view, its
/// column names, one (address, is-local) pair per shard, and optionally a
/// preferred local port for fresh connections.
#[derive(Debug)]
pub struct RemoteGetterBuilder {
    pub node: u64,
    pub columns: Vec<String>,
    pub shards: Vec<(u64, bool)>,
    pub local_port: Option<u16>,
}

impl RemoteGetterBuilder {
    /// Prefer `port` as the local port when making fresh connections.
    pub fn with_local_port(self, port: u16) -> (r: RemoteGetterBuilder)
        ensures
            r.node == self.node,
            r.columns == self.columns,
            r.shards == self.shards,
            r.local_port == Some(port),
    {
        RemoteGetterBuilder { local_port: Some(port), ..self }
    }

    /// Build a client with one fresh, dedicated connection per shard
    /// address. Fails iff some shard address has no reachable endpoint; no
    /// partial client is returned.
    pub fn build_exclusive(self, net: &Endpoints) -> (r: Result<
        RemoteGetter<ExclusiveConnection>,
        (),
    >)
        requires
            self.shards@.len() >= 1,
        ensures
            match r {
                Ok(g) => {
                    &&& g.wf()
                    &&& g.node == self.node
                    &&& g.columns@ == self.columns@
                    &&& g.shard_addrs@ == self.shards@
                    &&& forall|i: int|
                        0 <= i < self.shards@.len() ==> {
                            &&& (#[trigger] g.shards@[i])@.addr == self.shards@[i].0
                            &&& g.shards@[i]@.is_local == self.shards@[i].1
                            &&& Some(g.shards@[i]@.server) == spec_endpoint_lookup(
                                net@,
                                self.shards@[i].0,
                            )
                        }
                },
                Err(_) => exists|i: int|
                    0 <= i < self.shards@.len() && (#[trigger] spec_endpoint_lookup(
                        net@,
                        self.shards@[i].0,
                    )) is None,
            },
    {
        let mut conns: Vec<Connection> = Vec::new();
        let mut i: usize = 0;
        while i < self.shards.len()
            invariant
                i <= self.shards.len(),
                conns@.len() == i,
                forall|t: int|
                    0 <= t < i ==> {
                        &&& (#[trigger] conns@[t])@.addr == self.shards@[t].0
                        &&& conns@[t]@.is_local == self.shards@[t].1
                        &&& Some(conns@[t]@.server) == spec_endpoint_lookup(
                            net@,
                            self.shards@[t].0,
                        )
                    },
            decreases self.shards.len() - i,
        {
            let (addr, is_local) = self.shards[i];
            match Connection::connect(addr, is_local, net) {
                Ok(c) => {
                    conns.push(c);
                },
                Err(_) => {
                    return Err(());
                },
            }
            i = i + 1;
        }
        Ok(
            RemoteGetter {
                node: self.node,
                columns: self.columns,
                shards: conns,
                shard_addrs: self.shards,
                exclusivity: ExclusiveConnection,
            },
        )
    }

    /// Build a client with pooled, shared connections: each shard address
    /// reuses the cached connection when the cache holds one, else a fresh
    /// connection is opened and inserted into the cache under that address;
    /// fresh connections bind the preferred local port when one is set, and
    /// the first fresh bind is recorded so every later fresh connection
    /// reuses the same port.
    pub fn build(self, rpcs: &mut ConnCache, net: &Endpoints) -> (r: Result<
        RemoteGetter<SharedConnection>,
        (),
    >)
        requires
            self.shards@.len() >= 1,
        ensures
            match r {
                Ok(g) => {
                    &&& g.wf()
                    &&& g.node == self.node
                    &&& g.columns@ == self.columns@
                    &&& g.shard_addrs@ == self.shards@
                    &&& forall|i: int|
                        0 <= i < self.shards@.len() ==> {
                            &&& (#[trigger] g.shards@[i])@.addr == self.shards@[i].0
                            &&& Some(g.shards@[i]@.server) == spec_conn_source(
                                old(rpcs)@,
                                net@,
                                self.shards@[i].0,
                            )
                            &&& match spec_cache_lookup(final(rpcs)@, self.shards@[i].0) {
                                Some(c) => c.server == g.shards@[i]@.server,
                                None => false,
                            }
                            &&& spec_cache_lookup(old(rpcs)@, self.shards@[i].0) is None
                                ==> g.shards@[i]@.local_port == spec_build_port(self.local_port)
                            &&& (spec_cache_lookup(old(rpcs)@, self.shards@[i].0) is None
                                && (forall|t: int|
                                0 <= t < i ==> (#[trigger] self.shards@[t]).0
                                    != self.shards@[i].0)) ==> g.shards@[i]@.is_local
                                == self.shards@[i].1
                        }
                },
                Err(_) => exists|i: int|
                    0 <= i < self.shards@.len() && (#[trigger] spec_conn_source(
                        old(rpcs)@,
                        net@,
                        self.shards@[i].0,
                    )) is None,
            },
            old(rpcs)@.len() <= final(rpcs)@.len(),
            final(rpcs)@.take(old(rpcs)@.len() as int) == old(rpcs)@,
            forall|j: int|
                old(rpcs)@.len() <= j < final(rpcs)@.len() ==> {
                    &&& Some((#[trigger] final(rpcs)@[j]).server) == spec_endpoint_lookup(
                        net@,
                        final(rpcs)@[j].addr,
                    )
                    &&& spec_cache_lookup(old(rpcs)@, final(rpcs)@[j].addr) is None
                    &&& exists|i: int|
                        0 <= i < self.shards@.len() && final(rpcs)@[j].addr == (
                        #[trigger] self.shards@[i]).0
                    &&& final(rpcs)@[j].local_port == spec_build_port(self.local_port)
                },
    {
        let ghost old_cache = rpcs@;
        let mut sport: Option<u16> = self.local_port;
        let mut conns: Vec<Connection> = Vec::new();
        let mut i: usize = 0;
        while i < self.shards.len()
            invariant
                i <= self.shards.len(),
                conns@.len() == i,
                old_cache == old(rpcs)@,
                old_cache.len() <= rpcs@.len(),
                rpcs@.take(old_cache.len() as int) == old_cache,
                sport == self.local_port || (self.local_port is None && sport == Some(
                    EPHEMERAL_PORT,
                )),
                forall|j: int|
                    old_cache.len() <= j < rpcs@.len() ==> {
                        &&& Some((#[trigger] rpcs@[j]).server) == spec_endpoint_lookup(
                            net@,
                            rpcs@[j].addr,
                        )
                        &&& spec_cache_lookup(old_cache, rpcs@[j].addr) is None
                        &&& exists|i2: int|
                            0 <= i2 < i && rpcs@[j].addr == (#[trigger] self.shards@[i2]).0
                        &&& rpcs@[j].local_port == spec_build_port(self.local_port)
                    },
                forall|t: int|
                    0 <= t < i ==> {
                        &&& (#[trigger] conns@[t])@.addr == self.shards@[t].0
                        &&& Some(conns@[t]@.server) == spec_conn_source(
                            old_cache,
                            net@,
                            self.shards@[t].0,
                        )
                        &&& match spec_cache_lookup(rpcs@, self.shards@[t].0) {
                            Some(c) => c.server == conns@[t]@.server,
                            None => false,
                        }
                        &&& spec_cache_lookup(old_cache, self.shards@[t].0) is None
                            ==> conns@[t]@.local_port == spec_build_port(self.local_port)
                        &&& (spec_cache_lookup(old_cache, self.shards@[t].0) is None && (
                        forall|t2: int|
                            0 <= t2 < t ==> (#[trigger] self.shards@[t2]).0
                                != self.shards@[t].0)) ==> conns@[t]@.is_local
                            == self.shards@[t].1
                    },
            decreases self.shards.len() - i,
        {
            let (addr, is_local) = self.shards[i];
            let ghost ext = rpcs@.skip(old_cache.len() as int);
            proof {
                assert(rpcs@ =~= rpcs@.take(old_cache.len() as int) + ext);
                lemma_cache_lookup_append(old_cache, ext, addr);
                lemma_cache_lookup_addr(rpcs@, addr);
                lemma_cache_lookup_addr(ext, addr);
            }
            let cached = rpcs.lookup_conn(addr);
            match cached {
                Some(c) => {
                    proof {
                        if spec_cache_lookup(old_cache, addr) is None {
                            lemma_cache_lookup_member(ext, addr);
                            let j = choose|j: int| 0 <= j < ext.len() && ext[j] == c@;
                            assert(rpcs@[old_cache.len() + j] == ext[j]);
                            assert(Some(c@.server) == spec_endpoint_lookup(net@, c@.addr));
                            assert(c@.local_port == spec_build_port(self.local_port));
                        }
                        assert(Some(c@.server) == spec_conn_source(old_cache, net@, addr));
                        // a first occurrence of the address cannot hit the cache and
                        // miss the old one: every appended entry serves an earlier
                        // shard address
                        assert(!(spec_cache_lookup(old_cache, addr) is None && (forall|t2: int|
                            0 <= t2 < i as int ==> (#[trigger] self.shards@[t2]).0 != addr)))
                            by {
                            if spec_cache_lookup(old_cache, addr) is None && (forall|t2: int|
                                0 <= t2 < i as int ==> (#[trigger] self.shards@[t2]).0
                                    != addr) {
                                assert forall|j: int| 0 <= j < ext.len() implies (
                                #[trigger] ext[j]).addr != addr by {
                                    assert(rpcs@[old_cache.len() + j] == ext[j]);
                                    let i2 = choose|i2: int|
                                        0 <= i2 < i && rpcs@[old_cache.len() + j].addr == (
                                        #[trigger] self.shards@[i2]).0;
                                    assert(self.shards@[i2].0 != addr);
                                }
                                lemma_cache_lookup_absent(ext, addr);
                                assert(false);
                            }
                        }
                    }
                    let copy = c.clone_conn();
                    let ghost prev_conns = conns@;
                    conns.push(copy);
                    proof {
                        assert forall|t: int| 0 <= t < i as int + 1 implies {
                            &&& (#[trigger] conns@[t])@.addr == self.shards@[t].0
                            &&& Some(conns@[t]@.server) == spec_conn_source(
                                old_cache,
                                net@,
                                self.shards@[t].0,
                            )
                            &&& match spec_cache_lookup(rpcs@, self.shards@[t].0) {
                                Some(cc) => cc.server == conns@[t]@.server,
                                None => false,
                            }
                            &&& spec_cache_lookup(old_cache, self.shards@[t].0) is None
                                ==> conns@[t]@.local_port == spec_build_port(self.local_port)
                            &&& (spec_cache_lookup(old_cache, self.shards@[t].0) is None && (
                            forall|t2: int|
                                0 <= t2 < t ==> (#[trigger] self.shards@[t2]).0
                                    != self.shards@[t].0)) ==> conns@[t]@.is_local
                                == self.shards@[t].1
                        } by {
                            if t < i as int {
                                assert(conns@[t] == prev_conns[t]);
                            } else {
                                assert(conns@[t] == copy);
                            }
                        }
                    }
                },
                None => {
                    match Connection::connect_from(sport, addr, is_local, net) {
                        Ok(c) => {
                            proof {
                                assert(c@.local_port == spec_build_port(self.local_port));
                            }
                            if sport.is_none() {
                                sport = Some(c.local_addr());
                            }
                            let ghost prev_cache = rpcs@;
                            let fresh = c.clone_conn();
                            let ghost cm = c@;
                            rpcs.insert(fresh);
                            proof {
                                assert(rpcs@ == prev_cache.push(cm));
                                assert(rpcs@.take(old_cache.len() as int) =~= prev_cache.take(
                                    old_cache.len() as int,
                                ));
                                assert(prev_cache + seq![cm] =~= rpcs@);
                            }
                            let ghost prev_conns = conns@;
                            conns.push(c);
                            proof {
                                assert(spec_cache_lookup(seq![cm], addr) == Some(cm));
                                assert(cm.addr == (self.shards@[i as int]).0);
                                assert(rpcs@[prev_cache.len() as int] == cm);
                                assert forall|t: int| 0 <= t < i as int + 1 implies {
                                    &&& (#[trigger] conns@[t])@.addr == self.shards@[t].0
                                    &&& Some(conns@[t]@.server) == spec_conn_source(
                                        old_cache,
                                        net@,
                                        self.shards@[t].0,
                                    )
                                    &&& match spec_cache_lookup(rpcs@, self.shards@[t].0) {
                                        Some(cc) => cc.server == conns@[t]@.server,
                                        None => false,
                                    }
                                    &&& spec_cache_lookup(old_cache, self.shards@[t].0) is None
                                        ==> conns@[t]@.local_port == spec_build_port(
                                        self.local_port,
                                    )
                                    &&& (spec_cache_lookup(old_cache, self.shards@[t].0)
                                        is None && (forall|t2: int|
                                        0 <= t2 < t ==> (#[trigger] self.shards@[t2]).0
                                            != self.shards@[t].0)) ==> conns@[t]@.is_local
                                        == self.shards@[t].1
                                } by {
                                    lemma_cache_lookup_append(
                                        prev_cache,
                                        seq![cm],
                                        self.shards@[t].0,
                                    );
                                    if t < i as int {
                                        assert(conns@[t] == prev_conns[t]);
                                    } else {
                                        assert(conns@[t]@ == cm);
                                    }
                                }
                            }
                        },
                        Err(_) => {
                            proof {
                                let jj: int = i as int;
                                assert(spec_conn_source(
                                    old(rpcs)@,
                                    net@,
                                    self.shards@[jj].0,
                                ) is None);
                            }
                            return Err(());
                        },
                    }
                },
            }
            i = i + 1;
        }
        Ok(
            RemoteGetter {
                node: self.node,
                columns: self.columns,
                shards: conns,
                shard_addrs: self.shards,
                exclusivity: SharedConnection,
            },
        )
    }
}

impl RemoteGetter<SharedConnection> {
    /// Give this client dedicated connections so it can move across
    /// concurrent contexts: every pooled connection is replaced by a fresh
    /// one to the same endpoint, bound to a transport-chosen local port.
    pub fn into_exclusive(self) -> (r: RemoteGetter<ExclusiveConnection>)
        ensures
            r.node == self.node,
            r.columns@ == self.columns@,
            r.shard_addrs@ == self.shard_addrs@,
            r.shards@.len() == self.shards@.len(),
            forall|i: int|
                0 <= i < self.shards@.len() ==> {
                    &&& (#[trigger] r.shards@[i])@.addr == self.shards@[i]@.addr
                    &&& r.shards@[i]@.is_local == self.shards@[i]@.is_local
                    &&& r.shards@[i]@.server == self.shards@[i]@.server
                    &&& r.shards@[i]@.local_port == EPHEMERAL_PORT
                },
    {
        let mut conns: Vec<Connection> = Vec::new();
        let mut i: usize = 0;
        while i < self.shards.len()
            invariant
                i <= self.shards.len(),
                conns@.len() == i,
                forall|j: int|
                    0 <= j < i ==> {
                        &&& (#[trigger] conns@[j])@.addr == self.shards@[j]@.addr
                        &&& conns@[j]@.is_local == self.shards@[j]@.is_local
                        &&& conns@[j]@.server == self.shards@[j]@.server
                        &&& conns@[j]@.local_port == EPHEMERAL_PORT
                    },
            decreases self.shards.len() - i,
        {
            let c = &self.shards[i];
            let fresh = Connection {
                addr: c.addr,
                local_port: EPHEMERAL_PORT,
                is_local: c.is_local,
                server: c.server.clone_server(),
            };
            let ghost prev = conns@;
            conns.push(fresh);
            proof {
                assert forall|j: int| 0 <= j < i as int implies (#[trigger] conns@[j])
                    == prev[j] by {}
            }
            i = i + 1;
        }
        RemoteGetter {
            node: self.node,
            columns: self.columns,
            shards: conns,
            shard_addrs: self.shard_addrs,
            exclusivity: ExclusiveConnection,
        }
    }
}

impl Clone for RemoteGetter<SharedConnection> {
    /// A duplicate client over the same shard connections.
    fn clone(&self) -> (r: Self)
        ensures
            r.node == self.node,
            r.columns@ == self.columns@,
            r.shard_addrs@ == self.shard_addrs@,
            r.shards.deep_view() == self.shards.deep_view(),
    {
        let mut conns: Vec<Connection> = Vec::new();
        let mut i: usize = 0;
        while i < self.shards.len()
            invariant
                i <= self.shards.len(),
                conns@.len() == i,
                forall|j: int|
                    0 <= j < i ==> (#[trigger] conns.deep_view()[j]) == self.shards.deep_view()[j],
            decreases self.shards.len() - i,
        {
            let ghost prev = conns@;
            let ghost prev_deep = conns.deep_view();
            let c = self.shards[i].clone_conn();
            conns.push(c);
            proof {
                assert(conns.deep_view()[i as int] == conns@[i as int]@);
                assert(self.shards.deep_view()[i as int] == self.shards@[i as int]@);
                assert forall|j: int| 0 <= j < i as int implies conns.deep_view()[j]
                    == self.shards.deep_view()[j] by {
                    assert(conns@[j] == prev[j]);
                    assert(conns.deep_view()[j] == conns@[j]@);
                    assert(prev_deep[j] == prev[j]@);
                }
            }
            i = i + 1;
        }
        let r = RemoteGetter {
            node: self.node,
            columns: clone_columns(&self.columns),
            shards: conns,
            shard_addrs: clone_addrs(&self.shard_addrs),
            exclusivity: SharedConnection,
        };
        proof {
            assert(r.shards.deep_view() =~= self.shards.deep_view());
        }
        r
    }
}

} // verus!
