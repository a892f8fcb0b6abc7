//! Request and reply messages, and consistency tokens.

use crate::value::{deep_clone_row, Datas, Row, ValueModel};
use vstd::prelude::*;

verus! {

/// Proof that a transactional read observed a consistent snapshot: the
/// timestamp of the observation, bound to the key that was read.
#[derive(Debug, Clone, PartialEq, Eq)]
pub struct Token {
    pub ts: i64,
    pub key: Row,
}

/// Mathematical model of a [`Token`].
pub struct TokenModel {
    pub ts: i64,
    pub key: Seq<ValueModel>,
}

impl View for Token {
    type V = TokenModel;

    open spec fn view(&self) -> TokenModel {
        TokenModel { ts: self.ts, key: self.key.deep_view() }
    }
}

impl DeepView for Token {
    type V = TokenModel;

    open spec fn deep_view(&self) -> TokenModel {
        self.view()
    }
}

/// The token-issuing side of the external validation service. A token binds
/// exactly the timestamp and key it was issued for.
#[derive(Debug, Clone, PartialEq, Eq)]
pub struct TokenGenerator {}

impl TokenGenerator {
    pub fn new() -> (r: TokenGenerator) {
        TokenGenerator {  }
    }

    /// Issue a token for an observation of `key` at timestamp `ts`.
    pub fn generate(&self, ts: i64, key: &Row) -> (r: Token)
        ensures
            r@ == (TokenModel { ts, key: key.deep_view() }),
    {
        Token { ts, key: deep_clone_row(key) }
    }
}

/// A request to read from one shard of one view. The target names the view
/// and the shard index the request is meant for.
#[derive(Debug)]
pub enum ReadQuery {
    /// Plain lookup of a batch of keys; `block` asks the shard to wait for
    /// keys whose entries are still being materialized.
    Normal { target: (u64, usize), keys: Vec<Row>, block: bool },
    /// Lookup of a batch of keys that also issues one consistency token per
    /// key; always blocks.
    WithToken { target: (u64, usize), keys: Vec<Row> },
    /// The number of materialized keys in the shard.
    Size { target: (u64, usize) },
}

/// Mathematical model of a [`ReadQuery`].
pub enum QueryModel {
    Normal { target: (u64, usize), keys: Seq<Seq<ValueModel>>, block: bool },
    WithToken { target: (u64, usize), keys: Seq<Seq<ValueModel>> },
    Size { target: (u64, usize) },
}

impl View for ReadQuery {
    type V = QueryModel;

    open spec fn view(&self) -> QueryModel {
        match self {
            ReadQuery::Normal { target, keys, block } => QueryModel::Normal {
                target: *target,
                keys: keys.deep_view(),
                block: *block,
            },
            ReadQuery::WithToken { target, keys } => QueryModel::WithToken {
                target: *target,
                keys: keys.deep_view(),
            },
            ReadQuery::Size { target } => QueryModel::Size { target: *target },
        }
    }
}

/// The reply to a [`ReadQuery`], mirroring its variants. An `Err` means the
/// shard's view was unavailable for at least one requested key.
#[derive(Debug)]
pub enum ReadReply {
    /// One row set per requested key.
    Normal(Result<Vec<Datas>, ()>),
    /// One row set and one token per requested key.
    WithToken(Result<Vec<(Datas, Token)>, ()>),
    /// The number of materialized keys.
    Size(usize),
}

/// Mathematical model of a [`ReadReply`].
pub enum ReplyModel {
    Normal(Result<Seq<Seq<Seq<ValueModel>>>, ()>),
    WithToken(Result<Seq<(Seq<Seq<ValueModel>>, TokenModel)>, ()>),
    Size(usize),
}

impl View for ReadReply {
    type V = ReplyModel;

    open spec fn view(&self) -> ReplyModel {
        match self {
            ReadReply::Normal(res) => ReplyModel::Normal(
                match res {
                    Ok(v) => Ok(v.deep_view()),
                    Err(_) => Err(()),
                },
            ),
            ReadReply::WithToken(res) => ReplyModel::WithToken(
                match res {
                    Ok(v) => Ok(v.deep_view()),
                    Err(_) => Err(()),
                },
            ),
            ReadReply::Size(n) => ReplyModel::Size(*n),
        }
    }
}

} // verus!
