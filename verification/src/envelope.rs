//! The dual-mode payload wrapper: a message is carried either as the value
//! itself (when sender and receiver share one process) or as its serialized
//! bytes (over a real transport boundary). Consuming a wrapper yields the
//! inner value exactly once, by moving it.

use crate::codec::{
    dec_query, dec_reply, enc_query, enc_reply, lemma_dec_enc_query, lemma_dec_enc_reply,
    spec_dec_query, spec_dec_reply,
};
use crate::protocol::{QueryModel, ReadQuery, ReadReply, ReplyModel};
use vstd::prelude::*;

verus! {

/// A query, wrapped for transport.
pub enum PackedQuery {
    /// Handed over in process, without any serialization step.
    Local(ReadQuery),
    /// The serialized bytes, for a real transport boundary.
    Wire(Vec<u8>),
}

/// A reply, wrapped for transport.
pub enum PackedReply {
    /// Handed over in process, without any serialization step.
    Local(ReadReply),
    /// The serialized bytes, for a real transport boundary.
    Wire(Vec<u8>),
}

impl PackedQuery {
    /// The query this wrapper carries, if its bytes are a whole well-formed
    /// message.
    pub open spec fn carries(&self) -> Option<QueryModel> {
        match self {
            PackedQuery::Local(q) => Some(q@),
            PackedQuery::Wire(b) => match spec_dec_query(b@) {
                Some((m, rest)) => if rest.len() == 0 {
                    Some(m)
                } else {
                    None
                },
                None => None,
            },
        }
    }

    pub open spec fn spec_is_local(&self) -> bool {
        self is Local
    }

    /// Whether the wrapper holds the in-process representation.
    pub fn is_local(&self) -> (r: bool)
        ensures
            r == self.spec_is_local(),
    {
        match self {
            PackedQuery::Local(_) => true,
            PackedQuery::Wire(_) => false,
        }
    }

    /// Wrap a query: moved through untouched when local, serialized when
    /// not. Either way the wrapper carries exactly the given query.
    pub fn make(q: ReadQuery, local: bool) -> (r: PackedQuery)
        ensures
            r.carries() == Some(q@),
            r.spec_is_local() == local,
            local ==> r == PackedQuery::Local(q),
    {
        if local {
            PackedQuery::Local(q)
        } else {
            let mut out: Vec<u8> = Vec::new();
            enc_query(&mut out, &q);
            proof {
                lemma_dec_enc_query(q@, Seq::empty());
                assert(crate::codec::spec_enc_query(q@) + Seq::<u8>::empty() =~= out@);
            }
            PackedQuery::Wire(out)
        }
    }

    /// Consume the wrapper, yielding the query it carries. The wrapper is
    /// moved, so it can be consumed only once; a local wrapper returns the
    /// identical value, a wire wrapper deserializes its bytes.
    pub fn take(self) -> (r: ReadQuery)
        requires
            self.carries() is Some,
        ensures
            Some(r@) == self.carries(),
            forall|q: ReadQuery| self == PackedQuery::Local(q) ==> r == q,
    {
        match self {
            PackedQuery::Local(q) => q,
            PackedQuery::Wire(b) => {
                proof {
                    assert(b@.skip(0) =~= b@);
                }
                let (q, end) = dec_query(&b, 0);
                proof {
                    assert(b@.skip(end as int).len() == 0);
                }
                q
            },
        }
    }
}

impl PackedReply {
    /// The reply this wrapper carries, if its bytes are a whole well-formed
    /// message.
    pub open spec fn carries(&self) -> Option<ReplyModel> {
        match self {
            PackedReply::Local(q) => Some(q@),
            PackedReply::Wire(b) => match spec_dec_reply(b@) {
                Some((m, rest)) => if rest.len() == 0 {
                    Some(m)
                } else {
                    None
                },
                None => None,
            },
        }
    }

    pub open spec fn spec_is_local(&self) -> bool {
        self is Local
    }

    /// Whether the wrapper holds the in-process representation.
    pub fn is_local(&self) -> (r: bool)
        ensures
            r == self.spec_is_local(),
    {
        match self {
            PackedReply::Local(_) => true,
            PackedReply::Wire(_) => false,
        }
    }

    /// Wrap a reply: moved through untouched when local, serialized when
    /// not. Either way the wrapper carries exactly the given reply.
    pub fn make(q: ReadReply, local: bool) -> (r: PackedReply)
        ensures
            r.carries() == Some(q@),
            r.spec_is_local() == local,
            local ==> r == PackedReply::Local(q),
    {
        if local {
            PackedReply::Local(q)
        } else {
            let mut out: Vec<u8> = Vec::new();
            enc_reply(&mut out, &q);
            proof {
                lemma_dec_enc_reply(q@, Seq::empty());
                assert(crate::codec::spec_enc_reply(q@) + Seq::<u8>::empty() =~= out@);
            }
            PackedReply::Wire(out)
        }
    }

    /// Consume the wrapper, yielding the reply it carries; single use, by
    /// move.
    pub fn take(self) -> (r: ReadReply)
        requires
            self.carries() is Some,
        ensures
            Some(r@) == self.carries(),
            forall|q: ReadReply| self == PackedReply::Local(q) ==> r == q,
    {
        match self {
            PackedReply::Local(q) => q,
            PackedReply::Wire(b) => {
                proof {
                    assert(b@.skip(0) =~= b@);
                }
                let (q, end) = dec_reply(&b, 0);
                proof {
                    assert(b@.skip(end as int).len() == 0);
                }
                q
            },
        }
    }
}

} // verus!
