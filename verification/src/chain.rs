//! Plain data carriers: shard identifiers, ordered shard pairs and receipts.

use vstd::prelude::*;

use crate::bandwidth_request::BandwidthRequest;
use crate::maps::ShardMap;

verus! {

/// Maximum number of bytes that a shard can send or receive at a single height.
pub const MAX_SHARD_BANDWIDTH: usize = 4_500_000;

/// Minimum size of a single receipt.
pub const MIN_RECEIPT_SIZE: usize = 1_000;

/// Maximum size of a single receipt.
pub const MAX_RECEIPT_SIZE: usize = 4_000_000;

/// Identifier of a shard, ordered by `(version, shard_id)`.
#[derive(Clone, Copy, PartialEq, Eq, Structural, Debug)]
pub struct ShardUId {
    pub version: u32,
    pub shard_id: u32,
}

/// Strict order on shard identifiers: lexicographic on `(version, shard_id)`.
pub open spec fn uid_lt(a: ShardUId, b: ShardUId) -> bool {
    a.version < b.version || (a.version == b.version && a.shard_id < b.shard_id)
}

impl ShardUId {
    pub fn new(id: usize) -> (r: ShardUId)
        ensures
            r == (ShardUId { version: 0u32, shard_id: id as u32 }),
    {
        ShardUId { version: 0, shard_id: id as u32 }
    }
}

/// Decides `uid_lt` executably.
pub fn uid_less(a: &ShardUId, b: &ShardUId) -> (r: bool)
    ensures
        r == uid_lt(*a, *b),
{
    a.version < b.version || (a.version == b.version && a.shard_id < b.shard_id)
}

/// A link between two shards.
/// Receipts are sent `from` some shard `to` some shard over some ShardLink.
#[derive(Clone, Copy, PartialEq, Eq, Structural, Debug)]
pub struct ShardLink {
    pub from: ShardUId,
    pub to: ShardUId,
}

/// Strict order on links: lexicographic on `(from, to)`.
pub open spec fn link_lt(a: ShardLink, b: ShardLink) -> bool {
    uid_lt(a.from, b.from) || (a.from == b.from && uid_lt(a.to, b.to))
}

impl ShardLink {
    /// True when the link goes from shard `a` to shard `b` (both version 0).
    pub fn is(&self, a: usize, b: usize) -> (r: bool)
        ensures
            r == (self.from == (ShardUId { version: 0u32, shard_id: a as u32 })
                && self.to == (ShardUId { version: 0u32, shard_id: b as u32 })),
    {
        self.from == ShardUId::new(a) && self.to == ShardUId::new(b)
    }
}

/// Decides `link_lt` executably.
pub fn link_less(a: &ShardLink, b: &ShardLink) -> (r: bool)
    ensures
        r == link_lt(*a, *b),
{
    uid_less(&a.from, &b.from) || (a.from == b.from && uid_less(&a.to, &b.to))
}

/// An atomic payload characterized solely by its size in bytes.
#[derive(Clone, Copy, Debug)]
pub struct Receipt {
    pub size: usize,
}


/// The per-shard portion of a block; may be missing at a height.
pub struct Chunk {
    pub prev_incoming_receipts_size: usize,
    pub prev_outgoing_receipts_size: ShardMap<usize>,
    pub bandwidth_requests: Vec<BandwidthRequest>,
}

impl Chunk {
    pub open spec fn wf(&self) -> bool {
        &&& self.prev_outgoing_receipts_size.wf()
        &&& forall|i: int|
            0 <= i < self.prev_outgoing_receipts_size@.len()
                ==> (#[trigger] self.prev_outgoing_receipts_size@[i]).1 <= MAX_SHARD_BANDWIDTH
        &&& forall|i: int|
            0 <= i < self.bandwidth_requests@.len()
                ==> (#[trigger] self.bandwidth_requests@[i]).grant_options_bitmap.wf()
    }
}

/// One block: a chunk per shard, where single chunks may be missing.
pub struct Block {
    pub height: usize,
    pub chunks: ShardMap<Option<Chunk>>,
}

impl Block {
    pub open spec fn wf(&self) -> bool {
        &&& self.chunks.wf()
        &&& forall|i: int|
            0 <= i < self.chunks@.len() ==> match (#[trigger] self.chunks@[i]).1 {
                Some(c) => c.wf(),
                None => true,
            }
    }
}

} // verus!
