//! The simulated blockchain: shards that queue, request and send receipts,
//! and the driver that produces one block per height.

use vstd::prelude::*;

use crate::bandwidth_request::{request_bits, BandwidthRequest};
use crate::bandwidth_scheduler::BandwidthScheduler;
use crate::chain::{
    uid_lt, Block, Chunk, ShardLink, ShardUId, MAX_SHARD_BANDWIDTH,
};
use crate::maps::{LinkMap, ShardMap};
use crate::outgoing_queue::{drained_bytes, drained_count, receipts_total, sizes_of, OutgoingQueue};
use crate::receipt_sender::{sender_wf, ReceiptSender};
use crate::rng::{gen_range_inclusive, rng_from_seed, DefaultRng};

verus! {

/// Well-formedness shared by every stored sequence of past blocks: present
/// blocks are well-formed, carry at least one chunk, and are small enough
/// for the scheduler's arithmetic.
pub open spec fn past_blocks_wf(blocks: Seq<Option<Block>>) -> bool {
    forall|i: int|
        0 <= i < blocks.len() ==> match #[trigger] blocks[i] {
            Some(b) => b.wf() && b.chunks@.len() >= 1 && b.chunks@.len() * MAX_SHARD_BANDWIDTH
                <= usize::MAX,
            None => true,
        }
}

/// Some block is present.
pub open spec fn has_block(blocks: Seq<Option<Block>>) -> bool {
    exists|i: int| 0 <= i < blocks.len() && (#[trigger] blocks[i]) is Some
}

/// `i` is the position of the most recent present block: it holds one, and
/// everything after it is missing.
pub open spec fn last_present_at(blocks: Seq<Option<Block>>, i: int) -> bool {
    &&& 0 <= i < blocks.len()
    &&& blocks[i] is Some
    &&& forall|k: int| i < k < blocks.len() ==> (#[trigger] blocks[k]) is None
}

/// The most recent present block of a history.
pub open spec fn spec_last_block(blocks: Seq<Option<Block>>) -> Block {
    blocks[choose|i: int| last_present_at(blocks, i)]->Some_0
}

/// The most recent present position is unique.
pub proof fn lemma_last_present_unique(blocks: Seq<Option<Block>>, i: int, j: int)
    requires
        last_present_at(blocks, i),
        last_present_at(blocks, j),
    ensures
        i == j,
{
    if i < j {
        assert(blocks[j] is None);
    } else if j < i {
        assert(blocks[i] is None);
    }
}

/// The key `k` appears among the queue keys.
spec fn key_among(queues: Seq<(ShardUId, OutgoingQueue)>, k: ShardUId) -> bool {
    exists|w: int| 0 <= w < queues.len() && (#[trigger] queues[w]).0 == k
}

/// Every sender key appears among the queue keys.
spec fn sender_keys_in(
    queues: Seq<(ShardUId, OutgoingQueue)>,
    senders: Seq<(ShardUId, ReceiptSender)>,
) -> bool {
    forall|i: int| 0 <= i < senders.len() ==> key_among(queues, (#[trigger] senders[i]).0)
}

/// What refilling did to one queue: a silent sender leaves it alone, a
/// full-speed sender extends it to at least one height's worth of bytes.
pub open spec fn refilled(q: OutgoingQueue, before: Seq<crate::chain::Receipt>, sender: ReceiptSender) -> bool {
    match sender {
        ReceiptSender::No => q.view() == before,
        ReceiptSender::FullSpeed(_) => before.is_prefix_of(q.view()) && receipts_total(q.view())
            >= MAX_SHARD_BANDWIDTH,
    }
}

/// `req` is the encoding of queue `t`, whose total exceeds the base.
pub open spec fn request_for_queue(
    req: BandwidthRequest,
    queues: Seq<(ShardUId, OutgoingQueue)>,
    t: int,
    base: int,
) -> bool {
    &&& 0 <= t < queues.len()
    &&& req.to_shard == queues[t].0
    &&& req.grant_options_bitmap.wf()
    &&& req.grant_options_bitmap.bits() == request_bits(sizes_of(queues[t].1.view()), base)
    &&& receipts_total(queues[t].1.view()) > base
}

/// `req` encodes some queue of the table.
pub open spec fn request_from_queues(
    req: BandwidthRequest,
    queues: Seq<(ShardUId, OutgoingQueue)>,
    base: int,
) -> bool {
    exists|t: int| request_for_queue(req, queues, t, base)
}

/// Some element of `reqs` encodes queue `t`.
pub open spec fn some_request_for(
    reqs: Seq<BandwidthRequest>,
    queues: Seq<(ShardUId, OutgoingQueue)>,
    t: int,
    base: int,
) -> bool {
    exists|i: int| 0 <= i < reqs.len() && request_for_queue(#[trigger] reqs[i], queues, t, base)
}

/// Appending further requests keeps an encoded queue encoded.
proof fn lemma_some_request_extend(
    pre: Seq<BandwidthRequest>,
    post: Seq<BandwidthRequest>,
    queues: Seq<(ShardUId, OutgoingQueue)>,
    t: int,
    base: int,
)
    requires
        some_request_for(pre, queues, t, base),
        pre.len() <= post.len(),
        forall|i: int| 0 <= i < pre.len() ==> #[trigger] post[i] == pre[i],
    ensures
        some_request_for(post, queues, t, base),
{
    let i = choose|i: int|
        0 <= i < pre.len() && request_for_queue(#[trigger] pre[i], queues, t, base);
    assert(request_for_queue(post[i], queues, t, base));
}

/// The most recent non-missing block.
pub fn last_non_missing_block(past_blocks: &Vec<Option<Block>>) -> (r: &Block)
    requires
        has_block(past_blocks@),
    ensures
        exists|i: int|
            #[trigger] last_present_at(past_blocks@, i) && past_blocks@[i] == Some(*r),
        *r == spec_last_block(past_blocks@),
{
    let mut j = past_blocks.len();
    while j > 0
        invariant
            j <= past_blocks@.len(),
            has_block(past_blocks@),
            forall|i: int| j <= i < past_blocks@.len() ==> (#[trigger] past_blocks@[i]) is None,
        decreases j,
    {
        j = j - 1;
        match &past_blocks[j] {
            Some(block) => {
                proof {
                    assert(last_present_at(past_blocks@, j as int));
                    let i = choose|i: int| last_present_at(past_blocks@, i);
                    lemma_last_present_unique(past_blocks@, i, j as int);
                }
                return block;
            },
            None => {},
        }
    }
    proof {
        assert(false);
    }
    vstd::pervasive::unreached()
}

/// One shard of the simulated chain: its outgoing queues, its scheduler
/// instance, its receipt senders and the grants of the latest height.
pub struct Shard {
    pub id: ShardUId,
    pub bandwidth_scheduler: BandwidthScheduler,
    pub latest_grants: LinkMap<usize>,
    pub outgoing_queues: ShardMap<OutgoingQueue>,
    pub receipt_senders: ShardMap<ReceiptSender>,
}

impl Shard {
    pub open spec fn wf(&self) -> bool {
        &&& self.bandwidth_scheduler.wf()
        &&& self.latest_grants.wf()
        &&& forall|i: int|
            0 <= i < self.latest_grants@.len() ==> (#[trigger] self.latest_grants@[i]).1
                <= MAX_SHARD_BANDWIDTH
        &&& self.outgoing_queues.wf()
        &&& forall|i: int|
            0 <= i < self.outgoing_queues@.len() ==> (#[trigger] self.outgoing_queues@[i]).1.wf()
                && self.outgoing_queues@[i].1.spec_to_shard() == self.outgoing_queues@[i].0
        &&& self.receipt_senders.wf()
        &&& forall|i: int|
            0 <= i < self.receipt_senders@.len() ==> sender_wf(
                (#[trigger] self.receipt_senders@[i]).1,
            ) && self.outgoing_queues.spec_contains(self.receipt_senders@[i].0)
    }

    /// The bandwidth granted to this shard towards `to` at the latest
    /// height, zero when the link got nothing.
    pub open spec fn spec_link_grant(&self, to: ShardUId) -> int {
        let link = ShardLink { from: self.id, to };
        if self.latest_grants.spec_contains(link) {
            self.latest_grants.spec_value(link) as int
        } else {
            0
        }
    }

    /// A new shard with one empty queue per destination.
    pub fn new(
        id: ShardUId,
        shard_ids: &Vec<ShardUId>,
        receipt_senders: ShardMap<ReceiptSender>,
    ) -> (r: Shard)
        requires
            forall|a: int, b: int|
                0 <= a < b < shard_ids@.len() ==> uid_lt(
                    #[trigger] shard_ids@[a],
                    #[trigger] shard_ids@[b],
                ),
            receipt_senders.wf(),
            forall|i: int|
                0 <= i < receipt_senders@.len() ==> sender_wf(
                    (#[trigger] receipt_senders@[i]).1,
                ) && shard_ids@.contains(receipt_senders@[i].0),
        ensures
            r.wf(),
            r.id == id,
            r.receipt_senders == receipt_senders,
            r.latest_grants@.len() == 0,
            r.outgoing_queues@.len() == shard_ids@.len(),
            forall|j: int|
                0 <= j < shard_ids@.len() ==> (#[trigger] r.outgoing_queues@[j]).0
                    == shard_ids@[j] && r.outgoing_queues@[j].1.view().len() == 0,
    {
        let n = shard_ids.len();
        let mut outgoing_queues = ShardMap::<OutgoingQueue>::new();
        let mut t: usize = 0;
        while t < n
            invariant
                t <= n,
                n == shard_ids@.len(),
                forall|a: int, b: int|
                    0 <= a < b < n ==> uid_lt(#[trigger] shard_ids@[a], #[trigger] shard_ids@[b]),
                outgoing_queues.wf(),
                outgoing_queues@.len() == t,
                forall|j: int|
                    0 <= j < t ==> (#[trigger] outgoing_queues@[j]).0 == shard_ids@[j]
                        && outgoing_queues@[j].1.wf() && outgoing_queues@[j].1.spec_to_shard()
                        == shard_ids@[j] && outgoing_queues@[j].1.view().len() == 0,
            decreases n - t,
        {
            let key = shard_ids[t];
            proof {
                assert forall|j: int| 0 <= j < outgoing_queues@.len() implies uid_lt(
                    (#[trigger] outgoing_queues@[j]).0,
                    key,
                ) by {
                    assert(outgoing_queues@[j].0 == shard_ids@[j]);
                }
            }
            outgoing_queues.push_max(key, OutgoingQueue::new(key));
            t = t + 1;
        }
        let r = Shard {
            id,
            bandwidth_scheduler: BandwidthScheduler::new(),
            latest_grants: LinkMap::new(),
            outgoing_queues,
            receipt_senders,
        };
        proof {
            assert forall|i: int| 0 <= i < r.receipt_senders@.len() implies sender_wf(
                (#[trigger] r.receipt_senders@[i]).1,
            ) && r.outgoing_queues.spec_contains(r.receipt_senders@[i].0) by {
                let k = r.receipt_senders@[i].0;
                assert(shard_ids@.contains(k));
                let j = choose|j: int| 0 <= j < shard_ids@.len() && shard_ids@[j] == k;
                assert(r.outgoing_queues@[j].0 == k);
            }
        }
        r
    }

    /// Update the local state on the next height.
    ///
    /// This runs on every height with a non-missing block, even when the
    /// chunk on this shard is missing: the scheduler state must stay
    /// identical across all shards.
    pub fn next_height(&mut self, past_blocks: &Vec<Option<Block>>)
        requires
            old(self).wf(),
            past_blocks_wf(past_blocks@),
            has_block(past_blocks@),
        ensures
            final(self).wf(),
            final(self).id == old(self).id,
            final(self).outgoing_queues == old(self).outgoing_queues,
            final(self).receipt_senders == old(self).receipt_senders,
            crate::bandwidth_scheduler::grants_ok(
                final(self).latest_grants,
                spec_last_block(past_blocks@).chunks,
            ),
    {
        let last_block = last_non_missing_block(past_blocks);
        // In the real chain the scheduler's generator would be seeded from
        // the block's hash; the simulation uses the height.
        let mut scheduler_rng = rng_from_seed(last_block.height as u64);
        self.latest_grants = self.bandwidth_scheduler.run(last_block, &mut scheduler_rng);
    }

    /// Apply the granted bandwidth to the queues and produce a new chunk:
    /// collect the incoming receipts of past heights, ship what the grants
    /// cover, refill the queues, and encode fresh bandwidth requests.
    pub fn apply_and_produce_chunk(
        &mut self,
        past_blocks: &Vec<Option<Block>>,
        rng: &mut DefaultRng,
    ) -> (chunk: Chunk)
        requires
            old(self).wf(),
            past_blocks_wf(past_blocks@),
            has_block(past_blocks@),
        ensures
            final(self).wf(),
            final(self).id == old(self).id,
            final(self).latest_grants == old(self).latest_grants,
            chunk.wf(),
            chunk.prev_outgoing_receipts_size@.len() == old(self).outgoing_queues@.len(),
            final(self).outgoing_queues@.len() == old(self).outgoing_queues@.len(),
            // Each destination ships exactly the greedy FIFO prefix that the
            // link's grant covers, and that prefix leaves the queue.
            forall|t: int|
                0 <= t < old(self).outgoing_queues@.len() ==> {
                    let key = (#[trigger] old(self).outgoing_queues@[t]).0;
                    let before = old(self).outgoing_queues@[t].1.view();
                    let grant = old(self).spec_link_grant(key);
                    let shipped = before.skip(drained_count(before, grant));
                    &&& chunk.prev_outgoing_receipts_size@[t] == (
                        key,
                        drained_bytes(before, grant) as usize,
                    )
                    &&& chunk.prev_outgoing_receipts_size@[t].1 <= grant
                    &&& final(self).outgoing_queues@[t].0 == key
                    &&& (old(self).receipt_senders.spec_contains(key) ==> refilled(
                        final(self).outgoing_queues@[t].1,
                        shipped,
                        old(self).receipt_senders.spec_value(key),
                    ))
                    &&& (!old(self).receipt_senders.spec_contains(key) ==> final(
                        self).outgoing_queues@[t].1.view() == shipped)
                },
            // The produced requests are exactly the encodings of the
            // refilled queues whose total exceeds the base bandwidth.
            ({
                let base = crate::bandwidth_scheduler::spec_base_bandwidth(
                    spec_last_block(past_blocks@).chunks@.len() as int,
                );
                &&& forall|i: int|
                    0 <= i < chunk.bandwidth_requests@.len() ==> request_from_queues(
                        #[trigger] chunk.bandwidth_requests@[i],
                        final(self).outgoing_queues@,
                        base,
                    )
                &&& forall|t: int|
                    0 <= t < final(self).outgoing_queues@.len() ==> (receipts_total(
                        (#[trigger] final(self).outgoing_queues@[t]).1.view(),
                    ) > base <==> some_request_for(
                        chunk.bandwidth_requests@,
                        final(self).outgoing_queues@,
                        t,
                        base,
                    ))
            }),
    {
        // Gather incoming receipts from previous heights, stopping at the
        // last height where this shard's own chunk was present.
        let mut incoming_receipts_size: usize = 0;
        let mut j = past_blocks.len();
        let mut done = false;
        while j > 0 && !done
            invariant
                j <= past_blocks@.len(),
                past_blocks_wf(past_blocks@),
            decreases j,
        {
            j = j - 1;
            match &past_blocks[j] {
                Some(block) => {
                    let m = block.chunks.len();
                    let mut t: usize = 0;
                    while t < m
                        invariant
                            t <= m,
                            m == block.chunks@.len(),
                            block.wf(),
                        decreases m - t,
                    {
                        let key = block.chunks.key_at(t);
                        match block.chunks.val_at(t) {
                            Some(chunk) => {
                                if key == self.id {
                                    done = true;
                                }
                                let cur = chunk.prev_outgoing_receipts_size.get_or_zero(
                                    &self.id,
                                );
                                incoming_receipts_size = if incoming_receipts_size > usize::MAX
                                    - cur {
                                    usize::MAX
                                } else {
                                    incoming_receipts_size + cur
                                };
                            },
                            None => {},
                        }
                        t = t + 1;
                    }
                },
                None => {},
            }
        }
        // Ship outgoing receipts while the link's grant covers them.
        let ghost queues0 = self.outgoing_queues@;
        proof {
            assert forall|i: int| 0 <= i < self.receipt_senders@.len() implies key_among(
                queues0,
                (#[trigger] self.receipt_senders@[i]).0,
            ) by {
                let k = self.receipt_senders@[i].0;
                assert(self.outgoing_queues.spec_contains(k));
                let w = self.outgoing_queues.spec_index_of(k);
                assert(queues0[w].0 == k);
            }
            assert(sender_keys_in(queues0, self.receipt_senders@));
        }
        let mut outgoing_receipt_sizes = ShardMap::<usize>::new();
        let nq = self.outgoing_queues.len();
        let mut t: usize = 0;
        while t < nq
            invariant
                t <= nq,
                self.wf(),
                self.id == old(self).id,
                nq == self.outgoing_queues@.len(),
                forall|i: int|
                    0 <= i < nq ==> (#[trigger] self.outgoing_queues@[i]).0 == queues0[i].0,
                queues0.len() == nq,
                forall|a: int, b: int|
                    0 <= a < b < nq ==> uid_lt(
                        (#[trigger] queues0[a]).0,
                        (#[trigger] queues0[b]).0,
                    ),
                sender_keys_in(queues0, self.receipt_senders@),
                outgoing_receipt_sizes.wf(),
                outgoing_receipt_sizes@.len() == t,
                self.id == old(self).id,
                self.latest_grants == old(self).latest_grants,
                self.receipt_senders == old(self).receipt_senders,
                queues0 == old(self).outgoing_queues@,
                forall|i: int|
                    0 <= i < t ==> (#[trigger] outgoing_receipt_sizes@[i]).0 == queues0[i].0
                        && outgoing_receipt_sizes@[i].1 <= MAX_SHARD_BANDWIDTH
                        && outgoing_receipt_sizes@[i].1 <= old(self).spec_link_grant(
                        queues0[i].0,
                    ),
                forall|i: int|
                    0 <= i < t ==> (#[trigger] outgoing_receipt_sizes@[i]).1 as int
                        == drained_bytes(
                        queues0[i].1.view(),
                        old(self).spec_link_grant(queues0[i].0),
                    ),
                forall|i: int|
                    0 <= i < t ==> (#[trigger] self.outgoing_queues@[i]).1.view()
                        == queues0[i].1.view().skip(
                        drained_count(
                            queues0[i].1.view(),
                            old(self).spec_link_grant(queues0[i].0),
                        ),
                    ),
                forall|i: int|
                    t <= i < nq ==> (#[trigger] self.outgoing_queues@[i]).1 == queues0[i].1,
            decreases nq - t,
        {
            let (to_shard, mut queue) = self.outgoing_queues.take_at(t);
            let shard_link = ShardLink { from: self.id, to: to_shard };
            proof {
                assert(old(self).spec_link_grant(to_shard) == (
                if self.latest_grants.spec_contains(shard_link) {
                    self.latest_grants.spec_value(shard_link) as int
                } else {
                    0
                }));
            }
            let grant0 = self.latest_grants.get_or_zero(&shard_link);
            proof {
                // The stored grants are bounded by the per-shard cap.
                if self.latest_grants.spec_contains(shard_link) {
                    let gi = self.latest_grants.spec_index_of(shard_link);
                    assert(self.latest_grants@[gi].1 <= MAX_SHARD_BANDWIDTH);
                }
            }
            let mut link_grant = grant0;
            let mut link_outgoing_receipts_size: usize = 0;
            let mut cont = true;
            let ghost q0 = queue.view();
            let ghost mut popped: int = 0;
            while cont
                invariant
                    queue.wf(),
                    queue.spec_to_shard() == to_shard,
                    link_outgoing_receipts_size + link_grant == grant0,
                    grant0 <= MAX_SHARD_BANDWIDTH,
                    0 <= popped <= q0.len(),
                    queue.view() == q0.skip(popped),
                    drained_bytes(q0, grant0 as int) == link_outgoing_receipts_size
                        + drained_bytes(queue.view(), link_grant as int),
                    drained_count(q0, grant0 as int) == popped + drained_count(
                        queue.view(),
                        link_grant as int,
                    ),
                    !cont ==> drained_bytes(queue.view(), link_grant as int) == 0
                        && drained_count(queue.view(), link_grant as int) == 0,
                decreases queue.view().len() + (if cont {
                    1int
                } else {
                    0int
                }),
            {
                proof {
                    assert(q0.skip(popped) =~= queue.view());
                }
                match queue.first_receipt_size() {
                    Some(size) => {
                        if size <= link_grant {
                            let ghost pre = queue.view();
                            let _ = queue.pop();
                            proof {
                                popped = popped + 1;
                                assert(pre.drop_first() =~= q0.skip(popped));
                            }
                            link_outgoing_receipts_size = link_outgoing_receipts_size + size;
                            link_grant = link_grant - size;
                        } else {
                            cont = false;
                        }
                    },
                    None => {
                        cont = false;
                    },
                }
            }
            proof {
                assert(link_outgoing_receipts_size as int == drained_bytes(q0, grant0 as int));
                assert(popped == drained_count(q0, grant0 as int));
                assert(queue.view() == q0.skip(drained_count(q0, grant0 as int)));
            }
            proof {
                assert forall|i: int| 0 <= i < outgoing_receipt_sizes@.len() implies uid_lt(
                    (#[trigger] outgoing_receipt_sizes@[i]).0,
                    to_shard,
                ) by {
                    assert(outgoing_receipt_sizes@[i].0 == queues0[i].0);
                    assert(uid_lt(queues0[i].0, queues0[t as int].0));
                }
            }
            outgoing_receipt_sizes.push_max(to_shard, link_outgoing_receipts_size);
            proof {
                assert forall|i: int| 0 <= i < t implies uid_lt(
                    (#[trigger] self.outgoing_queues@[i]).0,
                    to_shard,
                ) by {
                    assert(uid_lt(queues0[i].0, queues0[t as int].0));
                }
                assert forall|i: int| t <= i < self.outgoing_queues@.len() implies uid_lt(
                    to_shard,
                    (#[trigger] self.outgoing_queues@[i]).0,
                ) by {
                    assert(self.outgoing_queues@[i].0 == queues0[i + 1].0);
                    assert(uid_lt(queues0[t as int].0, queues0[i + 1].0));
                }
            }
            self.outgoing_queues.put_at(t, to_shard, queue);
            proof {
                assert forall|i: int| 0 <= i < nq implies (
                #[trigger] self.outgoing_queues@[i]).0 == queues0[i].0 by {
                    if i < t {
                    } else if i == t {
                    }
                }
                assert forall|i: int| 0 <= i < self.receipt_senders@.len() implies
                    self.outgoing_queues.spec_contains(
                        (#[trigger] self.receipt_senders@[i]).0,
                    ) by {
                    let k = self.receipt_senders@[i].0;
                    assert(key_among(queues0, k));
                    let w = choose|w: int|
                        0 <= w < queues0.len() && (#[trigger] queues0[w]).0 == k;
                    assert(self.outgoing_queues@[w].0 == k);
                }
            }
            t = t + 1;
        }
        // Generate new receipts.
        let ghost queues1 = self.outgoing_queues@;
        let ns = self.receipt_senders.len();
        let mut s: usize = 0;
        while s < ns
            invariant
                s <= ns,
                self.wf(),
                self.id == old(self).id,
                self.receipt_senders == old(self).receipt_senders,
                self.latest_grants == old(self).latest_grants,
                ns == self.receipt_senders@.len(),
                self.outgoing_queues@.len() == queues1.len(),
                forall|i: int|
                    0 <= i < queues1.len() ==> (#[trigger] self.outgoing_queues@[i]).0
                        == queues1[i].0,
                forall|a: int, b: int|
                    0 <= a < b < queues1.len() ==> uid_lt(
                        (#[trigger] queues1[a]).0,
                        (#[trigger] queues1[b]).0,
                    ),
                // Processed senders have refilled their queues; the rest of
                // the queues still hold what the drain left.
                forall|s2: int|
                    0 <= s2 < s ==> {
                        let key = (#[trigger] self.receipt_senders@[s2]).0;
                        let t = self.outgoing_queues.spec_index_of(key);
                        refilled(
                            self.outgoing_queues@[t].1,
                            queues1[t].1.view(),
                            self.receipt_senders@[s2].1,
                        )
                    },
                forall|t: int|
                    0 <= t < queues1.len() ==> ((#[trigger] self.outgoing_queues@[t]).1.view()
                        == queues1[t].1.view() || exists|s2: int|
                        0 <= s2 < s && (#[trigger] self.receipt_senders@[s2]).0
                            == queues1[t].0),
            decreases ns - s,
        {
            let sender = *self.receipt_senders.val_at(s);
            let sender_key = self.receipt_senders.key_at(s);
            proof {
                self.receipt_senders.lemma_key_at(s as int);
            }
            let qi = self.outgoing_queues.find_existing(&sender_key);
            let ghost pre = self.outgoing_queues@;
            proof {
                // No earlier sender shares this key, so the queue is still
                // as the drain left it.
                if exists|s2: int|
                    0 <= s2 < s && (#[trigger] self.receipt_senders@[s2]).0 == queues1[qi as int].0 {
                    let s2 = choose|s2: int|
                        0 <= s2 < s && (#[trigger] self.receipt_senders@[s2]).0 == queues1[
                            qi as int].0;
                    assert(uid_lt(
                        self.receipt_senders@[s2].0,
                        self.receipt_senders@[s as int].0,
                    ));
                    assert(false);
                }
                assert(pre[qi as int].1.view() == queues1[qi as int].1.view());
            }
            let (qkey, mut queue) = self.outgoing_queues.take_at(qi);
            sender.send_receipts(&mut queue, rng);
            proof {
                assert forall|i: int| 0 <= i < qi implies uid_lt(
                    (#[trigger] self.outgoing_queues@[i]).0,
                    qkey,
                ) by {
                    assert(self.outgoing_queues@[i].0 == pre[i].0);
                    assert(uid_lt(pre[i].0, pre[qi as int].0));
                }
                assert forall|i: int| qi <= i < self.outgoing_queues@.len() implies uid_lt(
                    qkey,
                    (#[trigger] self.outgoing_queues@[i]).0,
                ) by {
                    assert(self.outgoing_queues@[i].0 == pre[i + 1].0);
                    assert(uid_lt(pre[qi as int].0, pre[i + 1].0));
                }
            }
            self.outgoing_queues.put_at(qi, qkey, queue);
            proof {
                assert(self.outgoing_queues@ =~= pre.update(qi as int, (qkey, queue)));
                assert forall|i: int| 0 <= i < queues1.len() implies (
                #[trigger] self.outgoing_queues@[i]).0 == queues1[i].0 by {
                    if i < qi {
                    } else if i == qi {
                    }
                }
                assert forall|i: int| 0 <= i < self.receipt_senders@.len() implies
                    self.outgoing_queues.spec_contains(
                        (#[trigger] self.receipt_senders@[i]).0,
                    ) by {
                    let k = self.receipt_senders@[i].0;
                    let w = choose|w: int|
                        0 <= w < pre.len() && (#[trigger] pre[w]).0 == k;
                    assert(self.outgoing_queues@[w].0 == k);
                }
                assert(refilled(queue, queues1[qi as int].1.view(), sender));
                assert forall|s2: int| 0 <= s2 < s + 1 implies {
                    let key = (#[trigger] self.receipt_senders@[s2]).0;
                    let t = self.outgoing_queues.spec_index_of(key);
                    refilled(
                        self.outgoing_queues@[t].1,
                        queues1[t].1.view(),
                        self.receipt_senders@[s2].1,
                    )
                } by {
                    let key = self.receipt_senders@[s2].0;
                    let t = self.outgoing_queues.spec_index_of(key);
                    if s2 < s {
                        let tpre = key;
                        // The key sequences agree, so the index is stable
                        // and only slot `qi` changed.
                        assert(self.outgoing_queues@[t].0 == key);
                        if t == qi {
                            assert(self.receipt_senders@[s2].0
                                == self.receipt_senders@[s as int].0);
                            assert(uid_lt(
                                self.receipt_senders@[s2].0,
                                self.receipt_senders@[s as int].0,
                            ));
                            assert(false);
                        } else {
                            assert(self.outgoing_queues@[t] == pre[t]);
                        }
                    } else {
                        assert(s2 == s);
                        assert(self.outgoing_queues@[qi as int].0 == key);
                        self.outgoing_queues.lemma_key_at(qi as int);
                        assert(t == qi);
                    }
                }
            }
            s = s + 1;
        }
        // Generate bandwidth requests for the queues that need more than the
        // base bandwidth.
        let last_block = last_non_missing_block(past_blocks);
        let num_shards = last_block.chunks.len();
        proof {
            let bi = choose|i: int|
                0 <= i < past_blocks@.len() && #[trigger] past_blocks@[i] == Some(*last_block);
        }
        let base_bandwidth = self.bandwidth_scheduler.get_base_bandwidth(num_shards);
        proof {
            assert(base_bandwidth as int == crate::bandwidth_scheduler::spec_base_bandwidth(
                spec_last_block(past_blocks@).chunks@.len() as int,
            ));
        }
        let ghost base = base_bandwidth as int;
        let mut bandwidth_requests: Vec<BandwidthRequest> = Vec::new();
        let mut q: usize = 0;
        while q < nq
            invariant
                q <= nq,
                self.wf(),
                self.id == old(self).id,
                self.latest_grants == old(self).latest_grants,
                nq == self.outgoing_queues@.len(),
                base == base_bandwidth as int,
                base_bandwidth <= MAX_SHARD_BANDWIDTH - crate::chain::MAX_RECEIPT_SIZE,
                forall|i: int|
                    0 <= i < bandwidth_requests@.len()
                        ==> (#[trigger] bandwidth_requests@[i]).grant_options_bitmap.wf(),
                forall|i: int|
                    0 <= i < bandwidth_requests@.len() ==> request_from_queues(
                        #[trigger] bandwidth_requests@[i],
                        self.outgoing_queues@,
                        base,
                    ),
                forall|t: int|
                    0 <= t < q ==> (receipts_total(
                        (#[trigger] self.outgoing_queues@[t]).1.view(),
                    ) > base <==> some_request_for(
                        bandwidth_requests@,
                        self.outgoing_queues@,
                        t,
                        base,
                    )),
            decreases nq - q,
        {
            let ghost pre_reqs = bandwidth_requests@;
            let produced = self.outgoing_queues.val_at(q).make_bandwidth_request(
                base_bandwidth,
            );
            match produced {
                Some(bandwidth_request) => {
                    bandwidth_requests.push(bandwidth_request);
                    proof {
                        assert(request_for_queue(
                            bandwidth_requests@.last(),
                            self.outgoing_queues@,
                            q as int,
                            base,
                        ));
                        assert(forall|i: int|
                            0 <= i < pre_reqs.len() ==> #[trigger] bandwidth_requests@[i]
                                == pre_reqs[i]);
                        assert forall|t: int|
                            0 <= t < q + 1 && receipts_total(
                                (#[trigger] self.outgoing_queues@[t]).1.view(),
                            ) > base implies some_request_for(
                            bandwidth_requests@,
                            self.outgoing_queues@,
                            t,
                            base,
                        ) by {
                            if t < q {
                                lemma_some_request_extend(
                                    pre_reqs,
                                    bandwidth_requests@,
                                    self.outgoing_queues@,
                                    t,
                                    base,
                                );
                            }
                        }
                    }
                },
                None => {
                    proof {
                        // A sound request for this queue cannot exist: its
                        // total does not exceed the base.
                        if some_request_for(
                            bandwidth_requests@,
                            self.outgoing_queues@,
                            q as int,
                            base,
                        ) {
                            let i = choose|i: int|
                                0 <= i < bandwidth_requests@.len() && request_for_queue(
                                    #[trigger] bandwidth_requests@[i],
                                    self.outgoing_queues@,
                                    q as int,
                                    base,
                                );
                            assert(false);
                        }
                    }
                },
            }
            q = q + 1;
        }
        Chunk {
            prev_incoming_receipts_size: incoming_receipts_size,
            prev_outgoing_receipts_size: outgoing_receipt_sizes,
            bandwidth_requests,
        }
    }
}


/// When the injector declares a chunk missing.
#[derive(Clone, Copy, Debug)]
pub enum MissingChunkPolicy {
    /// No chunk is ever missing.
    Never,
    /// Every chunk is missing independently with probability
    /// `permille / 1000`.
    Random { permille: u32 },
    /// Like `Random`, but only on one shard.
    RandomOnShard { shard: ShardUId, permille: u32 },
    /// On one shard, alternate `period` present heights with `period`
    /// missing heights.
    PeriodicOnShard { shard: ShardUId, period: usize },
}

pub open spec fn policy_wf(p: MissingChunkPolicy) -> bool {
    match p {
        MissingChunkPolicy::Never => true,
        MissingChunkPolicy::Random { permille } => permille <= 1000,
        MissingChunkPolicy::RandomOnShard { shard, permille } => permille <= 1000,
        MissingChunkPolicy::PeriodicOnShard { shard, period } => period >= 1,
    }
}

/// Decide whether the chunk of `shard_id` at `height` is missing.
fn missing_chunk_decision(
    policy: &MissingChunkPolicy,
    height: usize,
    shard_id: ShardUId,
    rng: &mut DefaultRng,
) -> (r: bool)
    requires
        policy_wf(*policy),
    ensures
        match *policy {
            MissingChunkPolicy::Never => !r,
            MissingChunkPolicy::Random { permille } => permille == 0 ==> !r,
            MissingChunkPolicy::RandomOnShard { shard, permille } => (shard_id != shard
                || permille == 0) ==> !r,
            MissingChunkPolicy::PeriodicOnShard { shard, period } => shard_id != shard ==> !r,
        },
{
    match policy {
        MissingChunkPolicy::Never => false,
        MissingChunkPolicy::Random { permille } => {
            gen_range_inclusive(rng, 0, 999) < (*permille as usize)
        },
        MissingChunkPolicy::RandomOnShard { shard, permille } => {
            if shard_id == *shard {
                gen_range_inclusive(rng, 0, 999) < (*permille as usize)
            } else {
                false
            }
        },
        MissingChunkPolicy::PeriodicOnShard { shard, period } => {
            shard_id == *shard && (height / *period) % 2 == 1
        },
    }
}

/// The sender map of one shard holds exactly the installed senders of that
/// shard's outgoing links, keyed by destination.
pub open spec fn senders_installed(
    shard_senders: ShardMap<ReceiptSender>,
    receipt_senders: LinkMap<ReceiptSender>,
    from: ShardUId,
    shard_ids: Seq<ShardUId>,
) -> bool {
    forall|u: int|
        0 <= u < shard_ids.len() ==> {
            let link = ShardLink { from, to: #[trigger] shard_ids[u] };
            &&& (receipt_senders.spec_contains(link) ==> shard_senders.spec_contains(
                shard_ids[u],
            ) && shard_senders.spec_value(shard_ids[u]) == receipt_senders.spec_value(link))
            &&& (!receipt_senders.spec_contains(link) ==> !shard_senders.spec_contains(
                shard_ids[u],
            ))
        }
}

/// Simulates the blockchain: generates blocks and chunks, uses the
/// bandwidth scheduler to schedule bandwidth and sends receipts between
/// shards.
pub struct Simulation {
    pub shards: ShardMap<Shard>,
    pub blocks: Vec<Option<Block>>,
    pub rng: DefaultRng,
    pub missing_block_permille: u32,
    pub missing_chunk_policy: MissingChunkPolicy,
}

/// A completed run; validation reads the simulation's history from here.
pub struct SimulationRun {
    pub simulation: Simulation,
}

impl Simulation {
    pub open spec fn wf(&self) -> bool {
        &&& self.shards.wf()
        &&& self.shards@.len() >= 1
        &&& self.shards@.len() * MAX_SHARD_BANDWIDTH <= usize::MAX
        &&& forall|i: int|
            0 <= i < self.shards@.len() ==> (#[trigger] self.shards@[i]).1.wf()
                && self.shards@[i].1.id == self.shards@[i].0
        &&& self.missing_block_permille <= 1000
        &&& policy_wf(self.missing_chunk_policy)
        &&& self.blocks@.len() >= 1
        &&& self.blocks@[0] is Some
        &&& forall|i: int|
            0 <= i < self.blocks@.len() ==> match #[trigger] self.blocks@[i] {
                Some(b) => b.wf() && b.chunks@.len() == self.shards@.len(),
                None => true,
            }
    }

    /// The genesis block: an empty, present chunk for every shard.
    fn make_genesis_block(shard_ids: &Vec<ShardUId>) -> (r: Block)
        requires
            forall|a: int, b: int|
                0 <= a < b < shard_ids@.len() ==> uid_lt(
                    #[trigger] shard_ids@[a],
                    #[trigger] shard_ids@[b],
                ),
        ensures
            r.wf(),
            r.chunks@.len() == shard_ids@.len(),
            r.height == 0,
    {
        let n = shard_ids.len();
        let mut chunks = ShardMap::<Option<Chunk>>::new();
        let mut t: usize = 0;
        while t < n
            invariant
                t <= n,
                n == shard_ids@.len(),
                forall|a: int, b: int|
                    0 <= a < b < n ==> uid_lt(#[trigger] shard_ids@[a], #[trigger] shard_ids@[b]),
                chunks.wf(),
                chunks@.len() == t,
                forall|j: int|
                    0 <= j < t ==> (#[trigger] chunks@[j]).0 == shard_ids@[j] && match chunks@[j]
                        .1 {
                        Some(c) => c.wf(),
                        None => false,
                    },
            decreases n - t,
        {
            let key = shard_ids[t];
            proof {
                assert forall|j: int| 0 <= j < chunks@.len() implies uid_lt(
                    (#[trigger] chunks@[j]).0,
                    key,
                ) by {
                    assert(chunks@[j].0 == shard_ids@[j]);
                }
            }
            let genesis_chunk = Chunk {
                prev_incoming_receipts_size: 0,
                prev_outgoing_receipts_size: ShardMap::new(),
                bandwidth_requests: Vec::new(),
            };
            chunks.push_max(key, Some(genesis_chunk));
            t = t + 1;
        }
        Block { height: 0, chunks }
    }

    /// Create a new simulation. It is usually more convenient to use
    /// `SimulationBuilder`.
    pub fn new(
        shard_ids: Vec<ShardUId>,
        receipt_senders: LinkMap<ReceiptSender>,
        random_seed: u64,
        missing_block_permille: u32,
        missing_chunk_policy: MissingChunkPolicy,
    ) -> (r: Simulation)
        requires
            shard_ids@.len() >= 1,
            shard_ids@.len() * MAX_SHARD_BANDWIDTH <= usize::MAX,
            forall|a: int, b: int|
                0 <= a < b < shard_ids@.len() ==> uid_lt(
                    #[trigger] shard_ids@[a],
                    #[trigger] shard_ids@[b],
                ),
            receipt_senders.wf(),
            forall|i: int|
                0 <= i < receipt_senders@.len() ==> sender_wf(
                    (#[trigger] receipt_senders@[i]).1,
                ),
            missing_block_permille <= 1000,
            policy_wf(missing_chunk_policy),
        ensures
            r.wf(),
            r.blocks@.len() == 1,
            r.shards@.len() == shard_ids@.len(),
            r.missing_block_permille == missing_block_permille,
            r.missing_chunk_policy == missing_chunk_policy,
            forall|s: int|
                0 <= s < shard_ids@.len() ==> (#[trigger] r.shards@[s]).0 == shard_ids@[s]
                    && r.shards@[s].1.id == shard_ids@[s],
            forall|s: int|
                0 <= s < shard_ids@.len() ==> senders_installed(
                    (#[trigger] r.shards@[s]).1.receipt_senders,
                    receipt_senders,
                    shard_ids@[s],
                    shard_ids@,
                ),
    {
        let sim_rng = rng_from_seed(random_seed);
        let n = shard_ids.len();
        let mut shards = ShardMap::<Shard>::new();
        let mut t: usize = 0;
        while t < n
            invariant
                t <= n,
                n == shard_ids@.len(),
                forall|a: int, b: int|
                    0 <= a < b < n ==> uid_lt(#[trigger] shard_ids@[a], #[trigger] shard_ids@[b]),
                receipt_senders.wf(),
                forall|i: int|
                    0 <= i < receipt_senders@.len() ==> sender_wf(
                        (#[trigger] receipt_senders@[i]).1,
                    ),
                shards.wf(),
                shards@.len() == t,
                forall|j: int|
                    0 <= j < t ==> (#[trigger] shards@[j]).0 == shard_ids@[j] && shards@[j].1.wf()
                        && shards@[j].1.id == shard_ids@[j],
                forall|j: int|
                    0 <= j < t ==> senders_installed(
                        (#[trigger] shards@[j]).1.receipt_senders,
                        receipt_senders,
                        shard_ids@[j],
                        shard_ids@,
                    ),
            decreases n - t,
        {
            let shard_id = shard_ids[t];
            // Collect the senders installed on this shard's outgoing links.
            let mut shard_senders = ShardMap::<ReceiptSender>::new();
            let mut u: usize = 0;
            while u < n
                invariant
                    u <= n,
                    t < n,
                    n == shard_ids@.len(),
                    shard_id == shard_ids@[t as int],
                    forall|a: int, b: int|
                        0 <= a < b < n ==> uid_lt(
                            #[trigger] shard_ids@[a],
                            #[trigger] shard_ids@[b],
                        ),
                    receipt_senders.wf(),
                    forall|i: int|
                        0 <= i < receipt_senders@.len() ==> sender_wf(
                            (#[trigger] receipt_senders@[i]).1,
                        ),
                    shard_senders.wf(),
                    forall|j: int|
                        0 <= j < shard_senders@.len() ==> sender_wf(
                            (#[trigger] shard_senders@[j]).1,
                        ) && shard_ids@.contains(shard_senders@[j].0),
                    forall|u2: int|
                        0 <= u2 < u ==> {
                            let link = ShardLink { from: shard_id, to: #[trigger] shard_ids@[u2] };
                            &&& (receipt_senders.spec_contains(link)
                                ==> shard_senders.spec_contains(shard_ids@[u2])
                                && shard_senders.spec_value(shard_ids@[u2])
                                == receipt_senders.spec_value(link))
                            &&& (!receipt_senders.spec_contains(link)
                                ==> !shard_senders.spec_contains(shard_ids@[u2]))
                        },
                    forall|u2: int|
                        u <= u2 < n ==> !shard_senders.spec_contains(#[trigger] shard_ids@[u2]),
                decreases n - u,
            {
                let to_shard = shard_ids[u];
                let link = ShardLink { from: shard_id, to: to_shard };
                proof {
                    assert forall|u2: int| 0 <= u2 < n && u2 != u implies shard_ids@[u2]
                        != to_shard by {
                        if u2 < u {
                            assert(uid_lt(shard_ids@[u2], shard_ids@[u as int]));
                            crate::maps::lemma_uid_order(shard_ids@[u2], shard_ids@[u as int]);
                        } else {
                            assert(uid_lt(shard_ids@[u as int], shard_ids@[u2]));
                            crate::maps::lemma_uid_order(shard_ids@[u as int], shard_ids@[u2]);
                        }
                    }
                }
                match receipt_senders.get(&link) {
                    Some(sender) => {
                        let s = *sender;
                        proof {
                            let gi = receipt_senders.spec_index_of(link);
                        }
                        shard_senders.set(to_shard, s);
                        proof {
                            assert forall|j: int| 0 <= j < shard_senders@.len() implies
                                sender_wf((#[trigger] shard_senders@[j]).1)
                                    && shard_ids@.contains(shard_senders@[j].0) by {
                                if shard_senders@[j].0 == to_shard {
                                    assert(shard_senders.spec_value(to_shard) == s);
                                    shard_senders.lemma_key_at(j);
                                    assert(shard_ids@[u as int] == to_shard);
                                }
                            }
                        }
                    },
                    None => {},
                }
                u = u + 1;
            }
            proof {
                assert forall|j: int| 0 <= j < shards@.len() implies uid_lt(
                    (#[trigger] shards@[j]).0,
                    shard_id,
                ) by {
                    assert(shards@[j].0 == shard_ids@[j]);
                }
            }
            let shard = Shard::new(shard_id, &shard_ids, shard_senders);
            proof {
                assert(senders_installed(
                    shard.receipt_senders,
                    receipt_senders,
                    shard_id,
                    shard_ids@,
                ));
            }
            shards.push_max(shard_id, shard);
            t = t + 1;
        }
        let genesis = Self::make_genesis_block(&shard_ids);
        let mut blocks: Vec<Option<Block>> = Vec::new();
        blocks.push(Some(genesis));
        Simulation {
            shards,
            blocks,
            rng: sim_rng,
            missing_block_permille,
            missing_chunk_policy,
        }
    }

    /// Move the simulation one block forward. The history is append-only:
    /// one block is added and the past blocks are untouched.
    fn step(&mut self)
        requires
            old(self).wf(),
        ensures
            final(self).wf(),
            final(self).blocks@.len() == old(self).blocks@.len() + 1,
            forall|i: int|
                0 <= i < old(self).blocks@.len() ==> #[trigger] final(self).blocks@[i] == old(
                    self,
                ).blocks@[i],
            final(self).shards@.len() == old(self).shards@.len(),
            forall|t: int|
                0 <= t < old(self).shards@.len() ==> (#[trigger] final(self).shards@[t]).0
                    == old(self).shards@[t].0,
            final(self).missing_block_permille == old(self).missing_block_permille,
            final(self).missing_chunk_policy == old(self).missing_chunk_policy,
            // A missing block can only come from the missing-block draw,
            // and it leaves every shard untouched.
            old(self).missing_block_permille == 0 ==> final(self).blocks@.last() is Some,
            final(self).blocks@.last() is None ==> final(self).shards == old(self).shards,
            // A present block is built from the shards: the next height, one
            // chunk slot per shard, and every shard's scheduler advanced to
            // the latest non-missing block.
            match final(self).blocks@.last() {
                Some(b) => {
                    &&& b.height == old(self).blocks@.len()
                    &&& b.chunks@.len() == old(self).shards@.len()
                    &&& forall|t: int|
                        0 <= t < b.chunks@.len() ==> (#[trigger] b.chunks@[t]).0 == old(
                            self,
                        ).shards@[t].0
                    &&& forall|t: int|
                        0 <= t < old(self).shards@.len() ==> crate::bandwidth_scheduler::grants_ok(
                            (#[trigger] final(self).shards@[t]).1.latest_grants,
                            spec_last_block(old(self).blocks@).chunks,
                        )
                    &&& (old(self).missing_chunk_policy is Never ==> forall|t: int|
                        0 <= t < b.chunks@.len() ==> (#[trigger] b.chunks@[t]).1 is Some)
                },
                None => true,
            },
    {
        let is_block_missing = gen_range_inclusive(&mut self.rng, 0, 999) < (
        self.missing_block_permille as usize);
        if is_block_missing {
            self.blocks.push(None);
            return;
        }
        let height = self.blocks.len();
        let mut new_chunks = ShardMap::<Option<Chunk>>::new();
        let ghost shards0 = self.shards@;
        proof {
            assert(has_block(self.blocks@));
            assert(past_blocks_wf(self.blocks@));
        }
        let n = self.shards.len();
        let mut t: usize = 0;
        while t < n
            invariant
                t <= n,
                n == self.shards@.len(),
                self.wf(),
                self.blocks == old(self).blocks,
                shards0.len() == n,
                forall|i: int| 0 <= i < n ==> (#[trigger] self.shards@[i]).0 == shards0[i].0,
                forall|a: int, b: int|
                    0 <= a < b < n ==> uid_lt(
                        (#[trigger] shards0[a]).0,
                        (#[trigger] shards0[b]).0,
                    ),
                new_chunks.wf(),
                new_chunks@.len() == t,
                self.missing_block_permille == old(self).missing_block_permille,
                self.missing_chunk_policy == old(self).missing_chunk_policy,
                height == old(self).blocks@.len(),
                forall|j: int|
                    0 <= j < t ==> (#[trigger] new_chunks@[j]).0 == shards0[j].0 && match
                        new_chunks@[j].1 {
                        Some(c) => c.wf(),
                        None => true,
                    },
                forall|j: int|
                    0 <= j < t ==> crate::bandwidth_scheduler::grants_ok(
                        (#[trigger] self.shards@[j]).1.latest_grants,
                        spec_last_block(old(self).blocks@).chunks,
                    ),
                old(self).missing_chunk_policy is Never ==> forall|j: int|
                    0 <= j < t ==> (#[trigger] new_chunks@[j]).1 is Some,
            decreases n - t,
        {
            proof {
                assert(has_block(self.blocks@));
                assert(past_blocks_wf(self.blocks@));
            }
            let ghost pre = self.shards@;
            let (shard_id, mut shard) = self.shards.take_at(t);
            shard.next_height(&self.blocks);
            let is_chunk_missing = missing_chunk_decision(
                &self.missing_chunk_policy,
                height,
                shard_id,
                &mut self.rng,
            );
            let produced: Option<Chunk> = if is_chunk_missing {
                None
            } else {
                Some(shard.apply_and_produce_chunk(&self.blocks, &mut self.rng))
            };
            proof {
                assert forall|i: int| 0 <= i < new_chunks@.len() implies uid_lt(
                    (#[trigger] new_chunks@[i]).0,
                    shard_id,
                ) by {
                    assert(new_chunks@[i].0 == shards0[i].0);
                    assert(uid_lt(shards0[i].0, shards0[t as int].0));
                }
            }
            new_chunks.push_max(shard_id, produced);
            proof {
                assert forall|i: int| 0 <= i < t implies uid_lt(
                    (#[trigger] self.shards@[i]).0,
                    shard_id,
                ) by {
                    assert(uid_lt(shards0[i].0, shards0[t as int].0));
                }
                assert forall|i: int| t <= i < self.shards@.len() implies uid_lt(
                    shard_id,
                    (#[trigger] self.shards@[i]).0,
                ) by {
                    assert(self.shards@[i].0 == shards0[i + 1].0);
                    assert(uid_lt(shards0[t as int].0, shards0[i + 1].0));
                }
            }
            self.shards.put_at(t, shard_id, shard);
            proof {
                assert forall|i: int| 0 <= i < n implies (#[trigger] self.shards@[i]).0
                    == shards0[i].0 by {
                    if i < t {
                    } else if i == t {
                    }
                }
            }
            t = t + 1;
        }
        let new_block = Block { height, chunks: new_chunks };
        self.blocks.push(Some(new_block));
    }

    /// Run the simulation for this many blocks. The starting history is
    /// kept untouched, and with a zero missing-block probability every
    /// appended block is present.
    pub fn run_for(self, steps: usize) -> (r: SimulationRun)
        requires
            self.wf(),
            self.blocks@.len() + steps <= usize::MAX,
        ensures
            r.simulation.wf(),
            r.simulation.blocks@.len() == self.blocks@.len() + steps,
            r.simulation.shards@.len() == self.shards@.len(),
            forall|i: int|
                0 <= i < self.blocks@.len() ==> #[trigger] r.simulation.blocks@[i]
                    == self.blocks@[i],
            self.missing_block_permille == 0 ==> forall|i: int|
                self.blocks@.len() <= i < r.simulation.blocks@.len()
                    ==> (#[trigger] r.simulation.blocks@[i]) is Some,
    {
        let mut simulation = self;
        let mut s: usize = 0;
        while s < steps
            invariant
                simulation.wf(),
                s <= steps,
                self.blocks@.len() + steps <= usize::MAX,
                simulation.blocks@.len() == self.blocks@.len() + s,
                simulation.shards@.len() == self.shards@.len(),
                simulation.missing_block_permille == self.missing_block_permille,
                forall|i: int|
                    0 <= i < self.blocks@.len() ==> #[trigger] simulation.blocks@[i]
                        == self.blocks@[i],
                self.missing_block_permille == 0 ==> forall|i: int|
                    self.blocks@.len() <= i < simulation.blocks@.len()
                        ==> (#[trigger] simulation.blocks@[i]) is Some,
            decreases steps - s,
        {
            simulation.step();
            s = s + 1;
        }
        SimulationRun { simulation }
    }
}

} // verus!
