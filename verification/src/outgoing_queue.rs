//! A per-destination FIFO of pending receipts with a cached total size.

use vstd::prelude::*;

use crate::bandwidth_request::{request_bits, BandwidthRequest};
use crate::chain::{Receipt, ShardUId, MAX_RECEIPT_SIZE, MAX_SHARD_BANDWIDTH};
use crate::sums::{
    lemma_sum_by_nonneg, lemma_sum_by_pointwise, lemma_sum_by_push, lemma_sum_by_skip_next,
    size_val, sum_by,
};

verus! {

/// Contribution of a receipt: its size.
pub open spec fn receipt_size_val() -> spec_fn(Receipt) -> int {
    |r: Receipt| r.size as int
}

/// Total size of a sequence of receipts.
pub open spec fn receipts_total(s: Seq<Receipt>) -> int {
    sum_by(s, receipt_size_val())
}

/// The sizes of a sequence of receipts, in order.
pub open spec fn sizes_of(s: Seq<Receipt>) -> Seq<usize> {
    s.map_values(|r: Receipt| r.size)
}

/// How many receipts a greedy FIFO drain ships: receipts are popped from
/// the front while the remaining grant covers the next receipt's size.
pub open spec fn drained_count(receipts: Seq<Receipt>, grant: int) -> int
    decreases receipts.len(),
{
    if receipts.len() == 0 {
        0
    } else if receipts[0].size <= grant {
        1 + drained_count(receipts.drop_first(), grant - receipts[0].size)
    } else {
        0
    }
}

/// How many bytes that greedy FIFO drain ships.
pub open spec fn drained_bytes(receipts: Seq<Receipt>, grant: int) -> int
    decreases receipts.len(),
{
    if receipts.len() == 0 {
        0
    } else if receipts[0].size <= grant {
        receipts[0].size + drained_bytes(receipts.drop_first(), grant - receipts[0].size)
    } else {
        0
    }
}

/// A FIFO of receipts waiting to be sent to one destination shard.
///
/// Receipts are stored in a vector with a cursor to its first live entry, so
/// both ends of the queue are cheap; the storage is compacted once the dead
/// prefix outgrows the live part.
pub struct OutgoingQueue {
    to_shard: ShardUId,
    receipts: Vec<Receipt>,
    head: usize,
    total_size: usize,
}

impl OutgoingQueue {
    /// The receipts still queued, head first.
    pub closed spec fn view(&self) -> Seq<Receipt> {
        self.receipts@.skip(self.head as int)
    }

    pub closed spec fn spec_to_shard(&self) -> ShardUId {
        self.to_shard
    }

    /// The cached total always matches the queued receipts.
    pub closed spec fn wf(&self) -> bool {
        &&& self.head <= self.receipts@.len()
        &&& self.total_size as int == receipts_total(self.view())
    }

    pub fn new(to_shard: ShardUId) -> (r: OutgoingQueue)
        ensures
            r.wf(),
            r.view() == Seq::<Receipt>::empty(),
            r.spec_to_shard() == to_shard,
    {
        let r = OutgoingQueue { to_shard, receipts: Vec::new(), head: 0, total_size: 0 };
        proof {
            assert(r.view() =~= Seq::<Receipt>::empty());
        }
        r
    }

    pub fn push(&mut self, receipt: Receipt)
        requires
            old(self).wf(),
            receipts_total(old(self).view()) + receipt.size as int <= usize::MAX,
        ensures
            final(self).wf(),
            final(self).view() == old(self).view().push(receipt),
            final(self).spec_to_shard() == old(self).spec_to_shard(),
            final(self).view().len() == old(self).view().len() + 1,
    {
        self.total_size = self.total_size + receipt.size;
        self.receipts.push(receipt);
        proof {
            assert(self.view() =~= old(self).view().push(receipt));
            lemma_sum_by_push(old(self).view(), receipt, receipt_size_val());
        }
    }

    /// Move the live receipts to the front once the dead prefix dominates.
    fn compact(&mut self)
        requires
            old(self).wf(),
        ensures
            final(self).wf(),
            final(self).view() == old(self).view(),
            final(self).spec_to_shard() == old(self).spec_to_shard(),
    {
        if self.head >= 64 && self.head >= self.receipts.len() - self.head {
            let n = self.receipts.len();
            let mut fresh: Vec<Receipt> = Vec::new();
            let mut i: usize = self.head;
            while i < n
                invariant
                    self.head <= i <= n,
                    n == self.receipts@.len(),
                    fresh@.len() == i - self.head,
                    forall|j: int|
                        0 <= j < fresh@.len() ==> #[trigger] fresh@[j] == self.receipts@[j
                            + self.head],
                decreases n - i,
            {
                fresh.push(self.receipts[i]);
                i = i + 1;
            }
            proof {
                assert(fresh@ =~= self.receipts@.skip(self.head as int));
            }
            self.receipts = fresh;
            self.head = 0;
            proof {
                assert(self.view() =~= old(self).view());
            }
        }
    }

    pub fn pop(&mut self) -> (r: Option<Receipt>)
        requires
            old(self).wf(),
        ensures
            final(self).wf(),
            final(self).spec_to_shard() == old(self).spec_to_shard(),
            match r {
                Some(receipt) => old(self).view().len() > 0 && receipt == old(self).view()[0]
                    && final(self).view() == old(self).view().drop_first(),
                None => old(self).view().len() == 0 && final(self).view() == old(self).view(),
            },
    {
        if self.head < self.receipts.len() {
            let receipt = self.receipts[self.head];
            proof {
                lemma_sum_by_skip_next(self.receipts@, self.head as int, receipt_size_val());
                lemma_sum_by_nonneg(
                    self.receipts@.skip(self.head as int + 1),
                    receipt_size_val(),
                );
                assert(self.view()[0] == receipt);
            }
            self.head = self.head + 1;
            self.total_size = self.total_size - receipt.size;
            proof {
                assert(self.view() =~= old(self).view().drop_first());
                lemma_sum_by_nonneg(self.view(), receipt_size_val());
            }
            self.compact();
            Some(receipt)
        } else {
            proof {
                assert(self.view() =~= Seq::<Receipt>::empty());
            }
            None
        }
    }

    pub fn first_receipt_size(&self) -> (r: Option<usize>)
        requires
            self.wf(),
        ensures
            match r {
                Some(size) => self.view().len() > 0 && size == self.view()[0].size,
                None => self.view().len() == 0,
            },
    {
        if self.head < self.receipts.len() {
            proof {
                assert(self.view()[0] == self.receipts@[self.head as int]);
            }
            Some(self.receipts[self.head].size)
        } else {
            proof {
                assert(self.view() =~= Seq::<Receipt>::empty());
            }
            None
        }
    }

    pub fn total_size(&self) -> (r: usize)
        requires
            self.wf(),
        ensures
            r as int == receipts_total(self.view()),
    {
        self.total_size
    }

    pub fn is_empty(&self) -> (r: bool)
        requires
            self.wf(),
        ensures
            r == (self.view().len() == 0),
    {
        proof {
            if self.head == self.receipts.len() {
                assert(self.view() =~= Seq::<Receipt>::empty());
            } else {
                assert(self.view().len() > 0);
            }
        }
        self.head == self.receipts.len()
    }

    /// Encode this queue into a bandwidth request towards its destination.
    pub fn make_bandwidth_request(&self, base_bandwidth: usize) -> (r: Option<BandwidthRequest>)
        requires
            self.wf(),
            base_bandwidth <= MAX_SHARD_BANDWIDTH - MAX_RECEIPT_SIZE,
        ensures
            match r {
                Some(req) => req.to_shard == self.spec_to_shard()
                    && req.grant_options_bitmap.wf() && req.grant_options_bitmap.bits()
                    == request_bits(sizes_of(self.view()), base_bandwidth as int)
                    && receipts_total(self.view()) > base_bandwidth,
                None => receipts_total(self.view()) <= base_bandwidth,
            },
    {
        let n = self.receipts.len();
        let mut sizes: Vec<usize> = Vec::new();
        let mut i: usize = self.head;
        while i < n
            invariant
                self.wf(),
                self.head <= i <= n,
                n == self.receipts@.len(),
                sizes@.len() == i - self.head,
                forall|j: int|
                    0 <= j < sizes@.len() ==> #[trigger] sizes@[j] == self.receipts@[j
                        + self.head].size,
            decreases n - i,
        {
            sizes.push(self.receipts[i].size);
            i = i + 1;
        }
        proof {
            assert(sizes@ =~= sizes_of(self.view()));
            lemma_sum_by_pointwise(sizes@, self.view(), size_val(), receipt_size_val());
        }
        BandwidthRequest::from_receipt_sizes(
            self.to_shard,
            &sizes,
            base_bandwidth,
            MAX_SHARD_BANDWIDTH,
        )
    }
}

} // verus!
