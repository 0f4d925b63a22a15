//! The per-height bandwidth scheduler.
//!
//! Each height, every shard runs the same algorithm over the previous block
//! to decide how many bytes may be shipped on every ordered pair of shards:
//! a base grant for every link, then requested increases in allowance
//! priority order, and finally a fair distribution of whatever capacity is
//! left.

use vstd::prelude::*;

use rand::seq::SliceRandom;

use crate::bandwidth_request::BandwidthRequestOptions;
use crate::chain::{uid_lt, Block, ShardLink, ShardUId, MAX_RECEIPT_SIZE, MAX_SHARD_BANDWIDTH};
use crate::distribute_remaining::distribute_remaining_bandwidth;
use crate::maps::{lemma_value_or_zero, value_or_zero, LinkMap, ShardMap};
use crate::rng::DefaultRng;
use crate::sums::{
    dir_val, from_sum, lemma_sum_by_drop_last, lemma_sum_by_elem_le, lemma_sum_by_insert,
    lemma_sum_by_le, lemma_sum_by_lower_bound, lemma_sum_by_multiset, lemma_sum_by_nonneg,
    lemma_sum_by_pointwise, lemma_sum_by_push, lemma_sum_by_remove, lemma_sum_by_skip_next,
    lemma_sum_by_take_extend, lemma_sum_by_update, lemma_sum_by_upper_bound, link_map_sum,
    map_sum, shard_val, sum_by, to_sum,
};

verus! {

/// Max allowance that a link can accumulate.
pub const MAX_ALLOWANCE: usize = MAX_SHARD_BANDWIDTH;

/// The maximum base bandwidth granted unconditionally on every link.
pub const MAX_BASE_BANDWIDTH: usize = 100_000;

/// The error returned when a grant would exceed a shard's capacity.
#[derive(Clone, Copy, Debug)]
pub struct NotEnoughBandwidthError;

/// The per-height scheduler. Its persistent state is the allowance table,
/// the fairness credit every link accumulates while waiting.
pub struct BandwidthScheduler {
    allowances: LinkMap<usize>,
}

/// The allowance stored for a link in an allowance table, zero when absent.
pub open spec fn allowance_of(entries: Seq<(ShardLink, usize)>, link: ShardLink) -> int {
    value_or_zero(entries, link)
}

/// The base bandwidth for a block with `n` shards.
pub open spec fn spec_base_bandwidth(n: int) -> int {
    let fair = (MAX_SHARD_BANDWIDTH - MAX_RECEIPT_SIZE) / n;
    if fair > MAX_BASE_BANDWIDTH {
        MAX_BASE_BANDWIDTH as int
    } else {
        fair
    }
}

impl BandwidthScheduler {
    /// The allowance table entries, in link order.
    pub closed spec fn spec_allowances(&self) -> Seq<(ShardLink, usize)> {
        self.allowances@
    }

    /// Allowances are sorted by link and never exceed the cap.
    pub closed spec fn wf(&self) -> bool {
        &&& self.allowances.wf()
        &&& forall|i: int|
            0 <= i < self.allowances@.len() ==> (#[trigger] self.allowances@[i]).1
                <= MAX_ALLOWANCE
    }

    pub fn new() -> (r: BandwidthScheduler)
        ensures
            r.wf(),
            r.spec_allowances().len() == 0,
            forall|i: int|
                0 <= i < r.spec_allowances().len() ==> (#[trigger] r.spec_allowances()[i]).1
                    <= MAX_ALLOWANCE,
    {
        BandwidthScheduler { allowances: LinkMap::new() }
    }

    /// Calculate the base bandwidth that is granted on all links.
    pub fn get_base_bandwidth(&self, num_shards: usize) -> (r: usize)
        requires
            num_shards >= 1,
        ensures
            r == spec_base_bandwidth(num_shards as int),
            r <= MAX_BASE_BANDWIDTH,
            r <= MAX_SHARD_BANDWIDTH - MAX_RECEIPT_SIZE,
    {
        let mut base_bandwidth = (MAX_SHARD_BANDWIDTH - MAX_RECEIPT_SIZE) / num_shards;
        if base_bandwidth > MAX_BASE_BANDWIDTH {
            base_bandwidth = MAX_BASE_BANDWIDTH;
        }
        base_bandwidth
    }

    fn get_allowance(&self, shard_link: ShardLink) -> (r: usize)
        requires
            self.wf(),
        ensures
            r <= MAX_ALLOWANCE,
            r as int == allowance_of(self.spec_allowances(), shard_link),
    {
        let r = match self.allowances.get(&shard_link) {
            Some(v) => *v,
            None => 0,
        };
        proof {
            if self.allowances.spec_contains(shard_link) {
                let i = self.allowances.spec_index_of(shard_link);
                assert(self.allowances@[i].1 <= MAX_ALLOWANCE);
                self.allowances.lemma_key_at(i);
                let j = choose|j: int|
                    0 <= j < self.allowances@.len() && (#[trigger] self.allowances@[j]).0
                        == shard_link;
                self.allowances.lemma_key_at(j);
            }
        }
        r
    }

    fn set_allowance(&mut self, shard_link: ShardLink, amount: usize)
        requires
            old(self).wf(),
            amount <= MAX_ALLOWANCE,
        ensures
            final(self).wf(),
            allowance_of(final(self).spec_allowances(), shard_link) == amount,
            forall|l: ShardLink|
                l != shard_link ==> #[trigger] allowance_of(final(self).spec_allowances(), l)
                    == allowance_of(old(self).spec_allowances(), l),
    {
        self.allowances.set(shard_link, amount);
        proof {
            let ghost osv = old(self).allowances@;
            let sv = self.allowances@;
            assert forall|i: int| 0 <= i < sv.len() implies (#[trigger] sv[i]).1
                <= MAX_ALLOWANCE by {
                if old(self).allowances.spec_contains(shard_link) {
                    let k = old(self).allowances.spec_index_of(shard_link);
                    assert(sv == osv.update(k, (shard_link, amount)));
                } else {
                    let p = choose|p: int|
                        0 <= p <= osv.len() && sv == #[trigger] osv.insert(
                            p,
                            (shard_link, amount),
                        );
                    osv.insert_ensures(p, (shard_link, amount));
                }
            }
            lemma_value_or_zero(&self.allowances, shard_link);
            assert(allowance_of(sv, shard_link) == amount);
            assert forall|l: ShardLink| l != shard_link implies #[trigger] allowance_of(
                sv,
                l,
            ) == allowance_of(osv, l) by {
                lemma_value_or_zero(&self.allowances, l);
                lemma_value_or_zero(&old(self).allowances, l);
            }
        }
    }

    fn add_allowance(&mut self, shard_link: ShardLink, amount: usize)
        requires
            old(self).wf(),
            amount <= MAX_ALLOWANCE,
        ensures
            final(self).wf(),
            allowance_of(final(self).spec_allowances(), shard_link) == (
            if allowance_of(old(self).spec_allowances(), shard_link) + amount > MAX_ALLOWANCE {
                MAX_ALLOWANCE as int
            } else {
                allowance_of(old(self).spec_allowances(), shard_link) + amount
            }),
            forall|l: ShardLink|
                l != shard_link ==> #[trigger] allowance_of(final(self).spec_allowances(), l)
                    == allowance_of(old(self).spec_allowances(), l),
    {
        let mut cur_allowance = self.get_allowance(shard_link);
        cur_allowance = cur_allowance + amount;
        if cur_allowance > MAX_ALLOWANCE {
            cur_allowance = MAX_ALLOWANCE;
        }
        self.set_allowance(shard_link, cur_allowance);
    }

    fn decrease_allowance(&mut self, shard_link: ShardLink, amount: usize)
        requires
            old(self).wf(),
        ensures
            final(self).wf(),
            allowance_of(final(self).spec_allowances(), shard_link) == (
            if allowance_of(old(self).spec_allowances(), shard_link) - amount < 0 {
                0int
            } else {
                allowance_of(old(self).spec_allowances(), shard_link) - amount
            }),
            forall|l: ShardLink|
                l != shard_link ==> #[trigger] allowance_of(final(self).spec_allowances(), l)
                    == allowance_of(old(self).spec_allowances(), l),
    {
        let cur_allowance = self.get_allowance(shard_link);
        let new_allowance = if cur_allowance < amount {
            0
        } else {
            cur_allowance - amount
        };
        self.set_allowance(shard_link, new_allowance);
    }
}


/// The accounting that ties granted bandwidth to the remaining capacity.
///
/// The limit maps list exactly the block's shards, and for every shard the
/// bandwidth already granted plus the remaining limit equals the per-shard
/// cap on that side; a shard whose previous chunk is missing has receive
/// budget zero. Every granted link connects two shards of the block.
pub open spec fn grant_state(
    granted: LinkMap<usize>,
    outl: ShardMap<usize>,
    inl: ShardMap<usize>,
    chunks: ShardMap<Option<crate::chain::Chunk>>,
) -> bool {
    &&& granted.wf()
    &&& outl.wf()
    &&& inl.wf()
    &&& outl@.len() == chunks@.len()
    &&& inl@.len() == chunks@.len()
    &&& forall|t: int|
        0 <= t < chunks@.len() ==> (#[trigger] outl@[t]).0 == chunks@[t].0
    &&& forall|t: int|
        0 <= t < chunks@.len() ==> (#[trigger] inl@[t]).0 == chunks@[t].0
    &&& forall|t: int|
        0 <= t < chunks@.len() ==> from_sum(granted@, (#[trigger] chunks@[t]).0) + outl@[t].1
            == MAX_SHARD_BANDWIDTH
    &&& forall|t: int|
        0 <= t < chunks@.len() ==> to_sum(granted@, (#[trigger] chunks@[t]).0) + inl@[t].1 == (
        match chunks@[t].1 {
            Some(_) => MAX_SHARD_BANDWIDTH as int,
            None => 0,
        })
    &&& forall|t: int|
        0 <= t < granted@.len() ==> chunks.spec_contains((#[trigger] granted@[t]).0.from)
            && chunks.spec_contains(granted@[t].0.to)
}

/// A shard's receive budget for the height: the full cap when its previous
/// chunk is present, nothing otherwise.
spec fn in_cap_val() -> spec_fn((ShardUId, Option<crate::chain::Chunk>)) -> int {
    |e: (ShardUId, Option<crate::chain::Chunk>)|
        match e.1 {
            Some(_) => MAX_SHARD_BANDWIDTH as int,
            None => 0,
        }
}

/// A shard's send budget for the height: always the full cap.
spec fn out_cap_val() -> spec_fn((ShardUId, Option<crate::chain::Chunk>)) -> int {
    |e: (ShardUId, Option<crate::chain::Chunk>)| MAX_SHARD_BANDWIDTH as int
}

/// Grant `inc` additional bytes on `shard_link` if both the sender's and
/// the receiver's remaining capacity cover it; otherwise change nothing.
fn try_grant_additional_bandwidth(
    granted: &mut LinkMap<usize>,
    outgoing_limits: &mut ShardMap<usize>,
    incoming_limits: &mut ShardMap<usize>,
    chunks: &ShardMap<Option<crate::chain::Chunk>>,
    shard_link: ShardLink,
    inc: usize,
) -> (r: Result<(), NotEnoughBandwidthError>)
    requires
        grant_state(*old(granted), *old(outgoing_limits), *old(incoming_limits), *chunks),
        chunks.wf(),
        chunks.spec_contains(shard_link.from),
        chunks.spec_contains(shard_link.to),
    ensures
        grant_state(*final(granted), *final(outgoing_limits), *final(incoming_limits), *chunks),
        ({
            let fi = chunks.spec_index_of(shard_link.from);
            let ti = chunks.spec_index_of(shard_link.to);
            match r {
                Ok(_) => {
                    &&& inc <= old(outgoing_limits)@[fi].1
                    &&& inc <= old(incoming_limits)@[ti].1
                    &&& map_sum(final(outgoing_limits)@) == map_sum(old(outgoing_limits)@) - inc
                    &&& map_sum(final(incoming_limits)@) == map_sum(old(incoming_limits)@) - inc
                    &&& value_or_zero(final(granted)@, shard_link) == value_or_zero(
                        old(granted)@,
                        shard_link,
                    ) + inc
                    &&& forall|l: ShardLink|
                        l != shard_link ==> #[trigger] value_or_zero(final(granted)@, l)
                            == value_or_zero(old(granted)@, l)
                    &&& final(outgoing_limits)@ == old(outgoing_limits)@.update(
                        fi,
                        (shard_link.from, (old(outgoing_limits)@[fi].1 - inc) as usize),
                    )
                    &&& final(incoming_limits)@ == old(incoming_limits)@.update(
                        ti,
                        (shard_link.to, (old(incoming_limits)@[ti].1 - inc) as usize),
                    )
                    &&& forall|sh: ShardUId|
                        from_sum(final(granted)@, sh) == from_sum(old(granted)@, sh) + (
                        if sh == shard_link.from {
                            inc as int
                        } else {
                            0
                        })
                    &&& forall|sh: ShardUId|
                        to_sum(final(granted)@, sh) == to_sum(old(granted)@, sh) + (
                        if sh == shard_link.to {
                            inc as int
                        } else {
                            0
                        })
                },
                Err(_) => {
                    &&& (inc > old(outgoing_limits)@[fi].1 || inc > old(incoming_limits)@[ti].1)
                    &&& *final(granted) == *old(granted)
                    &&& *final(outgoing_limits) == *old(outgoing_limits)
                    &&& *final(incoming_limits) == *old(incoming_limits)
                },
            }
        }),
{
    proof {
        // The limit maps share the block's key sequence.
        let fi = chunks.spec_index_of(shard_link.from);
        let ti = chunks.spec_index_of(shard_link.to);
        chunks.lemma_key_at(fi);
        chunks.lemma_key_at(ti);
        outgoing_limits.lemma_key_at(fi);
        incoming_limits.lemma_key_at(ti);
    }
    let fi = outgoing_limits.find_existing(&shard_link.from);
    let ti = incoming_limits.find_existing(&shard_link.to);
    proof {
        // Map indices and chunk indices agree because the key sequences do.
        let cf = chunks.spec_index_of(shard_link.from);
        let ct = chunks.spec_index_of(shard_link.to);
        outgoing_limits.lemma_key_at(cf);
        incoming_limits.lemma_key_at(ct);
        assert(fi as int == cf);
        assert(ti as int == ct);
    }
    let outgoing_limit = *outgoing_limits.val_at(fi);
    let incoming_limit = *incoming_limits.val_at(ti);
    if inc > outgoing_limit || inc > incoming_limit {
        return Err(NotEnoughBandwidthError);
    }
    let cur = granted.get_or_zero(&shard_link);
    proof {
        lemma_value_or_zero(granted, shard_link);
        // The link's current grant is below the sender's total, which the
        // remaining limit bounds away from the cap.
        if granted.spec_contains(shard_link) {
            let gi = granted.spec_index_of(shard_link);
            granted.lemma_key_at(gi);
            lemma_sum_by_elem_le(granted@, gi, dir_val(shard_link.from, false));
        }
        lemma_sum_by_nonneg(granted@, dir_val(shard_link.from, false));
        let cf = chunks.spec_index_of(shard_link.from);
        assert(from_sum(granted@, shard_link.from) + outgoing_limit == MAX_SHARD_BANDWIDTH);
    }
    granted.set(shard_link, cur + inc);
    *outgoing_limits.val_at_mut(fi) = outgoing_limit - inc;
    *incoming_limits.val_at_mut(ti) = incoming_limit - inc;
    proof {
        lemma_sum_by_update(
            old(outgoing_limits)@,
            fi as int,
            (shard_link.from, ((outgoing_limit - inc) as int) as usize),
            shard_val(),
        );
        lemma_sum_by_update(
            old(incoming_limits)@,
            ti as int,
            (shard_link.to, ((incoming_limit - inc) as int) as usize),
            shard_val(),
        );
        let og = old(granted)@;
        let ng = granted@;
        let e = (shard_link, (cur + inc) as usize);
        assert forall|sh: ShardUId| #[trigger] from_sum(ng, sh) == from_sum(og, sh) + (
        if sh == shard_link.from {
            inc as int
        } else {
            0
        }) by {
            if old(granted).spec_contains(shard_link) {
                let gi = old(granted).spec_index_of(shard_link);
                old(granted).lemma_key_at(gi);
                lemma_sum_by_update(og, gi, e, dir_val(sh, false));
            } else {
                let p = choose|p: int|
                    0 <= p <= og.len() && ng == #[trigger] og.insert(p, e);
                lemma_sum_by_insert(og, p, e, dir_val(sh, false));
            }
        }
        assert forall|sh: ShardUId| #[trigger] to_sum(ng, sh) == to_sum(og, sh) + (
        if sh == shard_link.to {
            inc as int
        } else {
            0
        }) by {
            if old(granted).spec_contains(shard_link) {
                let gi = old(granted).spec_index_of(shard_link);
                old(granted).lemma_key_at(gi);
                lemma_sum_by_update(og, gi, e, dir_val(sh, true));
            } else {
                let p = choose|p: int|
                    0 <= p <= og.len() && ng == #[trigger] og.insert(p, e);
                lemma_sum_by_insert(og, p, e, dir_val(sh, true));
            }
        }
        // Per-link bookkeeping: only the granted link's entry moved.
        lemma_value_or_zero(granted, shard_link);
        assert forall|l: ShardLink| l != shard_link implies #[trigger] value_or_zero(ng, l)
            == value_or_zero(og, l) by {
            lemma_value_or_zero(granted, l);
            lemma_value_or_zero(old(granted), l);
        }
    }
    Ok(())
}


/// A bandwidth request in the scheduler's working form: the remaining
/// increases over what has been granted so far, and the link's current
/// allowance for priority ordering.
struct PendingRequest {
    allowance: usize,
    shard_link: ShardLink,
    bandwidth_increases: Vec<usize>,
    next: usize,
}

/// Structural soundness of a pending request against the block's shards.
spec fn pending_ok(chunks: ShardMap<Option<crate::chain::Chunk>>) -> spec_fn(PendingRequest) -> bool {
    |e: PendingRequest|
        e.next <= e.bandwidth_increases@.len() && chunks.spec_contains(e.shard_link.from)
            && chunks.spec_contains(e.shard_link.to)
}

/// Work left in one pending request, counting the entry itself.
spec fn pending_weight() -> spec_fn(PendingRequest) -> int {
    |e: PendingRequest| e.bandwidth_increases@.len() - e.next + 1
}

/// Work left in a collection of pending requests.
spec fn pending_measure(s: Seq<PendingRequest>) -> int {
    sum_by(s, pending_weight())
}

/// One when a request can be honored inside this block: its receiver is one
/// of the block's shards.
spec fn eligible_req_val(chunks: ShardMap<Option<crate::chain::Chunk>>) -> spec_fn(
    crate::bandwidth_request::BandwidthRequest,
) -> int {
    |r: crate::bandwidth_request::BandwidthRequest|
        if chunks.spec_contains(r.to_shard) {
            1
        } else {
            0
        }
}

/// Eligible requests carried by one chunk slot.
spec fn eligible_count_val(chunks: ShardMap<Option<crate::chain::Chunk>>) -> spec_fn(
    (ShardUId, Option<crate::chain::Chunk>),
) -> int {
    |e: (ShardUId, Option<crate::chain::Chunk>)|
        match e.1 {
            Some(c) => sum_by(c.bandwidth_requests@, eligible_req_val(chunks)),
            None => 0,
        }
}

/// How many requests of the block can be honored inside it.
spec fn spec_eligible_requests(chunks: ShardMap<Option<crate::chain::Chunk>>) -> int {
    sum_by(chunks@, eligible_count_val(chunks))
}

/// Request `q` of slot `t` exists, its chunk is present, and its receiver
/// is a shard of the block.
spec fn eligible_request_at(
    chunks: ShardMap<Option<crate::chain::Chunk>>,
    t: int,
    q: int,
) -> bool {
    &&& 0 <= t < chunks@.len()
    &&& match chunks@[t].1 {
        Some(c) => 0 <= q < c.bandwidth_requests@.len() && chunks.spec_contains(
            c.bandwidth_requests@[q].to_shard,
        ),
        None => false,
    }
}

/// The working entry that request `q` of the present chunk at slot `t` must
/// become: the link from the chunk's shard to the request's receiver, the
/// link's current allowance, and the positive increases between consecutive
/// decoded grant options, starting from the base bandwidth.
spec fn request_entry_ok(
    e: PendingRequest,
    chunks: ShardMap<Option<crate::chain::Chunk>>,
    allowances: Seq<(ShardLink, usize)>,
    base: int,
    t: int,
    q: int,
) -> bool {
    &&& 0 <= t < chunks@.len()
    &&& match chunks@[t].1 {
        Some(c) => {
            &&& 0 <= q < c.bandwidth_requests@.len()
            &&& {
                let req = c.bandwidth_requests@[q];
                let opts = crate::bandwidth_request::decoded_prefix(
                    req.grant_options_bitmap.bits(),
                    crate::bandwidth_request::ladder(base),
                    40,
                );
                &&& chunks.spec_contains(req.to_shard)
                &&& e.shard_link == (ShardLink { from: chunks@[t].0, to: req.to_shard })
                &&& e.next == 0
                &&& e.allowance as int == allowance_of(allowances, e.shard_link)
                &&& e.bandwidth_increases@.len() == opts.len()
                &&& forall|w: int|
                    0 <= w < opts.len() ==> (#[trigger] e.bandwidth_increases@[w]) as int
                        == opts[w] - (if w == 0 {
                        base
                    } else {
                        opts[w - 1] as int
                    })
                &&& forall|w: int|
                    0 <= w < opts.len() ==> (#[trigger] e.bandwidth_increases@[w]) >= 1
            }
        },
        None => false,
    }
}

/// The entry is the working form of some request of the block.
spec fn entry_from_block(
    e: PendingRequest,
    chunks: ShardMap<Option<crate::chain::Chunk>>,
    allowances: Seq<(ShardLink, usize)>,
    base: int,
) -> bool {
    exists|t: int, q: int| request_entry_ok(e, chunks, allowances, base, t, q)
}

/// The working form of request `q` at slot `t` occurs in the vector.
spec fn entry_present(
    pending: Seq<PendingRequest>,
    chunks: ShardMap<Option<crate::chain::Chunk>>,
    allowances: Seq<(ShardLink, usize)>,
    base: int,
    t: int,
    q: int,
) -> bool {
    exists|i: int|
        0 <= i < pending.len() && request_entry_ok(
            #[trigger] pending[i],
            chunks,
            allowances,
            base,
            t,
            q,
        )
}

/// Extending the vector on the right keeps every present entry present.
proof fn lemma_entry_present_extend(
    pre: Seq<PendingRequest>,
    post: Seq<PendingRequest>,
    chunks: ShardMap<Option<crate::chain::Chunk>>,
    allowances: Seq<(ShardLink, usize)>,
    base: int,
    t: int,
    q: int,
)
    requires
        entry_present(pre, chunks, allowances, base, t, q),
        pre.len() <= post.len(),
        forall|i: int| 0 <= i < pre.len() ==> #[trigger] post[i] == pre[i],
    ensures
        entry_present(post, chunks, allowances, base, t, q),
{
    let i = choose|i: int|
        0 <= i < pre.len() && request_entry_ok(#[trigger] pre[i], chunks, allowances, base, t, q);
    assert(request_entry_ok(post[i], chunks, allowances, base, t, q));
}

/// Relies on rand's `SliceRandom::shuffle`: permutes the vector in place.
/// Whatever order comes back, the entries are exactly the old ones.
#[verifier::external_body]
fn shuffle_requests(v: &mut Vec<PendingRequest>, rng: &mut DefaultRng)
    ensures
        final(v)@.to_multiset() == old(v)@.to_multiset(),
{
    v.as_mut_slice().shuffle(rng)
}

/// Limit maps built over the block's shards answer membership exactly like
/// the block's chunk table.
proof fn lemma_same_keys(a: &ShardMap<usize>, b: &ShardMap<Option<crate::chain::Chunk>>)
    requires
        a.wf(),
        b.wf(),
        a@.len() == b@.len(),
        forall|t: int| 0 <= t < a@.len() ==> (#[trigger] a@[t]).0 == b@[t].0,
    ensures
        forall|sh: ShardUId| a.spec_contains(sh) <==> b.spec_contains(sh),
{
    assert forall|sh: ShardUId| a.spec_contains(sh) <==> b.spec_contains(sh) by {
        if a.spec_contains(sh) {
            let i = a.spec_index_of(sh);
            assert(b@[i].0 == sh);
        }
        if b.spec_contains(sh) {
            let i = b.spec_index_of(sh);
            assert(a@[i].0 == sh);
        }
    }
}


/// Fresh outgoing and incoming limits for the block's shards: full send
/// capacity everywhere, full receive capacity only where the previous chunk
/// is present.
fn init_limits(chunks: &ShardMap<Option<crate::chain::Chunk>>) -> (r: (
    ShardMap<usize>,
    ShardMap<usize>,
))
    requires
        chunks.wf(),
    ensures
        r.0.wf(),
        r.1.wf(),
        r.0@.len() == chunks@.len(),
        r.1@.len() == chunks@.len(),
        forall|t: int|
            0 <= t < chunks@.len() ==> (#[trigger] r.0@[t]) == ((#[trigger] chunks@[t]).0,
            MAX_SHARD_BANDWIDTH),
        forall|t: int|
            0 <= t < chunks@.len() ==> (#[trigger] r.1@[t]) == ((#[trigger] chunks@[t]).0, (
            match chunks@[t].1 {
                Some(_) => MAX_SHARD_BANDWIDTH,
                None => 0usize,
            })),
{
    let n = chunks.len();
    let mut outgoing_limits = ShardMap::<usize>::new();
    let mut incoming_limits = ShardMap::<usize>::new();
    let mut t: usize = 0;
    while t < n
        invariant
            t <= n,
            n == chunks@.len(),
            chunks.wf(),
            outgoing_limits.wf(),
            incoming_limits.wf(),
            outgoing_limits@.len() == t,
            incoming_limits@.len() == t,
            forall|j: int|
                0 <= j < t ==> (#[trigger] outgoing_limits@[j]) == ((#[trigger] chunks@[j]).0,
                MAX_SHARD_BANDWIDTH),
            forall|j: int|
                0 <= j < t ==> (#[trigger] incoming_limits@[j]) == ((#[trigger] chunks@[j]).0, (
                match chunks@[j].1 {
                    Some(_) => MAX_SHARD_BANDWIDTH,
                    None => 0usize,
                })),
        decreases n - t,
    {
        let key = chunks.key_at(t);
        let max_incoming = match chunks.val_at(t) {
            Some(_) => MAX_SHARD_BANDWIDTH,
            None => 0,
        };
        proof {
            assert forall|j: int| 0 <= j < outgoing_limits@.len() implies uid_lt(
                (#[trigger] outgoing_limits@[j]).0,
                key,
            ) by {
                assert(outgoing_limits@[j].0 == chunks@[j].0);
                assert(uid_lt(chunks@[j].0, chunks@[t as int].0));
            }
            assert forall|j: int| 0 <= j < incoming_limits@.len() implies uid_lt(
                (#[trigger] incoming_limits@[j]).0,
                key,
            ) by {
                assert(incoming_limits@[j].0 == chunks@[j].0);
                assert(uid_lt(chunks@[j].0, chunks@[t as int].0));
            }
        }
        outgoing_limits.push_max(key, MAX_SHARD_BANDWIDTH);
        incoming_limits.push_max(key, max_incoming);
        t = t + 1;
    }
    (outgoing_limits, incoming_limits)
}

/// Grant the base bandwidth on every ordered pair of shards; grants to
/// shards without receive budget simply fail and are skipped. Starting from
/// an empty table, every pair with a present receiver succeeds, because the
/// whole base budget is small next to the per-shard caps.
#[verifier::rlimit(100)]
fn grant_base(
    granted: &mut LinkMap<usize>,
    outgoing_limits: &mut ShardMap<usize>,
    incoming_limits: &mut ShardMap<usize>,
    chunks: &ShardMap<Option<crate::chain::Chunk>>,
    base_bandwidth: usize,
)
    requires
        grant_state(*old(granted), *old(outgoing_limits), *old(incoming_limits), *chunks),
        chunks.wf(),
        old(granted)@.len() == 0,
        chunks@.len() * base_bandwidth <= MAX_SHARD_BANDWIDTH - MAX_RECEIPT_SIZE,
    ensures
        grant_state(*final(granted), *final(outgoing_limits), *final(incoming_limits), *chunks),
        map_sum(final(outgoing_limits)@) - map_sum(final(incoming_limits)@) == map_sum(
            old(outgoing_limits)@,
        ) - map_sum(old(incoming_limits)@),
        forall|ai: int, bi: int|
            0 <= ai < chunks@.len() && 0 <= bi < chunks@.len() && (#[trigger] chunks@[bi]).1
                is Some ==> value_or_zero(
                final(granted)@,
                ShardLink { from: (#[trigger] chunks@[ai]).0, to: chunks@[bi].0 },
            ) >= base_bandwidth,
{
    let n = chunks.len();
    let ghost base = base_bandwidth as int;
    proof {
        assert forall|s: int| 0 <= s < n implies #[trigger] from_sum(granted@, chunks@[s].0)
            == 0 && to_sum(granted@, chunks@[s].0) == 0 by {}
        assert forall|ai: int, bi: int| 0 <= ai < n && 0 <= bi < n implies
            #[trigger] value_or_zero(
                granted@,
                ShardLink { from: chunks@[ai].0, to: chunks@[bi].0 },
            ) == 0 by {}
    }
    let mut a: usize = 0;
    while a < n
        invariant
            a <= n,
            n == chunks@.len(),
            chunks.wf(),
            base == base_bandwidth as int,
            n * base <= MAX_SHARD_BANDWIDTH - MAX_RECEIPT_SIZE,
            grant_state(*granted, *outgoing_limits, *incoming_limits, *chunks),
            map_sum(outgoing_limits@) - map_sum(incoming_limits@) == map_sum(
                old(outgoing_limits)@,
            ) - map_sum(old(incoming_limits)@),
            forall|s: int|
                0 <= s < n ==> #[trigger] from_sum(granted@, chunks@[s].0) <= (
                if s < a {
                    n * base
                } else {
                    0
                }),
            forall|s: int|
                0 <= s < n ==> #[trigger] to_sum(granted@, chunks@[s].0) <= a * base,
            forall|ai: int, bi: int|
                0 <= ai < a && 0 <= bi < n && (#[trigger] chunks@[bi]).1 is Some
                    ==> value_or_zero(
                    granted@,
                    ShardLink { from: (#[trigger] chunks@[ai]).0, to: chunks@[bi].0 },
                ) >= base,
        decreases n - a,
    {
        let from = chunks.key_at(a);
        proof {
            chunks.lemma_key_at(a as int);
        }
        let mut b: usize = 0;
        while b < n
            invariant
                b <= n,
                a < n,
                n == chunks@.len(),
                chunks.wf(),
                base == base_bandwidth as int,
                n * base <= MAX_SHARD_BANDWIDTH - MAX_RECEIPT_SIZE,
                from == chunks@[a as int].0,
                chunks.spec_contains(from),
                grant_state(*granted, *outgoing_limits, *incoming_limits, *chunks),
                map_sum(outgoing_limits@) - map_sum(incoming_limits@) == map_sum(
                    old(outgoing_limits)@,
                ) - map_sum(old(incoming_limits)@),
                forall|s: int|
                    0 <= s < n && s != a ==> #[trigger] from_sum(granted@, chunks@[s].0) <= (
                    if s < a {
                        n * base
                    } else {
                        0
                    }),
                from_sum(granted@, chunks@[a as int].0) <= b * base,
                forall|s: int|
                    0 <= s < n ==> #[trigger] to_sum(granted@, chunks@[s].0) <= a * base + (
                    if s < b {
                        base
                    } else {
                        0
                    }),
                forall|ai: int, bi: int|
                    0 <= ai < a && 0 <= bi < n && (#[trigger] chunks@[bi]).1 is Some
                        ==> value_or_zero(
                        granted@,
                        ShardLink { from: (#[trigger] chunks@[ai]).0, to: chunks@[bi].0 },
                    ) >= base,
                forall|bi: int|
                    0 <= bi < b && (#[trigger] chunks@[bi]).1 is Some ==> value_or_zero(
                        granted@,
                        ShardLink { from: chunks@[a as int].0, to: chunks@[bi].0 },
                    ) >= base,
            decreases n - b,
        {
            let to = chunks.key_at(b);
            proof {
                chunks.lemma_key_at(b as int);
                // The remaining budgets comfortably cover one more base
                // grant on both sides.
                assert(b * base <= n * base && a * base + base <= n * base)
                    by (nonlinear_arith)
                    requires
                        0 <= b <= n,
                        0 <= a < n,
                        base >= 0,
                ;
            }
            let res = try_grant_additional_bandwidth(
                granted,
                outgoing_limits,
                incoming_limits,
                chunks,
                ShardLink { from, to },
                base_bandwidth,
            );
            proof {
                if chunks@[b as int].1 is Some {
                    // A present receiver still has at least the whole base
                    // budget of capacity free on both sides.
                    assert(res is Ok);
                }
                assert(b * base + base == (b + 1) * base) by (nonlinear_arith);
                assert(b * base <= (b + 1) * base) by (nonlinear_arith)
                    requires
                        base >= 0,
                        b >= 0,
                ;
            }
            b = b + 1;
        }
        proof {
            assert forall|s: int| 0 <= s < n implies #[trigger] to_sum(granted@, chunks@[s].0)
                <= (a + 1) * base by {
                assert(a * base + base == (a + 1) * base) by (nonlinear_arith);
            }
        }
        a = a + 1;
    }
}


impl BandwidthScheduler {
    /// Turn the previous block's bandwidth requests into the scheduler's
    /// working form: for each request, the increases between consecutive
    /// requested absolute grants, keyed by the link's current allowance.
    /// Requests towards shards outside the block cannot be satisfied and
    /// are ignored.
    fn build_requests(
        &self,
        prev_block: &Block,
        incoming_limits: &ShardMap<usize>,
        base_bandwidth: usize,
    ) -> (pending: Vec<PendingRequest>)
        requires
            self.wf(),
            prev_block.wf(),
            incoming_limits.wf(),
            base_bandwidth <= MAX_SHARD_BANDWIDTH - MAX_RECEIPT_SIZE,
            incoming_limits@.len() == prev_block.chunks@.len(),
            forall|t: int|
                0 <= t < prev_block.chunks@.len() ==> (#[trigger] incoming_limits@[t]).0
                    == prev_block.chunks@[t].0,
        ensures
            forall|i: int|
                0 <= i < pending@.len() ==> #[trigger] pending_ok(prev_block.chunks)(
                    pending@[i],
                ),
            pending@.len() == spec_eligible_requests(prev_block.chunks),
            forall|i: int|
                0 <= i < pending@.len() ==> entry_from_block(
                    #[trigger] pending@[i],
                    prev_block.chunks,
                    self.spec_allowances(),
                    base_bandwidth as int,
                ),
            forall|t: int, q: int|
                #[trigger] eligible_request_at(prev_block.chunks, t, q) ==> entry_present(
                    pending@,
                    prev_block.chunks,
                    self.spec_allowances(),
                    base_bandwidth as int,
                    t,
                    q,
                ),
    {
        let n = prev_block.chunks.len();
        let mut pending: Vec<PendingRequest> = Vec::new();
        proof {
            lemma_same_keys(incoming_limits, &prev_block.chunks);
            assert(prev_block.chunks@.take(0) =~= Seq::<(
                ShardUId,
                Option<crate::chain::Chunk>,
            )>::empty());
        }
        let mut t: usize = 0;
        while t < n
            invariant
                t <= n,
                n == prev_block.chunks@.len(),
                self.wf(),
                prev_block.wf(),
                incoming_limits.wf(),
                base_bandwidth <= MAX_SHARD_BANDWIDTH - MAX_RECEIPT_SIZE,
                forall|sh: ShardUId|
                    incoming_limits.spec_contains(sh) <==> prev_block.chunks.spec_contains(sh),
                forall|i: int|
                    0 <= i < pending@.len() ==> #[trigger] pending_ok(prev_block.chunks)(
                        pending@[i],
                    ),
                pending@.len() as int == sum_by(
                    prev_block.chunks@.take(t as int),
                    eligible_count_val(prev_block.chunks),
                ),
                forall|i: int|
                    0 <= i < pending@.len() ==> entry_from_block(
                        #[trigger] pending@[i],
                        prev_block.chunks,
                        self.spec_allowances(),
                        base_bandwidth as int,
                    ),
                forall|tt: int, qq: int|
                    tt < t && #[trigger] eligible_request_at(prev_block.chunks, tt, qq)
                        ==> entry_present(
                        pending@,
                        prev_block.chunks,
                        self.spec_allowances(),
                        base_bandwidth as int,
                        tt,
                        qq,
                    ),
            decreases n - t,
        {
            let from = prev_block.chunks.key_at(t);
            proof {
                prev_block.chunks.lemma_key_at(t as int);
            }
            let ghost row_start = pending@.len() as int;
            match prev_block.chunks.val_at(t) {
                Some(chunk) => {
                    let m = chunk.bandwidth_requests.len();
                    proof {
                        assert(chunk.bandwidth_requests@.take(0) =~= Seq::<
                            crate::bandwidth_request::BandwidthRequest,
                        >::empty());
                    }
                    let mut q: usize = 0;
                    while q < m
                        invariant
                            q <= m,
                            t < n,
                            n == prev_block.chunks@.len(),
                            m == chunk.bandwidth_requests@.len(),
                            self.wf(),
                            prev_block.wf(),
                            chunk.wf(),
                            incoming_limits.wf(),
                            base_bandwidth <= MAX_SHARD_BANDWIDTH - MAX_RECEIPT_SIZE,
                            from == prev_block.chunks@[t as int].0,
                            prev_block.chunks@[t as int].1 == Some(*chunk),
                            prev_block.chunks.spec_contains(from),
                            forall|sh: ShardUId|
                                incoming_limits.spec_contains(sh)
                                    <==> prev_block.chunks.spec_contains(sh),
                            forall|i: int|
                                0 <= i < pending@.len() ==> #[trigger] pending_ok(
                                    prev_block.chunks,
                                )(pending@[i]),
                            pending@.len() as int == row_start + sum_by(
                                chunk.bandwidth_requests@.take(q as int),
                                eligible_req_val(prev_block.chunks),
                            ),
                            row_start == sum_by(
                                prev_block.chunks@.take(t as int),
                                eligible_count_val(prev_block.chunks),
                            ),
                            forall|i: int|
                                0 <= i < pending@.len() ==> entry_from_block(
                                    #[trigger] pending@[i],
                                    prev_block.chunks,
                                    self.spec_allowances(),
                                    base_bandwidth as int,
                                ),
                            forall|tt: int, qq: int|
                                tt < t && #[trigger] eligible_request_at(
                                    prev_block.chunks,
                                    tt,
                                    qq,
                                ) ==> entry_present(
                                    pending@,
                                    prev_block.chunks,
                                    self.spec_allowances(),
                                    base_bandwidth as int,
                                    tt,
                                    qq,
                                ),
                            forall|qq: int|
                                qq < q && #[trigger] eligible_request_at(
                                    prev_block.chunks,
                                    t as int,
                                    qq,
                                ) ==> entry_present(
                                    pending@,
                                    prev_block.chunks,
                                    self.spec_allowances(),
                                    base_bandwidth as int,
                                    t as int,
                                    qq,
                                ),
                        decreases m - q,
                    {
                        proof {
                            lemma_sum_by_take_extend(
                                chunk.bandwidth_requests@,
                                q as int,
                                eligible_req_val(prev_block.chunks),
                            );
                        }
                        let req = &chunk.bandwidth_requests[q];
                        let ghost pre_pending = pending@;
                        if incoming_limits.contains_key(&req.to_shard) {
                            let shard_link = ShardLink { from, to: req.to_shard };
                            let grant_options = BandwidthRequestOptions::from_bitmap(
                                &req.grant_options_bitmap,
                                base_bandwidth,
                                MAX_SHARD_BANDWIDTH,
                            );
                            let w_total = grant_options.0.len();
                            let mut bandwidth_increases: Vec<usize> = Vec::new();
                            let mut last_option: usize = base_bandwidth;
                            let mut w: usize = 0;
                            while w < w_total
                                invariant
                                    w <= w_total,
                                    w_total == grant_options.0@.len(),
                                    bandwidth_increases@.len() == w,
                                    base_bandwidth <= MAX_SHARD_BANDWIDTH - MAX_RECEIPT_SIZE,
                                    last_option == (if w == 0 {
                                        base_bandwidth
                                    } else {
                                        grant_options.0@[w - 1]
                                    }),
                                    forall|a: int, b: int|
                                        0 <= a < b < w_total ==> (#[trigger] grant_options.0@[a])
                                            < (#[trigger] grant_options.0@[b]),
                                    forall|i: int|
                                        0 <= i < w_total ==> base_bandwidth < (
                                        #[trigger] grant_options.0@[i]) <= MAX_SHARD_BANDWIDTH,
                                    forall|ww: int|
                                        0 <= ww < w ==> (
                                        #[trigger] bandwidth_increases@[ww]) as int
                                            == grant_options.0@[ww] as int - (if ww == 0 {
                                            base_bandwidth as int
                                        } else {
                                            grant_options.0@[ww - 1] as int
                                        }),
                                    forall|ww: int|
                                        0 <= ww < w ==> (#[trigger] bandwidth_increases@[ww])
                                            >= 1,
                                decreases w_total - w,
                            {
                                let bandwidth_option = grant_options.0[w];
                                // Each option strictly exceeds the previous
                                // one, so the increase is positive.
                                bandwidth_increases.push(bandwidth_option - last_option);
                                last_option = bandwidth_option;
                                w = w + 1;
                            }
                            let allowance = self.get_allowance(shard_link);
                            pending.push(
                                PendingRequest {
                                    allowance,
                                    shard_link,
                                    bandwidth_increases,
                                    next: 0,
                                },
                            );
                            proof {
                                let gbase = base_bandwidth as int;
                                let e = pending@.last();
                                assert(request_entry_ok(
                                    e,
                                    prev_block.chunks,
                                    self.spec_allowances(),
                                    gbase,
                                    t as int,
                                    q as int,
                                ));
                                assert(entry_from_block(
                                    e,
                                    prev_block.chunks,
                                    self.spec_allowances(),
                                    gbase,
                                ));
                                assert(forall|i: int|
                                    0 <= i < pre_pending.len() ==> #[trigger] pending@[i]
                                        == pre_pending[i]);
                                assert(entry_present(
                                    pending@,
                                    prev_block.chunks,
                                    self.spec_allowances(),
                                    gbase,
                                    t as int,
                                    q as int,
                                ));
                                assert forall|tt: int, qq: int|
                                    tt < t && #[trigger] eligible_request_at(
                                        prev_block.chunks,
                                        tt,
                                        qq,
                                    ) implies entry_present(
                                    pending@,
                                    prev_block.chunks,
                                    self.spec_allowances(),
                                    gbase,
                                    tt,
                                    qq,
                                ) by {
                                    lemma_entry_present_extend(
                                        pre_pending,
                                        pending@,
                                        prev_block.chunks,
                                        self.spec_allowances(),
                                        gbase,
                                        tt,
                                        qq,
                                    );
                                }
                                assert forall|qq: int|
                                    qq < q + 1 && #[trigger] eligible_request_at(
                                        prev_block.chunks,
                                        t as int,
                                        qq,
                                    ) implies entry_present(
                                    pending@,
                                    prev_block.chunks,
                                    self.spec_allowances(),
                                    gbase,
                                    t as int,
                                    qq,
                                ) by {
                                    if qq < q {
                                        lemma_entry_present_extend(
                                            pre_pending,
                                            pending@,
                                            prev_block.chunks,
                                            self.spec_allowances(),
                                            gbase,
                                            t as int,
                                            qq,
                                        );
                                    }
                                }
                            }
                        } else {
                            proof {
                                assert(!eligible_request_at(
                                    prev_block.chunks,
                                    t as int,
                                    q as int,
                                ));
                            }
                        }
                        q = q + 1;
                    }
                    proof {
                        assert(chunk.bandwidth_requests@.take(m as int)
                            =~= chunk.bandwidth_requests@);
                        lemma_sum_by_take_extend(
                            prev_block.chunks@,
                            t as int,
                            eligible_count_val(prev_block.chunks),
                        );
                    }
                },
                None => {
                    proof {
                        lemma_sum_by_take_extend(
                            prev_block.chunks@,
                            t as int,
                            eligible_count_val(prev_block.chunks),
                        );
                        assert forall|qq: int|
                            !eligible_request_at(prev_block.chunks, t as int, qq) by {}
                    }
                },
            }
            t = t + 1;
        }
        proof {
            assert(prev_block.chunks@.take(n as int) =~= prev_block.chunks@);
        }
        pending
    }
}

/// Apply the residual grants from `distribute_remaining_bandwidth`; each is
/// covered by the remaining limits, so none of them can fail.
fn apply_remaining(
    granted: &mut LinkMap<usize>,
    outgoing_limits: &mut ShardMap<usize>,
    incoming_limits: &mut ShardMap<usize>,
    chunks: &ShardMap<Option<crate::chain::Chunk>>,
)
    requires
        grant_state(*old(granted), *old(outgoing_limits), *old(incoming_limits), *chunks),
        chunks.wf(),
        map_sum(old(outgoing_limits)@) <= usize::MAX,
        map_sum(old(incoming_limits)@) <= usize::MAX,
    ensures
        grant_state(*final(granted), *final(outgoing_limits), *final(incoming_limits), *chunks),
        map_sum(final(outgoing_limits)@) == map_sum(old(outgoing_limits)@)
            - crate::distribute_remaining::spec_min(
            map_sum(old(outgoing_limits)@),
            map_sum(old(incoming_limits)@),
        ),
        map_sum(final(incoming_limits)@) == map_sum(old(incoming_limits)@)
            - crate::distribute_remaining::spec_min(
            map_sum(old(outgoing_limits)@),
            map_sum(old(incoming_limits)@),
        ),
        forall|l: ShardLink|
            #[trigger] value_or_zero(final(granted)@, l) >= value_or_zero(old(granted)@, l),
{
    let remaining = distribute_remaining_bandwidth(outgoing_limits, incoming_limits);
    let ghost rem = remaining@;
    proof {
        lemma_same_keys(outgoing_limits, chunks);
        lemma_same_keys(incoming_limits, chunks);
        assert(rem.skip(0) =~= rem);
        assert(rem.take(0) =~= Seq::<(ShardLink, usize)>::empty());
    }
    let rn = remaining.len();
    let mut j: usize = 0;
    while j < rn
        invariant
            j <= rn,
            rn == rem.len(),
            remaining@ == rem,
            remaining.wf(),
            chunks.wf(),
            grant_state(*granted, *outgoing_limits, *incoming_limits, *chunks),
            outgoing_limits@.len() == chunks@.len(),
            map_sum(outgoing_limits@) == map_sum(old(outgoing_limits)@) - link_map_sum(
                rem.take(j as int),
            ),
            map_sum(incoming_limits@) == map_sum(old(incoming_limits)@) - link_map_sum(
                rem.take(j as int),
            ),
            forall|l: ShardLink|
                #[trigger] value_or_zero(granted@, l) >= value_or_zero(old(granted)@, l),
            forall|t: int|
                0 <= t < rem.len() ==> chunks.spec_contains((#[trigger] rem[t]).0.from)
                    && chunks.spec_contains(rem[t].0.to),
            forall|t: int|
                0 <= t < chunks@.len() ==> from_sum(rem.skip(j as int), (
                #[trigger] chunks@[t]).0) <= outgoing_limits@[t].1,
            forall|t: int|
                0 <= t < chunks@.len() ==> to_sum(rem.skip(j as int), (#[trigger] chunks@[t]).0)
                    <= incoming_limits@[t].1,
        decreases rn - j,
    {
        let shard_link = remaining.key_at(j);
        let grant = *remaining.val_at(j);
        proof {
            lemma_sum_by_nonneg(rem.skip(j + 1), dir_val(shard_link.from, false));
            lemma_sum_by_nonneg(rem.skip(j + 1), dir_val(shard_link.to, true));
            lemma_sum_by_skip_next(rem, j as int, dir_val(shard_link.from, false));
            lemma_sum_by_skip_next(rem, j as int, dir_val(shard_link.to, true));
            let fi = chunks.spec_index_of(shard_link.from);
            let ti = chunks.spec_index_of(shard_link.to);
            chunks.lemma_key_at(fi);
            chunks.lemma_key_at(ti);
            assert(grant as int <= from_sum(rem.skip(j as int), shard_link.from));
            assert(grant as int <= to_sum(rem.skip(j as int), shard_link.to));
        }
        let ghost old_out = outgoing_limits@;
        let ghost old_in = incoming_limits@;
        let res = try_grant_additional_bandwidth(
            granted,
            outgoing_limits,
            incoming_limits,
            chunks,
            shard_link,
            grant,
        );
        proof {
            // Distributing remaining bandwidth must succeed.
            if res is Err {
                assert(false);
            }
            lemma_sum_by_take_extend(rem, j as int, crate::sums::link_val());
            let fi = chunks.spec_index_of(shard_link.from);
            let ti = chunks.spec_index_of(shard_link.to);
            assert forall|t: int| 0 <= t < chunks@.len() implies from_sum(
                rem.skip(j + 1),
                (#[trigger] chunks@[t]).0,
            ) <= outgoing_limits@[t].1 by {
                lemma_sum_by_skip_next(rem, j as int, dir_val(chunks@[t].0, false));
                if t == fi {
                    assert(outgoing_limits@[t].1 == old_out[t].1 - grant);
                } else {
                    assert(outgoing_limits@[t] == old_out[t]);
                    assert(chunks@[t].0 != shard_link.from) by {
                        chunks.lemma_key_at(t);
                        chunks.lemma_key_at(fi);
                    }
                }
            }
            assert forall|t: int| 0 <= t < chunks@.len() implies to_sum(
                rem.skip(j + 1),
                (#[trigger] chunks@[t]).0,
            ) <= incoming_limits@[t].1 by {
                lemma_sum_by_skip_next(rem, j as int, dir_val(chunks@[t].0, true));
                if t == ti {
                    assert(incoming_limits@[t].1 == old_in[t].1 - grant);
                } else {
                    assert(incoming_limits@[t] == old_in[t]);
                    assert(chunks@[t].0 != shard_link.to) by {
                        chunks.lemma_key_at(t);
                        chunks.lemma_key_at(ti);
                    }
                }
            }
        }
        j = j + 1;
    }
    proof {
        assert(rem.take(rn as int) =~= rem);
    }
}


impl BandwidthScheduler {
    /// Process the pending bandwidth requests in allowance-priority order:
    /// repeatedly take the group with the highest allowance, shuffle it for
    /// fair tie-breaking, and hand each request its next increase if the
    /// limits still cover it. A satisfied request is re-queued under its new
    /// allowance; a failed or exhausted request is dropped for this height.
    fn process_requests(
        &mut self,
        requests: Vec<PendingRequest>,
        granted: &mut LinkMap<usize>,
        outgoing_limits: &mut ShardMap<usize>,
        incoming_limits: &mut ShardMap<usize>,
        chunks: &ShardMap<Option<crate::chain::Chunk>>,
        rng: &mut DefaultRng,
    )
        requires
            old(self).wf(),
            chunks.wf(),
            grant_state(*old(granted), *old(outgoing_limits), *old(incoming_limits), *chunks),
            forall|i: int|
                0 <= i < requests@.len() ==> #[trigger] pending_ok(*chunks)(requests@[i]),
        ensures
            final(self).wf(),
            grant_state(*final(granted), *final(outgoing_limits), *final(incoming_limits), *chunks),
            map_sum(final(outgoing_limits)@) - map_sum(final(incoming_limits)@) == map_sum(
                old(outgoing_limits)@,
            ) - map_sum(old(incoming_limits)@),
            forall|l: ShardLink|
                #[trigger] value_or_zero(final(granted)@, l) >= value_or_zero(old(granted)@, l),
            forall|l: ShardLink|
                #[trigger] allowance_of(final(self).spec_allowances(), l) <= allowance_of(
                    old(self).spec_allowances(),
                    l,
                ),
    {
        let mut pending = requests;
        while pending.len() > 0
            invariant
                self.wf(),
                chunks.wf(),
                grant_state(*granted, *outgoing_limits, *incoming_limits, *chunks),
                map_sum(outgoing_limits@) - map_sum(incoming_limits@) == map_sum(
                    old(outgoing_limits)@,
                ) - map_sum(old(incoming_limits)@),
                forall|l: ShardLink|
                    #[trigger] value_or_zero(granted@, l) >= value_or_zero(old(granted)@, l),
                forall|l: ShardLink|
                    #[trigger] allowance_of(self.spec_allowances(), l) <= allowance_of(
                        old(self).spec_allowances(),
                        l,
                    ),
                forall|i: int|
                    0 <= i < pending@.len() ==> #[trigger] pending_ok(*chunks)(pending@[i]),
            decreases pending_measure(pending@),
        {
            let ghost entry_measure = pending_measure(pending@);
            proof {
                assert forall|i: int| 0 <= i < pending@.len() implies #[trigger] pending_weight()(
                    pending@[i],
                ) >= 1 by {
                    assert(pending_ok(*chunks)(pending@[i]));
                }
                lemma_sum_by_lower_bound(pending@, 1, pending_weight());
            }
            // Find the highest allowance present.
            let mut max_allowance = pending[0].allowance;
            let mut s: usize = 1;
            while s < pending.len()
                invariant
                    1 <= s <= pending@.len(),
                    forall|i: int| 0 <= i < s ==> (#[trigger] pending@[i]).allowance
                        <= max_allowance,
                    exists|i: int| 0 <= i < s && (#[trigger] pending@[i]).allowance
                        == max_allowance,
                decreases pending@.len() - s,
            {
                if pending[s].allowance > max_allowance {
                    max_allowance = pending[s].allowance;
                }
                s = s + 1;
            }
            // Split off the group with that allowance.
            let mut group: Vec<PendingRequest> = Vec::new();
            let mut rest: Vec<PendingRequest> = Vec::new();
            proof {
                assert(group@ =~= Seq::<PendingRequest>::empty());
                assert(rest@ =~= Seq::<PendingRequest>::empty());
            }
            while pending.len() > 0
                invariant
                    chunks.wf(),
                    pending_measure(pending@) + pending_measure(group@) + pending_measure(rest@)
                        == entry_measure,
                    forall|i: int|
                        0 <= i < pending@.len() ==> #[trigger] pending_ok(*chunks)(pending@[i]),
                    forall|i: int|
                        0 <= i < group@.len() ==> #[trigger] pending_ok(*chunks)(group@[i]),
                    forall|i: int|
                        0 <= i < rest@.len() ==> #[trigger] pending_ok(*chunks)(rest@[i]),
                    forall|i: int|
                        0 <= i < group@.len() ==> (#[trigger] group@[i]).allowance
                            == max_allowance,
                    (exists|i: int|
                        0 <= i < pending@.len() && (#[trigger] pending@[i]).allowance
                            == max_allowance) || group@.len() >= 1,
                decreases pending@.len(),
            {
                let ghost pre = pending@;
                let e = match pending.pop() {
                    Some(e) => e,
                    None => {
                        proof {
                            assert(false);
                        }
                        continue;
                    },
                };
                proof {
                    lemma_sum_by_drop_last(pre, pending_weight());
                    if exists|i: int|
                        0 <= i < pre.len() && (#[trigger] pre[i]).allowance == max_allowance {
                        let wi = choose|i: int|
                            0 <= i < pre.len() && (#[trigger] pre[i]).allowance
                                == max_allowance;
                        if wi < pre.len() - 1 {
                            assert(pending@[wi].allowance == max_allowance);
                        }
                    }
                }
                if e.allowance == max_allowance {
                    proof {
                        lemma_sum_by_push(group@, e, pending_weight());
                    }
                    group.push(e);
                } else {
                    proof {
                        lemma_sum_by_push(rest@, e, pending_weight());
                    }
                    rest.push(e);
                }
            }
            pending = rest;
            let ghost group_before = group@;
            shuffle_requests(&mut group, rng);
            proof {
                lemma_sum_by_multiset(group_before, group@, pending_weight());
                crate::sums::lemma_perm_all(group_before, group@, pending_ok(*chunks));
                group_before.to_multiset_ensures();
                group@.to_multiset_ensures();
                assert(group_before.len() == group@.len());
            }
            let ghost m_enter = pending_measure(pending@) + pending_measure(group@);
            let ghost g0 = group@.len();
            // Hand each member of the shuffled group its next increase.
            while group.len() > 0
                invariant
                    self.wf(),
                    chunks.wf(),
                    grant_state(*granted, *outgoing_limits, *incoming_limits, *chunks),
                    map_sum(outgoing_limits@) - map_sum(incoming_limits@) == map_sum(
                        old(outgoing_limits)@,
                    ) - map_sum(old(incoming_limits)@),
                    forall|l: ShardLink|
                        #[trigger] value_or_zero(granted@, l) >= value_or_zero(
                            old(granted)@,
                            l,
                        ),
                    forall|l: ShardLink|
                        #[trigger] allowance_of(self.spec_allowances(), l) <= allowance_of(
                            old(self).spec_allowances(),
                            l,
                        ),
                    forall|i: int|
                        0 <= i < pending@.len() ==> #[trigger] pending_ok(*chunks)(pending@[i]),
                    forall|i: int|
                        0 <= i < group@.len() ==> #[trigger] pending_ok(*chunks)(group@[i]),
                    pending_measure(pending@) + pending_measure(group@) <= m_enter - (g0
                        - group@.len()),
                    group@.len() <= g0,
                decreases group@.len(),
            {
                let ghost pre_group = group@;
                let ghost pre_pending = pending@;
                let e = group.remove(0);
                proof {
                    lemma_sum_by_remove(pre_group, 0, pending_weight());
                    assert(pending_ok(*chunks)(e));
                }
                if e.next == e.bandwidth_increases.len() {
                    continue;
                }
                let bandwidth_increase = e.bandwidth_increases[e.next];
                let res = try_grant_additional_bandwidth(
                    granted,
                    outgoing_limits,
                    incoming_limits,
                    chunks,
                    e.shard_link,
                    bandwidth_increase,
                );
                match res {
                    Ok(_) => {
                        self.decrease_allowance(e.shard_link, bandwidth_increase);
                        let new_allowance = self.get_allowance(e.shard_link);
                        let requeued = PendingRequest {
                            allowance: new_allowance,
                            shard_link: e.shard_link,
                            bandwidth_increases: e.bandwidth_increases,
                            next: e.next + 1,
                        };
                        proof {
                            lemma_sum_by_push(pre_pending, requeued, pending_weight());
                            assert(pending_ok(*chunks)(requeued));
                        }
                        pending.push(requeued);
                    },
                    Err(_) => {},
                }
            }
            proof {
                assert(group@ =~= Seq::<PendingRequest>::empty());
                assert(pending_measure(group@) == 0);
                assert(g0 >= 1);
                assert(pending_measure(pending@) <= m_enter - g0);
                assert(m_enter == entry_measure);
                assert forall|i: int| 0 <= i < pending@.len() implies #[trigger] pending_weight()(
                    pending@[i],
                ) >= 0 by {
                    assert(pending_ok(*chunks)(pending@[i]));
                }
                lemma_sum_by_nonneg(pending@, pending_weight());
                assert(pending_measure(pending@) < entry_measure);
            }
        }
    }
}


/// Everything the scheduler guarantees of a grant table for a block.
///
/// Every granted link connects two shards of the block; per-sender and
/// per-receiver totals stay within the cap; a shard whose previous chunk is
/// missing receives nothing, while every present shard's receive capacity is
/// used up exactly; single grants stay within the cap; an empty block grants
/// nothing; and when no chunk is missing, every sender is saturated too.
pub open spec fn grants_ok(granted: LinkMap<usize>, chunks: ShardMap<Option<crate::chain::Chunk>>) -> bool {
    &&& granted.wf()
    &&& forall|t: int|
        0 <= t < granted@.len() ==> chunks.spec_contains((#[trigger] granted@[t]).0.from)
            && chunks.spec_contains(granted@[t].0.to)
    &&& forall|t: int|
        0 <= t < chunks@.len() ==> from_sum(granted@, (#[trigger] chunks@[t]).0)
            <= MAX_SHARD_BANDWIDTH && to_sum(granted@, chunks@[t].0) <= MAX_SHARD_BANDWIDTH
    &&& forall|t: int|
        0 <= t < chunks@.len() ==> ((#[trigger] chunks@[t]).1 is None ==> to_sum(
            granted@,
            chunks@[t].0,
        ) == 0)
    &&& forall|t: int|
        0 <= t < chunks@.len() ==> ((#[trigger] chunks@[t]).1 is Some ==> to_sum(
            granted@,
            chunks@[t].0,
        ) == MAX_SHARD_BANDWIDTH)
    &&& forall|t: int| 0 <= t < granted@.len() ==> (#[trigger] granted@[t]).1 <= MAX_SHARD_BANDWIDTH
    &&& (chunks@.len() == 0 ==> granted@.len() == 0)
    &&& ((forall|t: int| 0 <= t < chunks@.len() ==> (#[trigger] chunks@[t]).1 is Some)
        ==> (forall|t: int|
        0 <= t < chunks@.len() ==> from_sum(granted@, (#[trigger] chunks@[t]).0)
            == MAX_SHARD_BANDWIDTH))
}

impl BandwidthScheduler {
    /// Run the scheduler over the previous block.
    ///
    /// Returns the bytes granted on every link for the current height. The
    /// result respects the per-shard caps on both sides, grants nothing
    /// towards shards whose previous chunk is missing, and only names shards
    /// of the block.
    pub fn run(&mut self, prev_block: &Block, rng: &mut DefaultRng) -> (granted: LinkMap<usize>)
        requires
            old(self).wf(),
            prev_block.wf(),
            prev_block.chunks@.len() * MAX_SHARD_BANDWIDTH <= usize::MAX,
        ensures
            final(self).wf(),
            forall|i: int|
                0 <= i < final(self).spec_allowances().len() ==> (#[trigger] final(
                    self).spec_allowances()[i]).1 <= MAX_ALLOWANCE,
            granted.wf(),
            forall|t: int|
                0 <= t < granted@.len() ==> prev_block.chunks.spec_contains(
                    (#[trigger] granted@[t]).0.from,
                ) && prev_block.chunks.spec_contains(granted@[t].0.to),
            forall|t: int|
                0 <= t < prev_block.chunks@.len() ==> from_sum(
                    granted@,
                    (#[trigger] prev_block.chunks@[t]).0,
                ) <= MAX_SHARD_BANDWIDTH && to_sum(granted@, prev_block.chunks@[t].0)
                    <= MAX_SHARD_BANDWIDTH,
            forall|t: int|
                0 <= t < prev_block.chunks@.len() ==> ((#[trigger] prev_block.chunks@[t]).1
                    is None ==> to_sum(granted@, prev_block.chunks@[t].0) == 0),
            forall|t: int| 0 <= t < granted@.len() ==> (#[trigger] granted@[t]).1
                <= MAX_SHARD_BANDWIDTH,
            prev_block.chunks@.len() == 0 ==> granted@.len() == 0,
            forall|t: int|
                0 <= t < prev_block.chunks@.len() ==> ((#[trigger] prev_block.chunks@[t]).1
                    is Some ==> to_sum(granted@, prev_block.chunks@[t].0)
                    == MAX_SHARD_BANDWIDTH),
            (forall|t: int|
                0 <= t < prev_block.chunks@.len() ==> (#[trigger] prev_block.chunks@[t]).1
                    is Some) ==> (forall|t: int|
                0 <= t < prev_block.chunks@.len() ==> from_sum(
                    granted@,
                    (#[trigger] prev_block.chunks@[t]).0,
                ) == MAX_SHARD_BANDWIDTH),
            grants_ok(granted, prev_block.chunks),
            forall|t: int, u: int|
                0 <= t < prev_block.chunks@.len() && 0 <= u < prev_block.chunks@.len() && (
                #[trigger] prev_block.chunks@[u]).1 is Some ==> value_or_zero(
                    granted@,
                    ShardLink { from: (#[trigger] prev_block.chunks@[t]).0, to: prev_block.chunks@[u].0 },
                ) >= spec_base_bandwidth(prev_block.chunks@.len() as int),
            prev_block.chunks@.len() == 0 ==> *final(self) == *old(self),
    {
        let n = prev_block.chunks.len();
        if n == 0 {
            // No chunks, no bandwidth grants.
            let granted = LinkMap::new();
            proof {
                assert(granted@.len() == 0);
            }
            return granted;
        }
        // New height - grant every link a fair share of allowance.
        let base_bandwidth = self.get_base_bandwidth(n);
        let allowance_per_height = MAX_SHARD_BANDWIDTH / n;
        proof {
            assert(allowance_per_height <= MAX_ALLOWANCE) by (nonlinear_arith)
                requires
                    allowance_per_height == MAX_SHARD_BANDWIDTH / n,
                    n >= 1,
                    MAX_ALLOWANCE == MAX_SHARD_BANDWIDTH,
            ;
        }
        let mut a: usize = 0;
        while a < n
            invariant
                a <= n,
                n == prev_block.chunks@.len(),
                prev_block.wf(),
                self.wf(),
                allowance_per_height <= MAX_ALLOWANCE,
            decreases n - a,
        {
            let from_shard = prev_block.chunks.key_at(a);
            let mut b: usize = 0;
            while b < n
                invariant
                    b <= n,
                    a < n,
                    n == prev_block.chunks@.len(),
                    prev_block.wf(),
                    self.wf(),
                    allowance_per_height <= MAX_ALLOWANCE,
                decreases n - b,
            {
                let to_shard = prev_block.chunks.key_at(b);
                self.add_allowance(
                    ShardLink { from: from_shard, to: to_shard },
                    allowance_per_height,
                );
                b = b + 1;
            }
            a = a + 1;
        }
        // Initialize the per-shard limits for this height.
        let (mut outgoing_limits, mut incoming_limits) = init_limits(&prev_block.chunks);
        let ghost out_sum0 = map_sum(outgoing_limits@);
        let ghost in_sum0 = map_sum(incoming_limits@);
        proof {
            // Receive budgets never exceed send budgets, and they agree when
            // every chunk is present.
            lemma_sum_by_pointwise(
                outgoing_limits@,
                prev_block.chunks@,
                shard_val(),
                out_cap_val(),
            );
            lemma_sum_by_pointwise(
                incoming_limits@,
                prev_block.chunks@,
                shard_val(),
                in_cap_val(),
            );
            lemma_sum_by_le(prev_block.chunks@, in_cap_val(), out_cap_val());
            assert(in_sum0 <= out_sum0);
            if forall|t: int|
                0 <= t < prev_block.chunks@.len() ==> (#[trigger] prev_block.chunks@[t]).1
                    is Some {
                lemma_sum_by_le(prev_block.chunks@, out_cap_val(), in_cap_val());
                assert(in_sum0 == out_sum0);
            }
        }
        let mut granted = LinkMap::<usize>::new();
        proof {
            assert forall|t: int| 0 <= t < prev_block.chunks@.len() implies from_sum(
                granted@,
                (#[trigger] prev_block.chunks@[t]).0,
            ) == 0 && to_sum(granted@, prev_block.chunks@[t].0) == 0 by {
                assert(granted@.len() == 0);
            }
            assert(grant_state(granted, outgoing_limits, incoming_limits, prev_block.chunks));
        }
        // Grant the base bandwidth to every link.
        proof {
            // The whole base budget stays below the reserve for one
            // maximum-size receipt.
            let fair = (MAX_SHARD_BANDWIDTH - MAX_RECEIPT_SIZE) as int / (n as int);
            assert((n as int) * fair <= MAX_SHARD_BANDWIDTH - MAX_RECEIPT_SIZE)
                by (nonlinear_arith)
                requires
                    n >= 1,
                    fair == (MAX_SHARD_BANDWIDTH - MAX_RECEIPT_SIZE) as int / (n as int),
            ;
            assert((n as int) * (base_bandwidth as int) <= (n as int) * fair)
                by (nonlinear_arith)
                requires
                    base_bandwidth as int <= fair,
                    n >= 1,
            ;
        }
        grant_base(
            &mut granted,
            &mut outgoing_limits,
            &mut incoming_limits,
            &prev_block.chunks,
            base_bandwidth,
        );
        // Honor the bandwidth requests in allowance-priority order.
        let requests = self.build_requests(prev_block, &incoming_limits, base_bandwidth);
        self.process_requests(
            requests,
            &mut granted,
            &mut outgoing_limits,
            &mut incoming_limits,
            &prev_block.chunks,
            rng,
        );
        // Distribute the remaining bandwidth fairly between the shards.
        // These grants do not touch allowance and cannot fail.
        proof {
            assert forall|t: int| 0 <= t < outgoing_limits@.len() implies #[trigger] shard_val()(
                outgoing_limits@[t],
            ) <= MAX_SHARD_BANDWIDTH by {
                lemma_sum_by_nonneg(granted@, dir_val(prev_block.chunks@[t].0, false));
            }
            assert forall|t: int| 0 <= t < incoming_limits@.len() implies #[trigger] shard_val()(
                incoming_limits@[t],
            ) <= MAX_SHARD_BANDWIDTH by {
                lemma_sum_by_nonneg(granted@, dir_val(prev_block.chunks@[t].0, true));
            }
            lemma_sum_by_upper_bound(outgoing_limits@, MAX_SHARD_BANDWIDTH as int, shard_val());
            lemma_sum_by_upper_bound(incoming_limits@, MAX_SHARD_BANDWIDTH as int, shard_val());
        }
        apply_remaining(
            &mut granted,
            &mut outgoing_limits,
            &mut incoming_limits,
            &prev_block.chunks,
        );
        proof {
            // Every present receiver is saturated: the leftover distribution
            // drains the smaller side completely, and the receive side is
            // never larger.
            assert(map_sum(incoming_limits@) == 0);
            assert forall|t: int| 0 <= t < prev_block.chunks@.len() implies ((
            #[trigger] prev_block.chunks@[t]).1 is Some ==> to_sum(
                granted@,
                prev_block.chunks@[t].0,
            ) == MAX_SHARD_BANDWIDTH) by {
                assert forall|u: int|
                    0 <= u < incoming_limits@.len() implies #[trigger] shard_val()(
                    incoming_limits@[u],
                ) >= 0 by {}
                lemma_sum_by_elem_le(incoming_limits@, t, shard_val());
                assert(incoming_limits@[t].1 == 0);
            }
            if forall|t: int|
                0 <= t < prev_block.chunks@.len() ==> (#[trigger] prev_block.chunks@[t]).1
                    is Some {
                assert(map_sum(outgoing_limits@) == 0);
                assert forall|t: int| 0 <= t < prev_block.chunks@.len() implies from_sum(
                    granted@,
                    (#[trigger] prev_block.chunks@[t]).0,
                ) == MAX_SHARD_BANDWIDTH by {
                    assert forall|u: int|
                        0 <= u < outgoing_limits@.len() implies #[trigger] shard_val()(
                        outgoing_limits@[u],
                    ) >= 0 by {}
                    lemma_sum_by_elem_le(outgoing_limits@, t, shard_val());
                    assert(outgoing_limits@[t].1 == 0);
                }
            }
            // The caps follow from the accounting: what was granted plus
            // what is left always equals the cap, and what is left is never
            // negative.
            assert forall|t: int| 0 <= t < prev_block.chunks@.len() implies from_sum(
                granted@,
                (#[trigger] prev_block.chunks@[t]).0,
            ) <= MAX_SHARD_BANDWIDTH && to_sum(granted@, prev_block.chunks@[t].0)
                <= MAX_SHARD_BANDWIDTH by {
            }
            assert forall|t: int| 0 <= t < prev_block.chunks@.len() implies ((
            #[trigger] prev_block.chunks@[t]).1 is None ==> to_sum(
                granted@,
                prev_block.chunks@[t].0,
            ) == 0) by {
                if prev_block.chunks@[t].1 is None {
                    lemma_sum_by_nonneg(granted@, dir_val(prev_block.chunks@[t].0, true));
                }
            }
            assert forall|t: int| 0 <= t < granted@.len() implies (#[trigger] granted@[t]).1
                <= MAX_SHARD_BANDWIDTH by {
                let sh = granted@[t].0.from;
                let u = prev_block.chunks.spec_index_of(sh);
                prev_block.chunks.lemma_key_at(u);
                lemma_sum_by_elem_le(granted@, t, dir_val(sh, false));
            }
        }
        granted
    }
}

} // verus!
