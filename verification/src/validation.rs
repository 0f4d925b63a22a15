//! Post-hoc checks and metrics over a finished simulation run.

use vstd::prelude::*;

use crate::chain::{Block, ShardLink, MAX_SHARD_BANDWIDTH};
use crate::maps::{LinkMap, ShardMap};
use crate::receipt_sender::ReceiptSender;
use crate::simulation::{Shard, SimulationRun};
use crate::sums::{lemma_sum_by_lower_bound, lemma_sum_by_take_extend, lemma_sum_by_upper_bound, sum_by};

verus! {

/// Grants are valid when no single link exceeds the per-shard cap.
pub open spec fn spec_grants_valid(grants: Seq<(ShardLink, usize)>) -> bool {
    forall|i: int| 0 <= i < grants.len() ==> (#[trigger] grants[i]).1 <= MAX_SHARD_BANDWIDTH
}

/// Check that every single grant stays within the per-shard cap. The
/// scheduler's contract already guarantees this for its own results.
pub fn validate_grants(grants: &LinkMap<usize>) -> (r: bool)
    ensures
        r == spec_grants_valid(grants@),
{
    let n = grants.len();
    let mut i: usize = 0;
    while i < n
        invariant
            i <= n,
            n == grants@.len(),
            forall|j: int| 0 <= j < i ==> (#[trigger] grants@[j]).1 <= MAX_SHARD_BANDWIDTH,
        decreases n - i,
    {
        if *grants.val_at(i) > MAX_SHARD_BANDWIDTH {
            return false;
        }
        i = i + 1;
    }
    true
}

/// Bytes a chunk table reports as sent on one link.
pub open spec fn chunk_link_bytes(
    chunks: ShardMap<Option<crate::chain::Chunk>>,
    link: ShardLink,
) -> int {
    if chunks.spec_contains(link.from) {
        match chunks.spec_value(link.from) {
            Some(c) => if c.prev_outgoing_receipts_size.spec_contains(link.to) {
                c.prev_outgoing_receipts_size.spec_value(link.to) as int
            } else {
                0
            },
            None => 0,
        }
    } else {
        0
    }
}

/// Contribution of one stored block to a link's processed bytes.
pub open spec fn block_link_val(link: ShardLink) -> spec_fn(Option<Block>) -> int {
    |b: Option<Block>|
        match b {
            Some(block) => chunk_link_bytes(block.chunks, link),
            None => 0,
        }
}

/// Total bytes actually shipped on `link` over a whole run.
pub open spec fn spec_link_processed(blocks: Seq<Option<Block>>, link: ShardLink) -> int {
    sum_by(blocks, block_link_val(link))
}

/// Bytes shipped on one link over the whole run.
pub fn link_processed(blocks: &Vec<Option<Block>>, link: ShardLink) -> (r: u64)
    requires
        crate::simulation::past_blocks_wf(blocks@),
        blocks@.len() <= 100_000_000,
    ensures
        r as int == spec_link_processed(blocks@, link),
{
    let n = blocks.len();
    let f = link;
    let mut acc: u64 = 0;
    let mut i: usize = 0;
    proof {
        assert(blocks@.take(0) =~= Seq::<Option<Block>>::empty());
    }
    while i < n
        invariant
            i <= n,
            n == blocks@.len(),
            n <= 100_000_000,
            crate::simulation::past_blocks_wf(blocks@),
            f == link,
            acc as int == sum_by(blocks@.take(i as int), block_link_val(link)),
            acc as int <= (i as int) * (MAX_SHARD_BANDWIDTH as int),
        decreases n - i,
    {
        let step: u64 = match &blocks[i] {
            Some(block) => {
                match block.chunks.get(&f.from) {
                    Some(chunk_opt) => match chunk_opt {
                        Some(chunk) => {
                            proof {
                                // The chunk's per-link sizes respect the cap.
                                let ci = block.chunks.spec_index_of(f.from);
                                if chunk.prev_outgoing_receipts_size.spec_contains(f.to) {
                                    let ti = chunk.prev_outgoing_receipts_size.spec_index_of(
                                        f.to,
                                    );
                                    assert(chunk.prev_outgoing_receipts_size@[ti].1
                                        <= MAX_SHARD_BANDWIDTH);
                                }
                            }
                            chunk.prev_outgoing_receipts_size.get_or_zero(&f.to) as u64
                        },
                        None => 0,
                    },
                    None => 0,
                }
            },
            None => 0,
        };
        proof {
            lemma_sum_by_take_extend(blocks@, i as int, block_link_val(link));
            assert(step as int == block_link_val(link)(blocks@[i as int]));
            assert(step <= MAX_SHARD_BANDWIDTH as u64);
        }
        acc = acc + step;
        i = i + 1;
    }
    proof {
        assert(blocks@.take(n as int) =~= blocks@);
    }
    acc
}

/// Contribution of one chunk slot to the missing count.
pub open spec fn chunk_missing_val() -> spec_fn((crate::chain::ShardUId, Option<crate::chain::Chunk>)) -> int {
    |e: (crate::chain::ShardUId, Option<crate::chain::Chunk>)|
        if e.1 is None {
            1
        } else {
            0
        }
}

/// Missing chunk slots contributed by one stored block.
pub open spec fn block_missing_val() -> spec_fn(Option<Block>) -> int {
    |b: Option<Block>|
        match b {
            Some(block) => sum_by(block.chunks@, chunk_missing_val()),
            None => 0,
        }
}

/// Chunk slots contributed by one stored block.
pub open spec fn block_slots_val() -> spec_fn(Option<Block>) -> int {
    |b: Option<Block>|
        match b {
            Some(block) => block.chunks@.len() as int,
            None => 0,
        }
}

/// Missing chunk slots over the present blocks of a run.
pub open spec fn spec_missing_chunks(blocks: Seq<Option<Block>>) -> int {
    sum_by(blocks, block_missing_val())
}

/// All chunk slots over the present blocks of a run.
pub open spec fn spec_total_chunks(blocks: Seq<Option<Block>>) -> int {
    sum_by(blocks, block_slots_val())
}

/// A link with an installed sender: its sending shard holds a sender other
/// than the silent one, keyed by the receiving shard.
pub open spec fn is_sender_link(shards: Seq<(crate::chain::ShardUId, Shard)>, link: ShardLink) -> bool {
    exists|s: int, q: int|
        0 <= s < shards.len() && (#[trigger] shards[s]).0 == link.from && 0 <= q
            < shards[s].1.receipt_senders@.len() && (
        #[trigger] shards[s].1.receipt_senders@[q]).0 == link.to && !(shards[s].1.receipt_senders@[q].1
            is No)
}

/// Contribution of one installed sender to its shard's processed bytes.
pub open spec fn sender_entry_processed(blocks: Seq<Option<Block>>, from: crate::chain::ShardUId) -> spec_fn((crate::chain::ShardUId, ReceiptSender)) -> int {
    |p: (crate::chain::ShardUId, ReceiptSender)|
        if p.1 is No {
            0
        } else {
            spec_link_processed(blocks, ShardLink { from, to: p.0 })
        }
}

/// Bytes processed over one shard's sender links.
pub open spec fn shard_processed_val(blocks: Seq<Option<Block>>) -> spec_fn((crate::chain::ShardUId, Shard)) -> int {
    |e: (crate::chain::ShardUId, Shard)|
        sum_by(e.1.receipt_senders@, sender_entry_processed(blocks, e.0))
}

/// Bytes processed over all sender links of the run.
pub open spec fn spec_total_processed(
    shards: Seq<(crate::chain::ShardUId, Shard)>,
    blocks: Seq<Option<Block>>,
) -> int {
    sum_by(shards, shard_processed_val(blocks))
}

/// A shard with at least one installed outgoing sender.
pub open spec fn shard_sends(shards: Seq<(crate::chain::ShardUId, Shard)>, sh: crate::chain::ShardUId) -> bool {
    exists|l: ShardLink| #[trigger] is_sender_link(shards, l) && l.from == sh
}

/// A shard that some installed sender targets.
pub open spec fn shard_receives(shards: Seq<(crate::chain::ShardUId, Shard)>, sh: crate::chain::ShardUId) -> bool {
    exists|l: ShardLink| #[trigger] is_sender_link(shards, l) && l.to == sh
}

/// Saturating product on the metric width.
pub open spec fn sat_mul(a: int, b: int) -> int {
    if a * b > u64::MAX {
        u64::MAX as int
    } else {
        a * b
    }
}

/// Fairness and utilization metrics of one run, as plain integer totals.
///
/// The reference set of links are those with an installed receipt sender.
/// `capacity_total` is the per-height cap times the number of heights times
/// the size of the smaller side of the reference links (sending or
/// receiving shards), the bottleneck of the workload.
pub struct TestStats {
    /// Most bytes processed on any reference link.
    pub max_link_processed: u64,
    /// Fewest bytes processed on any reference link.
    pub min_link_processed: u64,
    /// Bytes processed over all reference links.
    pub total_processed: u64,
    /// The smaller of the sending and the receiving side of the reference
    /// links, in shards.
    pub bottleneck: u64,
    /// What the bottleneck side could have carried at full speed.
    pub capacity_total: u64,
    /// Chunk slots that were missing, over blocks that were present.
    pub missing_chunks: u64,
    /// All chunk slots of present blocks, the genesis block included.
    pub total_chunks: u64,
    /// Simulated heights, the genesis block excluded.
    pub heights: u64,
}

impl TestStats {
    /// Collect the metrics of a finished run.
    #[verifier::rlimit(100)]
    pub fn new(run: &SimulationRun) -> (r: TestStats)
        requires
            run.simulation.wf(),
            run.simulation.blocks@.len() <= 100_000_000,
            run.simulation.shards@.len() <= 2000,
        ensures
            r.missing_chunks <= r.total_chunks,
            r.min_link_processed <= r.max_link_processed,
            r.missing_chunks as int == spec_missing_chunks(run.simulation.blocks@),
            r.total_chunks as int == spec_total_chunks(run.simulation.blocks@),
            r.heights as int == run.simulation.blocks@.len() - 1,
            (exists|l: ShardLink| is_sender_link(run.simulation.shards@, l)) ==> ((exists|
                l: ShardLink,
            |
                is_sender_link(run.simulation.shards@, l) && r.max_link_processed as int
                    == spec_link_processed(run.simulation.blocks@, l)) && (exists|l: ShardLink|
                is_sender_link(run.simulation.shards@, l) && r.min_link_processed as int
                    == spec_link_processed(run.simulation.blocks@, l)) && (forall|l: ShardLink|
                is_sender_link(run.simulation.shards@, l) ==> r.min_link_processed as int
                    <= #[trigger] spec_link_processed(run.simulation.blocks@, l)
                    <= r.max_link_processed as int)),
            !(exists|l: ShardLink| is_sender_link(run.simulation.shards@, l))
                ==> r.max_link_processed == 0 && r.min_link_processed == 0 && r.total_processed
                == 0,
            r.total_processed as int == spec_total_processed(
                run.simulation.shards@,
                run.simulation.blocks@,
            ) || (r.total_processed == u64::MAX && spec_total_processed(
                run.simulation.shards@,
                run.simulation.blocks@,
            ) >= u64::MAX as int),
            (exists|l: ShardLink| is_sender_link(run.simulation.shards@, l)) <==> r.bottleneck
                >= 1,
            r.capacity_total as int == sat_mul(
                sat_mul(r.bottleneck as int, MAX_SHARD_BANDWIDTH as int),
                r.heights as int,
            ),
    {
        let sim = &run.simulation;
        let blocks = &sim.blocks;
        // The links that actually carry a workload.
        let mut sender_links: Vec<ShardLink> = Vec::new();
        let ns = sim.shards.len();
        let mut s: usize = 0;
        while s < ns
            invariant
                s <= ns,
                ns == sim.shards@.len(),
                run.simulation.wf(),
                forall|i: int|
                    0 <= i < sender_links@.len() ==> is_sender_link(
                        sim.shards@,
                        #[trigger] sender_links@[i],
                    ),
                forall|si: int, qi: int|
                    0 <= si < s && 0 <= qi < (#[trigger] sim.shards@[si]).1.receipt_senders@.len()
                        && !((#[trigger] sim.shards@[si].1.receipt_senders@[qi]).1
                        is No) ==> sender_links@.contains(
                        ShardLink {
                            from: sim.shards@[si].0,
                            to: sim.shards@[si].1.receipt_senders@[qi].0,
                        },
                    ),
            decreases ns - s,
        {
            let shard = sim.shards.val_at(s);
            let from = sim.shards.key_at(s);
            let nq = shard.receipt_senders.len();
            let mut q: usize = 0;
            while q < nq
                invariant
                    q <= nq,
                    s < ns,
                    ns == sim.shards@.len(),
                    nq == sim.shards@[s as int].1.receipt_senders@.len(),
                    shard == sim.shards@[s as int].1,
                    from == sim.shards@[s as int].0,
                    run.simulation.wf(),
                    forall|i: int|
                        0 <= i < sender_links@.len() ==> is_sender_link(
                            sim.shards@,
                            #[trigger] sender_links@[i],
                        ),
                    forall|si: int, qi: int|
                        0 <= si < s && 0 <= qi < (
                        #[trigger] sim.shards@[si]).1.receipt_senders@.len() && !((
                        #[trigger] sim.shards@[si].1.receipt_senders@[qi]).1
                            is No) ==> sender_links@.contains(
                            ShardLink {
                                from: sim.shards@[si].0,
                                to: sim.shards@[si].1.receipt_senders@[qi].0,
                            },
                        ),
                    forall|qi: int|
                        0 <= qi < q && !((#[trigger] shard.receipt_senders@[qi]).1
                            is No) ==> sender_links@.contains(
                            ShardLink { from, to: shard.receipt_senders@[qi].0 },
                        ),
                decreases nq - q,
            {
                let sender = *shard.receipt_senders.val_at(q);
                let to = shard.receipt_senders.key_at(q);
                let ghost pre_links = sender_links@;
                match sender {
                    ReceiptSender::No => {},
                    ReceiptSender::FullSpeed(_) => {
                        sender_links.push(ShardLink { from, to });
                        proof {
                            assert(is_sender_link(sim.shards@, ShardLink { from, to }));
                            assert forall|i: int| 0 <= i < pre_links.len() implies
                                sender_links@.contains(#[trigger] pre_links[i]) by {
                                assert(sender_links@[i] == pre_links[i]);
                            }
                            assert(sender_links@[pre_links.len() as int] == (ShardLink {
                                from,
                                to,
                            }));
                        }
                    },
                }
                q = q + 1;
            }
            s = s + 1;
        }
        proof {
            assert forall|l: ShardLink| is_sender_link(sim.shards@, l) implies
                sender_links@.contains(l) by {
                let (si, qi): (int, int) = choose|si: int, qi: int|
                    0 <= si < sim.shards@.len() && (#[trigger] sim.shards@[si]).0 == l.from && 0
                        <= qi < sim.shards@[si].1.receipt_senders@.len() && (
                    #[trigger] sim.shards@[si].1.receipt_senders@[qi]).0 == l.to && !(sim.shards@[si].1.receipt_senders@[qi].1
                        is No);
                assert(sender_links@.contains(
                    ShardLink {
                        from: sim.shards@[si].0,
                        to: sim.shards@[si].1.receipt_senders@[qi].0,
                    },
                ));
            }
        }
        // Bytes processed per reference link, and the bottleneck width.
        proof {
            assert forall|i: int| 0 <= i < sim.blocks@.len() implies match #[trigger] sim
                .blocks@[i] {
                Some(b) => b.wf() && b.chunks@.len() >= 1 && b.chunks@.len()
                    * MAX_SHARD_BANDWIDTH <= usize::MAX,
                None => true,
            } by {
                if sim.blocks@[i] is Some {
                    assert(sim.blocks@[i]->Some_0.chunks@.len() == sim.shards@.len());
                }
            }
        }
        let mut max_link_processed: u64 = 0;
        let mut min_link_processed: u64 = 0;
        let mut senders_set = ShardMap::<bool>::new();
        let mut receivers_set = ShardMap::<bool>::new();
        let nl = sender_links.len();
        let mut l: usize = 0;
        while l < nl
            invariant
                l <= nl,
                nl == sender_links@.len(),
                run.simulation.wf(),
                run.simulation.blocks@.len() <= 100_000_000,
                crate::simulation::past_blocks_wf(run.simulation.blocks@),
                run.simulation.blocks == *blocks,
                forall|i: int|
                    0 <= i < nl ==> is_sender_link(
                        run.simulation.shards@,
                        #[trigger] sender_links@[i],
                    ),
                min_link_processed <= max_link_processed,
                l == 0 ==> max_link_processed == 0 && min_link_processed == 0,
                l > 0 ==> exists|i: int|
                    0 <= i < l && max_link_processed as int == #[trigger] spec_link_processed(
                        blocks@,
                        sender_links@[i],
                    ),
                l > 0 ==> exists|i: int|
                    0 <= i < l && min_link_processed as int == #[trigger] spec_link_processed(
                        blocks@,
                        sender_links@[i],
                    ),
                forall|i: int|
                    0 <= i < l ==> min_link_processed as int <= #[trigger] spec_link_processed(
                        blocks@,
                        sender_links@[i],
                    ) <= max_link_processed as int,
                senders_set.wf(),
                receivers_set.wf(),
                forall|i: int|
                    0 <= i < l ==> senders_set.spec_contains((#[trigger] sender_links@[i]).from)
                        && receivers_set.spec_contains(sender_links@[i].to),
                forall|sh: crate::chain::ShardUId|
                    #[trigger] senders_set.spec_contains(sh) ==> shard_sends(
                        run.simulation.shards@,
                        sh,
                    ),
                forall|sh: crate::chain::ShardUId|
                    #[trigger] receivers_set.spec_contains(sh) ==> shard_receives(
                        run.simulation.shards@,
                        sh,
                    ),
            decreases nl - l,
        {
            let link = sender_links[l];
            let processed = link_processed(blocks, link);
            if l == 0 || processed > max_link_processed {
                max_link_processed = processed;
            }
            if l == 0 || processed < min_link_processed {
                min_link_processed = processed;
            }
            proof {
                assert(is_sender_link(run.simulation.shards@, link));
                assert(shard_sends(run.simulation.shards@, link.from));
                assert(shard_receives(run.simulation.shards@, link.to));
            }
            senders_set.set(link.from, true);
            receivers_set.set(link.to, true);
            l = l + 1;
        }
        let bottleneck = if senders_set.len() < receivers_set.len() {
            senders_set.len()
        } else {
            receivers_set.len()
        };
        proof {
            // The bottleneck is positive exactly when some link carries a
            // sender.
            if nl > 0 {
                assert(senders_set.spec_contains(sender_links@[0].from));
                assert(receivers_set.spec_contains(sender_links@[0].to));
                assert(senders_set@.len() >= 1);
                assert(receivers_set@.len() >= 1);
                assert(is_sender_link(run.simulation.shards@, sender_links@[0]));
            }
            if bottleneck >= 1 {
                assert(senders_set@.len() >= 1);
                senders_set.lemma_key_at(0);
                assert(shard_sends(run.simulation.shards@, senders_set@[0].0));
            }
            if exists|lk: ShardLink| is_sender_link(run.simulation.shards@, lk) {
                let lk = choose|lk: ShardLink| is_sender_link(run.simulation.shards@, lk);
                assert(sender_links@.contains(lk));
                assert(nl > 0);
            }
        }
        let heights: u64 = (blocks.len() - 1) as u64;
        let max_bw: u64 = MAX_SHARD_BANDWIDTH as u64;
        let capacity_per_height: u64 = if bottleneck as u64 > u64::MAX / max_bw {
            proof {
                crate::arith::lemma_share_bounds(u64::MAX as int, max_bw as int);
                assert((bottleneck as u64) as int * (max_bw as int) > u64::MAX as int)
                    by (nonlinear_arith)
                    requires
                        (bottleneck as u64) as int >= (u64::MAX as int) / (max_bw as int) + 1,
                        ((u64::MAX as int) / (max_bw as int)) * (max_bw as int) > u64::MAX as int
                            - (max_bw as int),
                        max_bw as int >= 1,
                ;
            }
            u64::MAX
        } else {
            proof {
                crate::arith::lemma_share_bounds(u64::MAX as int, max_bw as int);
                assert((bottleneck as u64) as int * (max_bw as int) <= u64::MAX as int)
                    by (nonlinear_arith)
                    requires
                        (bottleneck as u64) as int <= (u64::MAX as int) / (max_bw as int),
                        ((u64::MAX as int) / (max_bw as int)) * (max_bw as int)
                            <= u64::MAX as int,
                        max_bw as int >= 1,
                ;
            }
            (bottleneck as u64) * max_bw
        };
        proof {
            assert(capacity_per_height as int == sat_mul(
                (bottleneck as u64) as int,
                max_bw as int,
            ));
        }
        let capacity_total: u64 = if heights > 0 && capacity_per_height > u64::MAX / heights {
            proof {
                crate::arith::lemma_share_bounds(u64::MAX as int, heights as int);
                assert((capacity_per_height as int) * (heights as int) > u64::MAX as int)
                    by (nonlinear_arith)
                    requires
                        capacity_per_height as int >= (u64::MAX as int) / (heights as int) + 1,
                        ((u64::MAX as int) / (heights as int)) * (heights as int)
                            > u64::MAX as int - (heights as int),
                        heights as int >= 1,
                ;
            }
            u64::MAX
        } else {
            proof {
                if heights > 0 {
                    crate::arith::lemma_share_bounds(u64::MAX as int, heights as int);
                    assert((capacity_per_height as int) * (heights as int) <= u64::MAX as int)
                        by (nonlinear_arith)
                        requires
                            capacity_per_height as int <= (u64::MAX as int) / (heights as int),
                            ((u64::MAX as int) / (heights as int)) * (heights as int)
                                <= u64::MAX as int,
                            heights as int >= 1,
                    ;
                }
            }
            capacity_per_height * heights
        };
        // Bytes processed over all sender links, by shard and sender.
        let mut total_processed: u64 = 0;
        let mut ts: usize = 0;
        proof {
            assert(sim.shards@.take(0) =~= Seq::<(crate::chain::ShardUId, Shard)>::empty());
        }
        while ts < ns
            invariant
                ts <= ns,
                ns == sim.shards@.len(),
                run.simulation.wf(),
                run.simulation.blocks@.len() <= 100_000_000,
                crate::simulation::past_blocks_wf(run.simulation.blocks@),
                run.simulation.blocks == *blocks,
                total_processed as int == sum_by(
                    sim.shards@.take(ts as int),
                    shard_processed_val(blocks@),
                ) || (total_processed == u64::MAX && sum_by(
                    sim.shards@.take(ts as int),
                    shard_processed_val(blocks@),
                ) >= u64::MAX as int),
            decreases ns - ts,
        {
            let shard = sim.shards.val_at(ts);
            let from = sim.shards.key_at(ts);
            let nq = shard.receipt_senders.len();
            let mut row: u64 = 0;
            let mut q: usize = 0;
            proof {
                assert(shard.receipt_senders@.take(0) =~= Seq::<(
                    crate::chain::ShardUId,
                    ReceiptSender,
                )>::empty());
            }
            while q < nq
                invariant
                    q <= nq,
                    ts < ns,
                    ns == sim.shards@.len(),
                    nq == shard.receipt_senders@.len(),
                    shard == sim.shards@[ts as int].1,
                    from == sim.shards@[ts as int].0,
                    run.simulation.wf(),
                    run.simulation.blocks@.len() <= 100_000_000,
                    crate::simulation::past_blocks_wf(run.simulation.blocks@),
                    run.simulation.blocks == *blocks,
                    row as int == sum_by(
                        shard.receipt_senders@.take(q as int),
                        sender_entry_processed(blocks@, from),
                    ) || (row == u64::MAX && sum_by(
                        shard.receipt_senders@.take(q as int),
                        sender_entry_processed(blocks@, from),
                    ) >= u64::MAX as int),
                decreases nq - q,
            {
                let sender = *shard.receipt_senders.val_at(q);
                let to = shard.receipt_senders.key_at(q);
                let step: u64 = match sender {
                    ReceiptSender::No => 0,
                    ReceiptSender::FullSpeed(_) => link_processed(
                        blocks,
                        ShardLink { from, to },
                    ),
                };
                proof {
                    lemma_sum_by_take_extend(
                        shard.receipt_senders@,
                        q as int,
                        sender_entry_processed(blocks@, from),
                    );
                    assert(step as int == sender_entry_processed(blocks@, from)(
                        shard.receipt_senders@[q as int],
                    ));
                }
                row = if row > u64::MAX - step {
                    u64::MAX
                } else {
                    row + step
                };
                q = q + 1;
            }
            proof {
                assert(shard.receipt_senders@.take(nq as int) =~= shard.receipt_senders@);
                lemma_sum_by_take_extend(sim.shards@, ts as int, shard_processed_val(blocks@));
                assert(shard_processed_val(blocks@)(sim.shards@[ts as int]) == sum_by(
                    shard.receipt_senders@,
                    sender_entry_processed(blocks@, from),
                ));
                // Row totals are never negative, so the saturating sum only
                // undercounts by saturating.
                assert forall|i: int|
                    0 <= i < shard.receipt_senders@.len() implies #[trigger] sender_entry_processed(
                    blocks@,
                    from,
                )(shard.receipt_senders@[i]) >= 0 by {
                    let p = shard.receipt_senders@[i];
                    if !(p.1 is No) {
                        assert forall|j: int|
                            0 <= j < blocks@.len() implies #[trigger] block_link_val(
                            ShardLink { from, to: p.0 },
                        )(blocks@[j]) >= 0 by {}
                        crate::sums::lemma_sum_by_nonneg(
                            blocks@,
                            block_link_val(ShardLink { from, to: p.0 }),
                        );
                    }
                }
                crate::sums::lemma_sum_by_nonneg(
                    shard.receipt_senders@,
                    sender_entry_processed(blocks@, from),
                );
            }
            total_processed = if total_processed > u64::MAX - row {
                u64::MAX
            } else {
                total_processed + row
            };
            ts = ts + 1;
        }
        proof {
            assert(sim.shards@.take(ns as int) =~= sim.shards@);
        }
        // Missing and total chunk slots over present blocks.
        let mut missing_chunks: u64 = 0;
        let mut total_chunks: u64 = 0;
        let nb = blocks.len();
        let mut i: usize = 0;
        proof {
            assert(blocks@.take(0) =~= Seq::<Option<Block>>::empty());
        }
        while i < nb
            invariant
                i <= nb,
                nb == blocks@.len(),
                nb <= 100_000_000,
                run.simulation.wf(),
                run.simulation.shards@.len() <= 2000,
                missing_chunks <= total_chunks,
                total_chunks <= (i as int) * 2000,
                missing_chunks as int == spec_missing_chunks(blocks@.take(i as int)),
                total_chunks as int == spec_total_chunks(blocks@.take(i as int)),
                run.simulation.blocks == *blocks,
            decreases nb - i,
        {
            let mut block_missing: u64 = 0;
            let mut block_slots: u64 = 0;
            match &blocks[i] {
                Some(block) => {
                    let m = block.chunks.len();
                    proof {
                        assert(block.chunks@.len() == run.simulation.shards@.len());
                        assert(block.chunks@.take(0) =~= Seq::<(
                            crate::chain::ShardUId,
                            Option<crate::chain::Chunk>,
                        )>::empty());
                    }
                    let mut t: usize = 0;
                    while t < m
                        invariant
                            t <= m,
                            m <= 2000,
                            i < nb,
                            m == block.chunks@.len(),
                            block.wf(),
                            block_missing <= block_slots,
                            block_slots == t,
                            block_missing as int == sum_by(
                                block.chunks@.take(t as int),
                                chunk_missing_val(),
                            ),
                        decreases m - t,
                    {
                        proof {
                            lemma_sum_by_take_extend(
                                block.chunks@,
                                t as int,
                                chunk_missing_val(),
                            );
                        }
                        block_slots = block_slots + 1;
                        match block.chunks.val_at(t) {
                            Some(_) => {},
                            None => {
                                block_missing = block_missing + 1;
                            },
                        }
                        t = t + 1;
                    }
                    proof {
                        assert(block.chunks@.take(m as int) =~= block.chunks@);
                    }
                },
                None => {},
            }
            proof {
                lemma_sum_by_take_extend(blocks@, i as int, block_missing_val());
                lemma_sum_by_take_extend(blocks@, i as int, block_slots_val());
                assert(block_missing as int == block_missing_val()(blocks@[i as int]));
                assert(block_slots as int == block_slots_val()(blocks@[i as int]));
            }
            missing_chunks = missing_chunks + block_missing;
            total_chunks = total_chunks + block_slots;
            i = i + 1;
        }
        proof {
            assert(blocks@.take(nb as int) =~= blocks@);
        }
        proof {
            // Without any sender link every per-sender contribution is zero.
            if !(exists|lk: ShardLink| is_sender_link(sim.shards@, lk)) {
                assert forall|s2: int| 0 <= s2 < sim.shards@.len() implies
                    #[trigger] shard_processed_val(blocks@)(sim.shards@[s2]) == 0 by {
                    let e = sim.shards@[s2];
                    assert forall|q2: int| 0 <= q2 < e.1.receipt_senders@.len() implies
                        #[trigger] sender_entry_processed(blocks@, e.0)(
                        e.1.receipt_senders@[q2],
                    ) == 0 by {
                        let p = e.1.receipt_senders@[q2];
                        if !(p.1 is No) {
                            assert(is_sender_link(sim.shards@, ShardLink { from: e.0, to: p.0 }));
                            assert(false);
                        }
                    }
                    lemma_sum_by_lower_bound(
                        e.1.receipt_senders@,
                        0,
                        sender_entry_processed(blocks@, e.0),
                    );
                    lemma_sum_by_upper_bound(
                        e.1.receipt_senders@,
                        0,
                        sender_entry_processed(blocks@, e.0),
                    );
                }
                lemma_sum_by_lower_bound(sim.shards@, 0, shard_processed_val(blocks@));
                lemma_sum_by_upper_bound(sim.shards@, 0, shard_processed_val(blocks@));
                assert(spec_total_processed(sim.shards@, blocks@) == 0);
            }
        }
        TestStats {
            max_link_processed,
            min_link_processed,
            total_processed,
            bottleneck: bottleneck as u64,
            capacity_total,
            missing_chunks,
            total_chunks,
            heights,
        }
    }

    /// The structural sanity of the collected metrics.
    pub fn basic_assert(&self) -> (r: bool)
        ensures
            r == (self.min_link_processed <= self.max_link_processed && self.missing_chunks
                <= self.total_chunks),
    {
        self.min_link_processed <= self.max_link_processed && self.missing_chunks
            <= self.total_chunks
    }
}


/// The decimal digit character for `d`.
pub open spec fn spec_digit_char(d: int) -> char {
    if d == 0 {
        '0'
    } else if d == 1 {
        '1'
    } else if d == 2 {
        '2'
    } else if d == 3 {
        '3'
    } else if d == 4 {
        '4'
    } else if d == 5 {
        '5'
    } else if d == 6 {
        '6'
    } else if d == 7 {
        '7'
    } else if d == 8 {
        '8'
    } else {
        '9'
    }
}

/// The plain decimal representation of `n`.
pub open spec fn spec_decimal(n: int) -> Seq<char>
    decreases n,
{
    if n <= 9 {
        seq![spec_digit_char(n)]
    } else {
        spec_decimal(n / 10).push(spec_digit_char(n % 10))
    }
}

/// Three zero-padded decimal digits for `m < 1000`.
pub open spec fn spec_pad3(m: int) -> Seq<char> {
    seq![
        spec_digit_char(m / 100),
        spec_digit_char((m / 10) % 10),
        spec_digit_char(m % 10),
    ]
}

/// The decimal representation of `n` with an underscore between every
/// three-digit group, counted from the right.
pub open spec fn spec_pretty(n: int) -> Seq<char>
    decreases n,
{
    if n <= 999 {
        spec_decimal(n)
    } else {
        spec_pretty(n / 1000) + seq!['_'] + spec_pad3(n % 1000)
    }
}

fn digit_str(d: u64) -> (r: &'static str)
    requires
        d <= 9,
    ensures
        r@ =~= seq![spec_digit_char(d as int)],
{
    if d == 0 {
        proof {
            reveal_strlit("0");
        }
        "0"
    } else if d == 1 {
        proof {
            reveal_strlit("1");
        }
        "1"
    } else if d == 2 {
        proof {
            reveal_strlit("2");
        }
        "2"
    } else if d == 3 {
        proof {
            reveal_strlit("3");
        }
        "3"
    } else if d == 4 {
        proof {
            reveal_strlit("4");
        }
        "4"
    } else if d == 5 {
        proof {
            reveal_strlit("5");
        }
        "5"
    } else if d == 6 {
        proof {
            reveal_strlit("6");
        }
        "6"
    } else if d == 7 {
        proof {
            reveal_strlit("7");
        }
        "7"
    } else if d == 8 {
        proof {
            reveal_strlit("8");
        }
        "8"
    } else {
        proof {
            reveal_strlit("9");
        }
        "9"
    }
}

fn decimal_string(num: u64) -> (r: String)
    ensures
        r@ == spec_decimal(num as int),
    decreases num,
{
    if num <= 9 {
        let mut s = String::new();
        s.append(digit_str(num));
        proof {
            assert(s@ =~= spec_decimal(num as int));
        }
        s
    } else {
        let mut s = decimal_string(num / 10);
        s.append(digit_str(num % 10));
        proof {
            assert(s@ =~= spec_decimal((num / 10) as int).push(
                spec_digit_char((num % 10) as int),
            ));
        }
        s
    }
}

/// Format a number with an underscore between every three-digit group.
pub fn pretty_number(num: u64) -> (r: String)
    ensures
        r@ == spec_pretty(num as int),
    decreases num,
{
    if num <= 999 {
        decimal_string(num)
    } else {
        let mut s = pretty_number(num / 1000);
        proof {
            reveal_strlit("_");
        }
        s.append("_");
        let m = num % 1000;
        s.append(digit_str(m / 100));
        s.append(digit_str((m / 10) % 10));
        s.append(digit_str(m % 10));
        proof {
            assert(s@ =~= spec_pretty((num / 1000) as int) + seq!['_'] + spec_pad3(m as int));
        }
        s
    }
}

} // verus!
