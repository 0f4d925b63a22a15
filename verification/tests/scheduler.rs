use bandsim::bandwidth_scheduler::BandwidthScheduler;
use bandsim::chain::{Block, Chunk, Receipt, ShardUId, MAX_SHARD_BANDWIDTH};
use bandsim::maps::ShardMap;
use bandsim::outgoing_queue::OutgoingQueue;
use bandsim::receipt_sender::{ReceiptGenerator, ReceiptSender};
use bandsim::rng::rng_from_seed;

fn empty_chunk() -> Chunk {
    Chunk {
        prev_incoming_receipts_size: 0,
        prev_outgoing_receipts_size: ShardMap::new(),
        bandwidth_requests: Vec::new(),
    }
}

fn block_with_chunks(present: &[bool]) -> Block {
    let mut chunks = ShardMap::new();
    for (i, p) in present.iter().enumerate() {
        let chunk = if *p { Some(empty_chunk()) } else { None };
        chunks.set(ShardUId::new(i), chunk);
    }
    Block { height: 1, chunks }
}

fn from_total(grants: &bandsim::maps::LinkMap<usize>, shard: ShardUId) -> usize {
    let mut total = 0usize;
    for i in 0..grants.len() {
        if grants.key_at(i).from == shard {
            total += *grants.val_at(i);
        }
    }
    total
}

fn to_total(grants: &bandsim::maps::LinkMap<usize>, shard: ShardUId) -> usize {
    let mut total = 0usize;
    for i in 0..grants.len() {
        if grants.key_at(i).to == shard {
            total += *grants.val_at(i);
        }
    }
    total
}

// Per-height grant validity: per-sender and per-receiver totals stay within
// the cap, and with all chunks present the full capacity is handed out.
#[test]
fn grants_respect_caps() {
    let block = block_with_chunks(&[true, true, true]);
    let mut scheduler = BandwidthScheduler::new();
    let mut rng = rng_from_seed(0);
    let grants = scheduler.run(&block, &mut rng);
    let mut sum = 0usize;
    for i in 0..grants.len() {
        sum += *grants.val_at(i);
    }
    for s in 0..3 {
        let shard = ShardUId::new(s);
        assert!(from_total(&grants, shard) <= MAX_SHARD_BANDWIDTH);
        assert!(to_total(&grants, shard) <= MAX_SHARD_BANDWIDTH);
    }
    // With every chunk present the leftover distribution saturates the
    // grid: every shard can send and receive at full speed.
    assert_eq!(sum, 3 * MAX_SHARD_BANDWIDTH);
    // Every pair gets at least the base bandwidth.
    let base = scheduler.get_base_bandwidth(3);
    for a in 0..3 {
        for b in 0..3 {
            let mut link_value = 0usize;
            for i in 0..grants.len() {
                if grants.key_at(i).is(a, b) {
                    link_value += *grants.val_at(i);
                }
            }
            assert!(link_value >= base);
        }
    }
}

// A shard whose previous chunk is missing receives nothing.
#[test]
fn missing_chunk_receives_nothing() {
    let block = block_with_chunks(&[true, false, true]);
    let mut scheduler = BandwidthScheduler::new();
    let mut rng = rng_from_seed(0);
    let grants = scheduler.run(&block, &mut rng);
    assert_eq!(to_total(&grants, ShardUId::new(1)), 0);
    assert!(from_total(&grants, ShardUId::new(1)) > 0);
}

// An empty block produces no grants at all.
#[test]
fn empty_block_no_grants() {
    let block = Block { height: 1, chunks: ShardMap::new() };
    let mut scheduler = BandwidthScheduler::new();
    let mut rng = rng_from_seed(0);
    let grants = scheduler.run(&block, &mut rng);
    assert_eq!(grants.len(), 0);
}

// The base bandwidth formula: capped by the constant, otherwise a fair
// share of what is left after reserving one maximum-size receipt.
#[test]
fn base_bandwidth_formula() {
    let scheduler = BandwidthScheduler::new();
    assert_eq!(scheduler.get_base_bandwidth(1), 100_000);
    assert_eq!(scheduler.get_base_bandwidth(5), 100_000);
    assert_eq!(scheduler.get_base_bandwidth(6), 83_333);
    assert_eq!(scheduler.get_base_bandwidth(10), 50_000);
}

// The queue keeps first-in-first-out order and an exact running total.
#[test]
fn queue_fifo_and_total() {
    let mut queue = OutgoingQueue::new(ShardUId::new(1));
    assert!(queue.is_empty());
    assert_eq!(queue.total_size(), 0);
    queue.push(Receipt { size: 100 });
    queue.push(Receipt { size: 250 });
    queue.push(Receipt { size: 4_000_000 });
    assert_eq!(queue.total_size(), 4_000_350);
    assert_eq!(queue.first_receipt_size(), Some(100));
    assert_eq!(queue.pop().unwrap().size, 100);
    assert_eq!(queue.pop().unwrap().size, 250);
    assert_eq!(queue.total_size(), 4_000_000);
    assert_eq!(queue.pop().unwrap().size, 4_000_000);
    assert!(queue.pop().is_none());
    assert!(queue.is_empty());
}

// A full-speed sender fills the queue up to the per-height cap with sizes
// from its generator's range.
#[test]
fn full_speed_sender_fills_queue() {
    let mut queue = OutgoingQueue::new(ShardUId::new(0));
    let mut rng = rng_from_seed(7);
    let sender = ReceiptSender::FullSpeed(
        ReceiptGenerator::RandomSize { min_size: 2_000, max_size: 30_000 },
    );
    sender.send_receipts(&mut queue, &mut rng);
    assert!(queue.total_size() >= MAX_SHARD_BANDWIDTH);
    let mut popped = 0usize;
    while let Some(receipt) = queue.pop() {
        assert!(receipt.size >= 2_000);
        assert!(receipt.size <= 30_000);
        popped += 1;
    }
    assert!(popped >= MAX_SHARD_BANDWIDTH / 30_000);
}
