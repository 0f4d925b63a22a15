use bandsim::builder::{SenderFactory, SimulationBuilder};
use bandsim::chain::{MAX_RECEIPT_SIZE, MAX_SHARD_BANDWIDTH, MIN_RECEIPT_SIZE};
use bandsim::chain::ShardUId;
use bandsim::receipt_sender::{ReceiptGenerator, ReceiptSender};
use bandsim::simulation::MissingChunkPolicy;
use bandsim::validation::TestStats;

const DEFAULT_TEST_LENGTH: usize = 1000;

fn big_sender() -> ReceiptSender {
    ReceiptSender::FullSpeed(ReceiptGenerator::OneSize { size: MAX_RECEIPT_SIZE })
}

fn small_sender() -> ReceiptSender {
    ReceiptSender::FullSpeed(ReceiptGenerator::OneSize { size: MIN_RECEIPT_SIZE })
}

fn medium_sender() -> ReceiptSender {
    ReceiptSender::FullSpeed(ReceiptGenerator::OneSize { size: MAX_SHARD_BANDWIDTH / 2 + 100 })
}

fn typical_sender() -> ReceiptSender {
    ReceiptSender::FullSpeed(ReceiptGenerator::Typical)
}

fn max_min_ratio(stats: &TestStats) -> f64 {
    stats.max_link_processed as f64 / stats.min_link_processed as f64
}

fn bandwidth_utilization(stats: &TestStats) -> f64 {
    stats.total_processed as f64 / stats.capacity_total as f64
}

fn missing_chunks_ratio(stats: &TestStats) -> f64 {
    stats.missing_chunks as f64 / stats.total_chunks as f64
}

#[test]
fn builder_doesnt_crash() {
    let _simulation = SimulationBuilder::new(2)
        .random_seed(0)
        .receipt_sender(0, 1, ReceiptSender::No)
        .default_sender_factory(SenderFactory::Fixed(ReceiptSender::No))
        .missing_block_probability(10)
        .missing_chunk_generator(MissingChunkPolicy::Never)
        .build();
}

/// 0 -> 0 - full speed big receipts
/// 0 -> 1 - full speed small receipts
/// Fairness and utilization should be good.
#[test]
fn big_vs_small_sender() {
    let simulation_run = SimulationBuilder::new(2)
        .receipt_sender(0, 0, big_sender())
        .receipt_sender(0, 1, small_sender())
        .build()
        .run_for(DEFAULT_TEST_LENGTH);

    let stats = TestStats::new(&simulation_run);
    assert!(stats.basic_assert());
    // A single sending shard is the bottleneck of this workload.
    assert_eq!(stats.bottleneck, 1);
    assert!(max_min_ratio(&stats) <= 1.25);
    assert!(bandwidth_utilization(&stats) > 0.90);
}

/// 0 -> 0 - full speed big receipts
/// 1 -> 0 - full speed small receipts
/// Fairness and utilization should be good.
#[test]
fn big_vs_small_receiver() {
    let simulation_run = SimulationBuilder::new(2)
        .receipt_sender(0, 0, big_sender())
        .receipt_sender(1, 0, small_sender())
        .build()
        .run_for(DEFAULT_TEST_LENGTH);

    let stats = TestStats::new(&simulation_run);
    assert!(stats.basic_assert());
    assert!(max_min_ratio(&stats) <= 1.25);
    assert!(bandwidth_utilization(&stats) > 0.90);
}

/// One big sender on its own link and small senders towards every other
/// shard. Fairness and utilization should be good.
#[test]
fn big_vs_many_small_sender() {
    let simulation_run = SimulationBuilder::new(5)
        .receipt_sender(0, 0, big_sender())
        .receipt_sender(0, 1, small_sender())
        .receipt_sender(0, 2, small_sender())
        .receipt_sender(0, 3, small_sender())
        .receipt_sender(0, 4, small_sender())
        .build()
        .run_for(DEFAULT_TEST_LENGTH);

    let stats = TestStats::new(&simulation_run);
    assert!(stats.basic_assert());
    assert!(max_min_ratio(&stats) <= 1.15);
    assert!(bandwidth_utilization(&stats) > 0.90);
}

/// One big sender and small senders from every other shard, all towards the
/// same receiver. Fairness and utilization should be good.
#[test]
fn big_vs_many_small_receiver() {
    let simulation_run = SimulationBuilder::new(5)
        .receipt_sender(0, 0, big_sender())
        .receipt_sender(1, 0, small_sender())
        .receipt_sender(2, 0, small_sender())
        .receipt_sender(3, 0, small_sender())
        .receipt_sender(4, 0, small_sender())
        .build()
        .run_for(DEFAULT_TEST_LENGTH);

    let stats = TestStats::new(&simulation_run);
    assert!(stats.basic_assert());
    assert!(max_min_ratio(&stats) <= 1.15);
    assert!(bandwidth_utilization(&stats) > 0.90);
}

/// 0 -> 0 - full speed receipts slightly larger than half of max bandwidth
/// 0 -> 1 - full speed small receipts
/// Fairness and utilization should be good.
#[test]
fn medium_vs_small_sender() {
    let simulation_run = SimulationBuilder::new(2)
        .receipt_sender(0, 0, medium_sender())
        .receipt_sender(0, 1, small_sender())
        .build()
        .run_for(DEFAULT_TEST_LENGTH);

    let stats = TestStats::new(&simulation_run);
    assert!(stats.basic_assert());
    assert!(max_min_ratio(&stats) <= 1.10);
    assert!(bandwidth_utilization(&stats) > 0.95);
}

/// 0 -> 0 - full speed receipts slightly larger than half of max bandwidth
/// 1 -> 0 - full speed small receipts
/// Fairness and utilization should be good.
#[test]
fn medium_vs_small_receiver() {
    let simulation_run = SimulationBuilder::new(2)
        .receipt_sender(0, 0, medium_sender())
        .receipt_sender(1, 0, small_sender())
        .build()
        .run_for(DEFAULT_TEST_LENGTH);

    let stats = TestStats::new(&simulation_run);
    assert!(stats.basic_assert());
    assert!(max_min_ratio(&stats) <= 1.10);
    assert!(bandwidth_utilization(&stats) > 0.95);
}

/// 0 -> 0 - receipts slightly larger than half of max bandwidth.
/// Utilization should be ~50% - only one medium receipt fits per height.
#[test]
fn one_medium() {
    let simulation_run = SimulationBuilder::new(2)
        .receipt_sender(0, 0, medium_sender())
        .build()
        .run_for(DEFAULT_TEST_LENGTH);

    let stats = TestStats::new(&simulation_run);
    assert!(stats.basic_assert());
    assert!(bandwidth_utilization(&stats) <= 0.60);
}

/// Typical case - typical receipts, a bit of missing chunks and blocks.
#[test]
fn typical_test() {
    let simulation_run = SimulationBuilder::new(6)
        .default_sender_factory(SenderFactory::Fixed(typical_sender()))
        .missing_block_probability(50)
        .missing_chunk_generator(MissingChunkPolicy::Random { permille: 50 })
        .build()
        .run_for(DEFAULT_TEST_LENGTH);
    let stats = TestStats::new(&simulation_run);
    assert!(stats.basic_assert());
    assert!(max_min_ratio(&stats) <= 1.20);
    assert!(bandwidth_utilization(&stats) > 0.75);
}

/// Run a simulation where 10% of chunks are missing.
/// The typical sender sends mostly small receipts.
#[test]
fn ten_percent_missing_chunks() {
    let simulation_run = SimulationBuilder::new(6)
        .default_sender_factory(SenderFactory::Fixed(typical_sender()))
        .missing_chunk_generator(MissingChunkPolicy::Random { permille: 100 })
        .build()
        .run_for(DEFAULT_TEST_LENGTH);
    let stats = TestStats::new(&simulation_run);
    assert!(stats.basic_assert());
    assert!(missing_chunks_ratio(&stats) > 0.08);
    assert!(missing_chunks_ratio(&stats) < 0.12);
}

/// Run a simulation where 10% of chunks on shard 0 are missing.
#[test]
fn ten_percent_missing_chunks_on_shard0() {
    let simulation_run = SimulationBuilder::new(6)
        .default_sender_factory(SenderFactory::Fixed(typical_sender()))
        .missing_chunk_generator(
            MissingChunkPolicy::RandomOnShard { shard: ShardUId::new(0), permille: 100 },
        )
        .build()
        .run_for(DEFAULT_TEST_LENGTH);
    let stats = TestStats::new(&simulation_run);
    assert!(stats.basic_assert());
    assert!(missing_chunks_ratio(&stats) > 0.01);
    assert!(missing_chunks_ratio(&stats) < 0.02);
}

/// 10 chunks present, then 10 chunks missing, and so on, on shard 0.
#[test]
fn ten_missing_ten_not_missing_on_shard0() {
    let simulation_run = SimulationBuilder::new(6)
        .default_sender_factory(SenderFactory::Fixed(typical_sender()))
        .missing_chunk_generator(
            MissingChunkPolicy::PeriodicOnShard { shard: ShardUId::new(0), period: 10 },
        )
        .build()
        .run_for(DEFAULT_TEST_LENGTH);
    let stats = TestStats::new(&simulation_run);

    // The standard fairness check fails because shard 0 processes half the
    // receipts that other shards do. This is expected.
    assert!(max_min_ratio(&stats) <= 3.0);
    assert!(bandwidth_utilization(&stats) >= 0.6);

    assert!(missing_chunks_ratio(&stats) > 0.05);
    assert!(missing_chunks_ratio(&stats) < 0.10);
}

/// Senders with uniformly random receipt sizes on every link.
#[test]
fn random_size_senders() {
    let simulation_run = SimulationBuilder::new(6)
        .default_sender_factory(SenderFactory::Fixed(ReceiptSender::FullSpeed(
            ReceiptGenerator::RandomSize {
                min_size: MIN_RECEIPT_SIZE,
                max_size: MAX_RECEIPT_SIZE,
            },
        )))
        .build()
        .run_for(DEFAULT_TEST_LENGTH);
    let stats = TestStats::new(&simulation_run);
    assert!(stats.basic_assert());
}
