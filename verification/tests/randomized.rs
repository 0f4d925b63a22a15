use rand::Rng;

use bandsim::builder::{SenderFactory, SimulationBuilder};
use bandsim::rng::rng_from_seed;
use bandsim::validation::TestStats;

const DEFAULT_TEST_LENGTH: usize = 1000;

fn randomized_test(seed: u64, max_shards: usize) {
    let mut rng = rng_from_seed(seed);
    let num_shards = rng.gen_range(1..=max_shards);
    let simulation_run = SimulationBuilder::new(num_shards)
        .default_sender_factory(SenderFactory::RandomMix)
        .build()
        .run_for(DEFAULT_TEST_LENGTH);
    let stats = TestStats::new(&simulation_run);
    assert!(stats.basic_assert());
}

const RANDOMIZED_TEST_MAX_SHARDS: usize = 16;

#[test]
fn randomized_test_0() {
    randomized_test(0, RANDOMIZED_TEST_MAX_SHARDS);
}

#[test]
fn randomized_test_1() {
    randomized_test(1, RANDOMIZED_TEST_MAX_SHARDS);
}

#[test]
fn randomized_test_2() {
    randomized_test(2, RANDOMIZED_TEST_MAX_SHARDS);
}

#[test]
fn randomized_test_3() {
    randomized_test(3, RANDOMIZED_TEST_MAX_SHARDS);
}

#[test]
fn randomized_test_4() {
    randomized_test(4, RANDOMIZED_TEST_MAX_SHARDS);
}

#[test]
fn randomized_test_5() {
    randomized_test(5, RANDOMIZED_TEST_MAX_SHARDS);
}

#[test]
fn randomized_test_6() {
    randomized_test(6, RANDOMIZED_TEST_MAX_SHARDS);
}

#[test]
fn randomized_test_7() {
    randomized_test(7, RANDOMIZED_TEST_MAX_SHARDS);
}

#[test]
fn randomized_test_8() {
    randomized_test(8, RANDOMIZED_TEST_MAX_SHARDS);
}

#[test]
fn randomized_test_9() {
    randomized_test(9, RANDOMIZED_TEST_MAX_SHARDS);
}

/// Reproduces a workload where the gap between the per-shard cap and the
/// total base bandwidth once fell short of the rung covering a maximum-size
/// receipt.
#[test]
fn bug1() {
    randomized_test(13419, 10);
}
