use rand::seq::SliceRandom;
use rand::Rng;

use bandsim::chain::{ShardUId, MAX_SHARD_BANDWIDTH};
use bandsim::distribute_remaining::distribute_remaining_bandwidth;
use bandsim::maps::{LinkMap, ShardMap};
use bandsim::rng::{rng_from_seed, DefaultRng};
use bandsim::validation::pretty_number;

fn generate_shards(rng: &mut DefaultRng) -> Vec<ShardUId> {
    let num_shards: usize = rng.gen_range(1..10);
    (0..num_shards).map(ShardUId::new).collect()
}

fn generate_shard_bandwidth(rng: &mut DefaultRng) -> usize {
    rng.gen_range(0..=MAX_SHARD_BANDWIDTH)
}

fn limits_map(data: &[(ShardUId, usize)]) -> ShardMap<usize> {
    let mut limits = ShardMap::new();
    for (shard, limit) in data {
        limits.set(*shard, *limit);
    }
    limits
}

fn limits_get(limits: &ShardMap<usize>, shard: &ShardUId) -> usize {
    limits.get_or_zero(shard)
}

fn limits_sum(limits: &ShardMap<usize>) -> usize {
    let mut sum = 0usize;
    for i in 0..limits.len() {
        sum += *limits.val_at(i);
    }
    sum
}

/// Generate limits with these shards and this much total bandwidth.
fn generate_limits(
    shards: &[ShardUId],
    total_bandwidth: usize,
    rng: &mut DefaultRng,
) -> ShardMap<usize> {
    let mut per_shard: Vec<(ShardUId, usize)> = shards
        .iter()
        .map(|shard_uid| (*shard_uid, total_bandwidth / shards.len()))
        .collect();
    per_shard[0].1 += total_bandwidth % shards.len();

    // Move random amounts between random pairs of shards.
    for _ in 0..(shards.len() * 10) {
        let a = rng.gen_range(0..shards.len());
        let b = rng.gen_range(0..shards.len());
        if a == b {
            continue;
        }
        let max_moved = std::cmp::min(per_shard[a].1, MAX_SHARD_BANDWIDTH - per_shard[b].1);
        if max_moved > 0 {
            let moved = rng.gen_range(0..max_moved);
            per_shard[a].1 -= moved;
            per_shard[b].1 += moved;
        }
    }

    let limits = limits_map(&per_shard);
    assert_eq!(limits_sum(&limits), total_bandwidth);
    limits
}

fn run_case(left: &ShardMap<usize>, right: &ShardMap<usize>) {
    let bandwidth_grants: LinkMap<usize> = distribute_remaining_bandwidth(left, right);

    let left_sum = limits_sum(left);
    let right_sum = limits_sum(right);
    let expected_grants = std::cmp::min(left_sum, right_sum);

    let mut grants_sum = 0usize;
    for i in 0..bandwidth_grants.len() {
        grants_sum += *bandwidth_grants.val_at(i);
    }
    // All of the available bandwidth is used.
    assert_eq!(grants_sum, expected_grants);

    // The limits are respected, per sending and per receiving shard.
    for li in 0..left.len() {
        let shard = left.key_at(li);
        let mut from_total = 0usize;
        for i in 0..bandwidth_grants.len() {
            if bandwidth_grants.key_at(i).from == shard {
                from_total += *bandwidth_grants.val_at(i);
            }
        }
        assert!(from_total <= limits_get(left, &shard));
    }
    for ri in 0..right.len() {
        let shard = right.key_at(ri);
        let mut to_total = 0usize;
        for i in 0..bandwidth_grants.len() {
            if bandwidth_grants.key_at(i).to == shard {
                to_total += *bandwidth_grants.val_at(i);
            }
        }
        assert!(to_total <= limits_get(right, &shard));
    }
}

// The three partition laws checked here hold for all inputs by the
// contract of `distribute_remaining_bandwidth`; this randomized run is
// corroboration. The case count is sized to finish well within the test
// harness's per-test time budget.
#[test]
fn test_distributing_remaining_random() {
    let random_tests_num = 25_000u64;
    let mut rng = rng_from_seed(0);

    for _ in 0..random_tests_num {
        let shards = generate_shards(&mut rng);
        let workload_types = ["random", "equal_total", "slightly_different_total", "identical"];
        let workload_type = *workload_types.choose(&mut rng).unwrap();
        let (left, right) = match workload_type {
            "random" => {
                let b1 = generate_shard_bandwidth(&mut rng) * shards.len();
                let b2 = generate_shard_bandwidth(&mut rng) * shards.len();
                (
                    generate_limits(&shards, b1, &mut rng),
                    generate_limits(&shards, b2, &mut rng),
                )
            },
            "equal_total" => {
                let total = generate_shard_bandwidth(&mut rng) * shards.len();
                (
                    generate_limits(&shards, total, &mut rng),
                    generate_limits(&shards, total, &mut rng),
                )
            },
            "slightly_different_total" => {
                let total =
                    (generate_shard_bandwidth(&mut rng) * shards.len()).saturating_sub(100);
                (
                    generate_limits(&shards, total, &mut rng),
                    generate_limits(&shards, total + 10, &mut rng),
                )
            },
            _ => {
                let per_shard: Vec<(ShardUId, usize)> = {
                    let total = generate_shard_bandwidth(&mut rng) * shards.len();
                    let limits = generate_limits(&shards, total, &mut rng);
                    (0..limits.len()).map(|i| (limits.key_at(i), *limits.val_at(i))).collect()
                };
                (limits_map(&per_shard), limits_map(&per_shard))
            },
        };
        run_case(&left, &right);
    }
}

#[test]
fn test_three_100() {
    let data = [
        (ShardUId::new(0), 100usize),
        (ShardUId::new(1), 100),
        (ShardUId::new(2), 100),
    ];
    let left = limits_map(&data);
    let right = limits_map(&data);
    run_case(&left, &right);
}

#[test]
fn test_pretty_number() {
    assert_eq!(&pretty_number(0), "0");
    assert_eq!(&pretty_number(1), "1");
    assert_eq!(&pretty_number(12), "12");
    assert_eq!(&pretty_number(123), "123");
    assert_eq!(&pretty_number(1234), "1_234");
    assert_eq!(&pretty_number(12345), "12_345");
    assert_eq!(&pretty_number(123456), "123_456");
    assert_eq!(&pretty_number(1234567), "1_234_567");
    assert_eq!(&pretty_number(12345678), "12_345_678");
    assert_eq!(&pretty_number(123456789), "123_456_789");
}
