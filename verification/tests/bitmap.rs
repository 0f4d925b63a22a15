use rand::seq::SliceRandom;
use rand::Rng;

use bandsim::bandwidth_request::{
    BandwidthRequest, BandwidthRequestBitmap, BandwidthRequestOptions, BandwidthRequestValues,
    BANDWIDTH_REQUEST_VALUES_NUM,
};
use bandsim::chain::{MAX_RECEIPT_SIZE, MAX_SHARD_BANDWIDTH};
use bandsim::chain::ShardUId;
use bandsim::rng::rng_from_seed;

#[test]
fn test_bandwidth_request_bitmap() {
    let mut bitmap = BandwidthRequestBitmap::new();
    assert_eq!(bitmap.len(), BANDWIDTH_REQUEST_VALUES_NUM);

    let mut fake_bitmap = vec![false; bitmap.len()];

    let mut rng = rng_from_seed(0);

    for _ in 0..1000 {
        let index = rng.gen_range(0..bitmap.len());
        let value = rng.gen_bool(0.5);

        bitmap.set_bit(index, value);
        fake_bitmap[index] = value;

        let mut indexes: Vec<usize> = (0..bitmap.len()).collect();
        indexes.shuffle(&mut rng);
        for i in indexes {
            assert_eq!(bitmap.get_bit(i), fake_bitmap[i]);
        }
    }
}

// Ladder validity: for any base, the ladder is strictly increasing, tops out
// at the full shard bandwidth and contains the maximum receipt size.
#[test]
fn ladder_validity() {
    for base in [
        0usize,
        1,
        1_000,
        50_000,
        100_000,
        250_000,
        499_999,
        MAX_SHARD_BANDWIDTH - MAX_RECEIPT_SIZE,
    ] {
        let values = BandwidthRequestValues::new(base, MAX_SHARD_BANDWIDTH);
        assert_eq!(values.0.len(), 40);
        for w in values.0.windows(2) {
            assert!(w[0] < w[1]);
        }
        assert_eq!(values.0[39], MAX_SHARD_BANDWIDTH);
        assert!(values.0.iter().any(|v| *v == MAX_RECEIPT_SIZE));
        assert!(values.0.iter().all(|v| *v > base));
    }
}

// Request monotonicity: decoding an emitted request yields a strictly
// increasing sequence of absolute grants, all above the base bandwidth.
#[test]
fn request_monotonicity() {
    let base = 100_000usize;
    let sizes = vec![50_000usize, 300_000, 1_000_000, 4_000_000, 4_000_000];
    let request =
        BandwidthRequest::from_receipt_sizes(ShardUId::new(1), &sizes, base, MAX_SHARD_BANDWIDTH)
            .expect("queue exceeds the base bandwidth");
    assert_eq!(request.to_shard, ShardUId::new(1));
    let options = BandwidthRequestOptions::from_bitmap(
        &request.grant_options_bitmap,
        base,
        MAX_SHARD_BANDWIDTH,
    );
    assert!(options.0.len() > 0);
    let mut last = base;
    for option in options.0 {
        assert!(option > last);
        last = option;
    }
}

// A queue whose total stays within the base bandwidth requests nothing.
#[test]
fn small_queue_requests_nothing() {
    let base = 100_000usize;
    let sizes = vec![30_000usize, 40_000];
    let request =
        BandwidthRequest::from_receipt_sizes(ShardUId::new(0), &sizes, base, MAX_SHARD_BANDWIDTH);
    assert!(request.is_none());
}
