//! Bandwidth requests: the ladder of requestable grant sizes, the 40-bit
//! bitmap that selects rungs of the ladder, the encoder that turns a queue of
//! receipt sizes into a request, and the decoder that recovers the requested
//! absolute grants.

use vstd::prelude::*;

use crate::arith::{lemma_div_exact, lemma_div_ordered, lemma_div_plus};
use crate::chain::{ShardUId, MAX_RECEIPT_SIZE, MAX_SHARD_BANDWIDTH};
use crate::sums::{lemma_sum_by_nonneg, lemma_sum_by_split, lemma_sum_by_take_extend, size_val, sizes_sum};

verus! {

/// Number of requestable bandwidth values, and of bits in the bitmap.
pub const BANDWIDTH_REQUEST_VALUES_NUM: usize = 40;

/// Bytes backing the bitmap.
pub const BANDWIDTH_REQUEST_BITMAP_ARRAY_SIZE: usize = 5;

/// Bit `k` of byte `b`.
pub open spec fn byte_bit(b: u8, k: int) -> bool {
    (b >> (k as u8)) & 1 == 1
}

proof fn lemma_set_bit_true(b: u8, j: u8)
    requires
        j < 8,
    ensures
        ((b | (1u8 << j)) >> j) & 1 == 1,
{
    assert(((b | (1u8 << j)) >> j) & 1 == 1) by (bit_vector)
        requires
            j < 8,
    ;
}

proof fn lemma_set_bit_false(b: u8, j: u8)
    requires
        j < 8,
    ensures
        ((b & !(1u8 << j)) >> j) & 1 == 0,
{
    assert(((b & !(1u8 << j)) >> j) & 1 == 0) by (bit_vector)
        requires
            j < 8,
    ;
}

proof fn lemma_set_bit_other(b: u8, j: u8, k: u8)
    requires
        j < 8,
        k < 8,
        j != k,
    ensures
        ((b | (1u8 << j)) >> k) & 1 == (b >> k) & 1,
        ((b & !(1u8 << j)) >> k) & 1 == (b >> k) & 1,
{
    assert(((b | (1u8 << j)) >> k) & 1 == (b >> k) & 1 && ((b & !(1u8 << j)) >> k) & 1 == (b
        >> k) & 1) by (bit_vector)
        requires
            j < 8,
            k < 8,
            j != k,
    ;
}

proof fn lemma_zero_byte_bits(b: u8)
    ensures
        b == 0 ==> forall|k: u8| k < 8 ==> (b >> k) & 1 == 0,
        (forall|k: u8| k < 8 ==> (b >> k) & 1 == 0) ==> b == 0,
{
    if b == 0 {
        assert(forall|k: u8| k < 8 ==> (0u8 >> k) & 1 == 0) by (bit_vector);
    }
    if forall|k: u8| k < 8 ==> (b >> k) & 1 == 0 {
        assert(b == 0) by (bit_vector)
            requires
                (b >> 0u8) & 1 == 0,
                (b >> 1u8) & 1 == 0,
                (b >> 2u8) & 1 == 0,
                (b >> 3u8) & 1 == 0,
                (b >> 4u8) & 1 == 0,
                (b >> 5u8) & 1 == 0,
                (b >> 6u8) & 1 == 0,
                (b >> 7u8) & 1 == 0,
        ;
    }
}

/// A packed bitmap with one bit per requestable bandwidth value.
#[derive(Clone, Debug)]
pub struct BandwidthRequestBitmap {
    bytes: Vec<u8>,
}

impl BandwidthRequestBitmap {
    /// The backing storage always holds exactly the 40 bits.
    pub closed spec fn wf(&self) -> bool {
        self.bytes@.len() == BANDWIDTH_REQUEST_BITMAP_ARRAY_SIZE
    }

    /// The bits, lowest index first.
    pub closed spec fn bits(&self) -> Seq<bool> {
        Seq::new(40, |i: int| byte_bit(self.bytes@[i / 8], i % 8))
    }

    pub fn new() -> (r: BandwidthRequestBitmap)
        ensures
            r.wf(),
            r.bits().len() == 40,
            forall|i: int| 0 <= i < 40 ==> !(#[trigger] r.bits()[i]),
    {
        let mut bytes: Vec<u8> = Vec::new();
        let mut i: usize = 0;
        while i < BANDWIDTH_REQUEST_BITMAP_ARRAY_SIZE
            invariant
                i <= BANDWIDTH_REQUEST_BITMAP_ARRAY_SIZE,
                bytes@.len() == i,
                forall|j: int| 0 <= j < i ==> bytes@[j] == 0u8,
            decreases BANDWIDTH_REQUEST_BITMAP_ARRAY_SIZE - i,
        {
            bytes.push(0u8);
            i = i + 1;
        }
        let r = BandwidthRequestBitmap { bytes };
        proof {
            assert forall|i: int| 0 <= i < 40 implies !(#[trigger] r.bits()[i]) by {
                lemma_zero_byte_bits(r.bytes@[i / 8]);
                let k: u8 = (i % 8) as u8;
                assert(k < 8 && (r.bytes@[i / 8] >> k) & 1 == 0);
            }
        }
        r
    }

    /// Set or clear bit `index`.
    pub fn set_bit(&mut self, index: usize, value: bool)
        requires
            old(self).wf(),
            index < BANDWIDTH_REQUEST_VALUES_NUM,
        ensures
            final(self).wf(),
            final(self).bits() == old(self).bits().update(index as int, value),
    {
        let byte_idx = index / 8;
        let bit_num = (index % 8) as u8;
        let b = self.bytes[byte_idx];
        let nb = if value {
            b | (1u8 << bit_num)
        } else {
            b & !(1u8 << bit_num)
        };
        self.bytes[byte_idx] = nb;
        proof {
            let obits = old(self).bits();
            let nbits = self.bits();
            assert forall|i: int| 0 <= i < 40 implies nbits[i] == obits.update(
                index as int,
                value,
            )[i] by {
                if i == index {
                    if value {
                        lemma_set_bit_true(b, bit_num);
                    } else {
                        lemma_set_bit_false(b, bit_num);
                    }
                } else if i / 8 == byte_idx {
                    assert((i % 8) as u8 != bit_num);
                    assert(((i % 8) as u8) < 8);
                    lemma_set_bit_other(b, bit_num, (i % 8) as u8);
                } else {
                    assert(self.bytes@[i / 8] == old(self).bytes@[i / 8]);
                }
            }
            assert(nbits =~= obits.update(index as int, value));
        }
    }

    /// Read bit `index`.
    pub fn get_bit(&self, index: usize) -> (r: bool)
        requires
            self.wf(),
            index < BANDWIDTH_REQUEST_VALUES_NUM,
        ensures
            r == self.bits()[index as int],
    {
        let byte = self.bytes[index / 8];
        let bit_num = (index % 8) as u8;
        ((byte >> bit_num) & 1u8) == 1u8
    }

    /// Number of bits in the bitmap.
    pub fn len(&self) -> (r: usize)
        ensures
            r == 40,
            r == self.bits().len(),
    {
        BANDWIDTH_REQUEST_VALUES_NUM
    }

    /// The bitmap always holds exactly the 40 ladder bits.
    pub proof fn lemma_bits_len(&self)
        ensures
            self.bits().len() == 40,
    {
    }

    /// True when no bit is set.
    pub fn is_all_false(&self) -> (r: bool)
        requires
            self.wf(),
        ensures
            r == (forall|i: int| 0 <= i < 40 ==> !(#[trigger] self.bits()[i])),
    {
        let n = BANDWIDTH_REQUEST_BITMAP_ARRAY_SIZE;
        let mut i: usize = 0;
        let mut all_zero = true;
        while i < n
            invariant
                i <= n,
                n == BANDWIDTH_REQUEST_BITMAP_ARRAY_SIZE,
                self.wf(),
                all_zero == (forall|j: int| 0 <= j < i ==> (#[trigger] self.bytes@[j]) == 0u8),
            decreases n - i,
        {
            if self.bytes[i] != 0 {
                all_zero = false;
            }
            i = i + 1;
        }
        proof {
            if all_zero {
                assert forall|j: int| 0 <= j < 40 implies !(#[trigger] self.bits()[j]) by {
                    lemma_zero_byte_bits(self.bytes@[j / 8]);
                }
            } else {
                let bi = choose|bi: int|
                    0 <= bi < BANDWIDTH_REQUEST_BITMAP_ARRAY_SIZE && (#[trigger] self.bytes@[bi])
                        != 0u8;
                lemma_zero_byte_bits(self.bytes@[bi]);
                let b = self.bytes@[bi];
                let k = choose|k: u8| k < 8 && (b >> k) & 1 != 0;
                assert((b >> k) & 1 == 0 || (b >> k) & 1 == 1) by (bit_vector);
                let idx = bi * 8 + (k as int);
                assert(idx / 8 == bi && idx % 8 == k as int) by (nonlinear_arith)
                    requires
                        idx == bi * 8 + (k as int),
                        0 <= (k as int) && (k as int) < 8,
                ;
                assert(((idx % 8) as u8) == k);
                assert(self.bits()[idx]);
            }
        }
        all_zero
    }
}


/// Distance of a value to the maximum receipt size.
pub open spec fn dist_to_max_receipt(v: int) -> int {
    if v <= MAX_RECEIPT_SIZE {
        MAX_RECEIPT_SIZE - v
    } else {
        v - MAX_RECEIPT_SIZE
    }
}

/// The evenly spaced ladder value at rung `i`, before the adjustment.
pub open spec fn raw_ladder_at(base: int, i: int) -> int {
    base + (MAX_SHARD_BANDWIDTH - base) * (i + 1) / 40
}

/// The raw ladder as a sequence.
pub open spec fn raw_ladder(base: int) -> Seq<usize> {
    Seq::new(40, |i: int| raw_ladder_at(base, i) as usize)
}

/// The first value among `vals[0..n)` closest to the maximum receipt size,
/// starting from the placeholder zero.
pub open spec fn closest_to_max(vals: Seq<usize>, n: int) -> usize
    decreases n,
{
    if n <= 0 {
        0
    } else {
        let prev = closest_to_max(vals, n - 1);
        if dist_to_max_receipt(vals[n - 1] as int) < dist_to_max_receipt(prev as int) {
            vals[n - 1]
        } else {
            prev
        }
    }
}

/// The ladder of requestable bandwidth values: the raw ladder with the rung
/// closest to the maximum receipt size replaced by it.
pub open spec fn ladder(base: int) -> Seq<usize> {
    let raw = raw_ladder(base);
    let c = closest_to_max(raw, 40);
    raw.map_values(
        |v: usize|
            if v == c {
                MAX_RECEIPT_SIZE
            } else {
                v
            },
    )
}

/// Facts about the raw ladder: rung gaps of at least 100_000, the exact top
/// rung, and bounds for every rung.
proof fn lemma_raw_props(base: int)
    requires
        0 <= base <= MAX_SHARD_BANDWIDTH - MAX_RECEIPT_SIZE,
    ensures
        forall|i: int|
            0 <= i < 39 ==> raw_ladder_at(base, i) + 100_000 <= #[trigger] raw_ladder_at(
                base,
                i + 1,
            ),
        raw_ladder_at(base, 39) == MAX_SHARD_BANDWIDTH,
        forall|i: int|
            0 <= i < 40 ==> base + 100_000 <= #[trigger] raw_ladder_at(base, i)
                <= MAX_SHARD_BANDWIDTH,
        raw_ladder_at(base, 38) >= MAX_RECEIPT_SIZE,
{
    let x = MAX_SHARD_BANDWIDTH - base;
    assert(x >= MAX_RECEIPT_SIZE);
    lemma_div_exact(100_000, 40);
    lemma_div_ordered(4_000_000, x, 40);
    assert(x / 40 >= 100_000);
    assert forall|i: int| 0 <= i < 39 implies raw_ladder_at(base, i) + 100_000
        <= #[trigger] raw_ladder_at(base, i + 1) by {
        assert(x * (i + 1) >= 0) by (nonlinear_arith)
            requires
                x >= 0,
                i >= 0,
        ;
        lemma_div_plus(x * (i + 1), x, 40);
        assert(x * (i + 1) + x == x * (i + 2)) by (nonlinear_arith);
    }
    lemma_div_exact(x, 40);
    assert(x * 40 / 40 == x);
    assert(raw_ladder_at(base, 39) == base + x * 40 / 40);
    assert forall|i: int| 0 <= i < 40 implies base + 100_000 <= #[trigger] raw_ladder_at(
        base,
        i,
    ) <= MAX_SHARD_BANDWIDTH by {
        assert(x * 1 <= x * (i + 1) <= x * 40) by (nonlinear_arith)
            requires
                x >= 0,
                0 <= i < 40,
        ;
        lemma_div_ordered(x * 1, x * (i + 1), 40);
        lemma_div_ordered(x * (i + 1), x * 40, 40);
        lemma_div_ordered(4_000_000, x * 1, 40);
    }
    // The next-to-last rung is already at or past the maximum receipt size.
    assert(x * 39 >= (MAX_RECEIPT_SIZE - base) * 40) by (nonlinear_arith)
        requires
            x == MAX_SHARD_BANDWIDTH - base,
            0 <= base <= MAX_SHARD_BANDWIDTH - MAX_RECEIPT_SIZE,
    ;
    lemma_div_exact(MAX_RECEIPT_SIZE - base, 40);
    lemma_div_ordered((MAX_RECEIPT_SIZE - base) * 40, x * 39, 40);
    assert(x * 39 / 40 >= MAX_RECEIPT_SIZE - base);
}

/// Strictness across any distance follows from adjacent gaps.
proof fn lemma_gap_chain(base: int, i: int, j: int)
    requires
        0 <= base <= MAX_SHARD_BANDWIDTH - MAX_RECEIPT_SIZE,
        0 <= i < j < 40,
    ensures
        raw_ladder_at(base, i) < raw_ladder_at(base, j),
    decreases j - i,
{
    lemma_raw_props(base);
    if j == i + 1 {
    } else {
        lemma_gap_chain(base, i + 1, j);
    }
}

/// The running minimum is a first minimizer over the prefix.
proof fn lemma_closest_props(vals: Seq<usize>, n: int)
    requires
        0 <= n <= vals.len(),
    ensures
        (closest_to_max(vals, n) == 0 && forall|i: int|
            0 <= i < n ==> dist_to_max_receipt((#[trigger] vals[i]) as int)
                >= MAX_RECEIPT_SIZE) || (exists|i: int|
            0 <= i < n && (#[trigger] vals[i]) == closest_to_max(vals, n)),
        forall|i: int|
            0 <= i < n ==> dist_to_max_receipt(closest_to_max(vals, n) as int)
                <= dist_to_max_receipt((#[trigger] vals[i]) as int),
    decreases n,
{
    if n > 0 {
        lemma_closest_props(vals, n - 1);
    }
}

/// Every property of the adjusted ladder that callers rely on: strictly
/// increasing rungs, the exact top rung, the maximum receipt size present,
/// and every rung strictly above the base bandwidth.
proof fn lemma_ladder_props(base: int)
    requires
        0 <= base <= MAX_SHARD_BANDWIDTH - MAX_RECEIPT_SIZE,
    ensures
        ladder(base).len() == 40,
        forall|i: int, j: int|
            0 <= i < j < 40 ==> (#[trigger] ladder(base)[i]) < (#[trigger] ladder(base)[j]),
        ladder(base)[39] == MAX_SHARD_BANDWIDTH,
        exists|i: int| 0 <= i < 40 && (#[trigger] ladder(base)[i]) == MAX_RECEIPT_SIZE,
        forall|i: int|
            0 <= i < 40 ==> base < (#[trigger] ladder(base)[i]) <= MAX_SHARD_BANDWIDTH,
{
    let raw = raw_ladder(base);
    let c = closest_to_max(raw, 40);
    let lad = ladder(base);
    lemma_raw_props(base);
    lemma_closest_props(raw, 40);
    assert forall|i: int, j: int| 0 <= i < j < 40 implies (#[trigger] raw[i]) < (
    #[trigger] raw[j]) by {
        lemma_gap_chain(base, i, j);
    }
    // The placeholder never survives: rung 0 is closer to the maximum
    // receipt size than zero is.
    assert(dist_to_max_receipt(raw[0] as int) < MAX_RECEIPT_SIZE);
    assert(exists|i: int| 0 <= i < 40 && (#[trigger] raw[i]) == c);
    let k = choose|k: int| 0 <= k < 40 && (#[trigger] raw[k]) == c;
    // The top rung is never the closest: rung 38 beats it.
    assert(raw[38] >= MAX_RECEIPT_SIZE);
    assert(raw[38] < raw[39]);
    assert(dist_to_max_receipt(raw[38] as int) < dist_to_max_receipt(raw[39] as int));
    assert(c != raw[39]);
    assert(k < 39);
    // Only rung `k` is replaced.
    assert(forall|i: int| 0 <= i < 40 ==> lad[i] == (if raw[i] == c {
        MAX_RECEIPT_SIZE
    } else {
        raw[i]
    }));
    assert forall|i: int| 0 <= i < 40 && i != k implies (#[trigger] raw[i]) != c by {
        if i < k {
            assert(raw[i] < raw[k]);
        } else {
            assert(raw[k] < raw[i]);
        }
    }
    // Neighbours of the replaced rung lie strictly on either side of the
    // maximum receipt size, so the ladder stays strictly increasing.
    assert forall|i: int, j: int| 0 <= i < j < 40 implies (#[trigger] lad[i]) < (
    #[trigger] lad[j]) by {
        if i == k {
            assert(lad[i] == MAX_RECEIPT_SIZE);
            if raw[j] <= MAX_RECEIPT_SIZE {
                assert(c < raw[j]);
                assert(dist_to_max_receipt(raw[j] as int) < dist_to_max_receipt(c as int));
            }
        } else if j == k {
            assert(lad[j] == MAX_RECEIPT_SIZE);
            if raw[i] >= MAX_RECEIPT_SIZE {
                assert(raw[i] < c);
                assert(dist_to_max_receipt(raw[i] as int) < dist_to_max_receipt(c as int));
            }
        }
    }
    assert(lad[39] == raw[39]);
    assert(lad[k] == MAX_RECEIPT_SIZE);
    assert forall|i: int| 0 <= i < 40 implies base < (#[trigger] lad[i])
        <= MAX_SHARD_BANDWIDTH by {
        assert(base + 100_000 <= raw_ladder_at(base, i) <= MAX_SHARD_BANDWIDTH);
    }
}

/// Bandwidth values that can be requested in a `BandwidthRequest`; the nth
/// bit in the bitmap is set when the shard requests the nth value.
#[derive(Clone, Debug)]
pub struct BandwidthRequestValues(pub Vec<usize>);

impl BandwidthRequestValues {
    pub open spec fn wf(&self) -> bool {
        self.0@.len() == 40
    }

    /// Build the ladder for the given base bandwidth.
    pub fn new(base_bandwidth: usize, max_bandwidth: usize) -> (r: BandwidthRequestValues)
        requires
            max_bandwidth == MAX_SHARD_BANDWIDTH,
            base_bandwidth <= MAX_SHARD_BANDWIDTH - MAX_RECEIPT_SIZE,
        ensures
            r.wf(),
            r.0@ == ladder(base_bandwidth as int),
            forall|i: int, j: int| 0 <= i < j < 40 ==> (#[trigger] r.0@[i]) < (#[trigger] r.0@[j]),
            r.0@[39] == MAX_SHARD_BANDWIDTH,
            exists|i: int| 0 <= i < 40 && (#[trigger] r.0@[i]) == MAX_RECEIPT_SIZE,
            forall|i: int|
                0 <= i < 40 ==> base_bandwidth < (#[trigger] r.0@[i]) <= MAX_SHARD_BANDWIDTH,
    {
        let base = base_bandwidth;
        let ghost base_i = base_bandwidth as int;
        let mut values: Vec<usize> = Vec::new();
        let mut i: usize = 0;
        while i < 40
            invariant
                i <= 40,
                values@.len() == i,
                base == base_bandwidth,
                base_i == base_bandwidth as int,
                max_bandwidth == MAX_SHARD_BANDWIDTH,
                base_bandwidth <= MAX_SHARD_BANDWIDTH - MAX_RECEIPT_SIZE,
                forall|t: int| 0 <= t < i ==> (#[trigger] values@[t]) == raw_ladder(base_i)[t],
            decreases 40 - i,
        {
            proof {
                assert((MAX_SHARD_BANDWIDTH - base_i) * ((i + 1) as int) <= 4_500_000 * 40)
                    by (nonlinear_arith)
                    requires
                        0 <= base_i,
                        MAX_SHARD_BANDWIDTH - base_i <= 4_500_000,
                        i < 40,
                ;
                assert((MAX_SHARD_BANDWIDTH - base_i) * ((i + 1) as int) >= 0)
                    by (nonlinear_arith)
                    requires
                        base_i <= MAX_SHARD_BANDWIDTH,
                        i < 40,
                ;
                assert(raw_ladder_at(base_i, i as int) <= base_i + 4_500_000 * 40 / 40);
            }
            values.push(base + (max_bandwidth - base) * (i + 1) / 40);
            i = i + 1;
        }
        proof {
            assert(values@ =~= raw_ladder(base_i));
        }
        // The value closest to MAX_RECEIPT_SIZE is replaced by it, so that a
        // maximum-size receipt can always be covered by some rung.
        let mut closest: usize = 0;
        let mut t: usize = 0;
        while t < 40
            invariant
                t <= 40,
                values@ == raw_ladder(base_i),
                closest == closest_to_max(values@, t as int),
            decreases 40 - t,
        {
            let v = values[t];
            let dv = if v <= MAX_RECEIPT_SIZE {
                MAX_RECEIPT_SIZE - v
            } else {
                v - MAX_RECEIPT_SIZE
            };
            let dc = if closest <= MAX_RECEIPT_SIZE {
                MAX_RECEIPT_SIZE - closest
            } else {
                closest - MAX_RECEIPT_SIZE
            };
            if dv < dc {
                closest = v;
            }
            t = t + 1;
        }
        let mut u: usize = 0;
        while u < 40
            invariant
                u <= 40,
                values@.len() == 40,
                closest == closest_to_max(raw_ladder(base_i), 40),
                forall|w: int| u <= w < 40 ==> (#[trigger] values@[w]) == raw_ladder(base_i)[w],
                forall|w: int|
                    0 <= w < u ==> (#[trigger] values@[w]) == ladder(base_i)[w],
            decreases 40 - u,
        {
            if values[u] == closest {
                values[u] = MAX_RECEIPT_SIZE;
            }
            u = u + 1;
        }
        let r = BandwidthRequestValues(values);
        proof {
            assert(r.0@ =~= ladder(base_i));
            lemma_ladder_props(base_i);
        }
        r
    }
}


/// The first rung at or past `cur` that covers `t`, or 40 when none does.
pub open spec fn advance_cursor(vals: Seq<usize>, cur: int, t: int) -> int
    decreases vals.len() - cur,
{
    if cur < 0 || cur >= vals.len() {
        vals.len() as int
    } else if vals[cur] >= t {
        cur
    } else {
        advance_cursor(vals, cur + 1, t)
    }
}

/// The bits that encoding `sizes` sets, continuing from `bits` with running
/// total `total` and ladder cursor `cur`.
pub open spec fn encode_bits(
    bits: Seq<bool>,
    sizes: Seq<usize>,
    total: int,
    cur: int,
    vals: Seq<usize>,
    base: int,
) -> Seq<bool>
    decreases sizes.len(),
{
    if sizes.len() == 0 {
        bits
    } else {
        let t2 = total + sizes[0];
        if t2 <= base {
            encode_bits(bits, sizes.drop_first(), t2, cur, vals, base)
        } else {
            let c2 = advance_cursor(vals, cur, t2);
            if c2 >= vals.len() {
                bits.update(vals.len() - 1, true)
            } else {
                encode_bits(bits.update(c2, true), sizes.drop_first(), t2, c2, vals, base)
            }
        }
    }
}

/// The empty bitmap contents.
pub open spec fn no_bits() -> Seq<bool> {
    Seq::new(40, |i: int| false)
}

/// The bits that a queue with the given receipt sizes requests over the
/// ladder for `base`.
pub open spec fn request_bits(sizes: Seq<usize>, base: int) -> Seq<bool> {
    encode_bits(no_bits(), sizes, 0, 0, ladder(base), base)
}

/// A request for bandwidth to a shard: a bitmap of acceptable grants.
#[derive(Clone, Debug)]
pub struct BandwidthRequest {
    pub to_shard: ShardUId,
    pub grant_options_bitmap: BandwidthRequestBitmap,
}

impl BandwidthRequest {
    /// Encode an outgoing queue, head first, into a request.
    ///
    /// A request is produced exactly when the queue's total size exceeds the
    /// base bandwidth that every link receives anyway.
    pub fn from_receipt_sizes(
        to_shard: ShardUId,
        receipt_sizes: &Vec<usize>,
        base_bandwidth: usize,
        max_bandwidth: usize,
    ) -> (r: Option<BandwidthRequest>)
        requires
            max_bandwidth == MAX_SHARD_BANDWIDTH,
            base_bandwidth <= MAX_SHARD_BANDWIDTH - MAX_RECEIPT_SIZE,
            sizes_sum(receipt_sizes@) <= usize::MAX,
        ensures
            match r {
                Some(req) => req.to_shard == to_shard && req.grant_options_bitmap.wf()
                    && req.grant_options_bitmap.bits() == request_bits(
                    receipt_sizes@,
                    base_bandwidth as int,
                ) && sizes_sum(receipt_sizes@) > base_bandwidth,
                None => sizes_sum(receipt_sizes@) <= base_bandwidth && (forall|i: int|
                    0 <= i < 40 ==> !(#[trigger] request_bits(
                        receipt_sizes@,
                        base_bandwidth as int,
                    )[i])),
            },
    {
        let values = BandwidthRequestValues::new(base_bandwidth, max_bandwidth);
        let mut bitmap = BandwidthRequestBitmap::new();
        let ghost vals = values.0@;
        let ghost base_i = base_bandwidth as int;
        let ghost target = request_bits(receipt_sizes@, base_i);
        let n = receipt_sizes.len();
        let mut total: usize = 0;
        let mut cur: usize = 0;
        let mut idx: usize = 0;
        let mut stopped = false;
        proof {
            assert(bitmap.bits() =~= no_bits());
            assert(receipt_sizes@.take(0) =~= Seq::<usize>::empty());
            assert(receipt_sizes@.skip(0) =~= receipt_sizes@);
            lemma_sum_by_nonneg(receipt_sizes@, size_val());
        }
        while idx < n
            invariant_except_break
                !stopped,
                total == sizes_sum(receipt_sizes@.take(idx as int)),
                total <= sizes_sum(receipt_sizes@),
                encode_bits(
                    bitmap.bits(),
                    receipt_sizes@.skip(idx as int),
                    total as int,
                    cur as int,
                    vals,
                    base_i,
                ) == target,
            invariant
                idx <= n,
                n == receipt_sizes@.len(),
                cur <= 40,
                bitmap.wf(),
                values.0@ == vals,
                vals == ladder(base_i),
                vals.len() == 40,
                base_i == base_bandwidth as int,
                sizes_sum(receipt_sizes@) <= usize::MAX,
                target == request_bits(receipt_sizes@, base_i),
                (exists|i: int| 0 <= i < 40 && #[trigger] bitmap.bits()[i]) <==> total
                    > base_bandwidth,
            ensures
                bitmap.wf(),
                bitmap.bits() == target,
                stopped ==> (exists|i: int| 0 <= i < 40 && #[trigger] bitmap.bits()[i])
                    && total > base_bandwidth && total <= sizes_sum(receipt_sizes@),
                !stopped ==> idx == n && ((exists|i: int|
                    0 <= i < 40 && #[trigger] bitmap.bits()[i]) <==> total > base_bandwidth)
                    && total == sizes_sum(receipt_sizes@.take(idx as int)),
            decreases n - idx,
        {
            let ghost entry_bits = bitmap.bits();
            let ghost entry_total = total as int;
            let size = receipt_sizes[idx];
            proof {
                lemma_sum_by_split(receipt_sizes@, idx + 1, size_val());
                lemma_sum_by_take_extend(receipt_sizes@, idx as int, size_val());
                let sk1 = receipt_sizes@.skip(idx + 1);
                assert(forall|t: int| 0 <= t < sk1.len() ==> #[trigger] size_val()(sk1[t]) >= 0);
                lemma_sum_by_nonneg(sk1, size_val());
                assert(receipt_sizes@.take(idx + 1).len() == idx + 1);
                assert(sizes_sum(receipt_sizes@.take(idx + 1)) == total + size);
                assert(receipt_sizes@.skip(idx as int)[0] == size);
                assert(receipt_sizes@.skip(idx as int).drop_first() =~= receipt_sizes@.skip(
                    idx + 1,
                ));
            }
            total = total + size;
            if total <= base_bandwidth {
                proof {
                    assert(encode_bits(
                        bitmap.bits(),
                        receipt_sizes@.skip(idx + 1),
                        total as int,
                        cur as int,
                        vals,
                        base_i,
                    ) == target);
                }
                idx = idx + 1;
                continue;
            }
            let ghost cur0 = cur;
            while cur < 40
                invariant
                    cur0 <= cur <= 40,
                    values.0@ == vals,
                    vals.len() == 40,
                    advance_cursor(vals, cur as int, total as int) == advance_cursor(
                        vals,
                        cur0 as int,
                        total as int,
                    ),
                ensures
                    cur0 <= cur <= 40,
                    advance_cursor(vals, cur0 as int, total as int) == (
                    if cur < 40 {
                        cur as int
                    } else {
                        40
                    }),
                    cur < 40 ==> vals[cur as int] >= total,
                decreases 40 - cur,
            {
                if values.0[cur] >= total {
                    break;
                }
                cur = cur + 1;
            }
            if cur == 40 {
                let ghost before = bitmap.bits();
                bitmap.set_bit(40 - 1, true);
                stopped = true;
                proof {
                    assert(bitmap.bits() == before.update(39, true));
                    assert(bitmap.bits()[39]);
                    // The encoding stops here: the spec sets the top bit and
                    // ignores the rest of the queue.
                    assert(encode_bits(
                        entry_bits,
                        receipt_sizes@.skip(idx as int),
                        entry_total,
                        cur0 as int,
                        vals,
                        base_i,
                    ) == before.update(39, true));
                    assert(total <= sizes_sum(receipt_sizes@));
                }
                break;
            }
            let ghost before = bitmap.bits();
            bitmap.set_bit(cur, true);
            proof {
                assert(bitmap.bits() == before.update(cur as int, true));
                assert(bitmap.bits()[cur as int]);
                assert(encode_bits(
                    entry_bits,
                    receipt_sizes@.skip(idx as int),
                    entry_total,
                    cur0 as int,
                    vals,
                    base_i,
                ) == encode_bits(
                    bitmap.bits(),
                    receipt_sizes@.skip(idx + 1),
                    total as int,
                    cur as int,
                    vals,
                    base_i,
                ));
            }
            idx = idx + 1;
        }
        proof {
            assert(receipt_sizes@.take(n as int) =~= receipt_sizes@);
        }
        if bitmap.is_all_false() {
            return None;
        }
        Some(BandwidthRequest { to_shard, grant_options_bitmap: bitmap })
    }
}

/// The requested absolute grant values among the first `n` rungs.
pub open spec fn decoded_prefix(bits: Seq<bool>, vals: Seq<usize>, n: int) -> Seq<usize>
    decreases n,
{
    if n <= 0 {
        Seq::empty()
    } else {
        let p = decoded_prefix(bits, vals, n - 1);
        if bits[n - 1] {
            p.push(vals[n - 1])
        } else {
            p
        }
    }
}

/// The sorted absolute grant values selected by a request bitmap.
#[derive(Clone, Debug)]
pub struct BandwidthRequestOptions(pub Vec<usize>);

impl BandwidthRequestOptions {
    /// Decode a bitmap into the sorted absolute grants it requests.
    ///
    /// The result is strictly increasing and every entry lies strictly above
    /// the base bandwidth, so consecutive differences are always positive.
    pub fn from_bitmap(
        bitmap: &BandwidthRequestBitmap,
        base_bandwidth: usize,
        max_bandwidth: usize,
    ) -> (r: BandwidthRequestOptions)
        requires
            bitmap.wf(),
            max_bandwidth == MAX_SHARD_BANDWIDTH,
            base_bandwidth <= MAX_SHARD_BANDWIDTH - MAX_RECEIPT_SIZE,
        ensures
            r.0@ == decoded_prefix(bitmap.bits(), ladder(base_bandwidth as int), 40),
            forall|a: int, b: int| 0 <= a < b < r.0@.len() ==> (#[trigger] r.0@[a]) < (#[trigger] r.0@[b]),
            forall|t: int|
                0 <= t < r.0@.len() ==> base_bandwidth < (#[trigger] r.0@[t])
                    <= MAX_SHARD_BANDWIDTH,
    {
        let values = BandwidthRequestValues::new(base_bandwidth, max_bandwidth);
        let ghost vals = values.0@;
        let mut options: Vec<usize> = Vec::new();
        let mut i: usize = 0;
        while i < 40
            invariant
                i <= 40,
                bitmap.wf(),
                values.0@ == vals,
                vals == ladder(base_bandwidth as int),
                vals.len() == 40,
                base_bandwidth <= MAX_SHARD_BANDWIDTH - MAX_RECEIPT_SIZE,
                forall|a: int, b: int| 0 <= a < b < 40 ==> (#[trigger] vals[a]) < (#[trigger] vals[b]),
                forall|t: int|
                    0 <= t < 40 ==> base_bandwidth < (#[trigger] vals[t]) <= MAX_SHARD_BANDWIDTH,
                options@ == decoded_prefix(bitmap.bits(), vals, i as int),
                forall|a: int, b: int|
                    0 <= a < b < options@.len() ==> (#[trigger] options@[a]) < (
                    #[trigger] options@[b]),
                forall|t: int|
                    0 <= t < options@.len() ==> base_bandwidth < (#[trigger] options@[t])
                        <= MAX_SHARD_BANDWIDTH,
                options@.len() > 0 ==> exists|w: int|
                    0 <= w < i && options@.last() == (#[trigger] vals[w]),
            decreases 40 - i,
        {
            if bitmap.get_bit(i) {
                proof {
                    if options@.len() > 0 {
                        let w = choose|w: int|
                            0 <= w < i && options@.last() == (#[trigger] vals[w]);
                        assert(vals[w] < vals[i as int]);
                    }
                }
                options.push(values.0[i]);
            }
            i = i + 1;
        }
        BandwidthRequestOptions(options)
    }
}

} // verus!
