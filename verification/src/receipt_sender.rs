//! Pluggable producers of outgoing receipts.
//!
//! A sender refills one outgoing queue each height; the built-in variants
//! cover the workloads the simulation exercises: silence, a constant size at
//! full speed, uniformly random sizes, and a small-biased typical mixture.

use vstd::prelude::*;

use crate::chain::{Receipt, MAX_RECEIPT_SIZE, MAX_SHARD_BANDWIDTH, MIN_RECEIPT_SIZE};
use crate::outgoing_queue::{receipts_total, OutgoingQueue};
use crate::rng::{gen_range_inclusive, DefaultRng};

verus! {

/// How one generator draws a receipt size.
#[derive(Clone, Copy, Debug)]
pub enum ReceiptGenerator {
    /// Always the same size.
    OneSize { size: usize },
    /// Uniform in an inclusive range.
    RandomSize { min_size: usize, max_size: usize },
    /// Mostly small receipts with an occasional large one.
    Typical,
}

/// Sizes a generator can draw stay positive and within one receipt's cap.
pub open spec fn generator_wf(g: ReceiptGenerator) -> bool {
    match g {
        ReceiptGenerator::OneSize { size } => 1 <= size <= MAX_RECEIPT_SIZE,
        ReceiptGenerator::RandomSize { min_size, max_size } => 1 <= min_size <= max_size
            <= MAX_RECEIPT_SIZE,
        ReceiptGenerator::Typical => true,
    }
}

impl ReceiptGenerator {
    /// Draw one receipt.
    pub fn generate(&self, rng: &mut DefaultRng) -> (r: Receipt)
        requires
            generator_wf(*self),
        ensures
            1 <= r.size <= MAX_RECEIPT_SIZE,
            generated_by(*self, r),
    {
        match self {
            ReceiptGenerator::OneSize { size } => Receipt { size: *size },
            ReceiptGenerator::RandomSize { min_size, max_size } => Receipt {
                size: gen_range_inclusive(rng, *min_size, *max_size),
            },
            ReceiptGenerator::Typical => {
                let bucket = gen_range_inclusive(rng, 0, 99);
                let size = if bucket < 80 {
                    gen_range_inclusive(rng, MIN_RECEIPT_SIZE, 10_000)
                } else if bucket < 96 {
                    gen_range_inclusive(rng, 10_000, 100_000)
                } else {
                    gen_range_inclusive(rng, 100_000, 1_000_000)
                };
                Receipt { size }
            },
        }
    }
}

/// The receipt could have been drawn by this generator.
pub open spec fn generated_by(g: ReceiptGenerator, r: Receipt) -> bool {
    match g {
        ReceiptGenerator::OneSize { size } => r.size == size,
        ReceiptGenerator::RandomSize { min_size, max_size } => min_size <= r.size <= max_size,
        ReceiptGenerator::Typical => MIN_RECEIPT_SIZE <= r.size <= 1_000_000,
    }
}

/// A capability that refills one outgoing queue each height.
#[derive(Clone, Copy, Debug)]
pub enum ReceiptSender {
    /// Sends nothing.
    No,
    /// Pushes receipts from its generator until the queue holds a full
    /// height's worth of bytes.
    FullSpeed(ReceiptGenerator),
}

pub open spec fn sender_wf(s: ReceiptSender) -> bool {
    match s {
        ReceiptSender::No => true,
        ReceiptSender::FullSpeed(g) => generator_wf(g),
    }
}

impl ReceiptSender {
    /// Refill `queue` for the coming height.
    pub fn send_receipts(&self, queue: &mut OutgoingQueue, rng: &mut DefaultRng)
        requires
            sender_wf(*self),
            old(queue).wf(),
        ensures
            final(queue).wf(),
            final(queue).spec_to_shard() == old(queue).spec_to_shard(),
            old(queue).view().is_prefix_of(final(queue).view()),
            match *self {
                ReceiptSender::No => final(queue).view() == old(queue).view(),
                ReceiptSender::FullSpeed(g) => receipts_total(final(queue).view())
                    >= MAX_SHARD_BANDWIDTH && forall|i: int|
                    old(queue).view().len() <= i < final(queue).view().len() ==> generated_by(
                        g,
                        #[trigger] final(queue).view()[i],
                    ),
            },
    {
        match self {
            ReceiptSender::No => {
                proof {
                    assert(queue.view().is_prefix_of(queue.view()));
                }
            },
            ReceiptSender::FullSpeed(generator) => {
                proof {
                    assert(queue.view().is_prefix_of(queue.view()));
                }
                while queue.total_size() < MAX_SHARD_BANDWIDTH
                    invariant
                        generator_wf(*generator),
                        queue.wf(),
                        queue.spec_to_shard() == old(queue).spec_to_shard(),
                        old(queue).view().is_prefix_of(queue.view()),
                        forall|i: int|
                            old(queue).view().len() <= i < queue.view().len() ==> generated_by(
                                *generator,
                                #[trigger] queue.view()[i],
                            ),
                    decreases (if receipts_total(queue.view()) >= MAX_SHARD_BANDWIDTH {
                        0int
                    } else {
                        MAX_SHARD_BANDWIDTH - receipts_total(queue.view())
                    }),
                {
                    let ghost pre_view = queue.view();
                    let receipt = generator.generate(rng);
                    queue.push(receipt);
                    proof {
                        crate::sums::lemma_sum_by_push(
                            pre_view,
                            receipt,
                            crate::outgoing_queue::receipt_size_val(),
                        );
                        assert(old(queue).view().is_prefix_of(queue.view()));
                    }
                }
            },
        }
    }
}

} // verus!
