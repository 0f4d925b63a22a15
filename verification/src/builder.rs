//! A convenient way to assemble a `Simulation`.

use vstd::prelude::*;

use crate::chain::{uid_lt, ShardLink, ShardUId, MAX_RECEIPT_SIZE, MAX_SHARD_BANDWIDTH, MIN_RECEIPT_SIZE};
use crate::maps::LinkMap;
use crate::receipt_sender::{sender_wf, ReceiptGenerator, ReceiptSender};
use crate::rng::{gen_range_inclusive, rng_from_seed, DefaultRng};
use crate::simulation::{policy_wf, MissingChunkPolicy, Simulation};

verus! {

/// How the builder fills in senders for links without an explicit one.
#[derive(Clone, Copy, Debug)]
pub enum SenderFactory {
    /// The same sender on every remaining link.
    Fixed(ReceiptSender),
    /// An independently drawn full-speed sender on every remaining link.
    RandomMix,
}

pub open spec fn factory_wf(f: SenderFactory) -> bool {
    match f {
        SenderFactory::Fixed(s) => sender_wf(s),
        SenderFactory::RandomMix => true,
    }
}

/// A full-speed sender with a randomly chosen workload: tiny, medium or
/// maximum-size receipts, or one of several random size mixtures.
pub fn random_full_speed_sender(rng: &mut DefaultRng) -> (r: ReceiptSender)
    ensures
        sender_wf(r),
{
    let choice = gen_range_inclusive(rng, 0, 6);
    if choice == 0 {
        ReceiptSender::FullSpeed(ReceiptGenerator::OneSize { size: MIN_RECEIPT_SIZE })
    } else if choice == 1 {
        ReceiptSender::FullSpeed(
            ReceiptGenerator::OneSize { size: MAX_SHARD_BANDWIDTH / 2 + 100 },
        )
    } else if choice == 2 {
        ReceiptSender::FullSpeed(ReceiptGenerator::OneSize { size: MAX_RECEIPT_SIZE })
    } else if choice == 3 {
        ReceiptSender::FullSpeed(
            ReceiptGenerator::RandomSize { min_size: MIN_RECEIPT_SIZE, max_size: MAX_RECEIPT_SIZE },
        )
    } else if choice == 4 {
        ReceiptSender::FullSpeed(
            ReceiptGenerator::RandomSize { min_size: MIN_RECEIPT_SIZE, max_size: 50_000 },
        )
    } else if choice == 5 {
        ReceiptSender::FullSpeed(
            ReceiptGenerator::RandomSize { min_size: 150_000, max_size: MAX_RECEIPT_SIZE },
        )
    } else {
        ReceiptSender::FullSpeed(ReceiptGenerator::Typical)
    }
}

/// Builds a `Simulation` from the number of shards, the per-link receipt
/// senders and the missing-block and missing-chunk settings.
pub struct SimulationBuilder {
    shards: Vec<ShardUId>,
    receipt_senders: LinkMap<ReceiptSender>,
    random_seed: u64,
    default_sender_factory: Option<SenderFactory>,
    missing_chunk_generator: Option<MissingChunkPolicy>,
    missing_block_permille: u32,
}

impl SimulationBuilder {
    pub closed spec fn wf(&self) -> bool {
        &&& self.shards@.len() >= 1
        &&& self.shards@.len() * MAX_SHARD_BANDWIDTH <= usize::MAX
        &&& forall|a: int, b: int|
            0 <= a < b < self.shards@.len() ==> uid_lt(
                #[trigger] self.shards@[a],
                #[trigger] self.shards@[b],
            )
        &&& self.receipt_senders.wf()
        &&& forall|i: int|
            0 <= i < self.receipt_senders@.len() ==> sender_wf(
                (#[trigger] self.receipt_senders@[i]).1,
            )
        &&& match self.default_sender_factory {
            Some(f) => factory_wf(f),
            None => true,
        }
        &&& match self.missing_chunk_generator {
            Some(g) => policy_wf(g),
            None => true,
        }
        &&& self.missing_block_permille <= 1000
    }

    pub closed spec fn spec_has_sender(&self, from: ShardUId, to: ShardUId) -> bool {
        self.receipt_senders.spec_contains(ShardLink { from, to })
    }

    pub closed spec fn spec_has_factory(&self) -> bool {
        self.default_sender_factory is Some
    }

    /// The shard identifiers the simulation will use, in order.
    pub closed spec fn spec_shards(&self) -> Seq<ShardUId> {
        self.shards@
    }

    /// The explicitly installed sender of a link, if any.
    pub closed spec fn spec_sender(&self, from: ShardUId, to: ShardUId) -> Option<ReceiptSender> {
        if self.receipt_senders.spec_contains(ShardLink { from, to }) {
            Some(self.receipt_senders.spec_value(ShardLink { from, to }))
        } else {
            None
        }
    }

    pub closed spec fn spec_factory(&self) -> Option<SenderFactory> {
        self.default_sender_factory
    }

    pub closed spec fn spec_missing_block_permille(&self) -> u32 {
        self.missing_block_permille
    }

    /// The missing-chunk policy the simulation will use.
    pub closed spec fn spec_policy(&self) -> crate::simulation::MissingChunkPolicy {
        match self.missing_chunk_generator {
            Some(g) => g,
            None => MissingChunkPolicy::Never,
        }
    }

    /// Create a new builder with this many shards. The count must leave
    /// the shard identifiers distinct and the per-height capacity within the
    /// machine's arithmetic.
    pub fn new(num_shards: usize) -> (r: SimulationBuilder)
        requires
            1 <= num_shards <= 0xffff_ffff,
            num_shards * MAX_SHARD_BANDWIDTH <= usize::MAX,
        ensures
            r.wf(),
            !r.spec_has_factory(),
    {
        let mut shards: Vec<ShardUId> = Vec::new();
        let mut i: usize = 0;
        while i < num_shards
            invariant
                i <= num_shards,
                num_shards <= 0xffff_ffff,
                shards@.len() == i,
                forall|j: int|
                    0 <= j < i ==> #[trigger] shards@[j] == (ShardUId {
                        version: 0u32,
                        shard_id: j as u32,
                    }),
            decreases num_shards - i,
        {
            shards.push(ShardUId::new(i));
            i = i + 1;
        }
        SimulationBuilder {
            shards,
            receipt_senders: LinkMap::new(),
            random_seed: 0,
            default_sender_factory: None,
            missing_block_permille: 0,
            missing_chunk_generator: None,
        }
    }

    /// Install a receipt sender between two shards. Links left without one
    /// fall back to the default sender factory.
    pub fn receipt_sender(self, from_shard: usize, to_shard: usize, sender: ReceiptSender) -> (r:
        SimulationBuilder)
        requires
            self.wf(),
            sender_wf(sender),
            !self.spec_has_sender(
                ShardUId { version: 0u32, shard_id: from_shard as u32 },
                ShardUId { version: 0u32, shard_id: to_shard as u32 },
            ),
        ensures
            r.wf(),
            r.spec_has_factory() == self.spec_has_factory(),
    {
        let shard_link = ShardLink { from: ShardUId::new(from_shard), to: ShardUId::new(to_shard) };
        let mut b = self;
        let ghost pre = b.receipt_senders@;
        b.receipt_senders.set(shard_link, sender);
        proof {
            assert forall|i: int| 0 <= i < b.receipt_senders@.len() implies sender_wf(
                (#[trigger] b.receipt_senders@[i]).1,
            ) by {
                let p = choose|p: int|
                    0 <= p <= pre.len() && b.receipt_senders@ == #[trigger] pre.insert(
                        p,
                        (shard_link, sender),
                    );
                pre.insert_ensures(p, (shard_link, sender));
            }
        }
        b
    }

    /// The random seed used by the simulation.
    pub fn random_seed(self, seed: u64) -> (r: SimulationBuilder)
        requires
            self.wf(),
        ensures
            r.wf(),
            r.spec_has_factory() == self.spec_has_factory(),
    {
        let mut b = self;
        b.random_seed = seed;
        b
    }

    /// The factory used to create senders for links without an explicit one.
    pub fn default_sender_factory(self, factory: SenderFactory) -> (r: SimulationBuilder)
        requires
            self.wf(),
            factory_wf(factory),
            !self.spec_has_factory(),
        ensures
            r.wf(),
    {
        let mut b = self;
        b.default_sender_factory = Some(factory);
        b
    }

    /// Probability of a missing block, in thousandths.
    pub fn missing_block_probability(self, permille: u32) -> (r: SimulationBuilder)
        requires
            self.wf(),
            permille <= 1000,
        ensures
            r.wf(),
            r.spec_has_factory() == self.spec_has_factory(),
    {
        let mut b = self;
        b.missing_block_permille = permille;
        b
    }

    /// The policy deciding which chunks are missing.
    pub fn missing_chunk_generator(self, generator: MissingChunkPolicy) -> (r: SimulationBuilder)
        requires
            self.wf(),
            policy_wf(generator),
        ensures
            r.wf(),
            r.spec_has_factory() == self.spec_has_factory(),
    {
        let mut b = self;
        b.missing_chunk_generator = Some(generator);
        b
    }

    /// Build the simulation: the builder's shard count, seed and missing
    /// settings carry over, explicitly installed senders keep their links,
    /// and the factory fills every remaining link.
    pub fn build(self) -> (r: Simulation)
        requires
            self.wf(),
        ensures
            r.wf(),
            r.blocks@.len() == 1,
            r.shards@.len() == self.spec_shards().len(),
            r.missing_block_permille == self.spec_missing_block_permille(),
            r.missing_chunk_policy == self.spec_policy(),
            forall|s: int|
                0 <= s < self.spec_shards().len() ==> (#[trigger] r.shards@[s]).0
                    == self.spec_shards()[s] && r.shards@[s].1.id == self.spec_shards()[s],
            forall|s: int, u: int|
                0 <= s < self.spec_shards().len() && 0 <= u < self.spec_shards().len() ==> {
                    let from = #[trigger] self.spec_shards()[s];
                    let to = #[trigger] self.spec_shards()[u];
                    let installed = r.shards@[s].1.receipt_senders;
                    match self.spec_sender(from, to) {
                        Some(snd) => installed.spec_contains(to) && installed.spec_value(to)
                            == snd,
                        None => match self.spec_factory() {
                            None => !installed.spec_contains(to),
                            Some(SenderFactory::Fixed(f)) => installed.spec_contains(to)
                                && installed.spec_value(to) == f,
                            Some(SenderFactory::RandomMix) => installed.spec_contains(to)
                                && sender_wf(installed.spec_value(to)),
                        },
                    }
                },
    {
        let mut b = self;
        match b.default_sender_factory {
            Some(factory) => {
                let mut create_senders_rng = rng_from_seed(b.random_seed);
                let n = b.shards.len();
                let mut a: usize = 0;
                while a < n
                    invariant
                        a <= n,
                        n == b.shards@.len(),
                        b.wf(),
                        factory_wf(factory),
                        b.shards@ == self.spec_shards(),
                        b.random_seed == self.random_seed,
                        b.missing_block_permille == self.missing_block_permille,
                        b.missing_chunk_generator == self.missing_chunk_generator,
                        Some(factory) == self.spec_factory(),
                        forall|l: ShardLink|
                            #[trigger] self.receipt_senders.spec_contains(l)
                                ==> b.receipt_senders.spec_contains(l)
                                && b.receipt_senders.spec_value(l)
                                == self.receipt_senders.spec_value(l),
                        forall|l: ShardLink|
                            #[trigger] b.receipt_senders.spec_contains(l)
                                && !self.receipt_senders.spec_contains(l) ==> match factory {
                                SenderFactory::Fixed(f) => b.receipt_senders.spec_value(l) == f,
                                SenderFactory::RandomMix => true,
                            },
                        forall|a2: int, c2: int|
                            0 <= a2 < a && 0 <= c2 < n ==> b.receipt_senders.spec_contains(
                                ShardLink {
                                    from: #[trigger] b.shards@[a2],
                                    to: #[trigger] b.shards@[c2],
                                },
                            ),
                    decreases n - a,
                {
                    let from = b.shards[a];
                    let mut c: usize = 0;
                    while c < n
                        invariant
                            c <= n,
                            a < n,
                            n == b.shards@.len(),
                            b.wf(),
                            factory_wf(factory),
                            from == b.shards@[a as int],
                            b.shards@ == self.spec_shards(),
                            b.random_seed == self.random_seed,
                            b.missing_block_permille == self.missing_block_permille,
                            b.missing_chunk_generator == self.missing_chunk_generator,
                            Some(factory) == self.spec_factory(),
                            forall|l: ShardLink|
                                #[trigger] self.receipt_senders.spec_contains(l)
                                    ==> b.receipt_senders.spec_contains(l)
                                    && b.receipt_senders.spec_value(l)
                                    == self.receipt_senders.spec_value(l),
                            forall|l: ShardLink|
                                #[trigger] b.receipt_senders.spec_contains(l)
                                    && !self.receipt_senders.spec_contains(l) ==> match factory {
                                    SenderFactory::Fixed(f) => b.receipt_senders.spec_value(l)
                                        == f,
                                    SenderFactory::RandomMix => true,
                                },
                            forall|a2: int, c2: int|
                                0 <= a2 < a && 0 <= c2 < n ==> b.receipt_senders.spec_contains(
                                    ShardLink {
                                        from: #[trigger] b.shards@[a2],
                                        to: #[trigger] b.shards@[c2],
                                    },
                                ),
                            forall|c2: int|
                                0 <= c2 < c ==> b.receipt_senders.spec_contains(
                                    ShardLink {
                                        from: b.shards@[a as int],
                                        to: #[trigger] b.shards@[c2],
                                    },
                                ),
                        decreases n - c,
                    {
                        let to = b.shards[c];
                        let shard_link = ShardLink { from, to };
                        if !b.receipt_senders.contains_key(&shard_link) {
                            let sender = match factory {
                                SenderFactory::Fixed(s) => s,
                                SenderFactory::RandomMix => random_full_speed_sender(
                                    &mut create_senders_rng,
                                ),
                            };
                            let ghost pre = b.receipt_senders@;
                            b.receipt_senders.set(shard_link, sender);
                            proof {
                                assert forall|i: int| 0 <= i < b.receipt_senders@.len() implies
                                    sender_wf((#[trigger] b.receipt_senders@[i]).1) by {
                                    let p = choose|p: int|
                                        0 <= p <= pre.len() && b.receipt_senders@
                                            == #[trigger] pre.insert(p, (shard_link, sender));
                                    pre.insert_ensures(p, (shard_link, sender));
                                }
                            }
                        }
                        c = c + 1;
                    }
                    a = a + 1;
                }
            },
            None => {},
        }
        let policy = match b.missing_chunk_generator {
            Some(g) => g,
            None => MissingChunkPolicy::Never,
        };
        let r = Simulation::new(
            b.shards,
            b.receipt_senders,
            b.random_seed,
            b.missing_block_permille,
            policy,
        );
        proof {
            assert forall|s: int, u: int|
                0 <= s < self.spec_shards().len() && 0 <= u < self.spec_shards().len() implies {
                let from = #[trigger] self.spec_shards()[s];
                let to = #[trigger] self.spec_shards()[u];
                let installed = r.shards@[s].1.receipt_senders;
                match self.spec_sender(from, to) {
                    Some(snd) => installed.spec_contains(to) && installed.spec_value(to) == snd,
                    None => match self.spec_factory() {
                        None => !installed.spec_contains(to),
                        Some(SenderFactory::Fixed(f)) => installed.spec_contains(to)
                            && installed.spec_value(to) == f,
                        Some(SenderFactory::RandomMix) => installed.spec_contains(to)
                            && sender_wf(installed.spec_value(to)),
                    },
                }
            } by {
                let from = self.spec_shards()[s];
                let to = self.spec_shards()[u];
                let l = ShardLink { from, to };
                if b.receipt_senders.spec_contains(l) {
                    let i = b.receipt_senders.spec_index_of(l);
                    b.receipt_senders.lemma_key_at(i);
                }
            }
        }
        r
    }
}

} // verus!
