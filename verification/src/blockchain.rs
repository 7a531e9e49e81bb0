use vstd::prelude::*;

use crate::block::{
    dec_block_full, lemma_block_roundtrip, lemma_block_view_encodable, spec_dec_block_full,
    spec_mined_ok, Block, BlockV,
};
use crate::bytes_eq;
use crate::codec::copy_bytes;
use crate::pow::{bits_wf, TARGET_BITS};
use crate::store::KvStore;
use crate::transaction::{
    spec_is_coinbase, spec_txid, Transaction, TransactionV, TXInput, TXInputV, TXOutput, TXOutputV,
    SUBSIDY,
};
use crate::wallet::{spec_address, spec_checksum, spec_good_address, CHECKSUM_LEN};
use crate::hashes::spec_hash160;
use crate::ChainError;

verus! {

/// The reserved one-byte key the tip pointer is stored under. A block hash
/// is 32 bytes, so no block record can collide with it.
pub open spec fn spec_tip_key() -> Seq<u8> {
    seq![108u8]
}

pub fn tip_key() -> (r: Vec<u8>)
    ensures
        r@ == spec_tip_key(),
{
    let mut v: Vec<u8> = Vec::new();
    v.push(108u8);
    proof {
        assert(v@ =~= seq![108u8]);
    }
    v
}

/// One link of a well-formed chain: the block is sealed, stored under its
/// own hash, and its stored bytes decode back to it.
pub open spec fn chain_entry_ok(m: Map<Seq<u8>, Seq<u8>>, bs: Seq<BlockV>, i: int) -> bool {
    &&& bs[i].hash is Some
    &&& bs[i].hash->0.len() == 32
    &&& m.contains_key(bs[i].hash->0)
    &&& spec_dec_block_full(m[bs[i].hash->0]) == Option::Some(bs[i])
}

/// Each block links to the one the walk visits next.
pub open spec fn chain_link_ok(bs: Seq<BlockV>, i: int) -> bool {
    bs[i].previous_block_hash == Option::Some(bs[i + 1].hash->0)
}

/// A well-formed store: the tip pointer names the newest block, the blocks
/// from tip backward are each stored under their own hash and linked by
/// previous-hash, the walk is maximal (it ends at genesis or at a hash the
/// store no longer holds), and nothing else is in the store.
pub open spec fn chain_ok(m: Map<Seq<u8>, Seq<u8>>, tipfield: Seq<u8>, bs: Seq<BlockV>) -> bool {
    &&& m.contains_key(spec_tip_key())
    &&& m[spec_tip_key()] == tipfield
    &&& tipfield.len() == 32
    &&& (bs.len() > 0 ==> bs[0].hash->0 == tipfield)
    &&& (bs.len() == 0 ==> !m.contains_key(tipfield))
    &&& (forall|i: int| 0 <= i < bs.len() ==> chain_entry_ok(m, bs, i))
    &&& (forall|i: int| 0 <= i < bs.len() - 1 ==> chain_link_ok(bs, i))
    &&& (bs.len() > 0 ==> (bs[bs.len() - 1].previous_block_hash matches Option::Some(p)
        ==> !m.contains_key(p)))
    &&& (forall|i: int, j: int| 0 <= i < j < bs.len() ==> bs[i].hash->0 != bs[j].hash->0)
    &&& (forall|k: Seq<u8>|
        #[trigger] m.contains_key(k) ==> k == spec_tip_key() || exists|i: int|
            0 <= i < bs.len() && bs[i].hash->0 == k)
}


/// Persisting a freshly mined block under its hash and moving the tip to it
/// keeps the store a well-formed chain, with the new block in front.
#[verifier::rlimit(100)]
pub proof fn lemma_chain_extend(
    oldm: Map<Seq<u8>, Seq<u8>>,
    oldtip: Seq<u8>,
    oldchain: Seq<BlockV>,
    b: BlockV,
    enc: Seq<u8>,
    m: Map<Seq<u8>, Seq<u8>>,
    bs: Seq<BlockV>,
)
    requires
        (oldm == Map::<Seq<u8>, Seq<u8>>::empty() && oldchain.len() == 0) || chain_ok(
            oldm,
            oldtip,
            oldchain,
        ),
        b.hash is Some,
        b.hash->0.len() == 32,
        spec_dec_block_full(enc) == Option::Some(b),
        !oldm.contains_key(b.hash->0),
        b.previous_block_hash == (if oldm.contains_key(spec_tip_key()) {
            Option::Some(oldm[spec_tip_key()])
        } else {
            Option::None::<Seq<u8>>
        }),
        (b.previous_block_hash matches Option::Some(p) ==> p != b.hash->0),
        oldchain.len() > 0 ==> (oldchain[oldchain.len() - 1].previous_block_hash matches
            Option::Some(p) ==> p != b.hash->0),
        m == oldm.insert(b.hash->0, enc).insert(spec_tip_key(), b.hash->0),
        bs == seq![b] + oldchain,
    ensures
        chain_ok(m, b.hash->0, bs),
{
    let bh = b.hash->0;
    assert(bs[0] == b);
    assert(forall|i: int| 0 <= i < oldchain.len() ==> bs[i + 1] == oldchain[i]);
    assert(spec_tip_key().len() == 1);
    if oldm == Map::<Seq<u8>, Seq<u8>>::empty() && oldchain.len() == 0 {
        assert(chain_entry_ok(m, bs, 0));
        assert forall|k: Seq<u8>| #[trigger] m.contains_key(k) implies k == spec_tip_key()
            || exists|i: int| 0 <= i < bs.len() && bs[i].hash->0 == k by {
            if k != spec_tip_key() {
                assert(bs[0].hash->0 == k);
            }
        }
        assert(chain_ok(m, bh, bs));
    } else {
        assert(chain_ok(oldm, oldtip, oldchain));
        assert(b.previous_block_hash == Option::Some(oldtip));
        assert forall|i: int| 0 <= i < bs.len() implies chain_entry_ok(m, bs, i) by {
            if i == 0 {
                assert(m[bh] == enc);
            } else {
                assert(chain_entry_ok(oldm, oldchain, i - 1));
                assert(oldchain[i - 1].hash->0 != spec_tip_key());
                assert(oldchain[i - 1].hash->0 != bh);
            }
        }
        assert forall|i: int| 0 <= i < bs.len() - 1 implies chain_link_ok(bs, i) by {
            if i == 0 {
                assert(oldchain.len() > 0) by {
                    if oldchain.len() == 0 {
                        assert(!oldm.contains_key(oldtip));
                    }
                }
                assert(bs[1] == oldchain[0]);
            } else {
                assert(chain_link_ok(oldchain, i - 1));
            }
        }
        if bs.len() > 0 {
            let last = bs[bs.len() - 1];
            if oldchain.len() == 0 {
                assert(last == b);
                assert(!oldm.contains_key(oldtip));
            } else {
                assert(last == oldchain[oldchain.len() - 1]);
                match last.previous_block_hash {
                    Option::Some(p) => {
                        assert(!oldm.contains_key(p));
                        assert(p != spec_tip_key());
                        assert(p != bh);
                        assert(!m.contains_key(p));
                    },
                    Option::None => {},
                }
            }
        }
        assert forall|i: int, j: int| 0 <= i < j < bs.len() implies bs[i].hash->0 != bs[j].hash
            ->0 by {
            if i == 0 {
                assert(chain_entry_ok(oldm, oldchain, j - 1));
            } else {
                assert(chain_entry_ok(oldm, oldchain, i - 1));
                assert(chain_entry_ok(oldm, oldchain, j - 1));
            }
        }
        assert forall|k: Seq<u8>| #[trigger] m.contains_key(k) implies k == spec_tip_key()
            || exists|i: int| 0 <= i < bs.len() && bs[i].hash->0 == k by {
            if k != spec_tip_key() && k != bh {
                assert(oldm.contains_key(k));
                let i = choose|i: int| 0 <= i < oldchain.len() && oldchain[i].hash->0 == k;
                assert(bs[i + 1].hash->0 == k);
            }
            if k == bh {
                assert(bs[0].hash->0 == k);
            }
        }
        assert(chain_ok(m, bh, bs));
    }
}

/// Evidence that opening left the ledger empty: some unmined genesis block
/// of the required shape fails on every nonce.
pub open spec fn genesis_unminable(g: BlockV, data: Seq<u8>, bits: u64) -> bool {
    &&& g.hash is None
    &&& g.nonce is None
    &&& g.previous_block_hash is None
    &&& g.transactions.len() == 1
    &&& spec_is_coinbase(g.transactions[0])
    &&& g.transactions[0].vin[0].pub_key == data
    &&& forall|m: u64|
        m < u64::MAX ==> !crate::pow::spec_below_target(
            crate::pow::spec_pow_hash(g, bits, m),
            bits,
        )
}

/// The hash-linked ledger: the tip pointer, the backing store, the mining
/// difficulty, and — as a ghost companion — the blocks from tip to the end
/// of the walk.
pub struct Blockchain {
    pub tip: Vec<u8>,
    pub store: KvStore,
    pub target_bits: u64,
    pub chain: Ghost<Seq<BlockV>>,
}

impl Blockchain {
    /// The blocks the store holds, newest first.
    pub closed spec fn chain(&self) -> Seq<BlockV> {
        self.chain@
    }

    /// The map the store holds.
    pub closed spec fn store_map(&self) -> Map<Seq<u8>, Seq<u8>> {
        self.store@
    }

    /// The difficulty this chain mines at.
    pub closed spec fn spec_bits(&self) -> u64 {
        self.target_bits
    }

    /// Either nothing was ever persisted, or the store is a well-formed
    /// chain under the tip pointer.
    pub closed spec fn wf(&self) -> bool {
        &&& self.store.wf()
        &&& bits_wf(self.target_bits)
        &&& ((self.store@ == Map::<Seq<u8>, Seq<u8>>::empty() && self.chain@.len() == 0)
            || chain_ok(self.store@, self.tip@, self.chain@))
    }

    /// A chain that still reaches its genesis block: the walk from the tip
    /// ends at a block with no predecessor link.
    pub open spec fn spec_complete(&self) -> bool {
        self.chain().len() > 0 && self.chain()[self.chain().len() - 1].previous_block_hash is None
    }

    /// Open a fresh ledger at a chosen difficulty: synthesize a genesis
    /// block holding one coinbase transaction that credits `address` with
    /// the subsidy and carries `genesis_data` as its credential, mine it,
    /// and persist it. If mining the genesis block fails, the ledger is
    /// left empty, with no valid tip.
    pub fn with_params(address: &Vec<u8>, genesis_data: &Vec<u8>, bits: u64) -> (r: Result<
        Blockchain,
        ChainError,
    >)
        requires
            bits_wf(bits),
        ensures
            r matches Result::Ok(c) ==> {
                &&& c.wf()
                &&& c.spec_bits() == bits
                &&& c.chain().len() <= 1
                &&& (c.chain().len() == 0 ==> c.store_map() == Map::<Seq<u8>, Seq<u8>>::empty())
                &&& (c.chain().len() == 1 ==> {
                    let g = c.chain()[0];
                    &&& g.previous_block_hash is None
                    &&& g.transactions.len() == 1
                    &&& spec_is_coinbase(g.transactions[0])
                    &&& g.transactions[0].vin[0].pub_key == genesis_data@
                    &&& g.transactions[0].vout.len() == 1
                    &&& g.transactions[0].vout[0].value == SUBSIDY
                    &&& spec_mined_ok(g, bits)
                    &&& c.tip@ == g.hash->0
                    &&& c.spec_complete()
                })
                &&& (c.chain().len() == 0 ==> exists|g: BlockV|
                    genesis_unminable(g, genesis_data@, bits))
                &&& (forall|pk: Seq<u8>|
                    (c.chain().len() == 1 && address@ == spec_address(pk) && spec_hash160(pk).len()
                        == 20 && spec_checksum(pk).len() == CHECKSUM_LEN)
                        ==> c.chain()[0].transactions[0].vout[0].pub_key_hash == spec_hash160(pk))
            },
            (r == Result::<Blockchain, ChainError>::Err(ChainError::MalformedAddress))
                <==> !spec_good_address(address@),
            r is Err ==> (r->Err_0 == ChainError::MalformedAddress || r->Err_0
                == ChainError::ClockBeforeEpoch),
    {
        let coinbase = match Transaction::new_coinbase_tx(address, genesis_data) {
            Result::Ok(t) => t,
            Result::Err(e) => {
                return Result::Err(e);
            },
        };
        let mut txs: Vec<Transaction> = Vec::new();
        txs.push(coinbase);
        let genesis = match Block::mine_with_bits(txs, Option::None, bits) {
            Result::Ok(b) => b,
            Result::Err(e) => {
                return Result::Err(e);
            },
        };
        let mut store = KvStore::new();
        match genesis.hash {
            Option::Some(ref h) => {
                let hash = copy_bytes(h);
                let record = genesis.encode();
                store.insert(copy_bytes(&hash), record);
                store.insert(tip_key(), copy_bytes(&hash));
                let ghost gchain: Seq<BlockV> = seq![genesis@];
                let c = Blockchain { tip: hash, store, target_bits: bits, chain: Ghost(gchain) };
                proof {
                    lemma_block_view_encodable(&genesis);
                    lemma_block_roundtrip(genesis@);
                    let m = c.store@;
                    let bs = c.chain@;
                    assert(genesis@.transactions[0] == genesis.transactions@[0]@);
                    assert(m.contains_key(spec_tip_key()));
                    assert(m[spec_tip_key()] == c.tip@);
                    assert(chain_entry_ok(m, bs, 0));
                    assert forall|k: Seq<u8>| #[trigger] m.contains_key(k) implies k
                        == spec_tip_key() || exists|i: int|
                        0 <= i < bs.len() && bs[i].hash->0 == k by {
                        if k != spec_tip_key() {
                            assert(bs[0].hash->0 == k);
                        }
                    }
                    assert(chain_ok(m, c.tip@, bs));
                }
                Result::Ok(c)
            },
            Option::None => {
                proof {
                    assert(genesis@.transactions[0] == genesis.transactions@[0]@);
                    assert(genesis_unminable(genesis@, genesis_data@, bits));
                }
                let c = Blockchain {
                    tip: Vec::new(),
                    store,
                    target_bits: bits,
                    chain: Ghost(Seq::empty()),
                };
                Result::Ok(c)
            },
        }
    }

    /// Open a fresh ledger at the fixed difficulty.
    pub fn new(address: &Vec<u8>, genesis_data: &Vec<u8>) -> (r: Result<Blockchain, ChainError>)
        ensures
            r matches Result::Ok(c) ==> {
                &&& c.wf()
                &&& c.spec_bits() == TARGET_BITS
                &&& c.chain().len() <= 1
                &&& (c.chain().len() == 0 ==> c.store_map() == Map::<Seq<u8>, Seq<u8>>::empty())
                &&& (c.chain().len() == 1 ==> {
                    let g = c.chain()[0];
                    &&& g.previous_block_hash is None
                    &&& g.transactions.len() == 1
                    &&& spec_is_coinbase(g.transactions[0])
                    &&& g.transactions[0].vin[0].pub_key == genesis_data@
                    &&& g.transactions[0].vout.len() == 1
                    &&& g.transactions[0].vout[0].value == SUBSIDY
                    &&& spec_mined_ok(g, TARGET_BITS)
                    &&& c.tip@ == g.hash->0
                    &&& c.spec_complete()
                })
                &&& (c.chain().len() == 0 ==> exists|g: BlockV|
                    genesis_unminable(g, genesis_data@, TARGET_BITS))
                &&& (forall|pk: Seq<u8>|
                    (c.chain().len() == 1 && address@ == spec_address(pk) && spec_hash160(pk).len()
                        == 20 && spec_checksum(pk).len() == CHECKSUM_LEN)
                        ==> c.chain()[0].transactions[0].vout[0].pub_key_hash == spec_hash160(pk))
            },
            (r == Result::<Blockchain, ChainError>::Err(ChainError::MalformedAddress))
                <==> !spec_good_address(address@),
            r is Err ==> (r->Err_0 == ChainError::MalformedAddress || r->Err_0
                == ChainError::ClockBeforeEpoch),
    {
        Self::with_params(address, genesis_data, TARGET_BITS)
    }

    /// Remove every block record. The tip pointer keeps its stale value,
    /// both in the store and in this handle: a later walk finds nothing.
    pub fn remove_blocks(&mut self)
        requires
            old(self).wf(),
        ensures
            final(self).wf(),
            final(self).chain().len() == 0,
            final(self).tip@ == old(self).tip@,
            final(self).spec_bits() == old(self).spec_bits(),
            forall|k: Seq<u8>|
                #[trigger] final(self).store_map().contains_key(k) ==> k == spec_tip_key(),
            old(self).store_map().contains_key(spec_tip_key()) ==> final(self).store_map()
                == Map::<Seq<u8>, Seq<u8>>::empty().insert(spec_tip_key(), old(self).tip@),
            !old(self).store_map().contains_key(spec_tip_key()) ==> final(self).store_map()
                == Map::<Seq<u8>, Seq<u8>>::empty(),
    {
        let saved: Option<Vec<u8>> = match self.store.get(&tip_key()) {
            Option::Some(v) => Option::Some(copy_bytes(v)),
            Option::None => Option::None,
        };
        self.store.clear();
        match saved {
            Option::Some(v) => {
                proof {
                    if old(self).chain@.len() > 0 {
                        assert(chain_ok(old(self).store@, old(self).tip@, old(self).chain@));
                    }
                }
                self.store.insert(tip_key(), v);
            },
            Option::None => {},
        }
        self.chain = Ghost(Seq::empty());
        proof {
            let m = self.store@;
            if old(self).store@.contains_key(spec_tip_key()) {
                assert(chain_ok(old(self).store@, old(self).tip@, old(self).chain@));
                assert(m.contains_key(spec_tip_key()));
                assert(m[spec_tip_key()] == old(self).tip@);
                assert(!m.contains_key(old(self).tip@));
                assert(chain_ok(m, self.tip@, self.chain@));
            } else {
                assert(old(self).store@ == Map::<Seq<u8>, Seq<u8>>::empty()) by {
                    if old(self).chain@.len() == 0 && old(self).store@ != Map::<
                        Seq<u8>,
                        Seq<u8>,
                    >::empty() {
                        assert(chain_ok(old(self).store@, old(self).tip@, old(self).chain@));
                        assert(old(self).store@.contains_key(spec_tip_key()));
                    }
                    if old(self).chain@.len() > 0 {
                        assert(chain_ok(old(self).store@, old(self).tip@, old(self).chain@));
                        assert(old(self).store@.contains_key(spec_tip_key()));
                    }
                }
                assert(m =~= Map::<Seq<u8>, Seq<u8>>::empty());
            }
        }
    }

    /// Append one block holding `data`: read the stored tip, mine a block
    /// linking to it, persist the block under its hash, and advance the
    /// tip. When mining fails, or the fresh hash is already a key, the
    /// chain is left exactly as it was and the failure is returned.
    #[verifier::rlimit(100)]
    #[verifier::spinoff_prover]
    pub fn add_block(&mut self, data: Vec<Transaction>) -> (r: Result<(), ChainError>)
        requires
            old(self).wf(),
        ensures
            final(self).wf(),
            final(self).spec_bits() == old(self).spec_bits(),
            r is Err ==> *final(self) == *old(self) && (r->Err_0 == ChainError::ClockBeforeEpoch
                || r->Err_0 == ChainError::MiningExhausted || r->Err_0
                == ChainError::DuplicateBlockHash),
            r is Ok ==> {
                &&& final(self).chain().len() == old(self).chain().len() + 1
                &&& final(self).chain().subrange(1, final(self).chain().len() as int) == old(
                    self,
                ).chain()
                &&& final(self).chain()[0].transactions == data@.map_values(
                    |t: Transaction| t@,
                )
                &&& spec_mined_ok(final(self).chain()[0], old(self).spec_bits())
                &&& final(self).tip@ == final(self).chain()[0].hash->0
                &&& (old(self).spec_complete() || old(self).chain().len() == 0 && old(
                    self,
                ).store_map() == Map::<Seq<u8>, Seq<u8>>::empty() ==> final(self).spec_complete())
            },
    {
        let ghost oldm = self.store@;
        let ghost oldchain = self.chain@;
        let previous: Option<Vec<u8>> = match self.store.get(&tip_key()) {
            Option::Some(v) => Option::Some(copy_bytes(v)),
            Option::None => Option::None,
        };
        let ghost prev0 = (match previous {
            Option::Some(ref h) => Option::Some(h@),
            Option::None => Option::None::<Seq<u8>>,
        });
        let block = match Block::mine_with_bits(data, previous, self.target_bits) {
            Result::Ok(b) => b,
            Result::Err(e) => {
                return Result::Err(e);
            },
        };
        match block.hash {
            Option::Some(ref h) => {
                let hash = copy_bytes(h);
                if self.store.get(&hash).is_some() {
                    return Result::Err(ChainError::DuplicateBlockHash);
                }
                match &block.previous_block_hash {
                    Option::Some(p) => {
                        if crate::bytes_eq(p, &hash) {
                            return Result::Err(ChainError::DuplicateBlockHash);
                        }
                    },
                    Option::None => {},
                }
                let walked = self.blocks();
                if walked.len() > 0 {
                    match &walked[walked.len() - 1].previous_block_hash {
                        Option::Some(p) => {
                            if crate::bytes_eq(p, &hash) {
                                return Result::Err(ChainError::DuplicateBlockHash);
                            }
                            proof {
                                assert(walked@[walked@.len() - 1]@ == oldchain[oldchain.len()
                                    - 1]);
                            }
                        },
                        Option::None => {},
                    }
                }
                let record = block.encode();
                let ghost recv = record@;
                self.store.insert(copy_bytes(&hash), record);
                self.store.insert(tip_key(), copy_bytes(&hash));
                self.tip = hash;
                proof {
                    self.chain@ = seq![block@] + oldchain;
                }
                proof {
                    lemma_block_view_encodable(&block);
                    lemma_block_roundtrip(block@);
                    lemma_chain_extend(
                        oldm,
                        old(self).tip@,
                        oldchain,
                        block@,
                        recv,
                        self.store@,
                        self.chain@,
                    );
                    assert(self.chain@.subrange(1, self.chain@.len() as int) =~= oldchain);
                    if old(self).spec_complete() || oldchain.len() == 0 && oldm == Map::<
                        Seq<u8>,
                        Seq<u8>,
                    >::empty() {
                        if oldchain.len() > 0 {
                            assert(self.chain@[self.chain@.len() - 1] == oldchain[oldchain.len()
                                - 1]);
                        }
                    }
                }
                Result::Ok(())
            },
            Option::None => {
                proof {
                    assert(*final(self) == *old(self)) by {
                        assert(self.store@ == oldm);
                    }
                }
                Result::Err(ChainError::MiningExhausted)
            },
        }
    }

    /// Walk the chain from the tip: every stored block, newest first. A
    /// dangling tip yields nothing. Each call walks independently; the
    /// chain is not changed.
    #[verifier::rlimit(100)]
    pub fn blocks(&self) -> (r: Vec<Block>)
        requires
            self.wf(),
        ensures
            r@.len() == self.chain().len(),
            forall|i: int| 0 <= i < r@.len() ==> (#[trigger] r@[i])@ == self.chain()[i],
    {
        let ghost bs = self.chain@;
        let mut out: Vec<Block> = Vec::new();
        let mut current = copy_bytes(&self.tip);
        let mut going = true;
        while going
            invariant
                self.wf(),
                bs == self.chain@,
                out@.len() <= bs.len(),
                forall|i: int| 0 <= i < out@.len() ==> (#[trigger] out@[i])@ == bs[i],
                going ==> (out@.len() < bs.len() ==> current@ == bs[out@.len() as int].hash->0),
                going ==> (out@.len() == bs.len() ==> !self.store@.contains_key(current@)),
                !going ==> out@.len() == bs.len(),
            decreases bs.len() - out@.len() + (if going {
                1int
            } else {
                0int
            }),
        {
            match self.store.get(&current) {
                Option::None => {
                    proof {
                        if out@.len() < bs.len() {
                            assert(chain_ok(self.store@, self.tip@, bs));
                            assert(chain_entry_ok(self.store@, bs, out@.len() as int));
                        }
                    }
                    going = false;
                },
                Option::Some(bytes) => {
                    proof {
                        assert(out@.len() < bs.len()) by {
                            if out@.len() == bs.len() {
                                assert(!self.store@.contains_key(current@));
                            }
                        }
                        assert(chain_ok(self.store@, self.tip@, bs));
                        assert(chain_entry_ok(self.store@, bs, out@.len() as int));
                    }
                    let block = match dec_block_full(bytes) {
                        Option::Some(b) => b,
                        Option::None => {
                            proof {
                                assert(false);
                            }
                            vstd::pervasive::unreached()
                        },
                    };
                    let ghost i = out@.len() as int;
                    proof {
                        assert(block@ == bs[i]);
                    }
                    current = match &block.previous_block_hash {
                        Option::Some(p) => copy_bytes(p),
                        Option::None => Vec::new(),
                    };
                    out.push(block);
                    proof {
                        if out@.len() < bs.len() {
                            assert(chain_link_ok(bs, i));
                        } else {
                            match bs[i].previous_block_hash {
                                Option::Some(p) => {
                                    assert(!self.store@.contains_key(p));
                                },
                                Option::None => {
                                    assert(current@ =~= Seq::<u8>::empty());
                                    assert(current@.len() == 0);
                                    assert(spec_tip_key().len() == 1);
                                    assert(!self.store@.contains_key(current@)) by {
                                        if self.store@.contains_key(current@) {
                                            if current@ != spec_tip_key() {
                                                let w = choose|w: int|
                                                    0 <= w < bs.len() && bs[w].hash->0
                                                        == current@;
                                                assert(chain_entry_ok(self.store@, bs, w));
                                            }
                                        }
                                    }
                                },
                            }
                        }
                    }
                },
            }
        }
        out
    }
}

/// All transactions the chain holds, in walk order: the tip block's first.
pub open spec fn chain_txs_from(bs: Seq<BlockV>, p: int) -> Seq<TransactionV>
    decreases bs.len() - p,
{
    if p < 0 || p >= bs.len() {
        Seq::empty()
    } else {
        bs[p].transactions + chain_txs_from(bs, p + 1)
    }
}

pub open spec fn chain_txs(bs: Seq<BlockV>) -> Seq<TransactionV> {
    chain_txs_from(bs, 0)
}

/// Whether one input consumes the output `(txid, j)` with a credential
/// belonging to `owner`.
pub open spec fn input_spends(x: TXInputV, txid: Seq<u8>, j: int, owner: Seq<u8>) -> bool {
    &&& x.txid == txid
    &&& (x.vout matches Option::Some(v) && v as int == j)
    &&& spec_hash160(x.pub_key) == owner
}

/// Whether a transaction consumes the output `(txid, j)` on behalf of
/// `owner`. Coinbase inputs consume nothing.
pub open spec fn tx_spends(t: TransactionV, txid: Seq<u8>, j: int, owner: Seq<u8>) -> bool {
    !spec_is_coinbase(t) && exists|k: int|
        0 <= k < t.vin.len() && input_spends(#[trigger] t.vin[k], txid, j, owner)
}

/// Whether output `j` of the transaction at scan position `p` is recorded
/// as spent by `owner` before the scan reaches it: some transaction
/// earlier in the walk (closer to the tip) consumes it.
pub open spec fn spent_before(txs: Seq<TransactionV>, p: int, j: int, owner: Seq<u8>) -> bool {
    exists|q: int| 0 <= q < p && tx_spends(#[trigger] txs[q], txs[p].id, j, owner)
}

/// Whether the scan collects the transaction at position `p` for `owner`:
/// it holds at least one output locked to `owner` not yet recorded spent.
pub open spec fn tx_collected(txs: Seq<TransactionV>, p: int, owner: Seq<u8>) -> bool {
    exists|j: int|
        0 <= j < txs[p].vout.len() && (#[trigger] txs[p].vout[j]).pub_key_hash == owner
            && !spent_before(txs, p, j, owner)
}

/// The transactions the scan collects from position `p` on, in scan order,
/// each at most once.
pub open spec fn spec_unspent_from(txs: Seq<TransactionV>, owner: Seq<u8>, p: int) -> Seq<
    TransactionV,
>
    decreases txs.len() - p,
{
    if p < 0 || p >= txs.len() {
        Seq::empty()
    } else {
        (if tx_collected(txs, p, owner) {
            seq![txs[p]]
        } else {
            Seq::empty()
        }) + spec_unspent_from(txs, owner, p + 1)
    }
}

pub open spec fn spec_unspent_txs(txs: Seq<TransactionV>, owner: Seq<u8>) -> Seq<TransactionV> {
    spec_unspent_from(txs, owner, 0)
}

/// The outputs locked to `owner` among `os`, from index `j` on.
pub open spec fn outs_locked_from(os: Seq<TXOutputV>, owner: Seq<u8>, j: int) -> Seq<TXOutputV>
    decreases os.len() - j,
{
    if j < 0 || j >= os.len() {
        Seq::empty()
    } else {
        (if os[j].pub_key_hash == owner {
            seq![os[j]]
        } else {
            Seq::empty()
        }) + outs_locked_from(os, owner, j + 1)
    }
}

/// The outputs the collected transactions hold for `owner`, flattened in
/// scan order.
pub open spec fn utxo_list_from(us: Seq<TransactionV>, owner: Seq<u8>, p: int) -> Seq<TXOutputV>
    decreases us.len() - p,
{
    if p < 0 || p >= us.len() {
        Seq::empty()
    } else {
        outs_locked_from(us[p].vout, owner, 0) + utxo_list_from(us, owner, p + 1)
    }
}

/// Every output the scan yields for `owner`.
pub open spec fn spec_utxo(txs: Seq<TransactionV>, owner: Seq<u8>) -> Seq<TXOutputV> {
    utxo_list_from(spec_unspent_txs(txs, owner), owner, 0)
}

pub open spec fn sum_out_values(os: Seq<TXOutputV>) -> int
    decreases os.len(),
{
    if os.len() == 0 {
        0
    } else {
        os[0].value + sum_out_values(os.drop_first())
    }
}

/// The balance at an owner hash: the values of every output the scan
/// yields, summed.
pub open spec fn spec_balance(txs: Seq<TransactionV>, owner: Seq<u8>) -> int {
    sum_out_values(spec_utxo(txs, owner))
}

/// A sum of output values is never negative.
pub proof fn lemma_sum_nonneg(os: Seq<TXOutputV>)
    ensures
        sum_out_values(os) >= 0,
    decreases os.len(),
{
    if os.len() > 0 {
        lemma_sum_nonneg(os.drop_first());
    }
}

/// A sum splits at any position.
pub proof fn lemma_sum_split(os: Seq<TXOutputV>, p: int)
    requires
        0 <= p <= os.len(),
    ensures
        sum_out_values(os) == sum_out_values(os.subrange(0, p)) + sum_out_values(
            os.subrange(p, os.len() as int),
        ),
    decreases p,
{
    if p == 0 {
        assert(os.subrange(0, 0) =~= Seq::<TXOutputV>::empty());
        assert(os.subrange(0, os.len() as int) =~= os);
    } else {
        assert(os.len() > 0);
        lemma_sum_split(os.drop_first(), p - 1);
        assert(os.subrange(0, p).drop_first() =~= os.drop_first().subrange(0, p - 1));
        assert(os.subrange(p, os.len() as int) =~= os.drop_first().subrange(
            p - 1,
            os.drop_first().len() as int,
        ));
        assert(os.subrange(0, p).len() > 0);
        assert(os.subrange(0, p)[0] == os[0]);
        assert(sum_out_values(os.subrange(0, p)) == os[0].value + sum_out_values(
            os.subrange(0, p).drop_first(),
        ));
    }
}

impl Blockchain {
    /// Every transaction the chain holds, newest block first.
    pub fn all_txs(&self) -> (r: Vec<Transaction>)
        requires
            self.wf(),
        ensures
            r@.map_values(|t: Transaction| t@) == chain_txs(self.chain()),
    {
        let blocks = self.blocks();
        let ghost bsv = self.chain();
        let mut out: Vec<Transaction> = Vec::new();
        let mut k: usize = 0;
        while k < blocks.len()
            invariant
                blocks@.len() == bsv.len(),
                forall|i: int| 0 <= i < bsv.len() ==> (#[trigger] blocks@[i])@ == bsv[i],
                k <= bsv.len(),
                chain_txs(bsv) == out@.map_values(|t: Transaction| t@) + chain_txs_from(
                    bsv,
                    k as int,
                ),
            decreases bsv.len() - k,
        {
            let ghost pre = out@.map_values(|t: Transaction| t@);
            let mut j: usize = 0;
            let nt = blocks[k].transactions.len();
            while j < nt
                invariant
                    k < bsv.len(),
                    blocks@.len() == bsv.len(),
                    forall|i: int| 0 <= i < bsv.len() ==> (#[trigger] blocks@[i])@ == bsv[i],
                    nt == bsv[k as int].transactions.len(),
                    nt == blocks@[k as int].transactions@.len(),
                    j <= nt,
                    out@.map_values(|t: Transaction| t@) == pre + bsv[k as int].transactions
                        .subrange(0, j as int),
                decreases nt - j,
            {
                let ghost prej = out@.map_values(|t: Transaction| t@);
                out.push(blocks[k].transactions[j].clone());
                j += 1;
                proof {
                    assert(blocks@[k as int].transactions@[j - 1]@ == bsv[k as int].transactions[j
                        - 1]);
                    assert(out@.map_values(|t: Transaction| t@) =~= prej.push(
                        bsv[k as int].transactions[j - 1],
                    ));
                    assert(pre + bsv[k as int].transactions.subrange(0, j as int) =~= prej.push(
                        bsv[k as int].transactions[j - 1],
                    ));
                }
            }
            k += 1;
            proof {
                assert(bsv[k - 1].transactions.subrange(
                    0,
                    bsv[k - 1].transactions.len() as int,
                ) =~= bsv[k - 1].transactions);
                assert(chain_txs_from(bsv, k - 1) == bsv[k - 1].transactions + chain_txs_from(
                    bsv,
                    k as int,
                ));
                assert(chain_txs(bsv) =~= out@.map_values(|t: Transaction| t@) + chain_txs_from(
                    bsv,
                    k as int,
                ));
            }
        }
        proof {
            assert(chain_txs_from(bsv, k as int) == Seq::<TransactionV>::empty());
            assert(out@.map_values(|t: Transaction| t@) =~= chain_txs(bsv));
        }
        out
    }
}

/// Whether output `j` of the transaction at position `p` is already
/// recorded as spent by `owner`, scanning the earlier transactions.
pub fn is_spent_before(txs: &Vec<Transaction>, p: usize, j: usize, owner: &Vec<u8>) -> (r: bool)
    requires
        p < txs@.len(),
    ensures
        r == spent_before(txs@.map_values(|t: Transaction| t@), p as int, j as int, owner@),
{
    let ghost txsv = txs@.map_values(|t: Transaction| t@);
    let mut q: usize = 0;
    while q < p
        invariant
            p < txs@.len(),
            txsv == txs@.map_values(|t: Transaction| t@),
            q <= p,
            forall|q2: int| 0 <= q2 < q ==> !tx_spends(#[trigger] txsv[q2], txsv[p as int].id, j as int, owner@),
        decreases p - q,
    {
        if !txs[q].is_coinbase() {
            let mut k: usize = 0;
            let nv = txs[q].vin.len();
            while k < nv
                invariant
                    p < txs@.len(),
                    q < p,
                    txsv == txs@.map_values(|t: Transaction| t@),
                    nv == txs@[q as int].vin@.len(),
                    k <= nv,
                    !spec_is_coinbase(txsv[q as int]),
                    forall|k2: int|
                        0 <= k2 < k ==> !input_spends(
                            #[trigger] txsv[q as int].vin[k2],
                            txsv[p as int].id,
                            j as int,
                            owner@,
                        ),
                decreases nv - k,
            {
                let vin_ref = &txs[q].vin[k];
                let matches_ref = bytes_eq(&vin_ref.txid, &txs[p].id) && (match vin_ref.vout {
                    Option::Some(v) => v == j,
                    Option::None => false,
                });
                if matches_ref && vin_ref.uses_key(owner) {
                    proof {
                        assert(txsv[q as int].vin[k as int] == txs@[q as int].vin@[k as int]@);
                        assert(input_spends(
                            txsv[q as int].vin[k as int],
                            txsv[p as int].id,
                            j as int,
                            owner@,
                        ));
                        assert(tx_spends(txsv[q as int], txsv[p as int].id, j as int, owner@));
                    }
                    return true;
                }
                proof {
                    assert(txsv[q as int].vin[k as int] == txs@[q as int].vin@[k as int]@);
                }
                k += 1;
            }
            proof {
                assert(!tx_spends(txsv[q as int], txsv[p as int].id, j as int, owner@));
            }
        }
        q += 1;
    }
    false
}

impl Blockchain {
    /// The transactions that still hold value for the owner of a
    /// public-key hash: one backward walk, collecting each transaction
    /// with an output locked to the owner that no newer transaction of the
    /// owner's has consumed.
    pub fn find_unspent_txs(&self, pub_key_hash: &Vec<u8>) -> (r: Vec<Transaction>)
        requires
            self.wf(),
        ensures
            r@.map_values(|t: Transaction| t@) == spec_unspent_txs(
                chain_txs(self.chain()),
                pub_key_hash@,
            ),
    {
        let txs = self.all_txs();
        let ghost txsv = txs@.map_values(|t: Transaction| t@);
        let mut result: Vec<Transaction> = Vec::new();
        let mut p: usize = 0;
        while p < txs.len()
            invariant
                self.wf(),
                txsv == txs@.map_values(|t: Transaction| t@),
                txsv == chain_txs(self.chain()),
                p <= txsv.len(),
                spec_unspent_txs(txsv, pub_key_hash@) == result@.map_values(|t: Transaction| t@)
                    + spec_unspent_from(txsv, pub_key_hash@, p as int),
            decreases txsv.len() - p,
        {
            let mut take = false;
            let mut j: usize = 0;
            let no = txs[p].vout.len();
            while j < no
                invariant
                    p < txsv.len(),
                    txsv == txs@.map_values(|t: Transaction| t@),
                    no == txs@[p as int].vout@.len(),
                    j <= no,
                    take == (exists|j2: int|
                        0 <= j2 < j && (#[trigger] txsv[p as int].vout[j2]).pub_key_hash
                            == pub_key_hash@ && !spent_before(txsv, p as int, j2, pub_key_hash@)),
                decreases no - j,
            {
                if !take && txs[p].vout[j].is_locked_with(pub_key_hash) && !is_spent_before(
                    &txs,
                    p,
                    j,
                    pub_key_hash,
                ) {
                    take = true;
                }
                proof {
                    assert(txsv[p as int].vout[j as int] == txs@[p as int].vout@[j as int]@);
                }
                j += 1;
            }
            let ghost pre = result@.map_values(|t: Transaction| t@);
            proof {
                assert(take == tx_collected(txsv, p as int, pub_key_hash@));
            }
            if take {
                result.push(txs[p].clone());
                proof {
                    assert(result@.map_values(|t: Transaction| t@) =~= pre.push(txsv[p as int]));
                }
            }
            p += 1;
            proof {
                assert(spec_unspent_from(txsv, pub_key_hash@, p - 1) == (if tx_collected(
                    txsv,
                    p - 1,
                    pub_key_hash@,
                ) {
                    seq![txsv[p - 1]]
                } else {
                    Seq::<TransactionV>::empty()
                }) + spec_unspent_from(txsv, pub_key_hash@, p as int));
                assert(spec_unspent_txs(txsv, pub_key_hash@) =~= result@.map_values(
                    |t: Transaction| t@,
                ) + spec_unspent_from(txsv, pub_key_hash@, p as int));
            }
        }
        proof {
            assert(spec_unspent_from(txsv, pub_key_hash@, p as int) == Seq::<
                TransactionV,
            >::empty());
            assert(result@.map_values(|t: Transaction| t@) =~= spec_unspent_txs(
                txsv,
                pub_key_hash@,
            ));
        }
        result
    }
}

impl Blockchain {
    /// Every output the scan yields for the owner of a public-key hash: the
    /// collected transactions' outputs, filtered by the lock. The result is
    /// a function of the chain and the hash alone, so two calls with no
    /// mutation between them return the same sequence.
    pub fn find_utxo(&self, pub_key_hash: &Vec<u8>) -> (r: Vec<TXOutput>)
        requires
            self.wf(),
        ensures
            r@.map_values(|o: TXOutput| o@) == spec_utxo(chain_txs(self.chain()), pub_key_hash@),
    {
        let us = self.find_unspent_txs(pub_key_hash);
        let ghost usv = us@.map_values(|t: Transaction| t@);
        let mut result: Vec<TXOutput> = Vec::new();
        let mut p: usize = 0;
        while p < us.len()
            invariant
                usv == us@.map_values(|t: Transaction| t@),
                usv == spec_unspent_txs(chain_txs(self.chain()), pub_key_hash@),
                p <= usv.len(),
                spec_utxo(chain_txs(self.chain()), pub_key_hash@) == result@.map_values(
                    |o: TXOutput| o@,
                ) + utxo_list_from(usv, pub_key_hash@, p as int),
            decreases usv.len() - p,
        {
            let no = us[p].vout.len();
            let mut j: usize = 0;
            proof {
                assert(utxo_list_from(usv, pub_key_hash@, p as int) == outs_locked_from(
                    usv[p as int].vout,
                    pub_key_hash@,
                    0,
                ) + utxo_list_from(usv, pub_key_hash@, p + 1));
            }
            while j < no
                invariant
                    p < usv.len(),
                    usv == us@.map_values(|t: Transaction| t@),
                    usv == spec_unspent_txs(chain_txs(self.chain()), pub_key_hash@),
                    no == us@[p as int].vout@.len(),
                    no == usv[p as int].vout.len(),
                    j <= no,
                    spec_utxo(chain_txs(self.chain()), pub_key_hash@) == result@.map_values(
                        |o: TXOutput| o@,
                    ) + outs_locked_from(usv[p as int].vout, pub_key_hash@, j as int)
                        + utxo_list_from(usv, pub_key_hash@, p + 1),
                decreases no - j,
            {
                let ghost pre = result@.map_values(|o: TXOutput| o@);
                proof {
                    assert(usv[p as int].vout[j as int] == us@[p as int].vout@[j as int]@);
                    assert(outs_locked_from(usv[p as int].vout, pub_key_hash@, j as int) == (if
                        usv[p as int].vout[j as int].pub_key_hash == pub_key_hash@ {
                        seq![usv[p as int].vout[j as int]]
                    } else {
                        Seq::<TXOutputV>::empty()
                    }) + outs_locked_from(usv[p as int].vout, pub_key_hash@, j + 1));
                }
                if us[p].vout[j].is_locked_with(pub_key_hash) {
                    result.push(us[p].vout[j].clone());
                    proof {
                        assert(result@.map_values(|o: TXOutput| o@) =~= pre.push(
                            usv[p as int].vout[j as int],
                        ));
                        assert(pre.push(usv[p as int].vout[j as int]) =~= pre + seq![
                            usv[p as int].vout[j as int],
                        ]);
                        assert(pre + (seq![usv[p as int].vout[j as int]] + outs_locked_from(
                            usv[p as int].vout,
                            pub_key_hash@,
                            j + 1,
                        ) + utxo_list_from(usv, pub_key_hash@, p + 1)) =~= (pre + seq![
                            usv[p as int].vout[j as int],
                        ]) + outs_locked_from(usv[p as int].vout, pub_key_hash@, j + 1)
                            + utxo_list_from(usv, pub_key_hash@, p + 1));
                    }
                }
                j += 1;
                proof {
                    assert(spec_utxo(chain_txs(self.chain()), pub_key_hash@) =~= result@.map_values(
                        |o: TXOutput| o@,
                    ) + outs_locked_from(usv[p as int].vout, pub_key_hash@, j as int)
                        + utxo_list_from(usv, pub_key_hash@, p + 1));
                }
            }
            p += 1;
            proof {
                assert(outs_locked_from(usv[p - 1].vout, pub_key_hash@, no as int) == Seq::<
                    TXOutputV,
                >::empty());
                assert(spec_utxo(chain_txs(self.chain()), pub_key_hash@) =~= result@.map_values(
                    |o: TXOutput| o@,
                ) + utxo_list_from(usv, pub_key_hash@, p as int));
            }
        }
        proof {
            assert(utxo_list_from(usv, pub_key_hash@, p as int) == Seq::<TXOutputV>::empty());
            assert(result@.map_values(|o: TXOutput| o@) =~= spec_utxo(
                chain_txs(self.chain()),
                pub_key_hash@,
            ));
        }
        result
    }

    /// The balance at a public-key hash: every yielded output's value,
    /// summed. None when the sum does not fit the value type.
    pub fn balance_at(&self, pub_key_hash: &Vec<u8>) -> (r: Option<u64>)
        requires
            self.wf(),
        ensures
            ({
                let total = spec_balance(chain_txs(self.chain()), pub_key_hash@);
                r == (if total <= u64::MAX {
                    Option::Some(total as u64)
                } else {
                    Option::None::<u64>
                })
            }),
    {
        let utxo = self.find_utxo(pub_key_hash);
        let ghost osv = utxo@.map_values(|o: TXOutput| o@);
        let ghost total = sum_out_values(osv);
        proof {
            assert(osv.subrange(0, 0) =~= Seq::<TXOutputV>::empty());
            assert(osv.subrange(0, osv.len() as int) =~= osv);
        }
        let mut acc: u64 = 0;
        let mut p: usize = 0;
        while p < utxo.len()
            invariant
                osv == utxo@.map_values(|o: TXOutput| o@),
                osv == spec_utxo(chain_txs(self.chain()), pub_key_hash@),
                total == sum_out_values(osv),
                p <= osv.len(),
                acc as int == sum_out_values(osv.subrange(0, p as int)),
                acc as int + sum_out_values(osv.subrange(p as int, osv.len() as int)) == total,
            decreases osv.len() - p,
        {
            let v = utxo[p].value;
            proof {
                assert(osv[p as int] == utxo@[p as int]@);
                let tail = osv.subrange(p as int, osv.len() as int);
                assert(tail.len() > 0);
                assert(tail[0] == osv[p as int]);
                assert(tail.drop_first() =~= osv.subrange(p + 1, osv.len() as int));
                lemma_sum_nonneg(osv.subrange(p + 1, osv.len() as int));
            }
            if u64::MAX - acc < v {
                proof {
                    assert(total > u64::MAX);
                }
                return Option::None;
            }
            acc = acc + v;
            p += 1;
            proof {
                let pre = osv.subrange(0, p - 1);
                let now = osv.subrange(0, p as int);
                assert(now.drop_last() =~= pre);
                assert(now.last() == osv[p - 1]);
                lemma_sum_snoc(now);
            }
        }
        proof {
            assert(osv.subrange(p as int, osv.len() as int) =~= Seq::<TXOutputV>::empty());
        }
        Option::Some(acc)
    }
}

/// A sum extends by its last element.
pub proof fn lemma_sum_snoc(os: Seq<TXOutputV>)
    requires
        os.len() > 0,
    ensures
        sum_out_values(os) == sum_out_values(os.drop_last()) + os.last().value,
    decreases os.len(),
{
    if os.len() == 1 {
        assert(os.drop_first().len() == 0);
        assert(sum_out_values(os.drop_first()) == 0);
        assert(os.drop_last().len() == 0);
        assert(sum_out_values(os.drop_last()) == 0);
    } else {
        lemma_sum_snoc(os.drop_first());
        assert(os.drop_first().drop_last() =~= os.drop_last().drop_first());
        assert(os.drop_first().last() == os.last());
        assert(os.drop_last().len() > 0);
        assert(os.drop_last()[0] == os[0]);
        assert(sum_out_values(os.drop_last()) == os[0].value + sum_out_values(
            os.drop_last().drop_first(),
        ));
    }
}

/// Greedy selection inside one transaction's outputs: take each output
/// locked to `owner`, in index order, while the running total is still
/// short of `value`.
pub open spec fn select_from_outputs(
    os: Seq<TXOutputV>,
    owner: Seq<u8>,
    value: u64,
    acc: int,
    j: int,
) -> (int, Seq<usize>)
    decreases os.len() - j,
{
    if j < 0 || j >= os.len() || acc >= value {
        (acc, Seq::empty())
    } else if os[j].pub_key_hash == owner {
        let r = select_from_outputs(os, owner, value, acc + os[j].value, j + 1);
        (r.0, seq![j as usize] + r.1)
    } else {
        select_from_outputs(os, owner, value, acc, j + 1)
    }
}

/// Greedy selection over the collected transactions, in scan order,
/// stopping as soon as the running total reaches `value`: first-fit, no
/// attempt to minimize inputs.
pub open spec fn select_from_txs(
    us: Seq<TransactionV>,
    owner: Seq<u8>,
    value: u64,
    acc: int,
    p: int,
) -> (int, Seq<(Seq<u8>, Seq<usize>)>)
    decreases us.len() - p,
{
    if p < 0 || p >= us.len() || acc >= value {
        (acc, Seq::empty())
    } else {
        let r = select_from_outputs(us[p].vout, owner, value, acc, 0);
        let rest = select_from_txs(us, owner, value, r.0, p + 1);
        ((rest.0), (if r.1.len() > 0 {
            seq![(us[p].id, r.1)]
        } else {
            Seq::<(Seq<u8>, Seq<usize>)>::empty()
        }) + rest.1)
    }
}

/// What the greedy pass accumulates and selects over a chain, for an owner
/// and a target value.
pub open spec fn spec_spendable(txs: Seq<TransactionV>, owner: Seq<u8>, value: u64) -> (
    int,
    Seq<(Seq<u8>, Seq<usize>)>,
) {
    select_from_txs(spec_unspent_txs(txs, owner), owner, value, 0, 0)
}

/// The greedy pass never loses value: it stops at or past the target, or
/// it has taken every output locked to the owner.
pub proof fn lemma_select_outputs_bounds(
    os: Seq<TXOutputV>,
    owner: Seq<u8>,
    value: u64,
    acc: int,
    j: int,
)
    requires
        0 <= j,
        0 <= acc,
    ensures
        ({
            let r = select_from_outputs(os, owner, value, acc, j);
            &&& r.0 >= acc
            &&& r.0 <= acc + sum_out_values(outs_locked_from(os, owner, j))
            &&& (r.0 >= value || r.0 == acc + sum_out_values(outs_locked_from(os, owner, j)))
        }),
    decreases os.len() - j,
{
    let r = select_from_outputs(os, owner, value, acc, j);
    lemma_sum_nonneg(outs_locked_from(os, owner, j));
    if j >= os.len() || acc >= value {
        assert(outs_locked_from(os, owner, j).len() == 0 || acc >= value);
        if j >= os.len() {
            assert(sum_out_values(outs_locked_from(os, owner, j)) == 0);
        }
    } else if os[j].pub_key_hash == owner {
        lemma_select_outputs_bounds(os, owner, value, acc + os[j].value, j + 1);
        let locked = outs_locked_from(os, owner, j);
        assert(locked == seq![os[j]] + outs_locked_from(os, owner, j + 1));
        assert(locked.len() > 0);
        assert(locked[0] == os[j]);
        assert(locked.drop_first() =~= outs_locked_from(os, owner, j + 1));
        assert(sum_out_values(locked) == os[j].value + sum_out_values(
            outs_locked_from(os, owner, j + 1),
        ));
    } else {
        lemma_select_outputs_bounds(os, owner, value, acc, j + 1);
        assert(outs_locked_from(os, owner, j) =~= outs_locked_from(os, owner, j + 1));
    }
}

/// The greedy pass over whole transactions: it stops at or past the
/// target, or it has taken everything the scan yields from position `p`.
pub proof fn lemma_select_txs_bounds(
    us: Seq<TransactionV>,
    owner: Seq<u8>,
    value: u64,
    acc: int,
    p: int,
)
    requires
        0 <= p,
        0 <= acc,
    ensures
        ({
            let r = select_from_txs(us, owner, value, acc, p);
            &&& r.0 >= acc
            &&& r.0 <= acc + sum_out_values(utxo_list_from(us, owner, p))
            &&& (r.0 >= value || r.0 == acc + sum_out_values(utxo_list_from(us, owner, p)))
        }),
    decreases us.len() - p,
{
    let r = select_from_txs(us, owner, value, acc, p);
    lemma_sum_nonneg(utxo_list_from(us, owner, p));
    if p >= us.len() || acc >= value {
        if p >= us.len() {
            assert(sum_out_values(utxo_list_from(us, owner, p)) == 0);
        }
    } else {
        let r1 = select_from_outputs(us[p].vout, owner, value, acc, 0);
        lemma_select_outputs_bounds(us[p].vout, owner, value, acc, 0);
        lemma_select_txs_bounds(us, owner, value, r1.0, p + 1);
        let whole = utxo_list_from(us, owner, p);
        let head = outs_locked_from(us[p].vout, owner, 0);
        let tail = utxo_list_from(us, owner, p + 1);
        assert(whole == head + tail);
        assert(whole.subrange(0, head.len() as int) =~= head);
        assert(whole.subrange(head.len() as int, whole.len() as int) =~= tail);
        lemma_sum_split(whole, head.len() as int);
        lemma_sum_nonneg(head);
        lemma_sum_nonneg(tail);
    }
}

impl Blockchain {
    /// Greedy first-fit accumulation of the owner's yielded outputs, in
    /// scan order, stopping as soon as the total reaches `value`: the total
    /// taken, and the selected output indices grouped by transaction id.
    pub fn find_spendable_outputs(&self, pub_key_hash: &Vec<u8>, value: u64) -> (r: (
        u128,
        Vec<(Vec<u8>, Vec<usize>)>,
    ))
        requires
            self.wf(),
        ensures
            ({
                let s = spec_spendable(chain_txs(self.chain()), pub_key_hash@, value);
                &&& r.0 as int == s.0
                &&& r.1@.map_values(|g: (Vec<u8>, Vec<usize>)| (g.0@, g.1@)) == s.1
            }),
    {
        let us = self.find_unspent_txs(pub_key_hash);
        let ghost usv = us@.map_values(|t: Transaction| t@);
        let ghost goal = select_from_txs(usv, pub_key_hash@, value, 0, 0);
        let mut acc: u128 = 0;
        let mut groups: Vec<(Vec<u8>, Vec<usize>)> = Vec::new();
        let mut p: usize = 0;
        while p < us.len() && acc < value as u128
            invariant
                usv == us@.map_values(|t: Transaction| t@),
                usv == spec_unspent_txs(chain_txs(self.chain()), pub_key_hash@),
                goal == select_from_txs(usv, pub_key_hash@, value, 0, 0),
                p <= usv.len(),
                goal.0 == select_from_txs(usv, pub_key_hash@, value, acc as int, p as int).0,
                goal.1 =~= groups@.map_values(|g: (Vec<u8>, Vec<usize>)| (g.0@, g.1@))
                    + select_from_txs(usv, pub_key_hash@, value, acc as int, p as int).1,
            decreases usv.len() - p,
        {
            let ghost acc0 = acc as int;
            let no = us[p].vout.len();
            let mut idxs: Vec<usize> = Vec::new();
            let mut j: usize = 0;
            while j < no && acc < value as u128
                invariant
                    p < usv.len(),
                    usv == us@.map_values(|t: Transaction| t@),
                    no == us@[p as int].vout@.len(),
                    no == usv[p as int].vout.len(),
                    j <= no,
                    acc0 <= acc as int,
                    acc < value as u128 + u64::MAX as u128,
                    select_from_outputs(usv[p as int].vout, pub_key_hash@, value, acc0, 0).0
                        == select_from_outputs(
                        usv[p as int].vout,
                        pub_key_hash@,
                        value,
                        acc as int,
                        j as int,
                    ).0,
                    select_from_outputs(usv[p as int].vout, pub_key_hash@, value, acc0, 0).1
                        =~= idxs@ + select_from_outputs(
                        usv[p as int].vout,
                        pub_key_hash@,
                        value,
                        acc as int,
                        j as int,
                    ).1,
                decreases no - j,
            {
                proof {
                    assert(usv[p as int].vout[j as int] == us@[p as int].vout@[j as int]@);
                }
                if us[p].vout[j].is_locked_with(pub_key_hash) {
                    let ghost preidx = idxs@;
                    acc = acc + us[p].vout[j].value as u128;
                    idxs.push(j);
                    proof {
                        assert(idxs@ =~= preidx.push(j));
                        assert(preidx + (seq![j] + select_from_outputs(
                            usv[p as int].vout,
                            pub_key_hash@,
                            value,
                            acc as int,
                            j + 1,
                        ).1) =~= preidx.push(j) + select_from_outputs(
                            usv[p as int].vout,
                            pub_key_hash@,
                            value,
                            acc as int,
                            j + 1,
                        ).1);
                    }
                }
                j += 1;
            }
            proof {
                assert(select_from_outputs(
                    usv[p as int].vout,
                    pub_key_hash@,
                    value,
                    acc as int,
                    j as int,
                ).0 == acc as int);
                assert(select_from_outputs(
                    usv[p as int].vout,
                    pub_key_hash@,
                    value,
                    acc as int,
                    j as int,
                ).1 =~= Seq::<usize>::empty());
                assert(select_from_outputs(usv[p as int].vout, pub_key_hash@, value, acc0, 0).1
                    =~= idxs@);
            }
            let ghost pregroups = groups@.map_values(|g: (Vec<u8>, Vec<usize>)| (g.0@, g.1@));
            if idxs.len() > 0 {
                groups.push((copy_bytes(&us[p].id), idxs));
                proof {
                    assert(groups@.map_values(|g: (Vec<u8>, Vec<usize>)| (g.0@, g.1@))
                        =~= pregroups.push((usv[p as int].id, select_from_outputs(
                        usv[p as int].vout,
                        pub_key_hash@,
                        value,
                        acc0,
                        0,
                    ).1)));
                }
            }
            p += 1;
            proof {
                assert(select_from_txs(usv, pub_key_hash@, value, acc0, p - 1).0
                    == select_from_txs(usv, pub_key_hash@, value, acc as int, p as int).0);
                assert(select_from_txs(usv, pub_key_hash@, value, acc0, p - 1).1
                    =~= (if select_from_outputs(
                    usv[p - 1].vout,
                    pub_key_hash@,
                    value,
                    acc0,
                    0,
                ).1.len() > 0 {
                    seq![(usv[p - 1].id, select_from_outputs(
                        usv[p - 1].vout,
                        pub_key_hash@,
                        value,
                        acc0,
                        0,
                    ).1)]
                } else {
                    Seq::<(Seq<u8>, Seq<usize>)>::empty()
                }) + select_from_txs(usv, pub_key_hash@, value, acc as int, p as int).1);
                assert(goal.1 =~= groups@.map_values(|g: (Vec<u8>, Vec<usize>)| (g.0@, g.1@))
                    + select_from_txs(usv, pub_key_hash@, value, acc as int, p as int).1);
            }
        }
        proof {
            assert(select_from_txs(usv, pub_key_hash@, value, acc as int, p as int).0
                == acc as int);
            assert(select_from_txs(usv, pub_key_hash@, value, acc as int, p as int).1 =~= Seq::<
                (Seq<u8>, Seq<usize>),
            >::empty());
            assert(goal.1 =~= groups@.map_values(|g: (Vec<u8>, Vec<usize>)| (g.0@, g.1@)));
        }
        (acc, groups)
    }
}

/// The selected (transaction id, output index) pairs of one group, in
/// index order.
pub open spec fn group_pairs(txid: Seq<u8>, idxs: Seq<usize>, j: int) -> Seq<(Seq<u8>, usize)>
    decreases idxs.len() - j,
{
    if j < 0 || j >= idxs.len() {
        Seq::empty()
    } else {
        seq![(txid, idxs[j])] + group_pairs(txid, idxs, j + 1)
    }
}

/// Every selected (transaction id, output index) pair, in selection order.
pub open spec fn flatten_groups(gs: Seq<(Seq<u8>, Seq<usize>)>, g: int) -> Seq<(Seq<u8>, usize)>
    decreases gs.len() - g,
{
    if g < 0 || g >= gs.len() {
        Seq::empty()
    } else {
        group_pairs(gs[g].0, gs[g].1, 0) + flatten_groups(gs, g + 1)
    }
}

/// When a funded transfer fails on an address: the recipient's is bad, or
/// there is change to return and the spender's own is bad.
pub open spec fn spec_transfer_malformed(
    txs: Seq<TransactionV>,
    pk: Seq<u8>,
    to: Seq<u8>,
    from: Seq<u8>,
    value: u64,
) -> bool {
    let owner = spec_hash160(pk);
    let sel = spec_spendable(txs, owner, value).0;
    &&& spec_balance(txs, owner) >= value
    &&& (!spec_good_address(to) || (sel > value && sel - value <= u64::MAX && !spec_good_address(
        from,
    )))
}

/// When a funded transfer fails on arithmetic: the change does not fit the
/// value type.
pub open spec fn spec_transfer_overflow(
    txs: Seq<TransactionV>,
    pk: Seq<u8>,
    to: Seq<u8>,
    value: u64,
) -> bool {
    let owner = spec_hash160(pk);
    let sel = spec_spendable(txs, owner, value).0;
    spec_balance(txs, owner) >= value && spec_good_address(to) && sel - value > u64::MAX
}

impl Transaction {
    /// Build a transfer of `value` from the owner of address `from` to the
    /// owner of address `to`: resolve the spender's wallet, greedily select
    /// enough of the spender's outputs, reference each selected output from
    /// one input carrying the spender's public key, credit `to` with
    /// `value`, and credit the remainder, if any, back to `from`.
    pub fn new_tx(
        to: &Vec<u8>,
        from: &Vec<u8>,
        value: u64,
        chain: &Blockchain,
        wallets: &crate::wallet::Wallets,
    ) -> (r: Result<Transaction, ChainError>)
        requires
            chain.wf(),
            wallets.wf(),
        ensures
            (r == Result::<Transaction, ChainError>::Err(ChainError::WalletNotFound))
                <==> !wallets.spec_contains(from@),
            wallets.spec_contains(from@) ==> ({
                let owner = spec_hash160(wallets.spec_get(from@)->0.public_key);
                &&& ((r == Result::<Transaction, ChainError>::Err(ChainError::InsufficientFunds))
                    <==> spec_balance(chain_txs(chain.chain()), owner) < value)
                &&& ((r == Result::<Transaction, ChainError>::Err(ChainError::MalformedAddress))
                    <==> spec_transfer_malformed(
                    chain_txs(chain.chain()),
                    wallets.spec_get(from@)->0.public_key,
                    to@,
                    from@,
                    value,
                ))
                &&& ((r == Result::<Transaction, ChainError>::Err(ChainError::ValueOverflow))
                    <==> spec_transfer_overflow(
                    chain_txs(chain.chain()),
                    wallets.spec_get(from@)->0.public_key,
                    to@,
                    value,
                ))
                &&& (r matches Result::Ok(t) ==> {
                    let sel = spec_spendable(chain_txs(chain.chain()), owner, value).0;
                    let flat = flatten_groups(
                        spec_spendable(chain_txs(chain.chain()), owner, value).1,
                        0,
                    );
                    &&& spec_balance(chain_txs(chain.chain()), owner) >= value
                    &&& t@.vin.len() == flat.len()
                    &&& (forall|k: int|
                        0 <= k < flat.len() ==> (#[trigger] t@.vin[k]).txid == flat[k].0
                            && t@.vin[k].vout == Option::Some(flat[k].1))
                    &&& !spec_is_coinbase(t@)
                    &&& t@.id == spec_txid(t@)
                    &&& 1 <= t@.vout.len() <= 2
                    &&& t@.vout[0].value == value
                    &&& (forall|pk: Seq<u8>|
                        (to@ == spec_address(pk) && spec_hash160(pk).len() == 20 && spec_checksum(
                            pk,
                        ).len() == CHECKSUM_LEN) ==> t@.vout[0].pub_key_hash == spec_hash160(pk))
                    &&& (forall|k: int|
                        0 <= k < t@.vin.len() ==> (#[trigger] t@.vin[k]).pub_key
                            == wallets.spec_get(from@)->0.public_key && t@.vin[k].signature.len()
                            == 0)
                    &&& (t@.vout.len() == 2 <==> sel > value)
                    &&& (t@.vout.len() == 2 ==> t@.vout[1].value == sel - value && (forall|
                        pk: Seq<u8>,
                    |
                        (from@ == spec_address(pk) && spec_hash160(pk).len() == 20
                            && spec_checksum(pk).len() == CHECKSUM_LEN) ==> t@.vout[1].pub_key_hash
                            == spec_hash160(pk)))
                })
            }),
            r is Err ==> (r->Err_0 == ChainError::WalletNotFound || r->Err_0
                == ChainError::InsufficientFunds || r->Err_0 == ChainError::MalformedAddress || r
                ->Err_0 == ChainError::ValueOverflow),
    {
        let wallet = match wallets.get(from) {
            Option::Some(w) => w,
            Option::None => {
                return Result::Err(ChainError::WalletNotFound);
            },
        };
        let pub_key_hash = crate::wallet::Wallet::hash_pub_key(&wallet.public_key);
        let ghost owner = spec_hash160(wallets.spec_get(from@)->0.public_key);
        let (all, groups) = chain.find_spendable_outputs(&pub_key_hash, value);
        let ghost gv = spec_spendable(chain_txs(chain.chain()), owner, value).1;
        let ghost flat = flatten_groups(gv, 0);
        proof {
            lemma_select_txs_bounds(
                spec_unspent_txs(chain_txs(chain.chain()), owner),
                owner,
                value,
                0,
                0,
            );
        }
        if all < value as u128 {
            return Result::Err(ChainError::InsufficientFunds);
        }
        let mut vin: Vec<TXInput> = Vec::new();
        let mut g: usize = 0;
        proof {
            assert(flat.subrange(0, flat.len() as int) =~= flat);
        }
        while g < groups.len()
            invariant
                g <= groups@.len(),
                gv == groups@.map_values(|x: (Vec<u8>, Vec<usize>)| (x.0@, x.1@)),
                flat == flatten_groups(gv, 0),
                vin@.len() <= flat.len(),
                forall|i: int|
                    0 <= i < vin@.len() ==> (#[trigger] vin@[i])@.pub_key
                        == wallets.spec_get(from@)->0.public_key && vin@[i]@.signature.len() == 0
                        && vin@[i]@.txid == flat[i].0 && vin@[i]@.vout == Option::Some(flat[i].1),
                flat.subrange(vin@.len() as int, flat.len() as int) == flatten_groups(
                    gv,
                    g as int,
                ),
                wallet@ == wallets.spec_get(from@)->0,
            decreases groups@.len() - g,
        {
            let mut k: usize = 0;
            let nk = groups[g].1.len();
            proof {
                assert(gv[g as int] == (groups@[g as int].0@, groups@[g as int].1@));
                assert(flatten_groups(gv, g as int) == group_pairs(
                    gv[g as int].0,
                    gv[g as int].1,
                    0,
                ) + flatten_groups(gv, g + 1));
            }
            while k < nk
                invariant
                    g < groups@.len(),
                    gv == groups@.map_values(|x: (Vec<u8>, Vec<usize>)| (x.0@, x.1@)),
                    flat == flatten_groups(gv, 0),
                    gv[g as int] == (groups@[g as int].0@, groups@[g as int].1@),
                    nk == groups@[g as int].1@.len(),
                    k <= nk,
                    vin@.len() <= flat.len(),
                    forall|i: int|
                        0 <= i < vin@.len() ==> (#[trigger] vin@[i])@.pub_key
                            == wallets.spec_get(from@)->0.public_key && vin@[i]@.signature.len()
                            == 0 && vin@[i]@.txid == flat[i].0 && vin@[i]@.vout == Option::Some(
                            flat[i].1,
                        ),
                    flat.subrange(vin@.len() as int, flat.len() as int) == group_pairs(
                        gv[g as int].0,
                        gv[g as int].1,
                        k as int,
                    ) + flatten_groups(gv, g + 1),
                    wallet@ == wallets.spec_get(from@)->0,
                decreases nk - k,
            {
                let ghost n0 = vin@.len() as int;
                proof {
                    assert(group_pairs(gv[g as int].0, gv[g as int].1, k as int) == seq![
                        (gv[g as int].0, gv[g as int].1[k as int]),
                    ] + group_pairs(gv[g as int].0, gv[g as int].1, k + 1));
                    assert(flat.subrange(n0, flat.len() as int).len() >= 1);
                    assert(n0 < flat.len());
                    assert(flat[n0] == flat.subrange(n0, flat.len() as int)[0]);
                    assert(flat[n0] == (gv[g as int].0, gv[g as int].1[k as int]));
                }
                vin.push(
                    TXInput {
                        txid: copy_bytes(&groups[g].0),
                        vout: Option::Some(groups[g].1[k]),
                        signature: Vec::new(),
                        pub_key: copy_bytes(&wallet.public_key),
                    },
                );
                k += 1;
                proof {
                    assert(vin@[n0]@.txid == flat[n0].0);
                    assert(vin@[n0]@.vout == Option::Some(flat[n0].1));
                    let rest = group_pairs(gv[g as int].0, gv[g as int].1, k as int)
                        + flatten_groups(gv, g + 1);
                    let whole = flat.subrange(n0, flat.len() as int);
                    assert(whole =~= seq![flat[n0]] + rest);
                    assert forall|i: int|
                        0 <= i < rest.len() implies flat.subrange(
                        vin@.len() as int,
                        flat.len() as int,
                    )[i] == rest[i] by {
                        assert(flat.subrange(vin@.len() as int, flat.len() as int)[i] == flat[n0
                            + 1 + i]);
                        assert(whole[i + 1] == flat[n0 + 1 + i]);
                        assert(whole[i + 1] == (seq![flat[n0]] + rest)[i + 1]);
                    }
                    assert(flat.subrange(vin@.len() as int, flat.len() as int) =~= rest);
                }
            }
            g += 1;
            proof {
                assert(group_pairs(gv[g - 1].0, gv[g - 1].1, nk as int) == Seq::<
                    (Seq<u8>, usize),
                >::empty());
                assert(flat.subrange(vin@.len() as int, flat.len() as int) =~= flatten_groups(
                    gv,
                    g as int,
                ));
            }
        }
        proof {
            assert(flatten_groups(gv, groups@.len() as int) == Seq::<(Seq<u8>, usize)>::empty());
            assert(vin@.len() == flat.len());
        }
        let mut vout: Vec<TXOutput> = Vec::new();
        let mut credit = TXOutput { value, pub_key_hash: Vec::new() };
        match credit.lock(to) {
            Result::Ok(()) => {},
            Result::Err(e) => {
                return Result::Err(e);
            },
        }
        vout.push(credit);
        if all > value as u128 {
            let change = all - value as u128;
            if change > u64::MAX as u128 {
                return Result::Err(ChainError::ValueOverflow);
            }
            let mut rest = TXOutput { value: change as u64, pub_key_hash: Vec::new() };
            match rest.lock(from) {
                Result::Ok(()) => {},
                Result::Err(e) => {
                    return Result::Err(e);
                },
            }
            vout.push(rest);
        }
        let mut tx = Transaction { id: Vec::new(), vin, vout };
        let ghost before = tx@;
        tx.set_id();
        proof {
            assert((TransactionV { id: Seq::<u8>::empty(), ..tx@ }) =~= (TransactionV {
                id: Seq::<u8>::empty(),
                ..before
            }));
            assert(tx@.id == spec_txid(tx@));
            assert(tx@.vin == before.vin);
            assert forall|k: int| 0 <= k < tx@.vin.len() implies (#[trigger] tx@.vin[k]).pub_key
                == wallets.spec_get(from@)->0.public_key && tx@.vin[k].signature.len() == 0 by {
                assert(tx@.vin[k] == before.vin[k]);
            }
            assert forall|k: int| 0 <= k < flat.len() implies (#[trigger] tx@.vin[k]).txid
                == flat[k].0 && tx@.vin[k].vout == Option::Some(flat[k].1) by {
                assert(tx@.vin[k] == before.vin[k]);
            }
            assert(!spec_is_coinbase(tx@)) by {
                if tx@.vin.len() == 1 {
                    assert(tx@.vin[0].vout == Option::Some(flat[0].1));
                }
            }
            assert(tx@.vout[0] == before.vout[0]);
            if tx@.vout.len() == 2 {
                assert(tx@.vout[1] == before.vout[1]);
            }
        }
        Result::Ok(tx)
    }
}

impl Blockchain {
    /// Transfer `value` from the owner of one address to another: build the
    /// transaction and append a block holding exactly it. On any failure —
    /// unknown spender, short balance, malformed address, or a mining
    /// outcome that refuses the block — the chain is left exactly as it
    /// was.
    pub fn send(
        &mut self,
        from: &Vec<u8>,
        to: &Vec<u8>,
        value: u64,
        wallets: &crate::wallet::Wallets,
    ) -> (r: Result<(), ChainError>)
        requires
            old(self).wf(),
            wallets.wf(),
        ensures
            final(self).wf(),
            final(self).spec_bits() == old(self).spec_bits(),
            r is Err ==> *final(self) == *old(self),
            r is Err ==> (r->Err_0 == ChainError::WalletNotFound || r->Err_0
                == ChainError::InsufficientFunds || r->Err_0 == ChainError::MalformedAddress || r
                ->Err_0 == ChainError::ValueOverflow || r->Err_0 == ChainError::ClockBeforeEpoch
                || r->Err_0 == ChainError::MiningExhausted || r->Err_0
                == ChainError::DuplicateBlockHash),
            (r == Result::<(), ChainError>::Err(ChainError::WalletNotFound))
                <==> !wallets.spec_contains(from@),
            wallets.spec_contains(from@) ==> ({
                let owner = spec_hash160(wallets.spec_get(from@)->0.public_key);
                &&& ((r == Result::<(), ChainError>::Err(ChainError::InsufficientFunds))
                    <==> spec_balance(chain_txs(old(self).chain()), owner) < value)
                &&& ((r == Result::<(), ChainError>::Err(ChainError::MalformedAddress))
                    <==> spec_transfer_malformed(
                    chain_txs(old(self).chain()),
                    wallets.spec_get(from@)->0.public_key,
                    to@,
                    from@,
                    value,
                ))
                &&& ((r == Result::<(), ChainError>::Err(ChainError::ValueOverflow))
                    <==> spec_transfer_overflow(
                    chain_txs(old(self).chain()),
                    wallets.spec_get(from@)->0.public_key,
                    to@,
                    value,
                ))
            }),
            r is Ok ==> {
                &&& final(self).chain().len() == old(self).chain().len() + 1
                &&& final(self).chain().subrange(1, final(self).chain().len() as int) == old(
                    self,
                ).chain()
                &&& final(self).chain()[0].transactions.len() == 1
                &&& spec_mined_ok(final(self).chain()[0], old(self).spec_bits())
                &&& ({
                    let t = final(self).chain()[0].transactions[0];
                    let owner = spec_hash160(wallets.spec_get(from@)->0.public_key);
                    &&& wallets.spec_contains(from@)
                    &&& spec_balance(chain_txs(old(self).chain()), owner) >= value
                    &&& t.id == spec_txid(t)
                    &&& 1 <= t.vout.len() <= 2
                    &&& t.vout[0].value == value
                    &&& (forall|pk: Seq<u8>|
                        (to@ == spec_address(pk) && spec_hash160(pk).len() == 20 && spec_checksum(
                            pk,
                        ).len() == CHECKSUM_LEN) ==> t.vout[0].pub_key_hash == spec_hash160(pk))
                    &&& (forall|k: int|
                        0 <= k < t.vin.len() ==> (#[trigger] t.vin[k]).pub_key == wallets.spec_get(
                            from@,
                        )->0.public_key)
                    &&& (t.vout.len() == 2 ==> (forall|pk: Seq<u8>|
                        (from@ == spec_address(pk) && spec_hash160(pk).len() == 20
                            && spec_checksum(pk).len() == CHECKSUM_LEN) ==> t.vout[1].pub_key_hash
                            == spec_hash160(pk)))
                })
            },
    {
        let tx = match Transaction::new_tx(to, from, value, self, wallets) {
            Result::Ok(t) => t,
            Result::Err(e) => {
                return Result::Err(e);
            },
        };
        let ghost txv = tx@;
        let mut data: Vec<Transaction> = Vec::new();
        data.push(tx);
        let ghost datav = data@.map_values(|t: Transaction| t@);
        proof {
            assert(datav =~= seq![txv]);
        }
        match self.add_block(data) {
            Result::Ok(()) => {
                proof {
                    assert(final(self).chain()[0].transactions == datav);
                    assert(final(self).chain()[0].transactions[0] == txv);
                }
                Result::Ok(())
            },
            Result::Err(e) => Result::Err(e),
        }
    }
}

/// Outputs none of which are locked to `h` contribute nothing.
pub proof fn lemma_outs_locked_empty(os: Seq<TXOutputV>, h: Seq<u8>, j: int)
    requires
        0 <= j,
        forall|k: int| 0 <= k < os.len() ==> (#[trigger] os[k]).pub_key_hash != h,
    ensures
        outs_locked_from(os, h, j) == Seq::<TXOutputV>::empty(),
    decreases os.len() - j,
{
    if j < os.len() {
        lemma_outs_locked_empty(os, h, j + 1);
        assert(outs_locked_from(os, h, j) =~= Seq::<TXOutputV>::empty());
    }
}

/// Prepending one transaction shifts the scan positions of the rest.
pub proof fn lemma_unspent_shift(txs: Seq<TransactionV>, newtx: TransactionV, h: Seq<u8>, p: int)
    requires
        0 <= p <= txs.len(),
        forall|k: int|
            0 <= k < newtx.vin.len() ==> spec_hash160((#[trigger] newtx.vin[k]).pub_key) != h,
    ensures
        spec_unspent_from(seq![newtx] + txs, h, p + 1) == spec_unspent_from(txs, h, p),
    decreases txs.len() - p,
{
    let txs2 = seq![newtx] + txs;
    if p < txs.len() {
        assert(txs2[p + 1] == txs[p]);
        assert forall|j: int| spent_before(txs2, p + 1, j, h) == spent_before(txs, p, j, h) by {
            if spent_before(txs2, p + 1, j, h) {
                let q = choose|q: int|
                    0 <= q < p + 1 && tx_spends(#[trigger] txs2[q], txs2[p + 1].id, j, h);
                if q == 0 {
                    assert(tx_spends(newtx, txs2[p + 1].id, j, h));
                    let k = choose|k: int|
                        0 <= k < newtx.vin.len() && input_spends(
                            #[trigger] newtx.vin[k],
                            txs2[p + 1].id,
                            j,
                            h,
                        );
                    assert(spec_hash160(newtx.vin[k].pub_key) == h);
                    assert(false);
                } else {
                    assert(txs2[q] == txs[q - 1]);
                    assert(tx_spends(txs[q - 1], txs[p].id, j, h));
                    assert(spent_before(txs, p, j, h));
                }
            }
            if spent_before(txs, p, j, h) {
                let q = choose|q: int|
                    0 <= q < p && tx_spends(#[trigger] txs[q], txs[p].id, j, h);
                assert(txs2[q + 1] == txs[q]);
                assert(tx_spends(txs2[q + 1], txs2[p + 1].id, j, h));
                assert(spent_before(txs2, p + 1, j, h));
            }
        }
        assert(tx_collected(txs2, p + 1, h) == tx_collected(txs, p, h)) by {
            if tx_collected(txs2, p + 1, h) {
                let j = choose|j: int|
                    0 <= j < txs2[p + 1].vout.len() && (#[trigger] txs2[p + 1].vout[j]).pub_key_hash
                        == h && !spent_before(txs2, p + 1, j, h);
                assert(txs[p].vout[j].pub_key_hash == h && !spent_before(txs, p, j, h));
            }
            if tx_collected(txs, p, h) {
                let j = choose|j: int|
                    0 <= j < txs[p].vout.len() && (#[trigger] txs[p].vout[j]).pub_key_hash == h
                        && !spent_before(txs, p, j, h);
                assert(txs2[p + 1].vout[j].pub_key_hash == h && !spent_before(txs2, p + 1, j, h));
            }
        }
        lemma_unspent_shift(txs, newtx, h, p + 1);
        assert(spec_unspent_from(txs2, h, p + 1) =~= spec_unspent_from(txs, h, p));
    } else {
        assert(spec_unspent_from(txs2, h, p + 1) =~= spec_unspent_from(txs, h, p));
    }
}

/// Prepending one transaction to the collected list shifts its outputs.
pub proof fn lemma_utxo_list_shift(us: Seq<TransactionV>, x: TransactionV, h: Seq<u8>, p: int)
    requires
        0 <= p <= us.len(),
    ensures
        utxo_list_from(seq![x] + us, h, p + 1) == utxo_list_from(us, h, p),
    decreases us.len() - p,
{
    let us2 = seq![x] + us;
    if p < us.len() {
        assert(us2[p + 1] == us[p]);
        lemma_utxo_list_shift(us, x, h, p + 1);
        assert(utxo_list_from(us2, h, p + 1) =~= utxo_list_from(us, h, p));
    } else {
        assert(utxo_list_from(us2, h, p + 1) =~= utxo_list_from(us, h, p));
    }
}

/// Conservation at the recipient: scanning after one more transaction whose
/// every input carries a credential of some other owner, the owner of `h`
/// holds exactly what they held before plus the new outputs locked to `h`.
/// A transfer built by `new_tx` from a different owner is such a
/// transaction, so appending it raises the recipient's balance by exactly
/// the credited value.
pub proof fn lemma_transfer_credits_recipient(
    txs: Seq<TransactionV>,
    newtx: TransactionV,
    h: Seq<u8>,
)
    requires
        forall|k: int|
            0 <= k < newtx.vin.len() ==> spec_hash160((#[trigger] newtx.vin[k]).pub_key) != h,
    ensures
        spec_balance(seq![newtx] + txs, h) == spec_balance(txs, h) + sum_out_values(
            outs_locked_from(newtx.vout, h, 0),
        ),
{
    let txs2 = seq![newtx] + txs;
    lemma_unspent_shift(txs, newtx, h, 0);
    assert(!spent_before(txs2, 0, 0, h));
    let us = spec_unspent_txs(txs, h);
    let us2 = spec_unspent_txs(txs2, h);
    assert(txs2[0] == newtx);
    if tx_collected(txs2, 0, h) {
        assert(us2 == seq![newtx] + us);
        lemma_utxo_list_shift(us, newtx, h, 0);
        assert(utxo_list_from(us2, h, 0) == outs_locked_from(newtx.vout, h, 0) + utxo_list_from(
            us,
            h,
            0,
        ));
        let head = outs_locked_from(newtx.vout, h, 0);
        let whole = utxo_list_from(us2, h, 0);
        assert(whole.subrange(0, head.len() as int) =~= head);
        assert(whole.subrange(head.len() as int, whole.len() as int) =~= utxo_list_from(
            us,
            h,
            0,
        ));
        lemma_sum_split(whole, head.len() as int);
    } else {
        assert(us2 =~= us);
        assert forall|k: int|
            0 <= k < newtx.vout.len() implies (#[trigger] newtx.vout[k]).pub_key_hash != h by {
            if newtx.vout[k].pub_key_hash == h {
                assert(tx_collected(txs2, 0, h)) by {
                    assert(!spent_before(txs2, 0, k, h));
                }
            }
        }
        lemma_outs_locked_empty(newtx.vout, h, 0);
    }
}

/// Walking a chain that still reaches its genesis block visits exactly the
/// stored blocks — one per successful append, plus the genesis block — and
/// the last visited block carries no predecessor link.
pub proof fn lemma_walk_ends_at_genesis(c: Blockchain)
    requires
        c.wf(),
        c.spec_complete(),
    ensures
        c.chain().len() >= 1,
        c.chain()[c.chain().len() - 1].previous_block_hash is None,
        forall|i: int| 0 <= i < c.chain().len() - 1 ==> chain_link_ok(c.chain(), i),
{
    assert(chain_ok(c.store_map(), c.tip@, c.chain())) by {
        if !(c.store_map() == Map::<Seq<u8>, Seq<u8>>::empty() && c.chain().len() == 0) {
        }
    }
}

/// The map the first `e` entries build, later entries overriding earlier.
pub open spec fn spec_entries_map(es: Seq<(Seq<u8>, Seq<u8>)>, e: int) -> Map<Seq<u8>, Seq<u8>>
    decreases e,
{
    if e <= 0 {
        Map::empty()
    } else {
        spec_entries_map(es, e - 1).insert(es[e - 1].0, es[e - 1].1)
    }
}

/// A store opens as-is exactly when some complete chain explains it: a walk
/// from the stored tip that covers every record and ends at a genesis block.
pub open spec fn spec_reopenable(m: Map<Seq<u8>, Seq<u8>>) -> bool {
    exists|bs: Seq<BlockV>|
        #[trigger] chain_ok(m, m[spec_tip_key()], bs) && bs.len() > 0 && bs[bs.len()
            - 1].previous_block_hash is None
}

/// A map built from `e` entries has at most `e` keys.
pub proof fn lemma_entries_map_dom(es: Seq<(Seq<u8>, Seq<u8>)>, e: int)
    requires
        0 <= e,
    ensures
        spec_entries_map(es, e).dom().finite(),
        spec_entries_map(es, e).dom().len() <= e,
    decreases e,
{
    if e == 0 {
        assert(spec_entries_map(es, 0).dom() =~= Set::<Seq<u8>>::empty());
    } else {
        broadcast use vstd::set::group_set_axioms;

        lemma_entries_map_dom(es, e - 1);
        let prev = spec_entries_map(es, e - 1);
        assert(spec_entries_map(es, e).dom() =~= prev.dom().insert(es[e - 1].0));
    }
}

/// The tip key together with the first `k` walk hashes, as a set.
pub open spec fn chain_key_set(bs: Seq<BlockV>, k: int) -> Set<Seq<u8>>
    decreases k,
{
    if k <= 0 {
        Set::empty().insert(spec_tip_key())
    } else {
        chain_key_set(bs, k - 1).insert(bs[k - 1].hash->0)
    }
}

/// The walk keys are that many distinct keys of the store.
pub proof fn lemma_chain_key_set(m: Map<Seq<u8>, Seq<u8>>, tipf: Seq<u8>, bs: Seq<BlockV>, k: int)
    requires
        chain_ok(m, tipf, bs),
        0 <= k <= bs.len(),
    ensures
        chain_key_set(bs, k).finite(),
        chain_key_set(bs, k).len() == k + 1,
        forall|x: Seq<u8>| chain_key_set(bs, k).contains(x) ==> #[trigger] m.dom().contains(x),
        forall|x: Seq<u8>|
            #[trigger] chain_key_set(bs, k).contains(x) ==> (x == spec_tip_key() || exists|i: int|
                0 <= i < k && bs[i].hash->0 == x),
    decreases k,
{
    if k == 0 {
        broadcast use vstd::set::group_set_axioms;

        assert(m.dom().contains(spec_tip_key()));
    } else {
        lemma_chain_key_set(m, tipf, bs, k - 1);
        let prev = chain_key_set(bs, k - 1);
        let h = bs[k - 1].hash->0;
        assert(chain_entry_ok(m, bs, k - 1));
        assert(!prev.contains(h)) by {
            if prev.contains(h) {
                assert(spec_tip_key().len() == 1);
                if h != spec_tip_key() {
                    let i = choose|i: int| 0 <= i < k - 1 && bs[i].hash->0 == h;
                    assert(bs[i].hash->0 != bs[k - 1].hash->0);
                }
            }
        }
        broadcast use vstd::set::group_set_axioms;

        assert(m.dom().contains(h));
        assert forall|x: Seq<u8>|
            #[trigger] chain_key_set(bs, k).contains(x) implies (x == spec_tip_key() || exists|
            i: int,
        |
            0 <= i < k && bs[i].hash->0 == x) by {
            if x != spec_tip_key() {
                if x == h {
                    assert(bs[k - 1].hash->0 == x);
                } else {
                    assert(prev.contains(x));
                }
            }
        }
    }
}

/// A chain explaining a store of at most `n` records holds fewer than `n`
/// blocks: the tip key and the block hashes are distinct keys.
pub proof fn lemma_chain_len_bound(
    m: Map<Seq<u8>, Seq<u8>>,
    tipf: Seq<u8>,
    bs: Seq<BlockV>,
    n: int,
)
    requires
        chain_ok(m, tipf, bs),
        m.dom().finite(),
        m.dom().len() <= n,
    ensures
        bs.len() + 1 <= n,
{
    lemma_chain_key_set(m, tipf, bs, bs.len() as int);
    let s = chain_key_set(bs, bs.len() as int);
    assert(s.subset_of(m.dom()));
    vstd::set_lib::lemma_len_subset(s, m.dom());
}

impl Blockchain {
    /// Open a persisted store as-is: rebuild the map from its entries and
    /// validate the walk from the stored tip pointer. Anything that is not
    /// a complete chain — a missing or dangling tip, a record that does not
    /// decode, a stored hash that differs from its key, a repeated hash, a
    /// walk that does not end at a genesis block, or a record the walk
    /// never reaches — is surfaced as a corrupt store, never repaired.
    #[verifier::rlimit(100)]
    #[verifier::spinoff_prover]
    pub fn from_entries(entries: &Vec<(Vec<u8>, Vec<u8>)>, bits: u64) -> (r: Result<
        Blockchain,
        ChainError,
    >)
        requires
            bits_wf(bits),
        ensures
            r matches Result::Ok(c) ==> {
                &&& c.wf()
                &&& c.spec_bits() == bits
                &&& c.spec_complete()
                &&& (forall|i: int|
                    0 <= i < entries@.len() ==> c.store_map().contains_key(
                        (#[trigger] entries@[i]).0@,
                    ))
                &&& (forall|k: Seq<u8>|
                    #[trigger] c.store_map().contains_key(k) ==> exists|i: int|
                        0 <= i < entries@.len() && entries@[i].0@ == k)
            },
            r is Err ==> r->Err_0 == ChainError::CorruptStore,
            spec_reopenable(
                spec_entries_map(
                    entries@.map_values(|p: (Vec<u8>, Vec<u8>)| (p.0@, p.1@)),
                    entries@.len() as int,
                ),
            ) ==> r is Ok,
    {
        let ghost esv = entries@.map_values(|p: (Vec<u8>, Vec<u8>)| (p.0@, p.1@));
        let mut store = KvStore::new();
        let mut e: usize = 0;
        proof {
            assert(store@ =~= spec_entries_map(esv, 0));
        }
        while e < entries.len()
            invariant
                store.wf(),
                e <= entries@.len(),
                esv == entries@.map_values(|p: (Vec<u8>, Vec<u8>)| (p.0@, p.1@)),
                store@ == spec_entries_map(esv, e as int),
                forall|i: int|
                    0 <= i < e ==> store@.contains_key((#[trigger] entries@[i]).0@),
                forall|k: Seq<u8>|
                    #[trigger] store@.contains_key(k) ==> exists|i: int|
                        0 <= i < e && entries@[i].0@ == k,
            decreases entries@.len() - e,
        {
            store.insert(copy_bytes(&entries[e].0), copy_bytes(&entries[e].1));
            e += 1;
            proof {
                assert(esv[e - 1] == (entries@[e - 1].0@, entries@[e - 1].1@));
                assert(store@ == spec_entries_map(esv, e as int));
                assert forall|k: Seq<u8>| #[trigger] store@.contains_key(k) implies exists|i: int|
                    0 <= i < e && entries@[i].0@ == k by {
                    if k == entries@[e - 1].0@ {
                        assert(entries@[e - 1].0@ == k);
                    }
                }
            }
        }
        let ghost m = store@;
        let ghost reopen = spec_reopenable(m);
        let ghost wit: Seq<BlockV> = if reopen {
            choose|bs2: Seq<BlockV>|
                #[trigger] chain_ok(m, m[spec_tip_key()], bs2) && bs2.len() > 0 && bs2[bs2.len()
                    - 1].previous_block_hash is None
        } else {
            Seq::empty()
        };
        proof {
            assert(m == spec_entries_map(esv, entries@.len() as int));
            if reopen {
                assert(chain_ok(m, m[spec_tip_key()], wit) && wit.len() > 0 && wit[wit.len()
                    - 1].previous_block_hash is None);
                lemma_entries_map_dom(esv, entries@.len() as int);
                lemma_chain_len_bound(m, m[spec_tip_key()], wit, entries@.len() as int);
            }
        }
        let tipv = match store.get(&tip_key()) {
            Option::Some(v) => copy_bytes(v),
            Option::None => {
                proof {
                    assert(!reopen) by {
                        if reopen {
                            assert(m.contains_key(spec_tip_key()));
                        }
                    }
                }
                return Result::Err(ChainError::CorruptStore);
            },
        };
        if tipv.len() != 32 {
            proof {
                assert(!reopen) by {
                    if reopen {
                        assert(m[spec_tip_key()].len() == 32);
                    }
                }
            }
            return Result::Err(ChainError::CorruptStore);
        }
        proof {
            if reopen {
                assert(chain_ok(m, tipv@, wit));
            }
        }
        let mut visited: Vec<Vec<u8>> = Vec::new();
        let ghost mut bs: Seq<BlockV> = Seq::empty();
        let mut current = copy_bytes(&tipv);
        let mut fuel = entries.len();
        let mut going = true;
        proof {
            assert(bs =~= wit.subrange(0, 0));
        }
        while going && fuel > 0
            invariant
                store.wf(),
                m == store@,
                esv == entries@.map_values(|p: (Vec<u8>, Vec<u8>)| (p.0@, p.1@)),
                m == spec_entries_map(esv, entries@.len() as int),
                m.contains_key(spec_tip_key()),
                m[spec_tip_key()] == tipv@,
                tipv@.len() == 32,
                reopen == spec_reopenable(m),
                reopen ==> (chain_ok(m, tipv@, wit) && wit.len() > 0 && wit[wit.len()
                    - 1].previous_block_hash is None && wit.len() + 1 <= entries@.len()),
                reopen ==> (bs == wit.subrange(0, bs.len() as int) && bs.len() <= wit.len()),
                reopen ==> (going ==> bs.len() < wit.len()),
                reopen ==> (!going ==> bs.len() == wit.len()),
                fuel == entries@.len() - bs.len(),
                bs.len() <= entries@.len(),
                visited@.len() == bs.len(),
                forall|i: int| 0 <= i < bs.len() ==> (#[trigger] visited@[i])@ == bs[i].hash->0,
                forall|i: int| 0 <= i < bs.len() ==> chain_entry_ok(m, bs, i),
                forall|i: int| 0 <= i < bs.len() - 1 ==> chain_link_ok(bs, i),
                forall|i: int, j: int| 0 <= i < j < bs.len() ==> bs[i].hash->0 != bs[j].hash->0,
                bs.len() > 0 ==> bs[0].hash->0 == tipv@,
                going ==> (bs.len() == 0 ==> current@ == tipv@),
                going ==> (bs.len() > 0 ==> bs[bs.len() - 1].previous_block_hash == Option::Some(
                    current@,
                )),
                !going ==> (bs.len() > 0 && bs[bs.len() - 1].previous_block_hash is None),
            decreases fuel,
        {
            fuel = fuel - 1;
            let ghost at = bs.len() as int;
            proof {
                if reopen {
                    if bs.len() == 0 {
                        assert(wit[0].hash->0 == tipv@);
                    } else {
                        assert(bs[at - 1] == wit.subrange(0, at)[at - 1]);
                        assert(chain_link_ok(wit, at - 1));
                    }
                    assert(current@ == wit[at].hash->0);
                    assert(chain_entry_ok(m, wit, at));
                }
            }
            let bytes = match store.get(&current) {
                Option::Some(b) => b,
                Option::None => {
                    proof {
                        assert(!reopen) by {
                            if reopen {
                                assert(m.contains_key(current@));
                            }
                        }
                    }
                    return Result::Err(ChainError::CorruptStore);
                },
            };
            let block = match dec_block_full(bytes) {
                Option::Some(b) => b,
                Option::None => {
                    proof {
                        assert(!reopen) by {
                            if reopen {
                                assert(spec_dec_block_full(bytes@) == Option::Some(wit[at]));
                            }
                        }
                    }
                    return Result::Err(ChainError::CorruptStore);
                },
            };
            proof {
                if reopen {
                    assert(spec_dec_block_full(bytes@) == Option::Some(wit[at]));
                    assert(block@ == wit[at]);
                }
            }
            let ok_hash = match &block.hash {
                Option::Some(h) => h.len() == 32 && bytes_eq(h, &current),
                Option::None => false,
            };
            if !ok_hash {
                proof {
                    assert(!reopen) by {
                        if reopen {
                            assert(block@.hash->0 == current@ && block@.hash->0.len() == 32);
                        }
                    }
                }
                return Result::Err(ChainError::CorruptStore);
            }
            let mut seen = false;
            let mut v: usize = 0;
            while v < visited.len()
                invariant
                    v <= visited@.len(),
                    seen == (exists|i: int| 0 <= i < v && (#[trigger] visited@[i])@ == current@),
                decreases visited@.len() - v,
            {
                if bytes_eq(&visited[v], &current) {
                    seen = true;
                }
                v += 1;
            }
            if seen {
                proof {
                    assert(!reopen) by {
                        if reopen {
                            let i = choose|i: int|
                                0 <= i < visited@.len() && (#[trigger] visited@[i])@ == current@;
                            assert(bs[i] == wit.subrange(0, at)[i]);
                            assert(wit[i].hash->0 != wit[at].hash->0);
                        }
                    }
                }
                return Result::Err(ChainError::CorruptStore);
            }
            proof {
                assert(forall|i: int|
                    0 <= i < bs.len() ==> (#[trigger] visited@[i])@ != current@);
            }
            visited.push(copy_bytes(&current));
            let ghost prebs = bs;
            proof {
                bs = bs + seq![block@];
                assert(block@.hash->0 == current@);
                assert(chain_entry_ok(m, bs, bs.len() - 1));
                assert forall|i: int, j: int| 0 <= i < j < bs.len() implies bs[i].hash->0
                    != bs[j].hash->0 by {
                    if j < bs.len() - 1 {
                        assert(prebs[i].hash->0 != prebs[j].hash->0);
                    } else {
                        assert((#[trigger] visited@[i])@ == prebs[i].hash->0);
                    }
                }
                assert forall|i: int| 0 <= i < bs.len() implies chain_entry_ok(m, bs, i) by {
                    if i < bs.len() - 1 {
                        assert(chain_entry_ok(m, prebs, i));
                        assert(bs[i] == prebs[i]);
                    }
                }
                assert forall|i: int| 0 <= i < bs.len() - 1 implies chain_link_ok(bs, i) by {
                    if i < bs.len() - 2 {
                        assert(chain_link_ok(prebs, i));
                    } else {
                        assert(prebs[prebs.len() - 1].previous_block_hash == Option::Some(
                            current@,
                        ));
                    }
                }
            }
            proof {
                if reopen {
                    assert(bs =~= wit.subrange(0, bs.len() as int));
                }
            }
            match &block.previous_block_hash {
                Option::Some(p) => {
                    current = copy_bytes(p);
                    proof {
                        if reopen {
                            assert(bs.len() < wit.len()) by {
                                if bs.len() == wit.len() {
                                    assert(wit[wit.len() - 1].previous_block_hash is None);
                                    assert(block@.previous_block_hash is Some);
                                }
                            }
                        }
                    }
                },
                Option::None => {
                    going = false;
                    proof {
                        if reopen {
                            assert(bs.len() == wit.len()) by {
                                if bs.len() < wit.len() {
                                    assert(chain_link_ok(wit, at));
                                }
                            }
                        }
                    }
                },
            }
        }
        if going {
            proof {
                assert(!reopen) by {
                    if reopen {
                        assert(bs.len() == entries@.len());
                        assert(bs.len() < wit.len());
                        assert(wit.len() + 1 <= entries@.len());
                    }
                }
            }
            return Result::Err(ChainError::CorruptStore);
        }
        let reached = visited;
        let stored = store.entries();
        let mut s: usize = 0;
        while s < stored.len()
            invariant
                m == store@,
                store.wf(),
                esv == entries@.map_values(|p: (Vec<u8>, Vec<u8>)| (p.0@, p.1@)),
                m == spec_entries_map(esv, entries@.len() as int),
                reopen == spec_reopenable(m),
                reached@.len() == bs.len(),
                forall|i: int| 0 <= i < bs.len() ==> (#[trigger] reached@[i])@ == bs[i].hash->0,
                s <= stored@.len(),
                reopen ==> (chain_ok(m, tipv@, wit) && bs == wit),
                forall|i: int|
                    0 <= i < stored@.len() ==> m.contains_key((#[trigger] stored@[i]).0@),
                forall|i: int|
                    0 <= i < s ==> ((#[trigger] stored@[i]).0@ == spec_tip_key() || exists|w: int|
                        0 <= w < bs.len() && bs[w].hash->0 == stored@[i].0@),
            decreases stored@.len() - s,
        {
            let key_ok = bytes_eq(&stored[s].0, &tip_key());
            let mut found = key_ok;
            let mut w: usize = 0;
            while w < reached.len()
                invariant
                    s < stored@.len(),
                    reached@.len() == bs.len(),
                    forall|i: int|
                        0 <= i < bs.len() ==> (#[trigger] reached@[i])@ == bs[i].hash->0,
                    w <= reached@.len(),
                    found == (stored@[s as int].0@ == spec_tip_key() || exists|i: int|
                        0 <= i < w && bs[i].hash->0 == stored@[s as int].0@),
                decreases reached@.len() - w,
            {
                if bytes_eq(&reached[w], &stored[s].0) {
                    found = true;
                }
                w += 1;
            }
            if !found {
                proof {
                    assert(!reopen) by {
                        if reopen {
                            let k0 = stored@[s as int].0@;
                            assert(m.contains_key(k0));
                            if k0 != spec_tip_key() {
                                let w0 = choose|w0: int|
                                    0 <= w0 < wit.len() && wit[w0].hash->0 == k0;
                                assert(bs[w0].hash->0 == k0);
                            }
                        }
                    }
                }
                return Result::Err(ChainError::CorruptStore);
            }
            s += 1;
        }
        let c = Blockchain { tip: tipv, store, target_bits: bits, chain: Ghost(bs) };
        proof {
            assert forall|k: Seq<u8>| #[trigger] c.store@.contains_key(k) implies k
                == spec_tip_key() || exists|i: int|
                0 <= i < bs.len() && bs[i].hash->0 == k by {
                let i = choose|i: int| 0 <= i < stored@.len() && stored@[i].0@ == k;
            }
            assert(chain_ok(c.store@, c.tip@, c.chain@));
        }
        Result::Ok(c)
    }
}

/// Prepending one block shifts the flattened transaction positions.
pub proof fn lemma_chain_txs_shift(bs: Seq<BlockV>, nb: BlockV, p: int)
    requires
        0 <= p <= bs.len(),
    ensures
        chain_txs_from(seq![nb] + bs, p + 1) == chain_txs_from(bs, p),
    decreases bs.len() - p,
{
    let bs2 = seq![nb] + bs;
    if p < bs.len() {
        assert(bs2[p + 1] == bs[p]);
        lemma_chain_txs_shift(bs, nb, p + 1);
        assert(chain_txs_from(bs2, p + 1) =~= chain_txs_from(bs, p));
    } else {
        assert(chain_txs_from(bs2, p + 1) =~= chain_txs_from(bs, p));
    }
}

/// Conservation at the recipient, at the chain level: appending one block
/// whose single transaction carries only credentials of other owners
/// raises the balance at `h` by exactly the block's outputs locked to `h`.
/// The block a successful `send` appends is such a block, so the
/// recipient's balance grows by exactly the transferred value.
pub proof fn lemma_append_credits_recipient(bs: Seq<BlockV>, nb: BlockV, h: Seq<u8>)
    requires
        nb.transactions.len() == 1,
        forall|k: int|
            0 <= k < nb.transactions[0].vin.len() ==> spec_hash160(
                (#[trigger] nb.transactions[0].vin[k]).pub_key,
            ) != h,
    ensures
        spec_balance(chain_txs(seq![nb] + bs), h) == spec_balance(chain_txs(bs), h)
            + sum_out_values(outs_locked_from(nb.transactions[0].vout, h, 0)),
{
    lemma_chain_txs_shift(bs, nb, 0);
    let bs2 = seq![nb] + bs;
    assert(bs2[0] == nb);
    assert(chain_txs(bs2) == nb.transactions + chain_txs_from(bs2, 1));
    assert(chain_txs(bs2) =~= seq![nb.transactions[0]] + chain_txs(bs));
    lemma_transfer_credits_recipient(chain_txs(bs), nb.transactions[0], h);
}

} // verus!
