use vstd::prelude::*;

use crate::codec::{
    dec_opt_bytes, dec_opt_u64, dec_u64, lemma_dec_opt_bytes_at, lemma_dec_opt_u64_at,
    lemma_dec_u64_at, lemma_subrange_split, push_opt_bytes, push_opt_u64, push_u64_be,
    spec_dec_opt_bytes, spec_dec_opt_u64, spec_dec_u64, spec_enc_opt_bytes, spec_enc_opt_u64,
    spec_u64_be,
};
use crate::clock::now_nanos;
use crate::pow::{
    be_bytes_nat, bits_wf, spec_below_target, spec_pow_hash, ProofOfWork, SHA_BITS, TARGET_BITS,
};
use crate::transaction::{
    dec_tx, lemma_dec_tx_at, spec_dec_tx, spec_enc_tx, tx_encodable, Transaction, TransactionV,
};
use crate::ChainError;
use vstd::arithmetic::power2::pow2;

verus! {

/// A sealed unit of the chain: a timestamp, the transactions it carries, a
/// link to its predecessor, and — once mining succeeds — its own hash and
/// the nonce that made the digest fall below target. Hash and nonce are
/// set together or not at all.
pub struct Block {
    pub timestamp: u64,
    pub transactions: Vec<Transaction>,
    pub previous_block_hash: Option<Vec<u8>>,
    pub hash: Option<Vec<u8>>,
    pub nonce: Option<u64>,
}

#[verifier::ext_equal]
pub struct BlockV {
    pub timestamp: u64,
    pub transactions: Seq<TransactionV>,
    pub previous_block_hash: Option<Seq<u8>>,
    pub hash: Option<Seq<u8>>,
    pub nonce: Option<u64>,
}

impl View for Block {
    type V = BlockV;

    open spec fn view(&self) -> BlockV {
        BlockV {
            timestamp: self.timestamp,
            transactions: self.transactions@.map_values(|t: Transaction| t@),
            previous_block_hash: match self.previous_block_hash {
                Option::Some(ref h) => Option::Some(h@),
                Option::None => Option::None,
            },
            hash: match self.hash {
                Option::Some(ref h) => Option::Some(h@),
                Option::None => Option::None,
            },
            nonce: self.nonce,
        }
    }
}

pub open spec fn spec_enc_txs(ts: Seq<TransactionV>) -> Seq<u8>
    decreases ts.len(),
{
    if ts.len() == 0 {
        Seq::empty()
    } else {
        spec_enc_tx(ts[0]) + spec_enc_txs(ts.drop_first())
    }
}

/// The bytes a block is hashed over: everything but the hash/nonce pair.
pub open spec fn spec_enc_block_content(b: BlockV) -> Seq<u8> {
    spec_u64_be(b.timestamp) + spec_u64_be(b.transactions.len() as u64) + spec_enc_txs(
        b.transactions,
    ) + spec_enc_opt_bytes(b.previous_block_hash)
}

/// The bytes a block is persisted as: its content, then the hash/nonce pair.
pub open spec fn spec_enc_block(b: BlockV) -> Seq<u8> {
    spec_enc_block_content(b) + spec_enc_opt_bytes(b.hash) + spec_enc_opt_u64(b.nonce)
}

pub open spec fn spec_dec_txs(s: Seq<u8>, i: int, n: int) -> Option<(Seq<TransactionV>, int)>
    decreases n,
{
    if n <= 0 {
        Option::Some((Seq::empty(), i))
    } else {
        match spec_dec_tx(s, i) {
            Option::Some((t, j)) => match spec_dec_txs(s, j, n - 1) {
                Option::Some((ts, k)) => Option::Some((seq![t] + ts, k)),
                Option::None => Option::None,
            },
            Option::None => Option::None,
        }
    }
}

pub open spec fn spec_dec_block(s: Seq<u8>, i: int) -> Option<(BlockV, int)> {
    match spec_dec_u64(s, i) {
        Option::Some((timestamp, j1)) => match spec_dec_u64(s, j1) {
            Option::Some((n, j2)) => match spec_dec_txs(s, j2, n as int) {
                Option::Some((transactions, j3)) => match spec_dec_opt_bytes(s, j3) {
                    Option::Some((prev, j4)) => match spec_dec_opt_bytes(s, j4) {
                        Option::Some((hash, j5)) => match spec_dec_opt_u64(s, j5) {
                            Option::Some((nonce, j6)) => Option::Some(
                                (
                                    BlockV {
                                        timestamp,
                                        transactions,
                                        previous_block_hash: prev,
                                        hash,
                                        nonce,
                                    },
                                    j6,
                                ),
                            ),
                            Option::None => Option::None,
                        },
                        Option::None => Option::None,
                    },
                    Option::None => Option::None,
                },
                Option::None => Option::None,
            },
            Option::None => Option::None,
        },
        Option::None => Option::None,
    }
}

/// What a stored record must decode to, using every byte.
pub open spec fn spec_dec_block_full(s: Seq<u8>) -> Option<BlockV> {
    match spec_dec_block(s, 0) {
        Option::Some((b, j)) => if j == s.len() {
            Option::Some(b)
        } else {
            Option::None
        },
        Option::None => Option::None,
    }
}

pub open spec fn block_encodable(b: BlockV) -> bool {
    &&& b.transactions.len() <= u64::MAX
    &&& forall|i: int| 0 <= i < b.transactions.len() ==> tx_encodable(#[trigger] b.transactions[i])
    &&& (b.previous_block_hash matches Option::Some(h) ==> h.len() <= u64::MAX)
    &&& (b.hash matches Option::Some(h) ==> h.len() <= u64::MAX)
}

/// The view of a real block is always encodable.
pub proof fn lemma_block_view_encodable(b: &Block)
    ensures
        block_encodable(b@),
{
    assert(b.transactions@.len() == b.transactions.len());
    assert forall|i: int| 0 <= i < b@.transactions.len() implies tx_encodable(
        #[trigger] b@.transactions[i],
    ) by {
        assert(b@.transactions[i] == b.transactions@[i]@);
        crate::transaction::lemma_view_encodable(&b.transactions@[i]);
    }
    match b.previous_block_hash {
        Option::Some(ref h) => {
            assert(h@.len() == h.len());
        },
        Option::None => {},
    }
    match b.hash {
        Option::Some(ref h) => {
            assert(h@.len() == h.len());
        },
        Option::None => {},
    }
}

/// A sealed block: hash and nonce present together, the hash equal to the
/// digest of the content/difficulty/nonce trial, and that digest below the
/// target.
pub open spec fn spec_mined_ok(b: BlockV, bits: u64) -> bool {
    &&& b.hash is Some
    &&& b.nonce is Some
    &&& b.hash->0 == spec_pow_hash(b, bits, b.nonce->0)
    &&& spec_below_target(b.hash->0, bits)
}

/// Every successfully mined block validates: its stored nonce's digest,
/// recomputed from the content, the difficulty and the nonce, lies
/// strictly below the target.
pub proof fn lemma_mined_block_validates(b: BlockV, bits: u64)
    requires
        spec_mined_ok(b, bits),
    ensures
        b.nonce is Some && spec_below_target(spec_pow_hash(b, bits, b.nonce->0), bits),
        be_bytes_nat(spec_pow_hash(b, bits, b.nonce->0)) < pow2((SHA_BITS - bits) as nat),
{
}

impl Block {
    /// Stamp the current time, seal the payload and link by mining at a
    /// chosen difficulty: on success hash and nonce are set together; when
    /// the whole nonce space fails, both stay absent and the block must
    /// not be persisted.
    pub fn mine_with_bits(
        transactions: Vec<Transaction>,
        previous_block_hash: Option<Vec<u8>>,
        bits: u64,
    ) -> (r: Result<Block, ChainError>)
        requires
            bits_wf(bits),
        ensures
            r matches Result::Ok(b) ==> {
                &&& b@.transactions == transactions@.map_values(|t: Transaction| t@)
                &&& b@.previous_block_hash == (match previous_block_hash {
                    Option::Some(ref h) => Option::Some(h@),
                    Option::None => Option::None::<Seq<u8>>,
                })
                &&& (b@.hash is Some <==> b@.nonce is Some)
                &&& (b@.hash matches Option::Some(h) ==> h.len() == 32 && spec_mined_ok(b@, bits)
                    && (forall|m: u64|
                    m < b@.nonce->0 ==> !spec_below_target(spec_pow_hash(b@, bits, m), bits)))
                &&& (b@.hash is None ==> forall|m: u64|
                    m < u64::MAX ==> !spec_below_target(spec_pow_hash(b@, bits, m), bits))
            },
            r is Err ==> r->Err_0 == ChainError::ClockBeforeEpoch,
    {
        let ghost txs0 = transactions@;
        let ghost prev0 = (match previous_block_hash {
            Option::Some(ref h) => Option::Some(h@),
            Option::None => Option::None::<Seq<u8>>,
        });
        let timestamp = match now_nanos() {
            Option::Some(t) => t,
            Option::None => {
                return Result::Err(ChainError::ClockBeforeEpoch);
            },
        };
        let mut block = Block {
            timestamp,
            transactions,
            previous_block_hash,
            hash: Option::None,
            nonce: Option::None,
        };
        let ghost unmined = block@;
        let outcome = {
            let pow = ProofOfWork::with_bits(&block, bits);
            pow.run()
        };
        match outcome {
            Option::Some((nonce, hash)) => {
                block.hash = Option::Some(hash);
                block.nonce = Option::Some(nonce);
                proof {
                    assert(spec_enc_block_content(block@) == spec_enc_block_content(unmined));
                    assert forall|m: u64| m < nonce implies !spec_below_target(
                        spec_pow_hash(block@, bits, m),
                        bits,
                    ) by {
                        assert(spec_pow_hash(block@, bits, m) == spec_pow_hash(unmined, bits, m));
                        assert(!spec_below_target(spec_pow_hash(unmined, bits, m), bits));
                    }
                    assert(spec_pow_hash(block@, bits, nonce) == spec_pow_hash(
                        unmined,
                        bits,
                        nonce,
                    ));
                }
            },
            Option::None => {
                proof {
                    assert(spec_enc_block_content(block@) == spec_enc_block_content(unmined));
                    assert forall|m: u64| m < u64::MAX implies !spec_below_target(
                        spec_pow_hash(block@, bits, m),
                        bits,
                    ) by {
                        assert(spec_pow_hash(block@, bits, m) == spec_pow_hash(unmined, bits, m));
                        assert(!spec_below_target(spec_pow_hash(unmined, bits, m), bits));
                    }
                }
            },
        }
        proof {
            assert forall|i: int| 0 <= i < block@.transactions.len() implies block@.transactions[i]
                == txs0.map_values(|t: Transaction| t@)[i] by {
                assert(block@.transactions[i] == block.transactions@[i]@);
            }
            assert(block@.transactions =~= txs0.map_values(|t: Transaction| t@));
            assert(block@.previous_block_hash == prev0);
            assert(block@.hash is Some <==> block@.nonce is Some);
            assert(block@.hash matches Option::Some(h) ==> h.len() == 32);
            assert(block@.hash matches Option::Some(h) ==> spec_mined_ok(block@, bits));
            assert(block@.hash is Some ==> forall|m: u64|
                m < block@.nonce->0 ==> !spec_below_target(spec_pow_hash(block@, bits, m), bits));
            assert(block@.hash is None ==> forall|m: u64|
                m < u64::MAX ==> !spec_below_target(spec_pow_hash(block@, bits, m), bits));
        }
        Result::Ok(block)
    }

    /// Stamp the current time, seal the payload and link by mining at the
    /// fixed difficulty.
    pub fn new(transactions: Vec<Transaction>, previous_block_hash: Option<Vec<u8>>) -> (r: Result<
        Block,
        ChainError,
    >)
        ensures
            r matches Result::Ok(b) ==> {
                &&& b@.transactions == transactions@.map_values(|t: Transaction| t@)
                &&& b@.previous_block_hash == (match previous_block_hash {
                    Option::Some(ref h) => Option::Some(h@),
                    Option::None => Option::None::<Seq<u8>>,
                })
                &&& (b@.hash is Some <==> b@.nonce is Some)
                &&& (b@.hash matches Option::Some(h) ==> h.len() == 32 && spec_mined_ok(
                    b@,
                    TARGET_BITS,
                ))
            },
            r is Err ==> r->Err_0 == ChainError::ClockBeforeEpoch,
    {
        Self::mine_with_bits(transactions, previous_block_hash, TARGET_BITS)
    }

    /// The bytes this block is hashed over: everything but hash and nonce.
    pub fn encode_content(&self) -> (r: Vec<u8>)
        ensures
            r@ == spec_enc_block_content(self@),
    {
        let mut out: Vec<u8> = Vec::new();
        push_u64_be(&mut out, self.timestamp);
        push_u64_be(&mut out, self.transactions.len() as u64);
        let ghost head = out@;
        let mut k: usize = 0;
        while k < self.transactions.len()
            invariant
                k <= self.transactions@.len(),
                out@ == head + spec_enc_txs(self@.transactions.subrange(0, k as int)),
            decreases self.transactions@.len() - k,
        {
            let ghost pre = self@.transactions.subrange(0, k as int);
            let mut piece = self.transactions[k].encode();
            out.append(&mut piece);
            k += 1;
            proof {
                assert(out@ =~= head + (spec_enc_txs(pre) + spec_enc_tx(
                    self@.transactions[k - 1],
                )));
                lemma_enc_txs_snoc(self@.transactions.subrange(0, k as int));
                assert(self@.transactions.subrange(0, k as int).drop_last() =~= pre);
                assert(self@.transactions.subrange(0, k as int).last()
                    == self@.transactions[k - 1]);
            }
        }
        proof {
            assert(self@.transactions.subrange(0, self@.transactions.len() as int)
                =~= self@.transactions);
        }
        push_opt_bytes(&mut out, &self.previous_block_hash);
        proof {
            assert(out@ =~= spec_enc_block_content(self@));
        }
        out
    }

    /// The bytes this block is persisted as.
    pub fn encode(&self) -> (r: Vec<u8>)
        ensures
            r@ == spec_enc_block(self@),
    {
        let mut out = self.encode_content();
        push_opt_bytes(&mut out, &self.hash);
        push_opt_u64(&mut out, &self.nonce);
        proof {
            assert(out@ =~= spec_enc_block(self@));
        }
        out
    }
}

impl Clone for Block {
    /// A fresh block equal to this one in every field.
    fn clone(&self) -> (r: Self)
        ensures
            r@ == self@,
    {
        let mut transactions: Vec<Transaction> = Vec::new();
        let mut k: usize = 0;
        while k < self.transactions.len()
            invariant
                k <= self.transactions@.len(),
                transactions@.len() == k,
                forall|i: int| 0 <= i < k ==> transactions@[i]@ == self.transactions@[i]@,
            decreases self.transactions@.len() - k,
        {
            transactions.push(self.transactions[k].clone());
            k += 1;
        }
        let r = Block {
            timestamp: self.timestamp,
            transactions,
            previous_block_hash: match self.previous_block_hash {
                Option::Some(ref h) => Option::Some(crate::codec::copy_bytes(h)),
                Option::None => Option::None,
            },
            hash: match self.hash {
                Option::Some(ref h) => Option::Some(crate::codec::copy_bytes(h)),
                Option::None => Option::None,
            },
            nonce: self.nonce,
        };
        proof {
            assert(r@.transactions =~= self@.transactions);
            assert(r@ =~= self@);
        }
        r
    }
}

/// Appending one element to an encoded list appends its encoding.
pub proof fn lemma_enc_txs_snoc(ts: Seq<TransactionV>)
    requires
        ts.len() > 0,
    ensures
        spec_enc_txs(ts) == spec_enc_txs(ts.drop_last()) + spec_enc_tx(ts.last()),
    decreases ts.len(),
{
    if ts.len() == 1 {
        assert(ts.drop_first().len() == 0);
        assert(spec_enc_txs(ts.drop_first()) == Seq::<u8>::empty());
        assert(ts.drop_last().len() == 0);
        assert(spec_enc_txs(ts.drop_last()) == Seq::<u8>::empty());
        assert(spec_enc_txs(ts) =~= spec_enc_txs(ts.drop_last()) + spec_enc_tx(ts.last()));
    } else {
        let ys = ts.drop_first();
        lemma_enc_txs_snoc(ys);
        assert(ys.drop_last() =~= ts.drop_last().drop_first());
        assert(ys.last() == ts.last());
        assert(ts.drop_last().len() > 0);
        assert(ts.drop_last()[0] == ts[0]);
        assert(spec_enc_txs(ts.drop_last()) == spec_enc_tx(ts[0]) + spec_enc_txs(ys.drop_last()));
        assert((spec_enc_tx(ts[0]) + spec_enc_txs(ys.drop_last())) + spec_enc_tx(ts.last())
            =~= spec_enc_tx(ts[0]) + (spec_enc_txs(ys.drop_last()) + spec_enc_tx(ts.last())));
    }
}

/// Decoding reads back exactly the transaction list the encoder wrote.
#[verifier::rlimit(100)]
pub proof fn lemma_dec_txs_at(s: Seq<u8>, i: int, ts: Seq<TransactionV>)
    requires
        0 <= i,
        forall|k: int| 0 <= k < ts.len() ==> tx_encodable(#[trigger] ts[k]),
        i + spec_enc_txs(ts).len() <= s.len(),
        s.subrange(i, i + spec_enc_txs(ts).len()) == spec_enc_txs(ts),
    ensures
        spec_dec_txs(s, i, ts.len() as int) == Option::Some((ts, i + spec_enc_txs(ts).len())),
    decreases ts.len(),
{
    if ts.len() == 0 {
        assert(ts =~= Seq::<TransactionV>::empty());
    } else {
        let e0 = spec_enc_tx(ts[0]);
        let rest = spec_enc_txs(ts.drop_first());
        lemma_subrange_split(s, i, e0, rest);
        lemma_dec_tx_at(s, i, ts[0]);
        assert forall|k: int| 0 <= k < ts.drop_first().len() implies tx_encodable(
            #[trigger] ts.drop_first()[k],
        ) by {
            assert(ts.drop_first()[k] == ts[k + 1]);
        }
        lemma_dec_txs_at(s, i + e0.len(), ts.drop_first());
        assert(seq![ts[0]] + ts.drop_first() =~= ts);
    }
}

/// A decoded prefix of `j` transactions splits the full decode of `n`.
pub proof fn lemma_dec_txs_prefix(s: Seq<u8>, i: int, j: int, n: int)
    requires
        0 <= j <= n,
        spec_dec_txs(s, i, j) is Some,
    ensures
        ({
            let (xs, m) = spec_dec_txs(s, i, j)->0;
            spec_dec_txs(s, i, n) == (match spec_dec_txs(s, m, n - j) {
                Option::Some((ys, e)) => Option::Some((xs + ys, e)),
                Option::None => Option::None::<(Seq<TransactionV>, int)>,
            })
        }),
    decreases j,
{
    let (xs, m) = spec_dec_txs(s, i, j)->0;
    if j == 0 {
        assert(xs =~= Seq::<TransactionV>::empty());
        match spec_dec_txs(s, i, n) {
            Option::Some((ys, e)) => {
                assert(xs + ys =~= ys);
            },
            Option::None => {},
        }
    } else {
        let (x0, i1) = spec_dec_tx(s, i)->0;
        let (xs2, m2) = spec_dec_txs(s, i1, j - 1)->0;
        assert(xs == seq![x0] + xs2 && m == m2);
        lemma_dec_txs_prefix(s, i1, j - 1, n - 1);
        match spec_dec_txs(s, m, n - j) {
            Option::Some((ys, e)) => {
                assert(spec_dec_txs(s, i1, n - 1) == Option::Some((xs2 + ys, e)));
                assert(spec_dec_txs(s, i, n) == Option::Some((seq![x0] + (xs2 + ys), e)));
                assert(seq![x0] + (xs2 + ys) =~= (seq![x0] + xs2) + ys);
            },
            Option::None => {
                assert(spec_dec_txs(s, i1, n - 1) is None);
            },
        }
    }
}

/// Decoding reads back exactly the block the encoder wrote.
#[verifier::rlimit(100)]
pub proof fn lemma_dec_block_at(s: Seq<u8>, i: int, b: BlockV)
    requires
        0 <= i,
        block_encodable(b),
        i + spec_enc_block(b).len() <= s.len(),
        s.subrange(i, i + spec_enc_block(b).len()) == spec_enc_block(b),
    ensures
        spec_dec_block(s, i) == Option::Some((b, i + spec_enc_block(b).len())),
{
    let a1 = spec_u64_be(b.timestamp);
    let a2 = spec_u64_be(b.transactions.len() as u64);
    let a3 = spec_enc_txs(b.transactions);
    let a4 = spec_enc_opt_bytes(b.previous_block_hash);
    let a5 = spec_enc_opt_bytes(b.hash);
    let a6 = spec_enc_opt_u64(b.nonce);
    assert(spec_enc_block(b) =~= a1 + (a2 + (a3 + (a4 + (a5 + a6)))));
    lemma_subrange_split(s, i, a1, a2 + (a3 + (a4 + (a5 + a6))));
    lemma_subrange_split(s, i + a1.len(), a2, a3 + (a4 + (a5 + a6)));
    lemma_subrange_split(s, i + a1.len() + a2.len(), a3, a4 + (a5 + a6));
    lemma_subrange_split(s, i + a1.len() + a2.len() + a3.len(), a4, a5 + a6);
    lemma_subrange_split(s, i + a1.len() + a2.len() + a3.len() + a4.len(), a5, a6);
    lemma_dec_u64_at(s, i, b.timestamp);
    lemma_dec_u64_at(s, i + a1.len(), b.transactions.len() as u64);
    lemma_dec_txs_at(s, i + a1.len() + a2.len(), b.transactions);
    lemma_dec_opt_bytes_at(s, i + a1.len() + a2.len() + a3.len(), b.previous_block_hash);
    lemma_dec_opt_bytes_at(s, i + a1.len() + a2.len() + a3.len() + a4.len(), b.hash);
    lemma_dec_opt_u64_at(s, i + a1.len() + a2.len() + a3.len() + a4.len() + a5.len(), b.nonce);
    assert(spec_dec_block(s, i) matches Option::Some(p) && p.0 =~= b && p.1 == i + spec_enc_block(
        b,
    ).len());
}

/// Serializing a block and deserializing the bytes yields a value equal to
/// the original in every field.
pub proof fn lemma_block_roundtrip(b: BlockV)
    requires
        block_encodable(b),
    ensures
        spec_dec_block_full(spec_enc_block(b)) == Option::Some(b),
{
    let s = spec_enc_block(b);
    assert(s.subrange(0, s.len() as int) =~= s);
    lemma_dec_block_at(s, 0, b);
}

pub fn dec_txs(s: &Vec<u8>, i: usize, n: u64) -> (r: Option<(Vec<Transaction>, usize)>)
    ensures
        r is Some <==> spec_dec_txs(s@, i as int, n as int) is Some,
        r is Some ==> (spec_dec_txs(s@, i as int, n as int) matches Option::Some(p) && (r
            ->0).0@.map_values(|t: Transaction| t@) == p.0 && (r->0).1 as int == p.1),
{
    let mut acc: Vec<Transaction> = Vec::new();
    let mut pos: usize = i;
    let mut j: u64 = 0;
    while j < n
        invariant
            j <= n,
            spec_dec_txs(s@, i as int, j as int) == Option::Some(
                (acc@.map_values(|t: Transaction| t@), pos as int),
            ),
        decreases n - j,
    {
        let ghost pre = acc@.map_values(|t: Transaction| t@);
        match dec_tx(s, pos) {
            Option::None => {
                proof {
                    lemma_dec_txs_prefix(s@, i as int, j as int, n as int);
                }
                return Option::None;
            },
            Option::Some((t, np)) => {
                proof {
                    lemma_dec_txs_prefix(s@, i as int, j as int, j + 1 as int);
                    let (tv, m2) = spec_dec_tx(s@, pos as int)->0;
                    assert(spec_dec_txs(s@, m2, 0) == Option::Some(
                        (Seq::<TransactionV>::empty(), m2),
                    ));
                    assert(seq![tv] + Seq::<TransactionV>::empty() =~= seq![tv]);
                    assert(spec_dec_txs(s@, pos as int, 1) == Option::Some((seq![tv], m2)));
                }
                acc.push(t);
                pos = np;
                j = j + 1;
                proof {
                    assert(acc@.map_values(|t: Transaction| t@) =~= pre.push(t@));
                    assert(pre + seq![t@] =~= pre.push(t@));
                }
            },
        }
    }
    Option::Some((acc, pos))
}

pub fn dec_block(s: &Vec<u8>, i: usize) -> (r: Option<(Block, usize)>)
    ensures
        r is Some <==> spec_dec_block(s@, i as int) is Some,
        r is Some ==> (spec_dec_block(s@, i as int) matches Option::Some(p) && (r->0).0@ == p.0 && (
        r->0).1 as int == p.1),
{
    match dec_u64(s, i) {
        Option::None => Option::None,
        Option::Some((timestamp, j1)) => match dec_u64(s, j1) {
            Option::None => Option::None,
            Option::Some((n, j2)) => match dec_txs(s, j2, n) {
                Option::None => Option::None,
                Option::Some((transactions, j3)) => match dec_opt_bytes(s, j3) {
                    Option::None => Option::None,
                    Option::Some((prev, j4)) => match dec_opt_bytes(s, j4) {
                        Option::None => Option::None,
                        Option::Some((hash, j5)) => match dec_opt_u64(s, j5) {
                            Option::None => Option::None,
                            Option::Some((nonce, j6)) => Option::Some(
                                (
                                    Block {
                                        timestamp,
                                        transactions,
                                        previous_block_hash: prev,
                                        hash,
                                        nonce,
                                    },
                                    j6,
                                ),
                            ),
                        },
                    },
                },
            },
        },
    }
}

/// Decode a whole stored record: every byte must be used.
pub fn dec_block_full(s: &Vec<u8>) -> (r: Option<Block>)
    ensures
        r is Some <==> spec_dec_block_full(s@) is Some,
        r is Some ==> (spec_dec_block_full(s@) matches Option::Some(b) && (r->0)@ == b),
{
    match dec_block(s, 0) {
        Option::None => Option::None,
        Option::Some((b, j)) => if j == s.len() {
            Option::Some(b)
        } else {
            Option::None
        },
    }
}

} // verus!
