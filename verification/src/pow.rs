use vstd::arithmetic::power2::{
    lemma2_to64, lemma_pow2_adds, lemma_pow2_pos, lemma_pow2_strictly_increases, pow2,
};
use vstd::prelude::*;

use crate::block::{spec_enc_block_content, Block, BlockV};
use crate::codec::{push_u64_be, spec_u64_be};
use crate::hashes::{sha256, sha256_of};

verus! {

/// Width of the digest, in bits.
pub const SHA_BITS: u64 = 256;

/// Fixed difficulty: how many leading bits of a valid digest must be zero.
pub const TARGET_BITS: u64 = 24;

/// A big-endian byte string read as an unsigned integer.
pub open spec fn be_bytes_nat(s: Seq<u8>) -> nat
    decreases s.len(),
{
    if s.len() == 0 {
        0
    } else {
        (s[0] as nat) * pow2(8 * (s.len() - 1) as nat) + be_bytes_nat(s.drop_first())
    }
}

/// The bytes a nonce trial hashes: the block's content, then the
/// difficulty and the nonce, each as eight big-endian bytes.
pub open spec fn spec_pow_data(b: BlockV, bits: u64, nonce: u64) -> Seq<u8> {
    spec_enc_block_content(b) + spec_u64_be(bits) + spec_u64_be(nonce)
}

/// The digest a nonce trial produces.
pub open spec fn spec_pow_hash(b: BlockV, bits: u64, nonce: u64) -> Seq<u8> {
    sha256_of(spec_pow_data(b, bits, nonce))
}

/// A digest is admissible when, read as a big-endian integer, it lies
/// strictly below 1 shifted left by (digest width − difficulty).
pub open spec fn spec_below_target(h: Seq<u8>, bits: u64) -> bool {
    h.len() == 32 && be_bytes_nat(h) < pow2((SHA_BITS - bits) as nat)
}

/// The difficulties this engine accepts: whole leading bytes of the digest.
pub open spec fn bits_wf(bits: u64) -> bool {
    0 < bits < 256 && bits % 8 == 0
}

/// A byte string read as an integer is below the width of its digits.
pub proof fn lemma_be_bytes_nat_bound(s: Seq<u8>)
    ensures
        be_bytes_nat(s) < pow2(8 * s.len()),
    decreases s.len(),
{
    if s.len() == 0 {
        lemma2_to64();
    } else {
        let n = s.len();
        let p = pow2(8 * (n - 1) as nat);
        lemma_be_bytes_nat_bound(s.drop_first());
        lemma_pow2_adds(8 * (n - 1) as nat, 8);
        lemma2_to64();
        assert(pow2(8) == 256);
        assert(s[0] <= 255);
        assert((s[0] as nat) * p + be_bytes_nat(s.drop_first()) < 256 * p) by (nonlinear_arith)
            requires
                s[0] <= 255,
                be_bytes_nat(s.drop_first()) < p,
                p > 0,
        {
        }
        assert(pow2(8 * n) == p * 256);
    }
}

/// The integer is below 1 shifted by the trailing width exactly when every
/// leading byte is zero.
pub proof fn lemma_below_iff_leading_zeros(s: Seq<u8>, k: int)
    requires
        0 <= k <= s.len(),
    ensures
        (be_bytes_nat(s) < pow2((8 * (s.len() - k)) as nat)) <==> (forall|i: int|
            0 <= i < k ==> s[i] == 0),
    decreases k,
{
    let n = s.len();
    if k == 0 {
        lemma_be_bytes_nat_bound(s);
    } else {
        let p = pow2(8 * (n - 1) as nat);
        let t = pow2((8 * (n - k)) as nat);
        if 8 * (n - k) < 8 * (n - 1) {
            lemma_pow2_strictly_increases((8 * (n - k)) as nat, (8 * (n - 1)) as nat);
        }
        assert(t <= p);
        lemma_pow2_pos(8 * (n - 1) as nat);
        if s[0] != 0 {
            assert((s[0] as nat) * p >= p) by (nonlinear_arith)
                requires
                    s[0] >= 1,
                    p > 0,
            {
            }
            assert(be_bytes_nat(s) >= p >= t);
        } else {
            assert(be_bytes_nat(s) == be_bytes_nat(s.drop_first()));
            let rest = s.drop_first();
            lemma_below_iff_leading_zeros(rest, k - 1);
            assert(8 * (rest.len() - (k - 1)) == 8 * (n - k));
            assert forall|i: int| 0 <= i < k && (forall|j: int|
                0 <= j < k - 1 ==> rest[j] == 0) implies s[i] == 0 by {
                if i > 0 {
                    assert(rest[i - 1] == 0);
                }
            }
            assert forall|j: int| 0 <= j < k - 1 && (forall|i: int|
                0 <= i < k ==> s[i] == 0) implies rest[j] == 0 by {
                assert(s[j + 1] == 0);
            }
        }
    }
}

/// Whether a 32-byte digest falls below the target for a given difficulty:
/// its leading bits/8 bytes are all zero.
pub fn hash_below_target(h: &Vec<u8>, bits: u64) -> (r: bool)
    requires
        h@.len() == 32,
        bits_wf(bits),
    ensures
        r == spec_below_target(h@, bits),
{
    let k = (bits / 8) as usize;
    let mut i: usize = 0;
    let mut all_zero = true;
    while i < k
        invariant
            i <= k,
            k <= 32,
            h@.len() == 32,
            all_zero == (forall|j: int| 0 <= j < i ==> h@[j] == 0),
        decreases k - i,
    {
        if h[i] != 0 {
            all_zero = false;
        }
        i += 1;
    }
    proof {
        lemma_below_iff_leading_zeros(h@, k as int);
        assert(8 * (h@.len() - k) == SHA_BITS - bits);
    }
    all_zero
}

/// The engine that seals a block: searches for a nonce whose digest falls
/// below the target, and checks a sealed block's nonce.
pub struct ProofOfWork<'a> {
    pub block: &'a Block,
    pub target_bits: u64,
}

impl<'a> ProofOfWork<'a> {
    /// An engine over a block at the fixed difficulty.
    pub fn new(block: &'a Block) -> (r: ProofOfWork<'a>)
        ensures
            r.block == block,
            r.target_bits == TARGET_BITS,
            bits_wf(r.target_bits),
    {
        ProofOfWork { block, target_bits: TARGET_BITS }
    }

    /// An engine over a block at a chosen whole-byte difficulty.
    pub fn with_bits(block: &'a Block, bits: u64) -> (r: ProofOfWork<'a>)
        requires
            bits_wf(bits),
        ensures
            r.block == block,
            r.target_bits == bits,
    {
        ProofOfWork { block, target_bits: bits }
    }

    /// The bytes one nonce trial hashes.
    pub fn prepare_data(&self, nonce: u64) -> (r: Vec<u8>)
        ensures
            r@ == spec_pow_data(self.block@, self.target_bits, nonce),
    {
        let mut out = self.block.encode_content();
        push_u64_be(&mut out, self.target_bits);
        push_u64_be(&mut out, nonce);
        proof {
            assert(out@ =~= spec_pow_data(self.block@, self.target_bits, nonce));
        }
        out
    }

    /// Search the nonce space from zero: the first nonce whose digest falls
    /// below target, with that digest. None when the whole space fails.
    pub fn run(&self) -> (r: Option<(u64, Vec<u8>)>)
        requires
            bits_wf(self.target_bits),
        ensures
            r matches Option::Some(p) ==> {
                &&& p.0 < u64::MAX
                &&& p.1@ == spec_pow_hash(self.block@, self.target_bits, p.0)
                &&& spec_below_target(p.1@, self.target_bits)
                &&& forall|m: u64|
                    m < p.0 ==> !spec_below_target(
                        spec_pow_hash(self.block@, self.target_bits, m),
                        self.target_bits,
                    )
            },
            r is None ==> forall|m: u64|
                m < u64::MAX ==> !spec_below_target(
                    spec_pow_hash(self.block@, self.target_bits, m),
                    self.target_bits,
                ),
    {
        let mut nonce: u64 = 0;
        while nonce < u64::MAX
            invariant
                bits_wf(self.target_bits),
                forall|m: u64|
                    m < nonce ==> !spec_below_target(
                        spec_pow_hash(self.block@, self.target_bits, m),
                        self.target_bits,
                    ),
            decreases u64::MAX - nonce,
        {
            let data = self.prepare_data(nonce);
            let hash = sha256(&data);
            if hash_below_target(&hash, self.target_bits) {
                return Option::Some((nonce, hash));
            }
            nonce = nonce + 1;
        }
        Option::None
    }

    /// Whether the block's stored nonce produces a digest below target. The
    /// stored hash itself is not compared against the recomputed digest;
    /// callers that need that guarantee must check it themselves.
    pub fn validate(&self) -> (r: bool)
        requires
            bits_wf(self.target_bits),
        ensures
            r == (self.block@.nonce matches Option::Some(n) && spec_below_target(
                spec_pow_hash(self.block@, self.target_bits, n),
                self.target_bits,
            )),
    {
        match self.block.nonce {
            Option::Some(nonce) => {
                let data = self.prepare_data(nonce);
                let hash = sha256(&data);
                hash_below_target(&hash, self.target_bits)
            },
            Option::None => false,
        }
    }
}

} // verus!
