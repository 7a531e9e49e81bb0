pub mod base58;
pub mod block;
pub mod blockchain;
pub mod clock;
pub mod codec;
pub mod hashes;
pub mod pow;
pub mod store;
pub mod transaction;
pub mod wallet;

use vstd::prelude::*;

verus! {

/// A block payload type: anything a chain can carry must be able to name
/// the content of the very first block.
pub trait Blockchainable: Sized {
    fn genesis_data() -> Self;
}

/// Every failure the ledger can surface to a caller.
#[derive(Clone, Copy, Debug, PartialEq, Eq, Structural)]
pub enum ChainError {
    /// A transfer asked for more value than the spender's outputs hold.
    InsufficientFunds,
    /// An address did not decode to a versioned, checksummed payload.
    MalformedAddress,
    /// No wallet is registered under the spender's address.
    WalletNotFound,
    /// The whole nonce space was searched and no digest fell below target.
    MiningExhausted,
    /// The host clock reports a moment before the epoch.
    ClockBeforeEpoch,
    /// Stored bytes did not decode to the chain they claim to be.
    CorruptStore,
    /// A freshly mined block hash is already a key in the store.
    DuplicateBlockHash,
    /// An arithmetic result does not fit the value type.
    ValueOverflow,
}

/// Byte-vector equality, stated over the views.
pub fn bytes_eq(a: &Vec<u8>, b: &Vec<u8>) -> (r: bool)
    ensures
        r == (a@ == b@),
{
    if a.len() != b.len() {
        return false;
    }
    let mut i: usize = 0;
    while i < a.len()
        invariant
            i <= a@.len(),
            a@.len() == b@.len(),
            forall|j: int| 0 <= j < i ==> a@[j] == b@[j],
        decreases a@.len() - i,
    {
        if a[i] != b[i] {
            return false;
        }
        i += 1;
    }
    proof {
        assert(a@ =~= b@);
    }
    true
}

} // verus!
