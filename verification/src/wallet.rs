use p256::elliptic_curve::sec1::ToEncodedPoint;
use vstd::prelude::*;

use crate::base58::{base58_encode, base58_of};
use crate::bytes_eq;
use crate::codec::{
    copy_bytes, dec_bytes, lemma_dec_bytes_at, lemma_subrange_split, push_bytes, spec_dec_bytes,
    spec_enc_bytes,
};
use crate::hashes::{ripemd160, sha256, sha256_of, spec_hash160};

verus! {

/// The version marker an address carries in front of the public-key hash.
pub const VERSION_BYTE: u8 = 0;

/// How many checksum bytes an address carries at its end.
pub const CHECKSUM_LEN: usize = 4;

/// An elliptic-curve key pair. The address is not stored: it is recomputed
/// from the public key on demand.
pub struct Wallet {
    pub public_key: Vec<u8>,
    pub private_key: Vec<u8>,
}

#[verifier::ext_equal]
pub struct WalletV {
    pub public_key: Seq<u8>,
    pub private_key: Seq<u8>,
}

impl View for Wallet {
    type V = WalletV;

    open spec fn view(&self) -> WalletV {
        WalletV { public_key: self.public_key@, private_key: self.private_key@ }
    }
}

/// The versioned payload an address encodes: version byte, then the
/// public-key hash.
pub open spec fn spec_versioned(pub_key: Seq<u8>) -> Seq<u8> {
    seq![VERSION_BYTE] + spec_hash160(pub_key)
}

/// The four checksum bytes: the front of a double SHA-256 over the
/// versioned payload.
pub open spec fn spec_checksum(pub_key: Seq<u8>) -> Seq<u8> {
    sha256_of(sha256_of(spec_versioned(pub_key))).subrange(0, CHECKSUM_LEN as int)
}

/// The byte string an address is the base-58 rendering of.
pub open spec fn spec_address_payload(pub_key: Seq<u8>) -> Seq<u8> {
    spec_versioned(pub_key) + spec_checksum(pub_key)
}

/// The address derived from a public key.
pub open spec fn spec_address(pub_key: Seq<u8>) -> Seq<u8> {
    base58_of(spec_address_payload(pub_key))
}

/// A string that decodes to a version byte, a payload, and a checksum: the
/// base-58 rendering of at least five bytes.
pub open spec fn spec_good_address(a: Seq<u8>) -> bool {
    exists|d: Seq<u8>| a == base58_of(d) && d.len() >= 1 + CHECKSUM_LEN
}

/// Relies on p256::ecdsa::SigningKey::random over rand_core::OsRng, with
/// VerifyingKey::from and ToEncodedPoint::to_encoded_point. The keys are
/// drawn from operating-system entropy, so nothing is promised of the bytes
/// beyond their shapes: an uncompressed SEC1 P-256 point is 65 bytes and a
/// P-256 scalar 32 bytes.
#[verifier::external_body]
fn generate_keypair() -> (r: (Vec<u8>, Vec<u8>))
    ensures
        r.0@.len() == 65,
        r.1@.len() == 32,
{
    let private_key = p256::ecdsa::SigningKey::random(&mut rand_core::OsRng);
    let public_key = p256::ecdsa::VerifyingKey::from(&private_key);
    (public_key.to_encoded_point(false).as_bytes().to_vec(), private_key.to_bytes().to_vec())
}

impl Wallet {
    /// A fresh key pair from operating-system entropy.
    pub fn new() -> (w: Wallet)
        ensures
            w.public_key@.len() == 65,
            w.private_key@.len() == 32,
    {
        let (public_key, private_key) = generate_keypair();
        Wallet { public_key, private_key }
    }

    /// The hash that identifies the owner of a public key.
    pub fn hash_pub_key(public_key: &Vec<u8>) -> (r: Vec<u8>)
        ensures
            r@ == spec_hash160(public_key@),
            r@.len() == 20,
    {
        let first = sha256(public_key);
        ripemd160(&first)
    }

    /// The checksummed, version-tagged, base-58 address of this wallet.
    pub fn address(&self) -> (r: Vec<u8>)
        ensures
            r@ == spec_address(self.public_key@),
            spec_hash160(self.public_key@).len() == 20,
            spec_checksum(self.public_key@).len() == CHECKSUM_LEN,
    {
        let hash_pub = Self::hash_pub_key(&self.public_key);
        let mut versioned: Vec<u8> = Vec::new();
        versioned.push(VERSION_BYTE);
        let mut k: usize = 0;
        while k < hash_pub.len()
            invariant
                k <= hash_pub@.len(),
                versioned@ == seq![VERSION_BYTE] + hash_pub@.subrange(0, k as int),
            decreases hash_pub@.len() - k,
        {
            versioned.push(hash_pub[k]);
            k += 1;
            proof {
                assert(versioned@ =~= seq![VERSION_BYTE] + hash_pub@.subrange(0, k as int));
            }
        }
        proof {
            assert(hash_pub@.subrange(0, hash_pub@.len() as int) =~= hash_pub@);
            assert(versioned@ =~= spec_versioned(self.public_key@));
        }
        let digest = sha256(&sha256(&versioned));
        let mut payload = versioned;
        let mut c: usize = 0;
        while c < CHECKSUM_LEN
            invariant
                c <= CHECKSUM_LEN,
                digest@.len() == 32,
                payload@ == spec_versioned(self.public_key@) + digest@.subrange(0, c as int),
            decreases CHECKSUM_LEN - c,
        {
            payload.push(digest[c]);
            c += 1;
            proof {
                assert(payload@ =~= spec_versioned(self.public_key@) + digest@.subrange(
                    0,
                    c as int,
                ));
            }
        }
        proof {
            assert(payload@ =~= spec_address_payload(self.public_key@));
        }
        base58_encode(&payload)
    }
}

impl Wallet {
    /// The fixed binary form of this wallet.
    pub fn encode(&self) -> (r: Vec<u8>)
        ensures
            r@ == spec_enc_wallet(self@),
    {
        let mut out: Vec<u8> = Vec::new();
        push_bytes(&mut out, &self.public_key);
        push_bytes(&mut out, &self.private_key);
        proof {
            assert(out@ =~= spec_enc_wallet(self@));
        }
        out
    }
}

impl Clone for Wallet {
    /// A fresh wallet holding the same key bytes.
    fn clone(&self) -> (r: Self)
        ensures
            r@ == self@,
    {
        Wallet {
            public_key: copy_bytes(&self.public_key),
            private_key: copy_bytes(&self.private_key),
        }
    }
}

/// The registry of wallets, keyed by address bytes.
pub struct Wallets {
    entries: Vec<(Vec<u8>, Wallet)>,
}

impl Wallets {
    /// The registry as a sequence of address/wallet pairs.
    pub closed spec fn entries_view(&self) -> Seq<(Seq<u8>, WalletV)> {
        self.entries@.map_values(|p: (Vec<u8>, Wallet)| (p.0@, p.1@))
    }

    /// Addresses are distinct: each address names one wallet.
    pub open spec fn wf(&self) -> bool {
        forall|i: int, j: int|
            0 <= i < j < self.entries_view().len() ==> self.entries_view()[i].0
                != self.entries_view()[j].0
    }

    /// Whether some entry carries this address.
    pub open spec fn spec_contains(&self, address: Seq<u8>) -> bool {
        exists|i: int| 0 <= i < self.entries_view().len() && self.entries_view()[i].0 == address
    }

    /// The wallet registered under an address.
    pub open spec fn spec_get(&self, address: Seq<u8>) -> Option<WalletV> {
        if self.spec_contains(address) {
            let i = choose|i: int|
                0 <= i < self.entries_view().len() && self.entries_view()[i].0 == address;
            Option::Some(self.entries_view()[i].1)
        } else {
            Option::None
        }
    }

    /// An empty registry.
    pub fn new() -> (r: Wallets)
        ensures
            r.wf(),
            r.entries_view().len() == 0,
    {
        Wallets { entries: Vec::new() }
    }

    /// The wallet registered under an address, if any.
    pub fn get(&self, address: &Vec<u8>) -> (r: Option<&Wallet>)
        requires
            self.wf(),
        ensures
            r is Some <==> self.spec_contains(address@),
            r is Some ==> (r->0)@ == self.spec_get(address@)->0,
    {
        let mut k: usize = 0;
        while k < self.entries.len()
            invariant
                self.wf(),
                k <= self.entries_view().len(),
                forall|i: int| 0 <= i < k ==> self.entries_view()[i].0 != address@,
            decreases self.entries_view().len() - k,
        {
            if bytes_eq(&self.entries[k].0, address) {
                proof {
                    assert(self.entries_view()[k as int] == (
                        self.entries@[k as int].0@,
                        self.entries@[k as int].1@,
                    ));
                    assert(self.spec_contains(address@));
                    let i = choose|i: int|
                        0 <= i < self.entries_view().len() && self.entries_view()[i].0
                            == address@;
                    assert(i == k);
                }
                return Some(&self.entries[k].1);
            }
            k += 1;
        }
        None
    }

    /// Register a wallet under its derived address, replacing any wallet
    /// already registered there.
    pub fn save_wallet(&mut self, wallet: &Wallet)
        requires
            old(self).wf(),
        ensures
            final(self).wf(),
            final(self).spec_contains(spec_address(wallet.public_key@)),
            exists|i: int|
                0 <= i < final(self).entries_view().len() && final(self).entries_view()[i] == (
                spec_address(wallet.public_key@), wallet@),
            forall|a: Seq<u8>|
                a != spec_address(wallet.public_key@) ==> (final(self).spec_contains(a) <==> old(
                    self,
                ).spec_contains(a)),
            forall|i: int|
                0 <= i < final(self).entries_view().len() && final(self).entries_view()[i].0
                    != spec_address(wallet.public_key@) ==> exists|j: int|
                    0 <= j < old(self).entries_view().len() && old(self).entries_view()[j] == final(
                    self).entries_view()[i],
    {
        let address = wallet.address();
        let mut k: usize = 0;
        while k < self.entries.len()
            invariant
                k <= self.entries_view().len(),
                self.wf(),
                self == old(self),
                address@ == spec_address(wallet.public_key@),
                forall|i: int| 0 <= i < k ==> self.entries_view()[i].0 != address@,
            decreases self.entries_view().len() - k,
        {
            if bytes_eq(&self.entries[k].0, &address) {
                let ghost before = self.entries_view();
                self.entries.set(k, (address, wallet.clone()));
                proof {
                    let a0 = spec_address(wallet.public_key@);
                    assert(self.entries_view() =~= before.update(k as int, (a0, wallet@)));
                    assert(self.entries_view()[k as int] == (a0, wallet@));
                    assert(before[k as int].0 == a0);
                    assert forall|i: int, j: int|
                        0 <= i < j < self.entries_view().len() implies self.entries_view()[i].0
                        != self.entries_view()[j].0 by {
                        if i != k && j != k {
                            assert(before[i].0 != before[j].0);
                        } else if i == k {
                            assert(before[k as int].0 != before[j].0);
                        } else {
                            assert(before[i].0 != before[k as int].0);
                        }
                    }
                    assert forall|a: Seq<u8>| a != spec_address(wallet.public_key@) implies (
                    self.spec_contains(a) <==> old(self).spec_contains(a)) by {
                        if self.spec_contains(a) {
                            let i = choose|i: int|
                                0 <= i < self.entries_view().len() && self.entries_view()[i].0
                                    == a;
                            assert(old(self).entries_view()[i].0 == a);
                        }
                        if old(self).spec_contains(a) {
                            let i = choose|i: int|
                                0 <= i < old(self).entries_view().len() && old(
                                    self,
                                ).entries_view()[i].0 == a;
                            assert(self.entries_view()[i].0 == a);
                        }
                    }
                }
                return ;
            }
            k += 1;
        }
        let ghost before = self.entries_view();
        self.entries.push((address, wallet.clone()));
        proof {
            assert(self.entries_view() =~= before + seq![
                (spec_address(wallet.public_key@), wallet@),
            ]);
            assert(self.entries_view()[before.len() as int] == (
                spec_address(wallet.public_key@),
                wallet@,
            ));
            assert forall|a: Seq<u8>| a != spec_address(wallet.public_key@) implies (
            self.spec_contains(a) <==> old(self).spec_contains(a)) by {
                if self.spec_contains(a) {
                    let i = choose|i: int|
                        0 <= i < self.entries_view().len() && self.entries_view()[i].0 == a;
                    assert(old(self).entries_view()[i].0 == a);
                }
                if old(self).spec_contains(a) {
                    let i = choose|i: int|
                        0 <= i < old(self).entries_view().len() && old(self).entries_view()[i].0
                            == a;
                    assert(self.entries_view()[i].0 == a);
                }
            }
        }
    }

    /// Every address/wallet pair, for callers that render or persist the
    /// whole registry.
    pub fn entries(&self) -> (r: &Vec<(Vec<u8>, Wallet)>)
        ensures
            r@.map_values(|p: (Vec<u8>, Wallet)| (p.0@, p.1@)) == self.entries_view(),
    {
        &self.entries
    }
}

/// The fixed binary form of a wallet: the framed public key, then the
/// framed private key.
pub open spec fn spec_enc_wallet(w: WalletV) -> Seq<u8> {
    spec_enc_bytes(w.public_key) + spec_enc_bytes(w.private_key)
}

pub open spec fn spec_dec_wallet(s: Seq<u8>, i: int) -> Option<(WalletV, int)> {
    match spec_dec_bytes(s, i) {
        Option::Some((public_key, j1)) => match spec_dec_bytes(s, j1) {
            Option::Some((private_key, j2)) => Option::Some(
                (WalletV { public_key, private_key }, j2),
            ),
            Option::None => Option::None,
        },
        Option::None => Option::None,
    }
}

/// Decoding reads back exactly the wallet the encoder wrote.
pub proof fn lemma_dec_wallet_at(s: Seq<u8>, i: int, w: WalletV)
    requires
        0 <= i,
        w.public_key.len() <= u64::MAX,
        w.private_key.len() <= u64::MAX,
        i + spec_enc_wallet(w).len() <= s.len(),
        s.subrange(i, i + spec_enc_wallet(w).len()) == spec_enc_wallet(w),
    ensures
        spec_dec_wallet(s, i) == Option::Some((w, i + spec_enc_wallet(w).len())),
{
    let a1 = spec_enc_bytes(w.public_key);
    let a2 = spec_enc_bytes(w.private_key);
    lemma_subrange_split(s, i, a1, a2);
    lemma_dec_bytes_at(s, i, w.public_key);
    lemma_dec_bytes_at(s, i + a1.len(), w.private_key);
    assert(spec_dec_wallet(s, i) matches Option::Some(p) && p.0 =~= w && p.1 == i
        + spec_enc_wallet(w).len());
}

/// Serializing a wallet and deserializing the bytes yields a value equal to
/// the original in every field.
pub proof fn lemma_wallet_roundtrip(w: WalletV)
    requires
        w.public_key.len() <= u64::MAX,
        w.private_key.len() <= u64::MAX,
    ensures
        spec_dec_wallet(spec_enc_wallet(w), 0) == Option::Some(
            (w, spec_enc_wallet(w).len() as int),
        ),
{
    let s = spec_enc_wallet(w);
    assert(s.subrange(0, s.len() as int) =~= s);
    lemma_dec_wallet_at(s, 0, w);
}

pub fn dec_wallet(s: &Vec<u8>, i: usize) -> (r: Option<(Wallet, usize)>)
    ensures
        r is Some <==> spec_dec_wallet(s@, i as int) is Some,
        r is Some ==> (spec_dec_wallet(s@, i as int) matches Option::Some(p) && (r->0).0@ == p.0
            && (r->0).1 as int == p.1),
{
    match dec_bytes(s, i) {
        Option::None => Option::None,
        Option::Some((public_key, j1)) => match dec_bytes(s, j1) {
            Option::None => Option::None,
            Option::Some((private_key, j2)) => Option::Some(
                (Wallet { public_key, private_key }, j2),
            ),
        },
    }
}

} // verus!
