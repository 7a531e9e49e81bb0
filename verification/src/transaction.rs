use vstd::prelude::*;

use crate::base58::{base58_decode, base58_of};
use crate::bytes_eq;
use crate::codec::{
    copy_bytes, dec_bytes, dec_opt_u64, dec_u64, lemma_dec_bytes_at, lemma_dec_opt_u64_at,
    lemma_dec_u64_at, lemma_subrange_split, push_bytes, push_opt_u64, push_u64_be, spec_dec_bytes,
    spec_dec_opt_u64, spec_dec_u64, spec_enc_bytes, spec_enc_opt_u64, spec_u64_be,
};
use crate::hashes::{sha256, sha256_of, spec_hash160};
use crate::wallet::{spec_address, spec_checksum, spec_good_address, Wallet, CHECKSUM_LEN};
use crate::ChainError;

verus! {

/// Value minted by every coinbase transaction.
pub const SUBSIDY: u64 = 10;

/// A reference to a prior output, plus the credential that claims it. A
/// coinbase input references nothing: empty txid, absent index.
pub struct TXInput {
    pub txid: Vec<u8>,
    pub vout: Option<usize>,
    pub signature: Vec<u8>,
    pub pub_key: Vec<u8>,
}

/// A value locked to the hash of its owner's public key.
pub struct TXOutput {
    pub value: u64,
    pub pub_key_hash: Vec<u8>,
}

/// A transfer of value: an id over the content, inputs that consume prior
/// outputs, and outputs that lock new value.
pub struct Transaction {
    pub id: Vec<u8>,
    pub vin: Vec<TXInput>,
    pub vout: Vec<TXOutput>,
}

#[verifier::ext_equal]
pub struct TXInputV {
    pub txid: Seq<u8>,
    pub vout: Option<usize>,
    pub signature: Seq<u8>,
    pub pub_key: Seq<u8>,
}

#[verifier::ext_equal]
pub struct TXOutputV {
    pub value: u64,
    pub pub_key_hash: Seq<u8>,
}

#[verifier::ext_equal]
pub struct TransactionV {
    pub id: Seq<u8>,
    pub vin: Seq<TXInputV>,
    pub vout: Seq<TXOutputV>,
}

impl View for TXInput {
    type V = TXInputV;

    open spec fn view(&self) -> TXInputV {
        TXInputV {
            txid: self.txid@,
            vout: self.vout,
            signature: self.signature@,
            pub_key: self.pub_key@,
        }
    }
}

impl View for TXOutput {
    type V = TXOutputV;

    open spec fn view(&self) -> TXOutputV {
        TXOutputV { value: self.value, pub_key_hash: self.pub_key_hash@ }
    }
}

impl View for Transaction {
    type V = TransactionV;

    open spec fn view(&self) -> TransactionV {
        TransactionV {
            id: self.id@,
            vin: self.vin@.map_values(|x: TXInput| x@),
            vout: self.vout@.map_values(|x: TXOutput| x@),
        }
    }
}

// The fixed binary form of a transaction: every framed field in order, each
// list preceded by its length.

pub open spec fn spec_enc_input(x: TXInputV) -> Seq<u8> {
    spec_enc_bytes(x.txid) + spec_enc_opt_u64(
        match x.vout {
            Option::Some(i) => Option::Some(i as u64),
            Option::None => Option::None,
        },
    ) + spec_enc_bytes(x.signature) + spec_enc_bytes(x.pub_key)
}

pub open spec fn spec_enc_output(x: TXOutputV) -> Seq<u8> {
    spec_u64_be(x.value) + spec_enc_bytes(x.pub_key_hash)
}

pub open spec fn spec_enc_inputs(xs: Seq<TXInputV>) -> Seq<u8>
    decreases xs.len(),
{
    if xs.len() == 0 {
        Seq::empty()
    } else {
        spec_enc_input(xs[0]) + spec_enc_inputs(xs.drop_first())
    }
}

pub open spec fn spec_enc_outputs(xs: Seq<TXOutputV>) -> Seq<u8>
    decreases xs.len(),
{
    if xs.len() == 0 {
        Seq::empty()
    } else {
        spec_enc_output(xs[0]) + spec_enc_outputs(xs.drop_first())
    }
}

pub open spec fn spec_enc_tx(t: TransactionV) -> Seq<u8> {
    spec_enc_bytes(t.id) + spec_u64_be(t.vin.len() as u64) + spec_enc_inputs(t.vin) + spec_u64_be(
        t.vout.len() as u64,
    ) + spec_enc_outputs(t.vout)
}

/// The id a transaction carries: the digest of its encoding with the id
/// field itself left empty.
pub open spec fn spec_txid(t: TransactionV) -> Seq<u8> {
    sha256_of(spec_enc_tx(TransactionV { id: Seq::empty(), ..t }))
}

/// A coinbase transaction mints value: a single input that references
/// nothing.
pub open spec fn spec_is_coinbase(t: TransactionV) -> bool {
    t.vin.len() == 1 && t.vin[0].txid.len() == 0 && t.vin[0].vout is None
}

impl TXInput {
    /// Whether this input's credential belongs to the owner of the given
    /// public-key hash: the carried public key re-hashes to it.
    pub fn uses_key(&self, pub_key_hash: &Vec<u8>) -> (r: bool)
        ensures
            r == (spec_hash160(self.pub_key@) == pub_key_hash@),
    {
        let locking_hash = Wallet::hash_pub_key(&self.pub_key);
        bytes_eq(&locking_hash, pub_key_hash)
    }
}

impl Clone for TXInput {
    /// A fresh input holding the same reference and credential.
    fn clone(&self) -> (r: Self)
        ensures
            r@ == self@,
    {
        TXInput {
            txid: copy_bytes(&self.txid),
            vout: match self.vout {
                Option::Some(i) => Option::Some(i),
                Option::None => Option::None,
            },
            signature: copy_bytes(&self.signature),
            pub_key: copy_bytes(&self.pub_key),
        }
    }
}

impl TXOutput {
    /// Whether this output is locked to the given public-key hash.
    pub fn is_locked_with(&self, pub_key_hash: &Vec<u8>) -> (r: bool)
        ensures
            r == (self.pub_key_hash@ == pub_key_hash@),
    {
        bytes_eq(&self.pub_key_hash, pub_key_hash)
    }

    /// Lock this output to the owner of an address: decode the base-58
    /// address, strip the version byte and the checksum, and keep the
    /// public-key hash between them. A string that is not an address, or
    /// decodes to fewer than five bytes, leaves the output unchanged.
    pub fn lock(&mut self, address: &Vec<u8>) -> (r: Result<(), ChainError>)
        ensures
            final(self).value == old(self).value,
            r is Ok <==> spec_good_address(address@),
            r is Ok ==> exists|d: Seq<u8>|
                address@ == base58_of(d) && d.len() >= 1 + CHECKSUM_LEN
                    && final(self).pub_key_hash@ == d.subrange(1, d.len() - CHECKSUM_LEN),
            r is Err ==> *final(self) == *old(self) && r == Result::<(), ChainError>::Err(
                ChainError::MalformedAddress,
            ),
            forall|pk: Seq<u8>|
                (address@ == spec_address(pk) && spec_hash160(pk).len() == 20
                    && spec_checksum(pk).len() == CHECKSUM_LEN) ==> (r is Ok
                    && final(self).pub_key_hash@ == spec_hash160(pk)),
    {
        match base58_decode(address) {
            Option::None => {
                proof {
                    assert forall|d: Seq<u8>|
                        address@ == base58_of(d) implies d.len() < 1 + CHECKSUM_LEN by {}
                }
                Result::Err(ChainError::MalformedAddress)
            },
            Option::Some(d) => {
                if d.len() < 1 + CHECKSUM_LEN {
                    proof {
                        assert forall|v: Seq<u8>|
                            address@ == base58_of(v) implies v.len() < 1 + CHECKSUM_LEN by {
                            assert(v == d@);
                        }
                        assert forall|pk: Seq<u8>|
                            (address@ == spec_address(pk) && spec_hash160(pk).len() == 20
                                && spec_checksum(pk).len() == CHECKSUM_LEN) implies false by {
                            assert(d@ == seq![crate::wallet::VERSION_BYTE] + spec_hash160(pk)
                                + spec_checksum(pk));
                        }
                    }
                    return Result::Err(ChainError::MalformedAddress);
                }
                proof {
                    assert(spec_good_address(address@)) by {
                        assert(address@ == base58_of(d@) && d@.len() >= 1 + CHECKSUM_LEN);
                    }
                }
                let end = d.len() - CHECKSUM_LEN;
                let mut hash: Vec<u8> = Vec::new();
                let mut k: usize = 1;
                while k < end
                    invariant
                        1 <= k <= end,
                        end == d@.len() - CHECKSUM_LEN,
                        hash@ == d@.subrange(1, k as int),
                    decreases end - k,
                {
                    hash.push(d[k]);
                    k += 1;
                    proof {
                        assert(hash@ =~= d@.subrange(1, k as int));
                    }
                }
                self.pub_key_hash = hash;
                proof {
                    assert forall|pk: Seq<u8>|
                        (address@ == spec_address(pk) && spec_hash160(pk).len() == 20
                            && spec_checksum(pk).len() == CHECKSUM_LEN) implies
                    self.pub_key_hash@ == spec_hash160(pk) by {
                        assert(d@ == (seq![crate::wallet::VERSION_BYTE] + spec_hash160(pk))
                            + spec_checksum(pk));
                        assert(d@.len() == 25);
                        assert forall|j: int| 0 <= j < 20 implies d@.subrange(1, 21)[j]
                            == spec_hash160(pk)[j] by {
                            assert(d@[1 + j] == spec_hash160(pk)[j]);
                        }
                        assert(d@.subrange(1, 21) =~= spec_hash160(pk));
                    }
                }
                Result::Ok(())
            },
        }
    }
}

impl Clone for TXOutput {
    /// A fresh output holding the same value and lock.
    fn clone(&self) -> (r: Self)
        ensures
            r@ == self@,
    {
        TXOutput { value: self.value, pub_key_hash: copy_bytes(&self.pub_key_hash) }
    }
}

impl Transaction {
    /// Whether this transaction mints value rather than moving it.
    pub fn is_coinbase(&self) -> (r: bool)
        ensures
            r == spec_is_coinbase(self@),
    {
        proof {
            if self.vin@.len() == 1 {
                assert(self@.vin[0] == self.vin@[0]@);
            }
        }
        self.vin.len() == 1 && self.vin[0].txid.len() == 0 && self.vin[0].vout.is_none()
    }

    /// The fixed binary form of this transaction.
    pub fn encode(&self) -> (r: Vec<u8>)
        ensures
            r@ == spec_enc_tx(self@),
    {
        let r = self.encode_with_id(&self.id);
        proof {
            assert((TransactionV { id: self.id@, ..self@ }) =~= self@);
        }
        r
    }

    /// The fixed binary form this transaction would have under another id.
    fn encode_with_id(&self, id: &Vec<u8>) -> (r: Vec<u8>)
        ensures
            r@ == spec_enc_tx(TransactionV { id: id@, ..self@ }),
    {
        let mut out: Vec<u8> = Vec::new();
        push_bytes(&mut out, id);
        push_u64_be(&mut out, self.vin.len() as u64);
        let ghost head = out@;
        let mut k: usize = 0;
        while k < self.vin.len()
            invariant
                k <= self.vin@.len(),
                out@ == head + spec_enc_inputs(self@.vin.subrange(0, k as int)),
            decreases self.vin@.len() - k,
        {
            let ghost pre = self@.vin.subrange(0, k as int);
            push_bytes(&mut out, &self.vin[k].txid);
            push_opt_u64(
                &mut out,
                &match self.vin[k].vout {
                    Option::Some(i) => Option::Some(i as u64),
                    Option::None => Option::None,
                },
            );
            push_bytes(&mut out, &self.vin[k].signature);
            push_bytes(&mut out, &self.vin[k].pub_key);
            k += 1;
            proof {
                assert(out@ =~= head + (spec_enc_inputs(pre) + spec_enc_input(self@.vin[k - 1])));
                lemma_enc_inputs_snoc(self@.vin.subrange(0, k as int));
                assert(self@.vin.subrange(0, k as int).drop_last() =~= pre);
                assert(self@.vin.subrange(0, k as int).last() == self@.vin[k - 1]);
            }
        }
        proof {
            assert(self@.vin.subrange(0, self@.vin.len() as int) =~= self@.vin);
        }
        push_u64_be(&mut out, self.vout.len() as u64);
        let ghost head2 = out@;
        let mut k2: usize = 0;
        while k2 < self.vout.len()
            invariant
                k2 <= self.vout@.len(),
                out@ == head2 + spec_enc_outputs(self@.vout.subrange(0, k2 as int)),
            decreases self.vout@.len() - k2,
        {
            let ghost pre = self@.vout.subrange(0, k2 as int);
            push_u64_be(&mut out, self.vout[k2].value);
            push_bytes(&mut out, &self.vout[k2].pub_key_hash);
            k2 += 1;
            proof {
                assert(out@ =~= head2 + (spec_enc_outputs(pre) + spec_enc_output(
                    self@.vout[k2 - 1],
                )));
                lemma_enc_outputs_snoc(self@.vout.subrange(0, k2 as int));
                assert(self@.vout.subrange(0, k2 as int).drop_last() =~= pre);
                assert(self@.vout.subrange(0, k2 as int).last() == self@.vout[k2 - 1]);
            }
        }
        proof {
            assert(self@.vout.subrange(0, self@.vout.len() as int) =~= self@.vout);
            assert(out@ =~= spec_enc_tx(TransactionV { id: id@, ..self@ }));
        }
        out
    }

    /// Stamp this transaction with its content digest: the hash of its
    /// encoding with the id field empty.
    pub fn set_id(&mut self)
        ensures
            final(self)@ == (TransactionV { id: spec_txid(old(self)@), ..old(self)@ }),
            final(self).id@.len() == 32,
    {
        let empty: Vec<u8> = Vec::new();
        let bytes = self.encode_with_id(&empty);
        let digest = sha256(&bytes);
        self.id = digest;
        proof {
            assert(empty@ =~= Seq::<u8>::empty());
            assert((TransactionV { id: empty@, ..old(self)@ }) =~= (TransactionV {
                id: Seq::empty(),
                ..old(self)@
            }));
            assert(self@ =~= (TransactionV { id: spec_txid(old(self)@), ..old(self)@ }));
        }
    }

    /// A minting transaction: one input that references nothing and carries
    /// the given data as its credential, one output locking the subsidy to
    /// the owner of the address.
    pub fn new_coinbase_tx(to: &Vec<u8>, data: &Vec<u8>) -> (r: Result<Transaction, ChainError>)
        ensures
            r is Ok <==> spec_good_address(to@),
            r is Err ==> r == Result::<Transaction, ChainError>::Err(ChainError::MalformedAddress),
            r is Ok ==> {
                let t = r->Ok_0@;
                &&& spec_is_coinbase(t)
                &&& t.vin[0].signature.len() == 0
                &&& t.vin[0].pub_key == data@
                &&& t.vout.len() == 1
                &&& t.vout[0].value == SUBSIDY
                &&& t.id == spec_txid(t)
            },
            forall|pk: Seq<u8>|
                (to@ == spec_address(pk) && spec_hash160(pk).len() == 20 && spec_checksum(pk).len()
                    == CHECKSUM_LEN) ==> (r is Ok && r->Ok_0@.vout[0].pub_key_hash == spec_hash160(
                    pk,
                )),
    {
        let txin = TXInput {
            txid: Vec::new(),
            vout: Option::None,
            signature: Vec::new(),
            pub_key: copy_bytes(data),
        };
        let mut txout = TXOutput { value: SUBSIDY, pub_key_hash: Vec::new() };
        match txout.lock(to) {
            Result::Err(e) => Result::Err(e),
            Result::Ok(()) => {
                let mut vin: Vec<TXInput> = Vec::new();
                vin.push(txin);
                let mut vout: Vec<TXOutput> = Vec::new();
                vout.push(txout);
                let mut tx = Transaction { id: Vec::new(), vin, vout };
                tx.set_id();
                proof {
                    assert(tx@.vin[0] == tx.vin@[0]@);
                    assert(tx@.vout[0] == tx.vout@[0]@);
                }
                Result::Ok(tx)
            },
        }
    }
}

impl Clone for Transaction {
    /// A fresh transaction equal to this one in every field.
    fn clone(&self) -> (r: Self)
        ensures
            r@ == self@,
    {
        let mut vin: Vec<TXInput> = Vec::new();
        let mut k: usize = 0;
        while k < self.vin.len()
            invariant
                k <= self.vin@.len(),
                vin@.len() == k,
                forall|i: int| 0 <= i < k ==> vin@[i]@ == self.vin@[i]@,
            decreases self.vin@.len() - k,
        {
            vin.push(self.vin[k].clone());
            k += 1;
        }
        let mut vout: Vec<TXOutput> = Vec::new();
        let mut k2: usize = 0;
        while k2 < self.vout.len()
            invariant
                k2 <= self.vout@.len(),
                vout@.len() == k2,
                forall|i: int| 0 <= i < k2 ==> vout@[i]@ == self.vout@[i]@,
            decreases self.vout@.len() - k2,
        {
            vout.push(self.vout[k2].clone());
            k2 += 1;
        }
        let r = Transaction { id: copy_bytes(&self.id), vin, vout };
        proof {
            assert(r@.vin =~= self@.vin);
            assert(r@.vout =~= self@.vout);
            assert(r@ =~= self@);
        }
        r
    }
}

// Decoding: the exact inverse of the encoders above, defined first as spec
// functions over byte sequences and a read position.

pub open spec fn spec_dec_input(s: Seq<u8>, i: int) -> Option<(TXInputV, int)> {
    match spec_dec_bytes(s, i) {
        Option::Some((txid, j1)) => match spec_dec_opt_u64(s, j1) {
            Option::Some((vo, j2)) => if (vo matches Option::Some(x) ==> x <= usize::MAX) {
                match spec_dec_bytes(s, j2) {
                    Option::Some((sig, j3)) => match spec_dec_bytes(s, j3) {
                        Option::Some((pk, j4)) => Option::Some(
                            (
                                TXInputV {
                                    txid,
                                    vout: match vo {
                                        Option::Some(x) => Option::Some(x as usize),
                                        Option::None => Option::None,
                                    },
                                    signature: sig,
                                    pub_key: pk,
                                },
                                j4,
                            ),
                        ),
                        Option::None => Option::None,
                    },
                    Option::None => Option::None,
                }
            } else {
                Option::None
            },
            Option::None => Option::None,
        },
        Option::None => Option::None,
    }
}

pub open spec fn spec_dec_output(s: Seq<u8>, i: int) -> Option<(TXOutputV, int)> {
    match spec_dec_u64(s, i) {
        Option::Some((value, j1)) => match spec_dec_bytes(s, j1) {
            Option::Some((pkh, j2)) => Option::Some(
                (TXOutputV { value, pub_key_hash: pkh }, j2),
            ),
            Option::None => Option::None,
        },
        Option::None => Option::None,
    }
}

pub open spec fn spec_dec_inputs(s: Seq<u8>, i: int, n: int) -> Option<(Seq<TXInputV>, int)>
    decreases n,
{
    if n <= 0 {
        Option::Some((Seq::empty(), i))
    } else {
        match spec_dec_input(s, i) {
            Option::Some((x, j)) => match spec_dec_inputs(s, j, n - 1) {
                Option::Some((xs, k)) => Option::Some((seq![x] + xs, k)),
                Option::None => Option::None,
            },
            Option::None => Option::None,
        }
    }
}

pub open spec fn spec_dec_outputs(s: Seq<u8>, i: int, n: int) -> Option<(Seq<TXOutputV>, int)>
    decreases n,
{
    if n <= 0 {
        Option::Some((Seq::empty(), i))
    } else {
        match spec_dec_output(s, i) {
            Option::Some((x, j)) => match spec_dec_outputs(s, j, n - 1) {
                Option::Some((xs, k)) => Option::Some((seq![x] + xs, k)),
                Option::None => Option::None,
            },
            Option::None => Option::None,
        }
    }
}

pub open spec fn spec_dec_tx(s: Seq<u8>, i: int) -> Option<(TransactionV, int)> {
    match spec_dec_bytes(s, i) {
        Option::Some((id, j1)) => match spec_dec_u64(s, j1) {
            Option::Some((nvin, j2)) => match spec_dec_inputs(s, j2, nvin as int) {
                Option::Some((vin, j3)) => match spec_dec_u64(s, j3) {
                    Option::Some((nvout, j4)) => match spec_dec_outputs(s, j4, nvout as int) {
                        Option::Some((vout, j5)) => Option::Some(
                            (TransactionV { id, vin, vout }, j5),
                        ),
                        Option::None => Option::None,
                    },
                    Option::None => Option::None,
                },
                Option::None => Option::None,
            },
            Option::None => Option::None,
        },
        Option::None => Option::None,
    }
}

// What a value must look like for its encoding to frame every length in a
// u64. Views of executable values always do.

pub open spec fn input_encodable(x: TXInputV) -> bool {
    x.txid.len() <= u64::MAX && x.signature.len() <= u64::MAX && x.pub_key.len() <= u64::MAX
}

pub open spec fn output_encodable(x: TXOutputV) -> bool {
    x.pub_key_hash.len() <= u64::MAX
}

pub open spec fn tx_encodable(t: TransactionV) -> bool {
    &&& t.id.len() <= u64::MAX
    &&& t.vin.len() <= u64::MAX
    &&& t.vout.len() <= u64::MAX
    &&& forall|i: int| 0 <= i < t.vin.len() ==> input_encodable(#[trigger] t.vin[i])
    &&& forall|i: int| 0 <= i < t.vout.len() ==> output_encodable(#[trigger] t.vout[i])
}

/// The view of a real transaction is always encodable: every field length
/// fits a machine word.
pub proof fn lemma_view_encodable(t: &Transaction)
    ensures
        tx_encodable(t@),
{
    assert(t.id@.len() == t.id.len());
    assert(t.vin@.len() == t.vin.len());
    assert(t.vout@.len() == t.vout.len());
    assert forall|i: int| 0 <= i < t@.vin.len() implies input_encodable(#[trigger] t@.vin[i]) by {
        let x = t.vin@[i];
        assert(t@.vin[i] == x@);
        assert(x.txid@.len() == x.txid.len());
        assert(x.signature@.len() == x.signature.len());
        assert(x.pub_key@.len() == x.pub_key.len());
    }
    assert forall|i: int| 0 <= i < t@.vout.len() implies output_encodable(
        #[trigger] t@.vout[i],
    ) by {
        let x = t.vout@[i];
        assert(t@.vout[i] == x@);
        assert(x.pub_key_hash@.len() == x.pub_key_hash.len());
    }
}

/// Decoding reads back exactly the input the encoder wrote.
pub proof fn lemma_dec_input_at(s: Seq<u8>, i: int, x: TXInputV)
    requires
        0 <= i,
        input_encodable(x),
        i + spec_enc_input(x).len() <= s.len(),
        s.subrange(i, i + spec_enc_input(x).len()) == spec_enc_input(x),
    ensures
        spec_dec_input(s, i) == Option::Some((x, i + spec_enc_input(x).len())),
{
    let vo64 = match x.vout {
        Option::Some(k) => Option::Some(k as u64),
        Option::None => Option::None,
    };
    let a1 = spec_enc_bytes(x.txid);
    let a2 = spec_enc_opt_u64(vo64);
    let a3 = spec_enc_bytes(x.signature);
    let a4 = spec_enc_bytes(x.pub_key);
    assert(spec_enc_input(x) =~= a1 + (a2 + (a3 + a4)));
    lemma_subrange_split(s, i, a1, a2 + (a3 + a4));
    assert(a2 + (a3 + a4) =~= a2 + a3 + a4);
    lemma_subrange_split(s, i + a1.len(), a2, a3 + a4);
    lemma_subrange_split(s, i + a1.len() + a2.len(), a3, a4);
    lemma_dec_bytes_at(s, i, x.txid);
    lemma_dec_opt_u64_at(s, i + a1.len(), vo64);
    lemma_dec_bytes_at(s, i + a1.len() + a2.len(), x.signature);
    lemma_dec_bytes_at(s, i + a1.len() + a2.len() + a3.len(), x.pub_key);
    assert(spec_dec_input(s, i) matches Option::Some(p) && p.0 =~= x && p.1 == i
        + spec_enc_input(x).len());
}

/// Decoding reads back exactly the output the encoder wrote.
pub proof fn lemma_dec_output_at(s: Seq<u8>, i: int, x: TXOutputV)
    requires
        0 <= i,
        output_encodable(x),
        i + spec_enc_output(x).len() <= s.len(),
        s.subrange(i, i + spec_enc_output(x).len()) == spec_enc_output(x),
    ensures
        spec_dec_output(s, i) == Option::Some((x, i + spec_enc_output(x).len())),
{
    let a1 = spec_u64_be(x.value);
    let a2 = spec_enc_bytes(x.pub_key_hash);
    lemma_subrange_split(s, i, a1, a2);
    lemma_dec_u64_at(s, i, x.value);
    lemma_dec_bytes_at(s, i + a1.len(), x.pub_key_hash);
    assert(spec_dec_output(s, i) matches Option::Some(p) && p.0 =~= x && p.1 == i
        + spec_enc_output(x).len());
}

/// Decoding reads back exactly the input list the encoder wrote.
pub proof fn lemma_dec_inputs_at(s: Seq<u8>, i: int, xs: Seq<TXInputV>)
    requires
        0 <= i,
        forall|k: int| 0 <= k < xs.len() ==> input_encodable(#[trigger] xs[k]),
        i + spec_enc_inputs(xs).len() <= s.len(),
        s.subrange(i, i + spec_enc_inputs(xs).len()) == spec_enc_inputs(xs),
    ensures
        spec_dec_inputs(s, i, xs.len() as int) == Option::Some(
            (xs, i + spec_enc_inputs(xs).len()),
        ),
    decreases xs.len(),
{
    if xs.len() == 0 {
        assert(xs =~= Seq::<TXInputV>::empty());
    } else {
        let e0 = spec_enc_input(xs[0]);
        let rest = spec_enc_inputs(xs.drop_first());
        lemma_subrange_split(s, i, e0, rest);
        lemma_dec_input_at(s, i, xs[0]);
        assert forall|k: int| 0 <= k < xs.drop_first().len() implies input_encodable(
            #[trigger] xs.drop_first()[k],
        ) by {
            assert(xs.drop_first()[k] == xs[k + 1]);
        }
        lemma_dec_inputs_at(s, i + e0.len(), xs.drop_first());
        assert(seq![xs[0]] + xs.drop_first() =~= xs);
    }
}

/// Decoding reads back exactly the output list the encoder wrote.
pub proof fn lemma_dec_outputs_at(s: Seq<u8>, i: int, xs: Seq<TXOutputV>)
    requires
        0 <= i,
        forall|k: int| 0 <= k < xs.len() ==> output_encodable(#[trigger] xs[k]),
        i + spec_enc_outputs(xs).len() <= s.len(),
        s.subrange(i, i + spec_enc_outputs(xs).len()) == spec_enc_outputs(xs),
    ensures
        spec_dec_outputs(s, i, xs.len() as int) == Option::Some(
            (xs, i + spec_enc_outputs(xs).len()),
        ),
    decreases xs.len(),
{
    if xs.len() == 0 {
        assert(xs =~= Seq::<TXOutputV>::empty());
    } else {
        let e0 = spec_enc_output(xs[0]);
        let rest = spec_enc_outputs(xs.drop_first());
        lemma_subrange_split(s, i, e0, rest);
        lemma_dec_output_at(s, i, xs[0]);
        assert forall|k: int| 0 <= k < xs.drop_first().len() implies output_encodable(
            #[trigger] xs.drop_first()[k],
        ) by {
            assert(xs.drop_first()[k] == xs[k + 1]);
        }
        lemma_dec_outputs_at(s, i + e0.len(), xs.drop_first());
        assert(seq![xs[0]] + xs.drop_first() =~= xs);
    }
}

/// Decoding reads back exactly the transaction the encoder wrote.
pub proof fn lemma_dec_tx_at(s: Seq<u8>, i: int, t: TransactionV)
    requires
        0 <= i,
        tx_encodable(t),
        i + spec_enc_tx(t).len() <= s.len(),
        s.subrange(i, i + spec_enc_tx(t).len()) == spec_enc_tx(t),
    ensures
        spec_dec_tx(s, i) == Option::Some((t, i + spec_enc_tx(t).len())),
{
    let a1 = spec_enc_bytes(t.id);
    let a2 = spec_u64_be(t.vin.len() as u64);
    let a3 = spec_enc_inputs(t.vin);
    let a4 = spec_u64_be(t.vout.len() as u64);
    let a5 = spec_enc_outputs(t.vout);
    assert(spec_enc_tx(t) =~= a1 + (a2 + (a3 + (a4 + a5))));
    lemma_subrange_split(s, i, a1, a2 + (a3 + (a4 + a5)));
    assert(a2 + (a3 + (a4 + a5)) =~= a2 + a3 + (a4 + a5) + Seq::<u8>::empty());
    lemma_subrange_split(s, i + a1.len(), a2, a3 + (a4 + a5));
    lemma_subrange_split(s, i + a1.len() + a2.len(), a3, a4 + a5);
    lemma_subrange_split(s, i + a1.len() + a2.len() + a3.len(), a4, a5);
    lemma_dec_bytes_at(s, i, t.id);
    lemma_dec_u64_at(s, i + a1.len(), t.vin.len() as u64);
    lemma_dec_inputs_at(s, i + a1.len() + a2.len(), t.vin);
    lemma_dec_u64_at(s, i + a1.len() + a2.len() + a3.len(), t.vout.len() as u64);
    lemma_dec_outputs_at(s, i + a1.len() + a2.len() + a3.len() + a4.len(), t.vout);
    assert(spec_dec_tx(s, i) matches Option::Some(p) && p.0 =~= t && p.1 == i + spec_enc_tx(
        t,
    ).len());
}

/// A decoded prefix of `j` list items splits the full decode of `n` items
/// into the prefix and the decode of the remaining `n - j`.
pub proof fn lemma_dec_inputs_prefix(s: Seq<u8>, i: int, j: int, n: int)
    requires
        0 <= j <= n,
        spec_dec_inputs(s, i, j) is Some,
    ensures
        ({
            let (xs, m) = spec_dec_inputs(s, i, j)->0;
            spec_dec_inputs(s, i, n) == (match spec_dec_inputs(s, m, n - j) {
                Option::Some((ys, e)) => Option::Some((xs + ys, e)),
                Option::None => Option::None::<(Seq<TXInputV>, int)>,
            })
        }),
    decreases j,
{
    let (xs, m) = spec_dec_inputs(s, i, j)->0;
    if j == 0 {
        assert(xs =~= Seq::<TXInputV>::empty());
        match spec_dec_inputs(s, i, n) {
            Option::Some((ys, e)) => {
                assert(xs + ys =~= ys);
            },
            Option::None => {},
        }
    } else {
        let (x0, i1) = spec_dec_input(s, i)->0;
        let (xs2, m2) = spec_dec_inputs(s, i1, j - 1)->0;
        assert(xs == seq![x0] + xs2 && m == m2);
        lemma_dec_inputs_prefix(s, i1, j - 1, n - 1);
        match spec_dec_inputs(s, m, n - j) {
            Option::Some((ys, e)) => {
                assert(spec_dec_inputs(s, i1, n - 1) == Option::Some((xs2 + ys, e)));
                assert(spec_dec_inputs(s, i, n) == Option::Some((seq![x0] + (xs2 + ys), e)));
                assert(seq![x0] + (xs2 + ys) =~= (seq![x0] + xs2) + ys);
            },
            Option::None => {
                assert(spec_dec_inputs(s, i1, n - 1) is None);
            },
        }
    }
}

/// A decoded prefix of `j` list items splits the full decode of `n` items
/// into the prefix and the decode of the remaining `n - j`.
pub proof fn lemma_dec_outputs_prefix(s: Seq<u8>, i: int, j: int, n: int)
    requires
        0 <= j <= n,
        spec_dec_outputs(s, i, j) is Some,
    ensures
        ({
            let (xs, m) = spec_dec_outputs(s, i, j)->0;
            spec_dec_outputs(s, i, n) == (match spec_dec_outputs(s, m, n - j) {
                Option::Some((ys, e)) => Option::Some((xs + ys, e)),
                Option::None => Option::None::<(Seq<TXOutputV>, int)>,
            })
        }),
    decreases j,
{
    let (xs, m) = spec_dec_outputs(s, i, j)->0;
    if j == 0 {
        assert(xs =~= Seq::<TXOutputV>::empty());
        match spec_dec_outputs(s, i, n) {
            Option::Some((ys, e)) => {
                assert(xs + ys =~= ys);
            },
            Option::None => {},
        }
    } else {
        let (x0, i1) = spec_dec_output(s, i)->0;
        let (xs2, m2) = spec_dec_outputs(s, i1, j - 1)->0;
        assert(xs == seq![x0] + xs2 && m == m2);
        lemma_dec_outputs_prefix(s, i1, j - 1, n - 1);
        match spec_dec_outputs(s, m, n - j) {
            Option::Some((ys, e)) => {
                assert(spec_dec_outputs(s, i1, n - 1) == Option::Some((xs2 + ys, e)));
                assert(spec_dec_outputs(s, i, n) == Option::Some((seq![x0] + (xs2 + ys), e)));
                assert(seq![x0] + (xs2 + ys) =~= (seq![x0] + xs2) + ys);
            },
            Option::None => {
                assert(spec_dec_outputs(s, i1, n - 1) is None);
            },
        }
    }
}

pub fn dec_input(s: &Vec<u8>, i: usize) -> (r: Option<(TXInput, usize)>)
    ensures
        r is Some <==> spec_dec_input(s@, i as int) is Some,
        r is Some ==> (spec_dec_input(s@, i as int) matches Option::Some(p) && (r->0).0@ == p.0 && (
        r->0).1 as int == p.1),
{
    match dec_bytes(s, i) {
        Option::None => Option::None,
        Option::Some((txid, j1)) => match dec_opt_u64(s, j1) {
            Option::None => Option::None,
            Option::Some((vo, j2)) => {
                let vout: Option<usize> = match vo {
                    Option::Some(x) => {
                        if x <= usize::MAX as u64 {
                            Option::Some(x as usize)
                        } else {
                            return Option::None;
                        }
                    },
                    Option::None => Option::None,
                };
                match dec_bytes(s, j2) {
                    Option::None => Option::None,
                    Option::Some((sig, j3)) => match dec_bytes(s, j3) {
                        Option::None => Option::None,
                        Option::Some((pk, j4)) => Option::Some(
                            (TXInput { txid, vout, signature: sig, pub_key: pk }, j4),
                        ),
                    },
                }
            },
        },
    }
}

pub fn dec_output(s: &Vec<u8>, i: usize) -> (r: Option<(TXOutput, usize)>)
    ensures
        r is Some <==> spec_dec_output(s@, i as int) is Some,
        r is Some ==> (spec_dec_output(s@, i as int) matches Option::Some(p) && (r->0).0@ == p.0
            && (r->0).1 as int == p.1),
{
    match dec_u64(s, i) {
        Option::None => Option::None,
        Option::Some((value, j1)) => match dec_bytes(s, j1) {
            Option::None => Option::None,
            Option::Some((pkh, j2)) => Option::Some(
                (TXOutput { value, pub_key_hash: pkh }, j2),
            ),
        },
    }
}

pub fn dec_inputs(s: &Vec<u8>, i: usize, n: u64) -> (r: Option<(Vec<TXInput>, usize)>)
    ensures
        r is Some <==> spec_dec_inputs(s@, i as int, n as int) is Some,
        r is Some ==> (spec_dec_inputs(s@, i as int, n as int) matches Option::Some(p) && (r
            ->0).0@.map_values(|x: TXInput| x@) == p.0 && (r->0).1 as int == p.1),
{
    let mut acc: Vec<TXInput> = Vec::new();
    let mut pos: usize = i;
    let mut j: u64 = 0;
    while j < n
        invariant
            j <= n,
            spec_dec_inputs(s@, i as int, j as int) == Option::Some(
                (acc@.map_values(|x: TXInput| x@), pos as int),
            ),
        decreases n - j,
    {
        let ghost pre = acc@.map_values(|x: TXInput| x@);
        match dec_input(s, pos) {
            Option::None => {
                proof {
                    lemma_dec_inputs_prefix(s@, i as int, j as int, n as int);
                }
                return Option::None;
            },
            Option::Some((x, np)) => {
                proof {
                    lemma_dec_inputs_prefix(s@, i as int, j as int, j + 1 as int);
                    let (xv, m2) = spec_dec_input(s@, pos as int)->0;
                    assert(spec_dec_inputs(s@, m2, 0) == Option::Some(
                        (Seq::<TXInputV>::empty(), m2),
                    ));
                    assert(seq![xv] + Seq::<TXInputV>::empty() =~= seq![xv]);
                    assert(spec_dec_inputs(s@, pos as int, 1) == Option::Some((seq![xv], m2)));
                }
                acc.push(x);
                pos = np;
                j = j + 1;
                proof {
                    assert(acc@.map_values(|x: TXInput| x@) =~= pre.push(x@));
                    assert(pre + seq![x@] =~= pre.push(x@));
                }
            },
        }
    }
    Option::Some((acc, pos))
}

pub fn dec_outputs(s: &Vec<u8>, i: usize, n: u64) -> (r: Option<(Vec<TXOutput>, usize)>)
    ensures
        r is Some <==> spec_dec_outputs(s@, i as int, n as int) is Some,
        r is Some ==> (spec_dec_outputs(s@, i as int, n as int) matches Option::Some(p) && (r
            ->0).0@.map_values(|x: TXOutput| x@) == p.0 && (r->0).1 as int == p.1),
{
    let mut acc: Vec<TXOutput> = Vec::new();
    let mut pos: usize = i;
    let mut j: u64 = 0;
    while j < n
        invariant
            j <= n,
            spec_dec_outputs(s@, i as int, j as int) == Option::Some(
                (acc@.map_values(|x: TXOutput| x@), pos as int),
            ),
        decreases n - j,
    {
        let ghost pre = acc@.map_values(|x: TXOutput| x@);
        match dec_output(s, pos) {
            Option::None => {
                proof {
                    lemma_dec_outputs_prefix(s@, i as int, j as int, n as int);
                }
                return Option::None;
            },
            Option::Some((x, np)) => {
                proof {
                    lemma_dec_outputs_prefix(s@, i as int, j as int, j + 1 as int);
                    let (xv, m2) = spec_dec_output(s@, pos as int)->0;
                    assert(spec_dec_outputs(s@, m2, 0) == Option::Some(
                        (Seq::<TXOutputV>::empty(), m2),
                    ));
                    assert(seq![xv] + Seq::<TXOutputV>::empty() =~= seq![xv]);
                    assert(spec_dec_outputs(s@, pos as int, 1) == Option::Some((seq![xv], m2)));
                }
                acc.push(x);
                pos = np;
                j = j + 1;
                proof {
                    assert(acc@.map_values(|x: TXOutput| x@) =~= pre.push(x@));
                    assert(pre + seq![x@] =~= pre.push(x@));
                }
            },
        }
    }
    Option::Some((acc, pos))
}

pub fn dec_tx(s: &Vec<u8>, i: usize) -> (r: Option<(Transaction, usize)>)
    ensures
        r is Some <==> spec_dec_tx(s@, i as int) is Some,
        r is Some ==> (spec_dec_tx(s@, i as int) matches Option::Some(p) && (r->0).0@ == p.0 && (r
            ->0).1 as int == p.1),
{
    match dec_bytes(s, i) {
        Option::None => Option::None,
        Option::Some((id, j1)) => match dec_u64(s, j1) {
            Option::None => Option::None,
            Option::Some((nvin, j2)) => match dec_inputs(s, j2, nvin) {
                Option::None => Option::None,
                Option::Some((vin, j3)) => match dec_u64(s, j3) {
                    Option::None => Option::None,
                    Option::Some((nvout, j4)) => match dec_outputs(s, j4, nvout) {
                        Option::None => Option::None,
                        Option::Some((vout, j5)) => Option::Some(
                            (Transaction { id, vin, vout }, j5),
                        ),
                    },
                },
            },
        },
    }
}

/// Serializing a transaction and deserializing the bytes yields a value
/// equal to the original in every field.
pub proof fn lemma_tx_roundtrip(t: TransactionV)
    requires
        tx_encodable(t),
    ensures
        spec_dec_tx(spec_enc_tx(t), 0) == Option::Some(
            (t, spec_enc_tx(t).len() as int),
        ),
{
    let s = spec_enc_tx(t);
    assert(s.subrange(0, s.len() as int) =~= s);
    lemma_dec_tx_at(s, 0, t);
}

/// Appending one element to an encoded list appends its encoding.
pub proof fn lemma_enc_inputs_snoc(xs: Seq<TXInputV>)
    requires
        xs.len() > 0,
    ensures
        spec_enc_inputs(xs) == spec_enc_inputs(xs.drop_last()) + spec_enc_input(xs.last()),
    decreases xs.len(),
{
    if xs.len() == 1 {
        assert(xs.drop_first().len() == 0);
        assert(spec_enc_inputs(xs.drop_first()) == Seq::<u8>::empty());
        assert(xs.drop_last().len() == 0);
        assert(spec_enc_inputs(xs.drop_last()) == Seq::<u8>::empty());
        assert(spec_enc_inputs(xs) =~= spec_enc_inputs(xs.drop_last()) + spec_enc_input(
            xs.last(),
        ));
    } else {
        let ys = xs.drop_first();
        lemma_enc_inputs_snoc(ys);
        assert(ys.drop_last() =~= xs.drop_last().drop_first());
        assert(ys.last() == xs.last());
        assert(xs.drop_last().len() > 0);
        assert(xs.drop_last()[0] == xs[0]);
        assert(spec_enc_inputs(xs.drop_last()) == spec_enc_input(xs[0]) + spec_enc_inputs(
            ys.drop_last(),
        ));
        assert((spec_enc_input(xs[0]) + spec_enc_inputs(ys.drop_last())) + spec_enc_input(
            xs.last(),
        ) =~= spec_enc_input(xs[0]) + (spec_enc_inputs(ys.drop_last()) + spec_enc_input(
            xs.last(),
        )));
    }
}

/// Appending one element to an encoded list appends its encoding.
pub proof fn lemma_enc_outputs_snoc(xs: Seq<TXOutputV>)
    requires
        xs.len() > 0,
    ensures
        spec_enc_outputs(xs) == spec_enc_outputs(xs.drop_last()) + spec_enc_output(xs.last()),
    decreases xs.len(),
{
    if xs.len() == 1 {
        assert(xs.drop_first().len() == 0);
        assert(spec_enc_outputs(xs.drop_first()) == Seq::<u8>::empty());
        assert(xs.drop_last().len() == 0);
        assert(spec_enc_outputs(xs.drop_last()) == Seq::<u8>::empty());
        assert(spec_enc_outputs(xs) =~= spec_enc_outputs(xs.drop_last()) + spec_enc_output(
            xs.last(),
        ));
    } else {
        let ys = xs.drop_first();
        lemma_enc_outputs_snoc(ys);
        assert(ys.drop_last() =~= xs.drop_last().drop_first());
        assert(ys.last() == xs.last());
        assert(xs.drop_last().len() > 0);
        assert(xs.drop_last()[0] == xs[0]);
        assert(spec_enc_outputs(xs.drop_last()) == spec_enc_output(xs[0]) + spec_enc_outputs(
            ys.drop_last(),
        ));
        assert((spec_enc_output(xs[0]) + spec_enc_outputs(ys.drop_last())) + spec_enc_output(
            xs.last(),
        ) =~= spec_enc_output(xs[0]) + (spec_enc_outputs(ys.drop_last()) + spec_enc_output(
            xs.last(),
        )));
    }
}

} // verus!
