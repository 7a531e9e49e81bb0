use rust_chain::base58::{base58_decode, base58_encode};
use rust_chain::block::{dec_block_full, Block};
use rust_chain::codec::{push_u64_be, read_u64_be};
use rust_chain::transaction::{dec_tx, TXInput, TXOutput, Transaction};
use rust_chain::wallet::{dec_wallet, Wallet};

fn sample_tx() -> Transaction {
    let mut tx = Transaction {
        id: Vec::new(),
        vin: vec![
            TXInput {
                txid: vec![9u8; 32],
                vout: Some(1),
                signature: Vec::new(),
                pub_key: vec![7u8, 8u8],
            },
            TXInput {
                txid: Vec::new(),
                vout: None,
                signature: vec![1u8],
                pub_key: vec![2u8],
            },
        ],
        vout: vec![
            TXOutput {
                value: 10,
                pub_key_hash: vec![4u8; 20],
            },
            TXOutput {
                value: 0,
                pub_key_hash: Vec::new(),
            },
        ],
    };
    tx.set_id();
    tx
}

#[test]
fn u64_codec_is_big_endian_and_invertible() {
    let mut buf: Vec<u8> = Vec::new();
    push_u64_be(&mut buf, 0x0102030405060708);
    assert_eq!(buf, vec![1u8, 2, 3, 4, 5, 6, 7, 8]);
    assert_eq!(read_u64_be(&buf, 0), 0x0102030405060708);
}

#[test]
fn transaction_roundtrips_through_its_encoding() {
    let tx = sample_tx();
    let bytes = tx.encode();
    let (back, used) = dec_tx(&bytes, 0).expect("decode failed");
    assert_eq!(used, bytes.len());
    assert_eq!(back.id, tx.id);
    assert_eq!(back.vin.len(), tx.vin.len());
    for (a, b) in back.vin.iter().zip(tx.vin.iter()) {
        assert_eq!(a.txid, b.txid);
        assert_eq!(a.vout, b.vout);
        assert_eq!(a.signature, b.signature);
        assert_eq!(a.pub_key, b.pub_key);
    }
    assert_eq!(back.vout.len(), tx.vout.len());
    for (a, b) in back.vout.iter().zip(tx.vout.iter()) {
        assert_eq!(a.value, b.value);
        assert_eq!(a.pub_key_hash, b.pub_key_hash);
    }
}

#[test]
fn block_roundtrips_through_its_encoding() {
    let block = Block {
        timestamp: 123456789,
        transactions: vec![sample_tx()],
        previous_block_hash: Some(vec![5u8; 32]),
        hash: None,
        nonce: Some(42),
    };
    let bytes = block.encode();
    let back = dec_block_full(&bytes).expect("decode failed");
    assert_eq!(back.timestamp, block.timestamp);
    assert_eq!(back.transactions.len(), 1);
    assert_eq!(back.transactions[0].id, block.transactions[0].id);
    assert_eq!(back.previous_block_hash, block.previous_block_hash);
    assert_eq!(back.hash, None);
    assert_eq!(back.nonce, Some(42));
}

#[test]
fn wallet_roundtrips_through_its_encoding() {
    let wallet = Wallet::new();
    assert_eq!(wallet.public_key.len(), 65);
    assert_eq!(wallet.private_key.len(), 32);
    let bytes = wallet.encode();
    let (back, used) = dec_wallet(&bytes, 0).expect("decode failed");
    assert_eq!(used, bytes.len());
    assert_eq!(back.public_key, wallet.public_key);
    assert_eq!(back.private_key, wallet.private_key);
}

#[test]
fn base58_matches_known_vectors() {
    assert_eq!(base58_encode(&vec![0u8]), b"1".to_vec());
    assert_eq!(base58_encode(&b"hello world".to_vec()), b"StV1DL6CwTryKyV".to_vec());
    assert_eq!(base58_decode(&b"StV1DL6CwTryKyV".to_vec()), Some(b"hello world".to_vec()));
    assert_eq!(base58_decode(&b"0OIl".to_vec()), None);
}

#[test]
fn locking_with_a_derived_address_stores_the_key_hash() {
    let wallet = Wallet::new();
    let address = wallet.address();
    let mut out = TXOutput {
        value: 1,
        pub_key_hash: Vec::new(),
    };
    out.lock(&address).expect("lock failed");
    let hash = Wallet::hash_pub_key(&wallet.public_key);
    assert!(out.is_locked_with(&hash));
    assert_eq!(out.pub_key_hash.len(), 20);
    assert_ne!(out.pub_key_hash, address);
}

#[test]
fn hashing_the_public_key_is_not_the_identity() {
    let wallet = Wallet::new();
    let hash = Wallet::hash_pub_key(&wallet.public_key);
    assert_eq!(hash.len(), 20);
    assert_ne!(hash, wallet.public_key);
    let again = Wallet::hash_pub_key(&wallet.public_key);
    assert_eq!(hash, again);
}

#[test]
fn coinbase_structure_is_recognized() {
    let wallet = Wallet::new();
    let tx = Transaction::new_coinbase_tx(&wallet.address(), &b"data".to_vec()).expect("coinbase");
    assert!(tx.is_coinbase());
    assert_eq!(tx.id.len(), 32);
    assert!(!sample_tx().is_coinbase());
}

#[test]
fn input_credential_matches_its_own_key_hash() {
    let wallet = Wallet::new();
    let input = TXInput {
        txid: vec![1u8; 32],
        vout: Some(0),
        signature: Vec::new(),
        pub_key: wallet.public_key.clone(),
    };
    let hash = Wallet::hash_pub_key(&wallet.public_key);
    assert!(input.uses_key(&hash));
    let other = Wallet::new();
    let other_hash = Wallet::hash_pub_key(&other.public_key);
    assert!(!input.uses_key(&other_hash));
}
