use rust_chain::blockchain::Blockchain;
use rust_chain::transaction::Transaction;
use rust_chain::wallet::{Wallet, Wallets};
use rust_chain::ChainError;

const TEST_BITS: u64 = 8;

fn open_chain(address: &Vec<u8>) -> Blockchain {
    let seed = b"GENESIS".to_vec();
    Blockchain::with_params(address, &seed, TEST_BITS).expect("open failed")
}

#[test]
fn open_with_seed_creates_single_genesis_block() {
    let wallet = Wallet::new();
    let address = wallet.address();
    let chain = open_chain(&address);
    let blocks = chain.blocks();
    assert_eq!(blocks.len(), 1);
    assert!(blocks[0].previous_block_hash.is_none());
    assert!(blocks[0].hash.is_some());
    assert!(blocks[0].nonce.is_some());
    assert_eq!(blocks[0].transactions.len(), 1);
    assert!(blocks[0].transactions[0].is_coinbase());
    assert_eq!(blocks[0].transactions[0].vin[0].pub_key, b"GENESIS".to_vec());
    assert_eq!(blocks[0].transactions[0].vout[0].value, 10);
}

#[test]
fn append_three_blocks_yields_four_oldest_last() {
    let wallet = Wallet::new();
    let address = wallet.address();
    let mut chain = open_chain(&address);
    for payload in [b"a".to_vec(), b"b".to_vec(), b"c".to_vec()] {
        let tx = Transaction::new_coinbase_tx(&address, &payload).expect("coinbase failed");
        chain.add_block(vec![tx]).expect("append failed");
    }
    let blocks = chain.blocks();
    assert_eq!(blocks.len(), 4);
    assert!(blocks[3].previous_block_hash.is_none());
    for i in 0..3 {
        let prev = blocks[i]
            .previous_block_hash
            .as_ref()
            .expect("missing link");
        let next_hash = blocks[i + 1].hash.as_ref().expect("missing hash");
        assert_eq!(prev, next_hash);
    }
    assert_eq!(blocks[3].transactions[0].vin[0].pub_key, b"GENESIS".to_vec());
}

#[test]
fn balances_move_by_exactly_the_transferred_value() {
    let w1 = Wallet::new();
    let w2 = Wallet::new();
    let a1 = w1.address();
    let a2 = w2.address();
    let h1 = Wallet::hash_pub_key(&w1.public_key);
    let h2 = Wallet::hash_pub_key(&w2.public_key);
    let mut wallets = Wallets::new();
    wallets.save_wallet(&w1);
    wallets.save_wallet(&w2);
    let mut chain = open_chain(&a1);
    assert_eq!(chain.balance_at(&h1), Some(10));
    assert_eq!(chain.balance_at(&h2), Some(0));
    chain.send(&a1, &a2, 3, &wallets).expect("transfer failed");
    assert_eq!(chain.balance_at(&h2), Some(3));
    assert_eq!(chain.balance_at(&h1), Some(7));
}

#[test]
fn find_utxo_is_idempotent_without_mutation() {
    let w1 = Wallet::new();
    let w2 = Wallet::new();
    let a1 = w1.address();
    let h1 = Wallet::hash_pub_key(&w1.public_key);
    let mut wallets = Wallets::new();
    wallets.save_wallet(&w1);
    wallets.save_wallet(&w2);
    let mut chain = open_chain(&a1);
    chain.send(&a1, &w2.address(), 4, &wallets).expect("transfer failed");
    let first = chain.find_utxo(&h1);
    let second = chain.find_utxo(&h1);
    assert_eq!(first.len(), second.len());
    for (x, y) in first.iter().zip(second.iter()) {
        assert_eq!(x.value, y.value);
        assert_eq!(x.pub_key_hash, y.pub_key_hash);
    }
}

#[test]
fn transfer_beyond_balance_is_rejected_and_chain_unchanged() {
    let w1 = Wallet::new();
    let w2 = Wallet::new();
    let a1 = w1.address();
    let a2 = w2.address();
    let mut wallets = Wallets::new();
    wallets.save_wallet(&w1);
    wallets.save_wallet(&w2);
    let mut chain = open_chain(&a1);
    let before = chain.blocks().len();
    let outcome = chain.send(&a1, &a2, 100, &wallets);
    assert_eq!(outcome, Err(ChainError::InsufficientFunds));
    assert_eq!(chain.blocks().len(), before);
}

#[test]
fn transfer_from_unregistered_address_is_rejected() {
    let w1 = Wallet::new();
    let w2 = Wallet::new();
    let a1 = w1.address();
    let wallets = Wallets::new();
    let mut chain = open_chain(&a1);
    let outcome = chain.send(&a1, &w2.address(), 1, &wallets);
    assert_eq!(outcome, Err(ChainError::WalletNotFound));
}

#[test]
fn erase_all_leaves_walk_empty() {
    let wallet = Wallet::new();
    let address = wallet.address();
    let mut chain = open_chain(&address);
    for payload in [b"a".to_vec(), b"b".to_vec(), b"c".to_vec(), b"d".to_vec()] {
        let tx = Transaction::new_coinbase_tx(&address, &payload).expect("coinbase failed");
        chain.add_block(vec![tx]).expect("append failed");
    }
    assert_eq!(chain.blocks().len(), 5);
    let stale_tip = chain.tip.clone();
    chain.remove_blocks();
    assert_eq!(chain.tip, stale_tip);
    assert_eq!(chain.blocks().len(), 0);
}

#[test]
fn mined_block_validates_and_digest_is_below_target() {
    let wallet = Wallet::new();
    let address = wallet.address();
    let tx = Transaction::new_coinbase_tx(&address, &b"x".to_vec()).expect("coinbase failed");
    let block =
        rust_chain::block::Block::mine_with_bits(vec![tx], None, TEST_BITS).expect("clock failed");
    let hash = block.hash.as_ref().expect("mining failed").clone();
    assert_eq!(hash.len(), 32);
    assert_eq!(hash[0], 0);
    let pow = rust_chain::pow::ProofOfWork::with_bits(&block, TEST_BITS);
    assert!(pow.validate());
    let nonce = block.nonce.expect("mining failed");
    let recomputed = rust_chain::hashes::sha256(&pow.prepare_data(nonce));
    assert_eq!(recomputed[0], 0);
}

#[test]
fn reopening_persisted_entries_restores_the_chain() {
    let w1 = Wallet::new();
    let w2 = Wallet::new();
    let a1 = w1.address();
    let h2 = Wallet::hash_pub_key(&w2.public_key);
    let mut wallets = Wallets::new();
    wallets.save_wallet(&w1);
    wallets.save_wallet(&w2);
    let mut chain = open_chain(&a1);
    chain.send(&a1, &w2.address(), 5, &wallets).expect("transfer failed");
    let entries = chain.store.entries().clone();
    let reopened = Blockchain::from_entries(&entries, TEST_BITS).expect("reopen failed");
    assert_eq!(reopened.blocks().len(), 2);
    assert_eq!(reopened.tip, chain.tip);
    assert_eq!(reopened.balance_at(&h2), Some(5));
}

#[test]
fn reopening_an_empty_store_is_a_corrupt_store() {
    let entries: Vec<(Vec<u8>, Vec<u8>)> = Vec::new();
    assert_eq!(
        Blockchain::from_entries(&entries, TEST_BITS).err(),
        Some(ChainError::CorruptStore)
    );
}

#[test]
fn opening_with_a_malformed_address_is_rejected() {
    let bad = b"0OIl-not-base58".to_vec();
    let seed = b"GENESIS".to_vec();
    let outcome = Blockchain::with_params(&bad, &seed, TEST_BITS);
    assert_eq!(outcome.err(), Some(ChainError::MalformedAddress));
}

#[test]
fn transfer_to_a_malformed_address_is_rejected() {
    let w1 = Wallet::new();
    let a1 = w1.address();
    let mut wallets = Wallets::new();
    wallets.save_wallet(&w1);
    let mut chain = open_chain(&a1);
    let before = chain.blocks().len();
    let outcome = chain.send(&a1, &b"0OIl-not-base58".to_vec(), 3, &wallets);
    assert_eq!(outcome, Err(ChainError::MalformedAddress));
    assert_eq!(chain.blocks().len(), before);
}

#[test]
fn reopening_an_erased_store_is_a_corrupt_store() {
    let wallet = Wallet::new();
    let address = wallet.address();
    let mut chain = open_chain(&address);
    chain.remove_blocks();
    let entries = chain.store.entries().clone();
    assert_eq!(entries.len(), 1);
    assert_eq!(
        Blockchain::from_entries(&entries, TEST_BITS).err(),
        Some(ChainError::CorruptStore)
    );
}
