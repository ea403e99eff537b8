use bitcoin_fake::block::Block;
use bitcoin_fake::chain::BlockChain;
use bitcoin_fake::codec::to_hex;
use bitcoin_fake::crypto::{
    base58_decode, base58_encode, compute_root_hash, ecdsa_signature_verify, random_private_key,
    ripemd160, sha256, sha256_to_string,
};
use bitcoin_fake::error::BlockChainError;
use bitcoin_fake::pow::{hash_meets_target, PowParameters};
use bitcoin_fake::transaction::{encode_transactions, locking_key, Transaction, TxIn, TxOut, SUBSIDY};
use bitcoin_fake::utxo::UTXOSet;
use bitcoin_fake::wallet::{hash_encode_pub_key, Wallet, WalletMap};

const BITS: u32 = 8;

fn new_wallet() -> (Wallet, String) {
    let key = random_private_key().expect("key");
    let wallet = Wallet::from_key(key);
    let address = wallet.get_address().expect("address");
    (wallet, address)
}

fn key_of(address: &str) -> Vec<u8> {
    locking_key(address).expect("locking key")
}

#[test]
fn it_works() {
    let result = 2 + 2;
    assert_eq!(result, 4);
}

#[test]
fn sha256_of_abc() {
    assert_eq!(
        sha256_to_string(b"abc"),
        "ba7816bf8f01cfea414140de5dae2223b00361a396177a9cb410ff61f20015ad"
    );
    assert_eq!(sha256(b"abc").len(), 32);
}

#[test]
fn ripemd160_of_empty() {
    assert_eq!(to_hex(&ripemd160(b"")), "9c1185a5c5e9fc54612808977ee8f548b2258d31");
}

#[test]
fn hex_text() {
    assert_eq!(to_hex(&[0x00, 0x0f, 0xa5, 0xff]), "000fa5ff");
    assert_eq!(to_hex(&[]), "");
}

#[test]
fn base58_round_trip() {
    let data = b"hello world".to_vec();
    let text = base58_encode(&data);
    assert_eq!(text, "StV1DL6CwTryKyV");
    assert_eq!(base58_decode(&text), Some(data));
    assert_eq!(base58_decode("0OIl"), None);
}

#[test]
fn target_by_leading_bits() {
    let mut h = [0xffu8; 32];
    assert!(hash_meets_target(&h, 0));
    assert!(!hash_meets_target(&h, 1));
    h[0] = 0x00;
    h[1] = 0x7f;
    assert!(hash_meets_target(&h, 8));
    assert!(hash_meets_target(&h, 9));
    assert!(!hash_meets_target(&h, 10));
    let zero = [0u8; 32];
    assert!(hash_meets_target(&zero, 256));
    assert!(!hash_meets_target(&zero, 257));
    let params = PowParameters::new(9);
    assert!(params.accepts(&h));
}

#[test]
fn address_locks_to_key_hash() {
    let (wallet, address) = new_wallet();
    let pk = wallet.get_public_key().expect("public key");
    let hash = hash_encode_pub_key(&pk);
    assert_eq!(hash.len(), 20);
    assert_eq!(key_of(&address), hash);
    let payload = base58_decode(&address).unwrap();
    assert_eq!(payload.len(), 25);
    assert_eq!(payload[0], 0);
    let out = TxOut::new(7, &address).unwrap();
    assert_eq!(out.get_value(), 7);
    assert!(out.is_locked(&hash));
    assert!(TxOut::new(7, "not base58 0OIl").is_none());
}

#[test]
fn signature_checks_message() {
    let key = random_private_key().unwrap();
    let pk = Wallet::from_key(key.clone()).get_public_key().unwrap();
    let sig = bitcoin_fake::crypto::ecdsa_signature(&key, b"message").unwrap();
    assert!(ecdsa_signature_verify(&pk, &sig, b"message"));
    assert!(!ecdsa_signature_verify(&pk, &sig, b"other"));
}

#[test]
fn wallet_map_finds_wallets() {
    let mut map = WalletMap::new();
    let a = map.create_wallet().unwrap();
    let b = map.create_wallet().unwrap();
    assert_ne!(a, b);
    assert!(map.get_wallet(&a).is_some());
    assert!(map.get_wallet("nobody").is_none());
    assert_eq!(map.get_addresses(), vec![a.clone(), b]);
    let w = map.get_wallet(&a).unwrap();
    assert_eq!(w.get_address().unwrap(), a);
}

#[test]
fn coinbase_shape() {
    let (_, address) = new_wallet();
    let tx = Transaction::new_coinbase(&address).unwrap();
    assert_eq!(tx.get_vin().len(), 1);
    assert_eq!(tx.get_vout().len(), 1);
    assert_eq!(tx.get_vout()[0].get_value(), SUBSIDY);
    assert!(tx.is_coinbase());
    assert_eq!(tx.get_tx_hash().len(), 32);
    assert!(Transaction::new_coinbase("bad0").is_none());
}

#[test]
fn trimmed_copy_clears_signatures() {
    let mut input = TxIn::new(vec![1, 2, 3], 4, b"key");
    input.set_signature(vec![9, 9]);
    let tx = Transaction { vin: vec![input], vout: vec![], tx_hash: vec![5] };
    let copy = tx.trimmed_copy();
    assert!(copy.vin[0].get_signature().is_empty());
    assert!(copy.vin[0].public_key.is_empty());
    assert_eq!(copy.vin[0].get_tx_hash(), vec![1, 2, 3]);
    assert_eq!(copy.vin[0].get_vout(), 4);
    assert_eq!(copy.get_tx_hash(), vec![5]);
}

#[test]
fn genesis_block_is_sealed() {
    let (_, address) = new_wallet();
    let block = Block::create_genesis_block(BITS, &address).unwrap();
    assert!(block.is_sealed());
    assert_eq!(block.get_height(), 1);
    assert!(block.get_header().get_prev_hash().is_empty());
    assert_eq!(block.get_txs().len(), 1);
    let digest = block.header.digest();
    assert_eq!(digest, block.get_hash());
    assert!(hash_meets_target(&digest, BITS));
}

#[test]
fn empty_chain_refuses_mining() {
    let mut chain = BlockChain::new(BITS);
    assert_eq!(chain.get_height(), 0);
    assert_eq!(chain.get_latest_block_hash(), None);
    assert_eq!(chain.mine_block(&[]).err(), Some(BlockChainError::EmptyChain));
    assert_eq!(chain.create_genesis_block("bad0").err(), Some(BlockChainError::InvalidAddress));
}

#[test]
fn genesis_then_again() {
    let (_, address) = new_wallet();
    let mut chain = BlockChain::new(BITS);
    let g = chain.create_genesis_block(&address).unwrap();
    assert_eq!(chain.get_height(), 1);
    assert_eq!(chain.get_latest_block_hash(), Some(g.get_hash()));
    assert_eq!(
        chain.create_genesis_block(&address).err(),
        Some(BlockChainError::AlreadyInitialized)
    );
    assert_eq!(chain.get_balance(&key_of(&address)), SUBSIDY as u128);
    assert_eq!(chain.blocks_info(), vec![to_hex(&g.get_hash())]);
}

#[test]
fn spend_updates_balances() {
    let (wa, a) = new_wallet();
    let (_, b) = new_wallet();
    let mut chain = BlockChain::new(BITS);
    chain.create_genesis_block(&a).unwrap();
    let utxo = UTXOSet::from_history(&[]);
    let mut index = utxo;
    index.reindex(&chain);
    let tx = Transaction::new_utxo(&wa, &a, &b, 4, &index, &chain).unwrap();
    assert_eq!(tx.get_vout().len(), 2);
    assert_eq!(tx.get_vout()[0].get_value(), 4);
    assert_eq!(tx.get_vout()[1].get_value(), 6);
    assert!(tx.verify(&chain));
    chain.mine_block(&[tx]).unwrap();
    assert_eq!(chain.get_height(), 2);
    assert_eq!(chain.get_balance(&key_of(&a)), 6);
    assert_eq!(chain.get_balance(&key_of(&b)), 4);
    index.reindex(&chain);
    assert_eq!(index.get_balance(&key_of(&a)), 6);
    assert_eq!(index.get_balance(&key_of(&b)), 4);
}

#[test]
fn insufficient_funds() {
    let (wa, a) = new_wallet();
    let (_, b) = new_wallet();
    let mut chain = BlockChain::new(BITS);
    chain.create_genesis_block(&a).unwrap();
    let mut index = UTXOSet::new();
    index.reindex(&chain);
    let (taken, picked) = index.find_spendable_outputs(&key_of(&a), 11);
    assert_eq!(taken, 10);
    assert_eq!(picked.len(), 1);
    assert_eq!(
        Transaction::new_utxo(&wa, &a, &b, 11, &index, &chain).err(),
        Some(BlockChainError::InsufficientFunds)
    );
    assert_eq!(
        Transaction::new_utxo(&wa, "bad0", &b, 1, &index, &chain).err(),
        Some(BlockChainError::InvalidAddress)
    );
}

#[test]
fn sign_then_verify() {
    let (wa, a) = new_wallet();
    let (_, b) = new_wallet();
    let mut chain = BlockChain::new(BITS);
    chain.create_genesis_block(&a).unwrap();
    let mut index = UTXOSet::new();
    index.reindex(&chain);
    let mut tx = Transaction::new_utxo(&wa, &a, &b, 3, &index, &chain).unwrap();
    assert!(!tx.is_coinbase());
    assert!(tx.verify(&chain));
    let pk = wa.get_public_key().unwrap();
    assert_eq!(tx.vin[0].public_key, pk);
    tx.vin[0].set_signature(vec![1; 64]);
    assert!(!tx.verify(&chain));
    assert_eq!(tx.sign(&chain, &wa.get_personal_key()), Ok(()));
    assert!(tx.verify(&chain));
    assert_eq!(tx.sign(&chain, b"not a key"), Err(BlockChainError::InvalidSignature));
}

#[test]
fn double_spend_rejected() {
    let (wa, a) = new_wallet();
    let (_, b) = new_wallet();
    let (_, c) = new_wallet();
    let mut chain = BlockChain::new(BITS);
    chain.create_genesis_block(&a).unwrap();
    let mut index = UTXOSet::new();
    index.reindex(&chain);
    let t1 = Transaction::new_utxo(&wa, &a, &b, 10, &index, &chain).unwrap();
    let t2 = Transaction::new_utxo(&wa, &a, &c, 10, &index, &chain).unwrap();
    let both = vec![t1.duplicate(), t2.duplicate()];
    assert_eq!(chain.mine_block(&both).err(), Some(BlockChainError::InvalidTransaction));
    assert!(chain.mine_block(&[t1]).is_ok());
    let mut unsigned = t2.duplicate();
    unsigned.vin[0].set_signature(vec![]);
    assert!(unsigned.is_coinbase());
    assert_eq!(chain.mine_block(&[unsigned]).err(), Some(BlockChainError::InvalidTransaction));
    assert_eq!(chain.mine_block(&[t2]).err(), Some(BlockChainError::InvalidTransaction));
    index.reindex(&chain);
    let (taken, _) = index.find_spendable_outputs(&key_of(&a), 10);
    assert_eq!(taken, 0);
    assert_eq!(
        Transaction::new_utxo(&wa, &a, &c, 10, &index, &chain).err(),
        Some(BlockChainError::InsufficientFunds)
    );
}

#[test]
fn add_block_twice() {
    let (_, a) = new_wallet();
    let mut miner = BlockChain::new(BITS);
    miner.create_genesis_block(&a).unwrap();
    let b2 = miner.mine_block(&[]).unwrap();
    let mut other = BlockChain::new(BITS);
    for b in miner.get_blocks() {
        assert_eq!(other.add_block(b), Ok(()));
    }
    assert_eq!(other.get_height(), 2);
    assert_eq!(other.add_block(b2.duplicate()), Ok(()));
    assert_eq!(other.get_height(), 2);
    assert_eq!(other.get_latest_block_hash(), Some(b2.get_hash()));
}

#[test]
fn add_block_rejections() {
    let (_, a) = new_wallet();
    let mut chain = BlockChain::new(BITS);
    chain.create_genesis_block(&a).unwrap();
    let tip = chain.get_latest_block_hash().unwrap();
    let good = Block::new(&[], &tip, BITS, 2).unwrap();
    let mut broken = good.duplicate();
    broken.header.set_nonce(broken.header.nonce.wrapping_add(1));
    assert_eq!(chain.add_block(broken), Err(BlockChainError::InvalidProofOfWork));
    let wrong_prev = Block::new(&[], &[7u8; 32], BITS, 2).unwrap();
    assert_eq!(chain.add_block(wrong_prev), Err(BlockChainError::WrongPredecessor));
    let wrong_height = Block::new(&[], &tip, BITS, 3).unwrap();
    assert_eq!(chain.add_block(wrong_height), Err(BlockChainError::WrongHeight));
    assert_eq!(chain.get_height(), 1);
    assert_eq!(chain.add_block(good), Ok(()));
    assert_eq!(chain.get_height(), 2);
}

#[test]
fn sync_from_taller_peer() {
    let (_, a) = new_wallet();
    let mut tall = BlockChain::new(BITS);
    tall.create_genesis_block(&a).unwrap();
    for _ in 0..4 {
        tall.mine_block(&[]).unwrap();
    }
    assert_eq!(tall.get_height(), 5);
    let mut short = BlockChain::new(BITS);
    for b in tall.get_blocks().into_iter().take(3) {
        short.add_block(b).unwrap();
    }
    assert_eq!(short.get_height(), 3);
    let missing = tall.get_blocks_after(short.get_height());
    assert_eq!(missing.len(), 2);
    assert_eq!(short.add_block(missing[0].duplicate()), Ok(()));
    assert_eq!(short.add_block(missing[1].duplicate()), Ok(()));
    assert_eq!(short.get_height(), 5);
    assert_eq!(short.get_latest_block_hash(), tall.get_latest_block_hash());
    let mut third = BlockChain::new(BITS);
    assert_eq!(third.sync_blocks(&tall.get_blocks()), 5);
    assert_eq!(third.get_latest_block_hash(), tall.get_latest_block_hash());
}

#[test]
fn reindex_matches_search() {
    let (wa, a) = new_wallet();
    let (_, b) = new_wallet();
    let mut chain = BlockChain::new(BITS);
    chain.create_genesis_block(&a).unwrap();
    let mut index = UTXOSet::new();
    index.reindex(&chain);
    let tx = Transaction::new_utxo(&wa, &a, &b, 4, &index, &chain).unwrap();
    chain.mine_block(&[tx]).unwrap();
    index.reindex(&chain);
    let found = chain.search_utxo();
    let stored = index.get_utxo_set();
    assert_eq!(found.len(), 2);
    assert_eq!(stored.len(), found.len());
    for (x, y) in stored.iter().zip(found.iter()) {
        assert_eq!(x.tx_hash, y.tx_hash);
        assert_eq!(x.index, y.index);
        assert_eq!(x.output.get_value(), y.output.get_value());
    }
    assert!(stored[0].tx_hash < stored[1].tx_hash || (stored[0].tx_hash == stored[1].tx_hash && stored[0].index < stored[1].index));
}

#[test]
fn find_transaction_by_hash() {
    let (_, a) = new_wallet();
    let mut chain = BlockChain::new(BITS);
    let g = chain.create_genesis_block(&a).unwrap();
    let h = g.get_txs()[0].get_tx_hash();
    let found = chain.find_transaction(&h).unwrap();
    assert_eq!(found.get_tx_hash(), h);
    assert!(chain.find_transaction(&[1, 2, 3]).is_none());
    assert_eq!(chain.get_block(1).unwrap().get_hash(), g.get_hash());
    assert!(chain.get_block(2).is_none());
    assert!(chain.get_block_by_hash(&g.get_hash()).is_some());
}

#[test]
fn root_hash_of_transactions() {
    let (_, address) = new_wallet();
    let tx = Transaction::new_coinbase(&address).unwrap();
    let txs = vec![tx];
    let bytes = encode_transactions(&txs);
    assert_eq!(compute_root_hash(&bytes), sha256(&bytes));
    let block = Block::assemble(&txs, &[], BITS, 1);
    assert_eq!(block.header.root_hash, sha256(&bytes));
    assert_ne!(block.header.root_hash, bytes);
}

#[test]
fn invalid_block_errors() {
    assert!(BlockChainError::InvalidProofOfWork.is_invalid_block());
    assert!(BlockChainError::WrongPredecessor.is_invalid_block());
    assert!(BlockChainError::WrongHeight.is_invalid_block());
    assert!(!BlockChainError::InvalidTransaction.is_invalid_block());
}

#[test]
fn block_bytes_round_trip() {
    let (wa, a) = new_wallet();
    let (_, b) = new_wallet();
    let mut chain = BlockChain::new(BITS);
    chain.create_genesis_block(&a).unwrap();
    let mut index = UTXOSet::new();
    index.reindex(&chain);
    let tx = Transaction::new_utxo(&wa, &a, &b, 4, &index, &chain).unwrap();
    let block = chain.mine_block(&[tx]).unwrap();
    let bytes = block.encode();
    let back = bitcoin_fake::decode::decode_block(&bytes).expect("decodes");
    assert_eq!(back.encode(), bytes);
    assert_eq!(back.get_hash(), block.get_hash());
    assert_eq!(back.get_height(), 2);
    assert_eq!(back.get_txs().len(), 1);
    assert_eq!(back.get_txs()[0].get_vout()[1].get_value(), 6);
    assert!(back.is_sealed());
    let mut longer = bytes.clone();
    longer.push(0);
    assert!(bitcoin_fake::decode::decode_block(&longer).is_none());
    assert!(bitcoin_fake::decode::decode_block(&bytes[..bytes.len() - 1]).is_none());
    assert!(bitcoin_fake::decode::decode_block(&[]).is_none());
}

#[test]
fn difficulty_zero_always_mines() {
    let (_, a) = new_wallet();
    let mut chain = BlockChain::new(0);
    let g = chain.create_genesis_block(&a).unwrap();
    assert_eq!(g.header.nonce, 0);
    let b = chain.mine_block(&[]).unwrap();
    assert_eq!(b.header.nonce, 0);
    assert_eq!(chain.get_height(), 2);
    let block = Block::create_genesis_block(0, &a).unwrap();
    assert_eq!(block.get_txs()[0].get_vout()[0].get_value(), SUBSIDY);
    assert!(block.get_txs()[0].has_sentinel_input());
    assert!(Block::create_genesis_block(0, "bad0").is_none());
}
