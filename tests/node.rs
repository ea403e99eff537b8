use bitcoin_fake::bytes::Bytes;
use bitcoin_fake::chain::BlockChain;
use bitcoin_fake::crypto::random_private_key;
use bitcoin_fake::message::{handle_message, Messages, Method, Request, RequestBody, Response, ResponseBody};
use bitcoin_fake::miner::{MineStatus, Miner};
use bitcoin_fake::sync::{get_best_peer, BehaviourBuilder, PeerHeight};
use bitcoin_fake::transaction::Transaction;
use bitcoin_fake::utxo::UTXOSet;
use bitcoin_fake::wallet::Wallet;

const BITS: u32 = 8;

fn new_wallet() -> (Wallet, String) {
    let wallet = Wallet::from_key(random_private_key().unwrap());
    let address = wallet.get_address().unwrap();
    (wallet, address)
}

fn peer(name: &str, height: Option<u64>) -> PeerHeight {
    PeerHeight { peer: name.to_string(), height }
}

#[test]
fn best_peer_is_first_tallest() {
    let peers = vec![peer("a", Some(4)), peer("b", None), peer("c", Some(7)), peer("d", Some(7))];
    assert_eq!(get_best_peer(3, &peers), Some(2));
    assert_eq!(get_best_peer(7, &peers), None);
    assert_eq!(get_best_peer(0, &[]), None);
}

#[test]
fn method_names() {
    assert_eq!(Method::Height.as_str_name(), "HEIGHT");
    assert_eq!(Method::Blocks.as_str_name(), "BLOCKS");
    assert_eq!(Method::from_str_name("HEIGHT"), Some(Method::Height));
    assert_eq!(Method::from_str_name("BLOCKS"), Some(Method::Blocks));
    assert_eq!(Method::from_str_name("height"), None);
}

#[test]
fn requests_and_responses() {
    let r = Request::new_blocks_req(5);
    assert_eq!(r.method, Method::Blocks);
    assert!(matches!(r.body, RequestBody::BlocksReq(ref b) if b.from_number == 5));
    let r = Request::new_block_height_req();
    assert_eq!(r.method, Method::Height);
    let resp = Response::new_block_height_resp(9);
    assert!(matches!(resp.body, ResponseBody::BlockHeightResp(ref b) if b.block_height == 9));
    let resp = Response::new_blocks_resp(vec![]);
    assert_eq!(resp.method, Method::Blocks);
}

#[test]
fn builder_defaults_and_overrides() {
    let b = BehaviourBuilder::new();
    assert_eq!(b.connection_keep_alive, 10);
    assert_eq!(b.max_request_size, usize::MAX);
    let b = b
        .with_connection_keep_alive(Some(30))
        .with_request_timeout(None)
        .with_max_request_size(Some(1024))
        .with_max_response_size(Some(2048));
    assert_eq!(b.connection_keep_alive, 30);
    assert_eq!(b.request_timeout, 10);
    assert_eq!(b.max_request_size, 1024);
    assert_eq!(b.max_response_size, 2048);
}

#[test]
fn bytes_zero_and_hex() {
    assert!(Bytes([0u8; 4]).is_zero());
    assert!(!Bytes([0u8, 0, 1]).is_zero());
    assert_eq!(Bytes([0xabu8, 0x01]).fmt_as_hex(), "0xab01");
}

#[test]
fn miner_mines_pending_transactions() {
    let (wa, a) = new_wallet();
    let (_, b) = new_wallet();
    let mut chain = BlockChain::new(BITS);
    chain.create_genesis_block(&a).unwrap();
    let mut index = UTXOSet::new();
    index.reindex(&chain);
    let tx = Transaction::new_utxo(&wa, &a, &b, 4, &index, &chain).unwrap();
    let again = tx.duplicate();
    let mut miner = Miner::new(chain);
    assert!(matches!(miner.mine(1000), MineStatus::Idle));
    assert!(miner.add_pending_tx(tx));
    assert!(!miner.add_pending_tx(again));
    assert_eq!(miner.get_sorted_txs().len(), 1);
    miner.start_round();
    let mut mined = None;
    for _ in 0..100000 {
        match miner.mine(16) {
            MineStatus::Mined(block) => {
                mined = Some(block);
                break;
            }
            MineStatus::Searching => {}
            _ => break,
        }
    }
    let block = mined.expect("a block");
    assert_eq!(block.get_height(), 2);
    assert_eq!(miner.get_chain().get_height(), 2);
    assert!(miner.get_sorted_txs().is_empty());
}

#[test]
fn received_block_cancels_mining() {
    let (wa, a) = new_wallet();
    let (_, b) = new_wallet();
    let mut chain = BlockChain::new(BITS);
    chain.create_genesis_block(&a).unwrap();
    let mut index = UTXOSet::new();
    index.reindex(&chain);
    let tx = Transaction::new_utxo(&wa, &a, &b, 4, &index, &chain).unwrap();
    let mut other = BlockChain::new(BITS);
    for blk in chain.get_blocks() {
        other.add_block(blk).unwrap();
    }
    let competing = other.mine_block(&[tx.duplicate()]).unwrap();
    let mut miner = Miner::new(chain);
    assert!(miner.add_pending_tx(tx));
    miner.start_round();
    assert_eq!(miner.add_block(competing), Ok(()));
    assert!(matches!(miner.mine(1000), MineStatus::Idle));
    assert!(miner.get_sorted_txs().is_empty());
    assert_eq!(miner.get_chain().get_height(), 2);
}

#[test]
fn sync_messages_between_nodes() {
    let (_, a) = new_wallet();
    let mut tall = BlockChain::new(BITS);
    tall.create_genesis_block(&a).unwrap();
    tall.mine_block(&[]).unwrap();
    let mut short = BlockChain::new(BITS);
    let ask = Messages::BroadcastSync { best_height: short.get_height(), from_addr: "short".to_string() };
    let answer = handle_message(&mut tall, "tall", ask).expect("an answer");
    match &answer {
        Messages::BroadcastChain { blocks, height, to_addr } => {
            assert_eq!(blocks.len(), 2);
            assert_eq!(*height, 2);
            assert_eq!(to_addr, "short");
        }
        _ => panic!("expected a chain"),
    }
    let ask = Messages::BroadcastSync { best_height: 2, from_addr: "other".to_string() };
    assert!(handle_message(&mut tall, "tall", ask).is_none());
    assert!(handle_message(&mut short, "someone else", answer_copy(&answer)).is_none());
    assert_eq!(short.get_height(), 0);
    assert!(handle_message(&mut short, "short", answer).is_none());
    assert_eq!(short.get_height(), 2);
    assert_eq!(short.get_latest_block_hash(), tall.get_latest_block_hash());
    let next = tall.mine_block(&[]).unwrap();
    assert!(handle_message(&mut short, "short", Messages::BroadcastBlock { block: next }).is_none());
    assert_eq!(short.get_height(), 3);
}

fn answer_copy(m: &Messages) -> Messages {
    match m {
        Messages::BroadcastChain { blocks, height, to_addr } => Messages::BroadcastChain {
            blocks: blocks.iter().map(|b| b.duplicate()).collect(),
            height: *height,
            to_addr: to_addr.clone(),
        },
        _ => panic!("expected a chain"),
    }
}
