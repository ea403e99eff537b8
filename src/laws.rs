//! Properties that relate several operations of the ledger.

use vstd::prelude::*;
use crate::block::{header_digest, BlockView};
use crate::chain::{
    add_outcome, after_add, after_add_all, all_txs, chain_valid, has_hash, input_key, input_keys,
    lemma_all_txs_push, lemma_spend_keys_split, spend_keys, tip, txs_acceptable,
};
use crate::error::BlockChainError;
use crate::pow::{be_value, pow2};
use crate::transaction::{has_sentinel_shape, TxOutView, TxView};
use crate::utxo::{
    add_outputs, lemma_represents_unique, represents, select, spends, utxo_fold, utxo_map, OutKey,
    UtxoView,
};

verus! {

/// Every block of a valid chain carries the digest of its header as its hash,
/// and that digest, read as a big-endian integer, lies below `2^(256 - nbits)`
/// for the block's own difficulty.
pub proof fn lemma_chain_meets_targets(blocks: Seq<BlockView>)
    requires
        chain_valid(blocks),
    ensures
        forall|i: int|
            0 <= i < blocks.len() ==> {
                &&& (#[trigger] blocks[i]).hash == header_digest(blocks[i].header)
                &&& blocks[i].header.nbits <= 256
                &&& be_value(header_digest(blocks[i].header)) < pow2((256 - blocks[i].header.nbits) as nat)
            },
{
    assert forall|i: int| 0 <= i < blocks.len() implies {
        &&& (#[trigger] blocks[i]).hash == header_digest(blocks[i].header)
        &&& blocks[i].header.nbits <= 256
        &&& be_value(header_digest(blocks[i].header)) < pow2((256 - blocks[i].header.nbits) as nat)
    } by {
        assert(crate::block::sealed(blocks[i]));
    }
}

/// Adding the same block twice leaves the chain, and so its height and tip,
/// as the first addition left it; the second addition reports success exactly
/// when the first did.
pub proof fn lemma_add_block_idempotent(blocks: Seq<BlockView>, b: BlockView)
    ensures
        after_add(after_add(blocks, b), b) == after_add(blocks, b),
        after_add(after_add(blocks, b), b).len() == after_add(blocks, b).len(),
        tip(after_add(after_add(blocks, b), b)) == tip(after_add(blocks, b)),
        add_outcome(after_add(blocks, b), b) is Ok <==> add_outcome(blocks, b) is Ok,
{
    if add_outcome(blocks, b) == Ok::<bool, BlockChainError>(true) {
        let s = blocks.push(b);
        assert(s[s.len() - 1].hash == b.hash);
        assert(has_hash(s, b.hash));
    }
}

/// The index that a reindex stores and the outputs that a fresh search gives
/// over the same history are the same sequence.
pub proof fn lemma_reindex_matches_search(
    history: Seq<TxView>,
    stored: Seq<UtxoView>,
    searched: Seq<UtxoView>,
)
    requires
        represents(stored, utxo_map(history)),
        represents(searched, utxo_map(history)),
    ensures
        stored == searched,
        stored.to_set() == searched.to_set(),
{
    lemma_represents_unique(stored, searched, utxo_map(history));
}

proof fn lemma_add_outputs_unspent(
    m: Map<OutKey, TxOutView>,
    t: TxView,
    all: Seq<TxView>,
    n: nat,
    key: OutKey,
)
    requires
        add_outputs(m, t, all, n).contains_key(key),
    ensures
        m.contains_key(key) || !spends(all, key.0, key.1),
    decreases n,
{
    if n > 0 {
        let m1 = add_outputs(m, t, all, (n - 1) as nat);
        if m1.contains_key(key) {
            lemma_add_outputs_unspent(m, t, all, (n - 1) as nat, key);
        }
    }
}

proof fn lemma_fold_unspent(p: Seq<TxView>, all: Seq<TxView>, key: OutKey)
    requires
        utxo_fold(p, all).contains_key(key),
    ensures
        !spends(all, key.0, key.1),
    decreases p.len(),
{
    if p.len() > 0 {
        let m = utxo_fold(p.drop_last(), all);
        lemma_add_outputs_unspent(m, p.last(), all, p.last().vout.len(), key);
        if m.contains_key(key) {
            lemma_fold_unspent(p.drop_last(), all, key);
        }
    }
}

/// An output that some input of the history spends is not in its index.
pub proof fn lemma_spent_not_indexed(history: Seq<TxView>, key: OutKey)
    requires
        spends(history, key.0, key.1),
    ensures
        !utxo_map(history).contains_key(key),
{
    if utxo_map(history).contains_key(key) {
        lemma_fold_unspent(history, history, key);
    }
}

/// Every input of a committed block spends its output in the new history.
pub proof fn lemma_committed_input_spends(blocks: Seq<BlockView>, b: BlockView, k: int, i: int)
    requires
        0 <= k < b.txs.len(),
        0 <= i < b.txs[k].vin.len(),
    ensures
        spends(all_txs(blocks.push(b)), b.txs[k].vin[i].tx_hash, b.txs[k].vin[i].vout),
{
    lemma_all_txs_push(blocks, b);
    let s = all_txs(blocks.push(b));
    let at = all_txs(blocks).len() + k;
    assert(s[at] == b.txs[k]);
    assert(s[at].vin[i].tx_hash == b.txs[k].vin[i].tx_hash);
}

/// Transactions that spend again an output that the history already spends
/// are never acceptable.
pub proof fn lemma_respend_rejected(history: Seq<TxView>, txs: Seq<TxView>, k: int, i: int)
    requires
        0 <= k < txs.len(),
        0 <= i < txs[k].vin.len(),
        !has_sentinel_shape(txs[k]),
        spends(history, txs[k].vin[i].tx_hash, txs[k].vin[i].vout),
    ensures
        !txs_acceptable(history, txs),
{
    let key = input_key(txs[k].vin[i]);
    lemma_spent_not_indexed(history, key);
    lemma_spend_keys_split(txs, k);
    let at = spend_keys(txs.take(k)).len() + i;
    assert(input_keys(txs[k])[i] == key);
    assert(spend_keys(txs)[at] == key);
}

/// Double spending: once a block whose transaction spends an output is
/// committed, any transactions that spend that output again are rejected.
pub proof fn lemma_double_spend_rejected(
    blocks: Seq<BlockView>,
    b: BlockView,
    k1: int,
    i1: int,
    txs: Seq<TxView>,
    k2: int,
    i2: int,
)
    requires
        0 <= k1 < b.txs.len(),
        0 <= i1 < b.txs[k1].vin.len(),
        0 <= k2 < txs.len(),
        0 <= i2 < txs[k2].vin.len(),
        !has_sentinel_shape(txs[k2]),
        input_key(txs[k2].vin[i2]) == input_key(b.txs[k1].vin[i1]),
    ensures
        !txs_acceptable(all_txs(blocks.push(b)), txs),
        !utxo_map(all_txs(blocks.push(b))).contains_key(input_key(b.txs[k1].vin[i1])),
{
    lemma_committed_input_spends(blocks, b, k1, i1);
    lemma_respend_rejected(all_txs(blocks.push(b)), txs, k2, i2);
    lemma_spent_not_indexed(all_txs(blocks.push(b)), input_key(b.txs[k1].vin[i1]));
}

/// A node whose chain is a prefix of a peer's valid chain reaches the peer's
/// chain by adding the peer's further blocks in order, each addition
/// appending its block.
pub proof fn lemma_sync_catches_up(local: Seq<BlockView>, peer: Seq<BlockView>)
    requires
        chain_valid(peer),
        local.len() <= peer.len(),
        local == peer.take(local.len() as int),
    ensures
        forall|i: int| local.len() <= i < peer.len() ==> add_outcome(#[trigger] peer.take(i), peer[i])
            == Ok::<bool, BlockChainError>(true),
        after_add_all(local, peer.skip(local.len() as int)) == peer,
{
    let a = local.len() as int;
    assert forall|i: int| a <= i < peer.len() implies add_outcome(#[trigger] peer.take(i), peer[i])
        == Ok::<bool, BlockChainError>(true) by {
        lemma_extends(peer, i);
    }
    let rest = peer.skip(a);
    lemma_catch_up_steps(local, peer, rest.len() as int);
    assert(rest.take(rest.len() as int) =~= rest);
    assert(peer.take(peer.len() as int) =~= peer);
}

proof fn lemma_catch_up_steps(local: Seq<BlockView>, peer: Seq<BlockView>, j: int)
    requires
        chain_valid(peer),
        local.len() <= peer.len(),
        local == peer.take(local.len() as int),
        0 <= j <= peer.len() - local.len(),
    ensures
        after_add_all(local, peer.skip(local.len() as int).take(j)) == peer.take(local.len() + j),
    decreases j,
{
    let a = local.len() as int;
    let rest = peer.skip(a);
    if j == 0 {
        assert(rest.take(0) =~= Seq::<BlockView>::empty());
    } else {
        lemma_catch_up_steps(local, peer, j - 1);
        assert(rest.take(j).drop_last() =~= rest.take(j - 1));
        assert(rest.take(j).last() == peer[a + j - 1]);
        lemma_extends(peer, a + j - 1);
    }
}

proof fn lemma_extends(peer: Seq<BlockView>, i: int)
    requires
        chain_valid(peer),
        0 <= i < peer.len(),
    ensures
        add_outcome(peer.take(i), peer[i]) == Ok::<bool, BlockChainError>(true),
        after_add(peer.take(i), peer[i]) == peer.take(i + 1),
{
    let p = peer.take(i);
    if has_hash(p, peer[i].hash) {
        let j = choose|j: int| 0 <= j < p.len() && #[trigger] p[j].hash == peer[i].hash;
        assert(peer[j].hash != peer[i].hash);
    }
    assert(crate::block::sealed(peer[i]));
    if i > 0 {
        assert(tip(p) == peer[i - 1].hash);
    }
    assert(p.push(peer[i]) =~= peer.take(i + 1));
}

proof fn lemma_selected_from_index(v: Seq<UtxoView>, key: Seq<u8>, amount: u64, o: OutKey)
    requires
        select(v, key, amount).1.contains(o),
    ensures
        exists|i: int| 0 <= i < v.len() && v[i].key == o,
    decreases v.len(),
{
    if v.len() > 0 {
        let d = v.drop_last();
        let sel = select(d, key, amount).1;
        if sel.contains(o) {
            lemma_selected_from_index(d, key, amount, o);
            let i = choose|i: int| 0 <= i < d.len() && d[i].key == o;
            assert(v[i].key == o);
        } else {
            assert(v[v.len() - 1].key == o);
        }
    }
}

/// Once the history spends an output, an index of that history never selects
/// it again to pay from.
pub proof fn lemma_spent_not_selected(
    history: Seq<TxView>,
    index: Seq<UtxoView>,
    key: Seq<u8>,
    amount: u64,
    o: OutKey,
)
    requires
        represents(index, utxo_map(history)),
        spends(history, o.0, o.1),
    ensures
        !select(index, key, amount).1.contains(o),
{
    lemma_spent_not_indexed(history, o);
    if select(index, key, amount).1.contains(o) {
        lemma_selected_from_index(index, key, amount, o);
        let i = choose|i: int| 0 <= i < index.len() && index[i].key == o;
        assert(utxo_map(history).contains_key(index[i].key));
    }
}

} // verus!
