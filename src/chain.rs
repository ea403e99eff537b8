//! The ledger: committed blocks in height order, the transactions they hold,
//! and the unspent-output index rebuilt from them after every commit.

use vstd::prelude::*;
use crate::block::{
    blocks_view, genesis_prev_hash, header_digest, root_of, sealed, with_nonce, Block, BlockView,
    HeaderView,
};
use crate::pow::meets_target;
use crate::codec::{bytes_eq, hex_of, to_hex};
use crate::error::BlockChainError;
use crate::transaction::{
    address_key, coinbase_view, find_tx, has_sentinel_shape, txs_view, verify_spec, Transaction, TxInView, TxOutView,
    TxView,
};
use crate::utxo::{
    contains_point, points_view, represents, utxo_map, utxos_view, OutKey, OutPoint, UTXOSet, Utxo,
    UtxoView,
};

verus! {

/// Every transaction of the blocks, in block order and then in order within a block.
pub open spec fn all_txs(blocks: Seq<BlockView>) -> Seq<TxView>
    decreases blocks.len(),
{
    if blocks.len() == 0 {
        seq![]
    } else {
        all_txs(blocks.drop_last()) + blocks.last().txs
    }
}

/// The hash that the next block must name as its predecessor.
pub open spec fn tip(blocks: Seq<BlockView>) -> Seq<u8> {
    if blocks.len() == 0 {
        genesis_prev_hash()
    } else {
        blocks.last().hash
    }
}

pub open spec fn has_hash(blocks: Seq<BlockView>, h: Seq<u8>) -> bool {
    exists|i: int| 0 <= i < blocks.len() && #[trigger] blocks[i].hash == h
}

/// A chain: each block sealed, at its height, naming the block before it (the
/// first names the genesis reference), and no hash twice.
pub open spec fn chain_valid(blocks: Seq<BlockView>) -> bool {
    &&& forall|i: int| 0 <= i < blocks.len() ==> sealed(#[trigger] blocks[i]) && blocks[i].height == i + 1
    &&& forall|i: int|
        0 <= i < blocks.len() ==> (#[trigger] blocks[i]).header.prev_hash == if i == 0 {
            genesis_prev_hash()
        } else {
            blocks[i - 1].hash
        }
    &&& forall|i: int, j: int| 0 <= i < j < blocks.len() ==> #[trigger] blocks[i].hash != #[trigger] blocks[j].hash
}

/// What adding a block supplied by a peer gives: `Ok(false)` when a block
/// with its hash is already there; otherwise the first failed check, or
/// `Ok(true)` when it extends the chain.
pub open spec fn add_outcome(blocks: Seq<BlockView>, b: BlockView) -> Result<bool, BlockChainError> {
    if has_hash(blocks, b.hash) {
        Ok(false)
    } else if !sealed(b) {
        Err(BlockChainError::InvalidProofOfWork)
    } else if b.header.prev_hash != tip(blocks) {
        Err(BlockChainError::WrongPredecessor)
    } else if b.height != blocks.len() + 1 {
        Err(BlockChainError::WrongHeight)
    } else {
        Ok(true)
    }
}

/// The chain after adding a block.
pub open spec fn after_add(blocks: Seq<BlockView>, b: BlockView) -> Seq<BlockView> {
    if add_outcome(blocks, b) == Ok::<bool, BlockChainError>(true) {
        blocks.push(b)
    } else {
        blocks
    }
}

/// The chain after adding blocks one after another.
pub open spec fn after_add_all(blocks: Seq<BlockView>, bs: Seq<BlockView>) -> Seq<BlockView>
    decreases bs.len(),
{
    if bs.len() == 0 {
        blocks
    } else {
        after_add(after_add_all(blocks, bs.drop_last()), bs.last())
    }
}

/// A header over the tip at difficulty `nbits` with the root of `txs` that
/// yields no new block: no nonce meets its target, or its digest already names
/// a committed block.
pub open spec fn unproductive(blocks: Seq<BlockView>, nbits: u32, txs: Seq<TxView>, h: HeaderView) -> bool {
    &&& h.prev_hash == tip(blocks)
    &&& h.nbits == nbits
    &&& h.root_hash == root_of(txs)
    &&& ((nbits != 0 && forall|m: u32| !meets_target(#[trigger] header_digest(with_nonce(h, m)), nbits))
        || has_hash(blocks, header_digest(h)))
}

pub open spec fn input_key(i: TxInView) -> OutKey {
    (i.tx_hash, i.vout)
}

pub open spec fn input_keys(t: TxView) -> Seq<OutKey> {
    t.vin.map_values(|i: TxInView| input_key(i))
}

/// The outputs that the transactions spend, in order; a coinbase by shape
/// spends none.
pub open spec fn spend_keys(txs: Seq<TxView>) -> Seq<OutKey>
    decreases txs.len(),
{
    if txs.len() == 0 {
        seq![]
    } else {
        spend_keys(txs.drop_last()) + if has_sentinel_shape(txs.last()) {
            Seq::<OutKey>::empty()
        } else {
            input_keys(txs.last())
        }
    }
}

/// Each output spent is unspent in `m`, and none is spent twice.
pub open spec fn spends_unspent(m: Map<OutKey, TxOutView>, txs: Seq<TxView>) -> bool {
    &&& spend_keys(txs).no_duplicates()
    &&& forall|i: int| 0 <= i < spend_keys(txs).len() ==> m.contains_key(#[trigger] spend_keys(txs)[i])
}

/// Transactions that may go into the next block: each verifies, and together
/// they spend only unspent outputs, each at most once.
pub open spec fn txs_acceptable(history: Seq<TxView>, txs: Seq<TxView>) -> bool {
    &&& forall|k: int| 0 <= k < txs.len() ==> verify_spec(history, #[trigger] txs[k])
    &&& spends_unspent(utxo_map(history), txs)
}

pub proof fn lemma_all_txs_push(blocks: Seq<BlockView>, b: BlockView)
    ensures
        all_txs(blocks.push(b)) == all_txs(blocks) + b.txs,
{
    assert(blocks.push(b).drop_last() =~= blocks);
}

pub proof fn lemma_spend_keys_concat(a: Seq<TxView>, b: Seq<TxView>)
    ensures
        spend_keys(a + b) == spend_keys(a) + spend_keys(b),
    decreases b.len(),
{
    if b.len() == 0 {
        assert(a + b =~= a);
        assert(spend_keys(a) + spend_keys(b) =~= spend_keys(a));
    } else {
        lemma_spend_keys_concat(a, b.drop_last());
        assert((a + b).drop_last() =~= a + b.drop_last());
        assert((a + b).last() == b.last());
        let tail = if has_sentinel_shape(b.last()) {
            Seq::<OutKey>::empty()
        } else {
            input_keys(b.last())
        };
        assert(spend_keys(a) + spend_keys(b.drop_last()) + tail =~= spend_keys(a) + (spend_keys(
            b.drop_last(),
        ) + tail));
    }
}

pub struct BlockChain {
    blocks: Vec<Block>,
    txs: Vec<Transaction>,
    utxo: UTXOSet,
    bits: u32,
}

impl View for BlockChain {
    type V = Seq<BlockView>;

    closed spec fn view(&self) -> Seq<BlockView> {
        blocks_view(self.blocks@)
    }
}

impl BlockChain {
    /// Every committed transaction in chain order.
    pub open spec fn history(&self) -> Seq<TxView> {
        all_txs(self@)
    }

    /// The difficulty that mining uses.
    pub closed spec fn difficulty(&self) -> u32 {
        self.bits
    }

    /// The unspent-output index.
    pub closed spec fn index(&self) -> Seq<UtxoView> {
        self.utxo@
    }

    /// The transaction list kept beside the blocks holds their transactions.
    pub closed spec fn caches_agree(&self) -> bool {
        txs_view(self.txs@) == all_txs(self@)
    }

    /// The chain is valid, the index holds its unspent outputs, and the
    /// difficulty has a target.
    #[verifier::opaque]
    pub closed spec fn wf(&self) -> bool {
        &&& chain_valid(self@)
        &&& represents(self.index(), utxo_map(self.history()))
        &&& self.difficulty() <= 256
        &&& self.caches_agree()
    }

    proof fn lemma_difficulty(&self)
        requires
            self.wf(),
        ensures
            self.difficulty() <= 256,
    {
        reveal(BlockChain::wf);
    }

    pub proof fn lemma_wf(&self)
        requires
            self.wf(),
        ensures
            chain_valid(self@),
            represents(self.index(), utxo_map(self.history())),
            self.difficulty() <= 256,
    {
        reveal(BlockChain::wf);
    }

    /// An empty chain (no genesis block yet) that mines at difficulty `bits`.
    pub fn new(bits: u32) -> (r: Self)
        requires
            bits <= 256,
        ensures
            r.wf(),
            r@.len() == 0,
            r.difficulty() == bits,
    {
        let r = BlockChain { blocks: Vec::new(), txs: Vec::new(), utxo: UTXOSet::new(), bits };
        assert(r@ =~= Seq::<BlockView>::empty());
        assert(txs_view(r.txs@) =~= all_txs(r@));
        assert(utxo_map(r.history()) == Map::<OutKey, TxOutView>::empty());
        reveal(BlockChain::wf);
        r
    }

    pub fn get_difficulty(&self) -> (r: u32)
        ensures
            r == self.difficulty(),
    {
        self.bits
    }

    /// The number of committed blocks.
    pub fn get_height(&self) -> (r: u64)
        ensures
            r == self@.len(),
    {
        self.blocks.len() as u64
    }

    /// The hash of the last committed block.
    pub fn get_latest_block_hash(&self) -> (r: Option<Vec<u8>>)
        ensures
            match r {
                Some(h) => self@.len() > 0 && h@ == self@.last().hash,
                None => self@.len() == 0,
            },
    {
        let n = self.blocks.len();
        if n == 0 {
            None
        } else {
            Some(self.blocks[n - 1].get_hash())
        }
    }

    /// All committed blocks in height order.
    pub fn get_blocks(&self) -> (r: Vec<Block>)
        ensures
            blocks_view(r@) == self@,
    {
        let mut r: Vec<Block> = Vec::new();
        let mut i: usize = 0;
        while i < self.blocks.len()
            invariant
                i <= self.blocks@.len(),
                r@.len() == i,
                forall|j: int| 0 <= j < i ==> #[trigger] r@[j]@ == self.blocks@[j]@,
            decreases self.blocks@.len() - i,
        {
            r.push(self.blocks[i].duplicate());
            i = i + 1;
        }
        assert(blocks_view(r@) =~= self@);
        r
    }

    /// The committed blocks above `height`, in height order.
    pub fn get_blocks_after(&self, height: u64) -> (r: Vec<Block>)
        ensures
            blocks_view(r@) == if height < self@.len() {
                self@.skip(height as int)
            } else {
                Seq::<BlockView>::empty()
            },
    {
        let mut r: Vec<Block> = Vec::new();
        if height >= self.blocks.len() as u64 {
            assert(blocks_view(r@) =~= Seq::<BlockView>::empty());
            return r;
        }
        let start = height as usize;
        let mut i: usize = start;
        while i < self.blocks.len()
            invariant
                start <= i <= self.blocks@.len(),
                start == height,
                r@.len() == i - start,
                forall|j: int| 0 <= j < i - start ==> #[trigger] r@[j]@ == self.blocks@[j + start]@,
            decreases self.blocks@.len() - i,
        {
            r.push(self.blocks[i].duplicate());
            i = i + 1;
        }
        assert(blocks_view(r@) =~= self@.skip(height as int));
        r
    }

    /// The block at a height (the genesis block has height 1).
    pub fn get_block(&self, number: u64) -> (r: Option<Block>)
        ensures
            match r {
                Some(b) => 1 <= number <= self@.len() && b@ == self@[number - 1],
                None => !(1 <= number <= self@.len()),
            },
    {
        if number == 0 || number > self.blocks.len() as u64 {
            None
        } else {
            Some(self.blocks[(number - 1) as usize].duplicate())
        }
    }

    /// The block with a given identifying hash.
    pub fn get_block_by_hash(&self, hash: &[u8]) -> (r: Option<Block>)
        ensures
            match r {
                Some(b) => exists|i: int| 0 <= i < self@.len() && self@[i] == b@ && b@.hash == hash@,
                None => !has_hash(self@, hash@),
            },
    {
        let mut i: usize = 0;
        while i < self.blocks.len()
            invariant
                i <= self.blocks@.len(),
                forall|j: int| 0 <= j < i ==> self@[j].hash != hash@,
            decreases self.blocks@.len() - i,
        {
            if bytes_eq(self.blocks[i].hash.as_slice(), hash) {
                assert(self@[i as int] == self.blocks@[i as int]@);
                return Some(self.blocks[i].duplicate());
            }
            i = i + 1;
        }
        None
    }

    /// The hash of each block as hexadecimal text, in height order.
    pub fn blocks_info(&self) -> (r: Vec<String>)
        ensures
            r@.len() == self@.len(),
            forall|i: int| 0 <= i < r@.len() ==> #[trigger] r@[i]@ == hex_of(self@[i].hash),
    {
        let mut r: Vec<String> = Vec::new();
        let mut i: usize = 0;
        while i < self.blocks.len()
            invariant
                i <= self.blocks@.len(),
                r@.len() == i,
                forall|j: int| 0 <= j < i ==> #[trigger] r@[j]@ == hex_of(self@[j].hash),
            decreases self.blocks@.len() - i,
        {
            r.push(to_hex(self.blocks[i].hash.as_slice()));
            i = i + 1;
        }
        r
    }

    /// The first committed transaction with a given hash.
    pub fn find_transaction_ref(&self, tx_hash: &[u8]) -> (r: Option<&Transaction>)
        requires
            self.wf(),
        ensures
            match r {
                Some(t) => find_tx(self.history(), tx_hash@) == Some(t@),
                None => find_tx(self.history(), tx_hash@).is_none(),
            },
    {
        reveal(BlockChain::wf);
        crate::transaction::find_first_tx(self.txs.as_slice(), tx_hash)
    }

    /// A copy of the first committed transaction with a given hash.
    pub fn find_transaction(&self, tx_hash: &[u8]) -> (r: Option<Transaction>)
        requires
            self.wf(),
        ensures
            match r {
                Some(t) => find_tx(self.history(), tx_hash@) == Some(t@),
                None => find_tx(self.history(), tx_hash@).is_none(),
            },
    {
        match self.find_transaction_ref(tx_hash) {
            Some(t) => Some(t.duplicate()),
            None => None,
        }
    }

    /// The unspent outputs of the committed history, computed afresh.
    pub fn search_utxo(&self) -> (r: Vec<Utxo>)
        requires
            self.wf(),
        ensures
            represents(utxos_view(r@), utxo_map(self.history())),
    {
        reveal(BlockChain::wf);
        crate::utxo::collect_unspent(self.txs.as_slice())
    }

    /// The index kept with the chain.
    pub fn get_utxo(&self) -> (r: &UTXOSet)
        ensures
            r@ == self.index(),
    {
        &self.utxo
    }

    /// The total unspent value locked to a key hash.
    pub fn get_balance(&self, public_key_hash: &[u8]) -> (r: u128)
        ensures
            r == crate::utxo::balance(self.index(), public_key_hash@),
    {
        self.utxo.get_balance(public_key_hash)
    }

    /// Appends a block that extends the chain and rebuilds the index.
    fn commit(&mut self, block: Block)
        requires
            old(self).wf(),
            sealed(block@),
            block@.header.prev_hash == tip(old(self)@),
            block@.height == old(self)@.len() + 1,
            !has_hash(old(self)@, block@.hash),
        ensures
            final(self).wf(),
            final(self)@ == old(self)@.push(block@),
            final(self).difficulty() == old(self).difficulty(),
    {
        reveal(BlockChain::wf);
        let ghost old_blocks = self@;
        crate::transaction::append_transactions(&mut self.txs, block.tx_sets.as_slice());
        self.blocks.push(block);
        proof {
            assert(self@ =~= old_blocks.push(self.blocks@.last()@));
            lemma_all_txs_push(old_blocks, self.blocks@.last()@);
            let nb = self@;
            assert forall|i: int, j: int| 0 <= i < j < nb.len() implies #[trigger] nb[i].hash != #[trigger] nb[j].hash by {
                if j == nb.len() - 1 {
                    assert(old_blocks[i].hash == nb[i].hash);
                }
            }
        }
        self.utxo.rebuild(self.txs.as_slice());
    }

    /// Whether a committed block has the given hash.
    pub fn has_block(&self, hash: &[u8]) -> (r: bool)
        ensures
            r == has_hash(self@, hash@),
    {
        let mut i: usize = 0;
        while i < self.blocks.len()
            invariant
                i <= self.blocks@.len(),
                forall|j: int| 0 <= j < i ==> self@[j].hash != hash@,
            decreases self.blocks@.len() - i,
        {
            if bytes_eq(self.blocks[i].hash.as_slice(), hash) {
                assert(self@[i as int].hash == hash@);
                return true;
            }
            i = i + 1;
        }
        false
    }

    /// Whether a block may follow the current tip: sealed, naming the tip, at
    /// the next height.
    fn extends_tip(&self, block: &Block) -> (r: Result<(), BlockChainError>)
        ensures
            match r {
                Ok(_) => sealed(block@) && block@.header.prev_hash == tip(self@) && block@.height == self@.len() + 1,
                Err(e) => {
                    &&& !sealed(block@) ==> e == BlockChainError::InvalidProofOfWork
                    &&& sealed(block@) && block@.header.prev_hash != tip(self@) ==> e == BlockChainError::WrongPredecessor
                    &&& sealed(block@) && block@.header.prev_hash == tip(self@) ==> e == BlockChainError::WrongHeight && block@.height != self@.len() + 1
                },
            },
    {
        if !block.is_sealed() {
            return Err(BlockChainError::InvalidProofOfWork);
        }
        let n = self.blocks.len();
        assert(self@.len() == n);
        if n > 0 {
            assert(tip(self@) == self.blocks@[n - 1]@.hash);
        }
        let same_tip = if n == 0 {
            assert(block.header.prev_hash.len() == 0 ==> block@.header.prev_hash =~= genesis_prev_hash());
            block.header.prev_hash.len() == 0
        } else {
            bytes_eq(block.header.prev_hash.as_slice(), self.blocks[n - 1].hash.as_slice())
        };
        if !same_tip {
            return Err(BlockChainError::WrongPredecessor);
        }
        if block.height as u128 != n as u128 + 1 {
            return Err(BlockChainError::WrongHeight);
        }
        Ok(())
    }

    /// Adds a block supplied by a peer. A block whose hash is already committed
    /// changes nothing. Otherwise it must be sealed, name the tip and stand at
    /// the next height; a block that fails leaves the chain as it was.
    ///
    /// On an empty chain the tip is the genesis reference, so a peer's (or a
    /// stored) genesis block is accepted at height 1: this is how a new node
    /// adopts an existing chain and how stored blocks are replayed. Every other
    /// operation that extends the chain needs a genesis block first.
    pub fn add_block(&mut self, block: Block) -> (r: Result<(), BlockChainError>)
        requires
            old(self).wf(),
        ensures
            final(self).wf(),
            final(self).difficulty() == old(self).difficulty(),
            final(self)@ == after_add(old(self)@, block@),
            match add_outcome(old(self)@, block@) {
                Ok(_) => r is Ok,
                Err(e) => r == Err::<(), BlockChainError>(e),
            },
    {
        if self.has_block(block.hash.as_slice()) {
            return Ok(());
        }
        match self.extends_tip(&block) {
            Ok(_) => {},
            Err(e) => return Err(e),
        }
        self.commit(block);
        Ok(())
    }

    /// Adds blocks one after another, as a peer supplied them; each that fails
    /// is passed over. Gives the number of blocks appended.
    pub fn sync_blocks(&mut self, blocks: &[Block]) -> (r: usize)
        requires
            old(self).wf(),
        ensures
            final(self).wf(),
            final(self).difficulty() == old(self).difficulty(),
            final(self)@ == after_add_all(old(self)@, blocks_view(blocks@)),
            final(self)@.len() == old(self)@.len() + r,
    {
        let ghost bv = blocks_view(blocks@);
        let mut added: usize = 0;
        let mut i: usize = 0;
        assert(bv.take(0) =~= Seq::<BlockView>::empty());
        while i < blocks.len()
            invariant
                i <= blocks@.len(),
                bv == blocks_view(blocks@),
                self.wf(),
                self.difficulty() == old(self).difficulty(),
                self@ == after_add_all(old(self)@, bv.take(i as int)),
                self@.len() == old(self)@.len() + added,
                added <= i,
            decreases blocks@.len() - i,
        {
            let n0 = self.blocks.len();
            proof {
                assert(bv.take(i as int + 1).drop_last() =~= bv.take(i as int));
            }
            let b = blocks[i].duplicate();
            let _ = self.add_block(b);
            if self.blocks.len() > n0 {
                added = added + 1;
            }
            i = i + 1;
        }
        assert(bv.take(blocks@.len() as int) =~= bv);
        added
    }

    /// Whether the transactions spend only unspent outputs, none twice.
    pub fn check_spends(&self, txs: &[Transaction]) -> (r: bool)
        requires
            self.wf(),
        ensures
            r == spends_unspent(utxo_map(self.history()), txs_view(txs@)),
    {
        let ghost m = utxo_map(self.history());
        let ghost tv = txs_view(txs@);
        let mut claimed: Vec<OutPoint> = Vec::new();
        let mut k: usize = 0;
        assert(tv.take(0) =~= Seq::<TxView>::empty());
        while k < txs.len()
            invariant
                self.wf(),
                m == utxo_map(self.history()),
                tv == txs_view(txs@),
                k <= txs@.len(),
                points_view(claimed@) == spend_keys(tv.take(k as int)),
                points_view(claimed@).no_duplicates(),
                forall|j: int| 0 <= j < claimed@.len() ==> m.contains_key(#[trigger] points_view(claimed@)[j]),
            decreases txs@.len() - k,
        {
            let t = &txs[k];
            proof {
                assert(tv.take(k as int + 1).drop_last() =~= tv.take(k as int));
                assert(tv[k as int] == t@);
                lemma_spend_keys_split(tv, k as int);
                self.lemma_wf();
            }
            if !t.has_sentinel_input() {
                let ghost base = points_view(claimed@);
                let mut i: usize = 0;
                while i < t.vin.len()
                    invariant
                        self.wf(),
                        m == utxo_map(self.history()),
                        represents(self.index(), m),
                        tv == txs_view(txs@),
                        k < txs@.len(),
                        *t == txs@[k as int],
                        !has_sentinel_shape(t@),
                        base == spend_keys(tv.take(k as int)),
                        spend_keys(tv) == base + input_keys(t@) + spend_keys(tv.skip(k as int + 1)),
                        i <= t.vin@.len(),
                        points_view(claimed@) == base + input_keys(t@).take(i as int),
                        points_view(claimed@).no_duplicates(),
                        forall|j: int| 0 <= j < claimed@.len() ==> m.contains_key(#[trigger] points_view(claimed@)[j]),
                    decreases t.vin@.len() - i,
                {
                    let input = &t.vin[i];
                    let ghost x = input_key(t@.vin[i as int]);
                    let ghost ks = spend_keys(tv);
                    let ghost at = base.len() + i;
                    proof {
                        assert(t@.vin[i as int] == input@);
                        assert(ks[at] == x);
                        assert forall|j: int| 0 <= j < at implies ks[j] == #[trigger] points_view(claimed@)[j] by {}
                    }
                    if !self.utxo.contains(input.tx_hash.as_slice(), input.tx_out_index) {
                        proof {
                            if m.contains_key(x) {
                                let w = choose|w: int| 0 <= w < self.index().len() && self.index()[w].key == x;
                            }
                        }
                        return false;
                    }
                    if contains_point(claimed.as_slice(), input.tx_hash.as_slice(), input.tx_out_index) {
                        proof {
                            let j0 = choose|j0: int| 0 <= j0 < points_view(claimed@).len() && points_view(claimed@)[j0] == x;
                            assert(ks[j0] == ks[at]);
                        }
                        return false;
                    }
                    proof {
                        let w = choose|w: int| 0 <= w < self.index().len() && self.index()[w].key == x;
                        assert(m.contains_key(self.index()[w].key));
                    }
                    let ghost prev = points_view(claimed@);
                    claimed.push(OutPoint { tx_hash: crate::codec::copy_bytes(input.tx_hash.as_slice()), index: input.tx_out_index });
                    proof {
                        assert(points_view(claimed@) =~= prev.push(x));
                        assert(input_keys(t@).take(i as int + 1) =~= input_keys(t@).take(i as int).push(x));
                        assert(prev.push(x).no_duplicates());
                    }
                    i = i + 1;
                }
                proof {
                    assert(input_keys(t@).take(t.vin@.len() as int) =~= input_keys(t@));
                }
            } else {
                proof {
                    assert(spend_keys(tv.take(k as int)) + Seq::<OutKey>::empty() =~= spend_keys(tv.take(k as int)));
                }
            }
            k = k + 1;
        }
        assert(tv.take(txs@.len() as int) =~= tv);
        true
    }

    /// Whether transactions may go into the next block: each verifies and
    /// together they spend only unspent outputs, none twice.
    pub fn txs_valid(&self, txs: &[Transaction]) -> (r: bool)
        requires
            self.wf(),
        ensures
            r == txs_acceptable(self.history(), txs_view(txs@)),
    {
        let mut k: usize = 0;
        while k < txs.len()
            invariant
                self.wf(),
                k <= txs@.len(),
                forall|j: int| 0 <= j < k ==> verify_spec(self.history(), #[trigger] txs_view(txs@)[j]),
            decreases txs@.len() - k,
        {
            if !txs[k].verify(self) {
                assert(!verify_spec(self.history(), txs_view(txs@)[k as int]));
                return false;
            }
            k = k + 1;
        }
        self.check_spends(txs)
    }

    /// Mines a block of `txs` on the tip at the chain's difficulty and commits
    /// it. Fails on an empty chain, when the transactions may not go into a
    /// block, or when the search produced no new block; a failure leaves the
    /// chain as it was.
    pub fn mine_block(&mut self, txs: &[Transaction]) -> (r: Result<Block, BlockChainError>)
        requires
            old(self).wf(),
        ensures
            final(self).wf(),
            final(self).difficulty() == old(self).difficulty(),
            old(self)@.len() == 0 ==> r == Err::<Block, BlockChainError>(BlockChainError::EmptyChain),
            old(self)@.len() > 0 && !txs_acceptable(old(self).history(), txs_view(txs@))
                ==> r == Err::<Block, BlockChainError>(BlockChainError::InvalidTransaction),
            r == Err::<Block, BlockChainError>(BlockChainError::InvalidTransaction) ==> old(self)@.len() > 0
                && !txs_acceptable(old(self).history(), txs_view(txs@)),
            r == Err::<Block, BlockChainError>(BlockChainError::EmptyChain) ==> old(self)@.len() == 0,
            r == Err::<Block, BlockChainError>(BlockChainError::NoBlockProduced) ==> {
                &&& old(self)@.len() > 0
                &&& txs_acceptable(old(self).history(), txs_view(txs@))
                &&& (old(self)@.len() == u64::MAX || exists|h: HeaderView|
                    unproductive(old(self)@, old(self).difficulty(), txs_view(txs@), h))
            },
            match r {
                Ok(b) => {
                    &&& old(self)@.len() > 0
                    &&& txs_acceptable(old(self).history(), txs_view(txs@))
                    &&& b@.txs == txs_view(txs@)
                    &&& b@.header.root_hash == root_of(txs_view(txs@))
                    &&& b@.header.prev_hash == tip(old(self)@)
                    &&& b@.header.nbits == old(self).difficulty()
                    &&& b@.height == old(self)@.len() + 1
                    &&& sealed(b@)
                    &&& final(self)@ == old(self)@.push(b@)
                },
                Err(e) => {
                    &&& final(self)@ == old(self)@
                    &&& (e == BlockChainError::EmptyChain || e == BlockChainError::InvalidTransaction
                        || e == BlockChainError::NoBlockProduced)
                },
            },
    {
        let n = self.blocks.len();
        if n == 0 {
            return Err(BlockChainError::EmptyChain);
        }
        if !self.txs_valid(txs) {
            return Err(BlockChainError::InvalidTransaction);
        }
        if n as u64 == u64::MAX {
            return Err(BlockChainError::NoBlockProduced);
        }
        proof {
            self.lemma_difficulty();
        }
        let prev = self.blocks[n - 1].get_hash();
        assert(self@[n - 1] == self.blocks@[n - 1]@);
        assert(prev@ == tip(self@));
        let block = match Block::new(txs, prev.as_slice(), self.bits, n as u64 + 1) {
            Some(b) => b,
            None => {
                proof {
                    let h = choose|h: HeaderView|
                        {
                            &&& h.prev_hash == prev@
                            &&& h.nbits == self.bits
                            &&& h.root_hash == root_of(txs_view(txs@))
                            &&& forall|m: u32| !meets_target(#[trigger] header_digest(with_nonce(h, m)), self.bits)
                        };
                    assert(h.nbits != 0);
                    assert(self@ == old(self)@);
                    assert(h.prev_hash == tip(old(self)@));
                    assert(h.nbits == old(self).difficulty());
                    assert(forall|m: u32| !meets_target(#[trigger] header_digest(with_nonce(h, m)), h.nbits));
                    assert(unproductive(old(self)@, old(self).difficulty(), txs_view(txs@), h));
                }
                return Err(BlockChainError::NoBlockProduced);
            },
        };
        if self.has_block(block.hash.as_slice()) {
            assert(has_hash(old(self)@, header_digest(block@.header)));
            assert(unproductive(old(self)@, old(self).difficulty(), txs_view(txs@), block@.header));
            return Err(BlockChainError::NoBlockProduced);
        }
        let result = block.duplicate();
        self.commit(block);
        Ok(result)
    }

    /// Mines and commits the genesis block, one coinbase to `genesis_addr`.
    pub fn create_genesis_block(&mut self, genesis_addr: &str) -> (r: Result<Block, BlockChainError>)
        requires
            old(self).wf(),
        ensures
            final(self).wf(),
            final(self).difficulty() == old(self).difficulty(),
            old(self)@.len() > 0 ==> r == Err::<Block, BlockChainError>(BlockChainError::AlreadyInitialized),
            old(self)@.len() == 0 && address_key(genesis_addr@).is_none() ==> r == Err::<Block, BlockChainError>(BlockChainError::InvalidAddress),
            r == Err::<Block, BlockChainError>(BlockChainError::AlreadyInitialized) ==> old(self)@.len() > 0,
            r == Err::<Block, BlockChainError>(BlockChainError::InvalidAddress) ==> address_key(genesis_addr@).is_none(),
            r == Err::<Block, BlockChainError>(BlockChainError::NoBlockProduced) ==> {
                &&& old(self)@.len() == 0
                &&& address_key(genesis_addr@).is_some()
                &&& old(self).difficulty() != 0
                &&& exists|h: HeaderView|
                    {
                        &&& h.prev_hash == genesis_prev_hash()
                        &&& h.nbits == old(self).difficulty()
                        &&& h.root_hash == root_of(seq![coinbase_view(address_key(genesis_addr@)->0)])
                        &&& forall|m: u32| !meets_target(#[trigger] header_digest(with_nonce(h, m)), h.nbits)
                    }
            },
            old(self)@.len() == 0 && old(self).difficulty() == 0 && address_key(genesis_addr@).is_some() ==> r is Ok,
            match r {
                Ok(b) => {
                    &&& old(self)@.len() == 0
                    &&& address_key(genesis_addr@) matches Some(k)
                    &&& b@.txs == seq![coinbase_view(k)]
                    &&& b@.header.prev_hash == genesis_prev_hash()
                    &&& b@.header.nbits == old(self).difficulty()
                    &&& b@.header.root_hash == root_of(b@.txs)
                    &&& b@.height == 1
                    &&& sealed(b@)
                    &&& final(self)@ == seq![b@]
                },
                Err(e) => {
                    &&& final(self)@ == old(self)@
                    &&& (e == BlockChainError::AlreadyInitialized || e == BlockChainError::InvalidAddress
                        || e == BlockChainError::NoBlockProduced)
                },
            },
    {
        if self.blocks.len() != 0 {
            return Err(BlockChainError::AlreadyInitialized);
        }
        proof {
            self.lemma_wf();
        }
        let coinbase = match Transaction::new_coinbase(genesis_addr) {
            Some(t) => t,
            None => return Err(BlockChainError::InvalidAddress),
        };
        let mut txs: Vec<Transaction> = Vec::new();
        txs.push(coinbase);
        let empty: Vec<u8> = Vec::new();
        assert(empty@ =~= genesis_prev_hash());
        assert(txs_view(txs@) =~= seq![coinbase_view(address_key(genesis_addr@)->0)]);
        let block = match Block::new(txs.as_slice(), empty.as_slice(), self.bits, 1) {
            Some(b) => b,
            None => return Err(BlockChainError::NoBlockProduced),
        };
        let result = block.duplicate();
        self.commit(block);
        assert(self@ =~= seq![result@]);
        Ok(result)
    }
}

impl UTXOSet {
    /// Rebuilds the index from the whole committed history of a chain.
    pub fn reindex(&mut self, chain: &BlockChain)
        requires
            chain.wf(),
        ensures
            final(self).wf(),
            represents(final(self)@, utxo_map(chain.history())),
    {
        let found = chain.search_utxo();
        *self = UTXOSet::from_utxos(found, Ghost(utxo_map(chain.history())));
    }
}

pub proof fn lemma_spend_keys_split(tv: Seq<TxView>, k: int)
    requires
        0 <= k < tv.len(),
    ensures
        spend_keys(tv) == spend_keys(tv.take(k)) + (if has_sentinel_shape(tv[k]) {
            Seq::<OutKey>::empty()
        } else {
            input_keys(tv[k])
        }) + spend_keys(tv.skip(k + 1)),
        spend_keys(tv.take(k + 1)) == spend_keys(tv.take(k)) + (if has_sentinel_shape(tv[k]) {
            Seq::<OutKey>::empty()
        } else {
            input_keys(tv[k])
        }),
{
    assert(tv =~= tv.take(k + 1) + tv.skip(k + 1));
    lemma_spend_keys_concat(tv.take(k + 1), tv.skip(k + 1));
    assert(tv.take(k + 1).drop_last() =~= tv.take(k));
}

} // verus!
