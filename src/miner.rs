//! The mining node: a pool of pending transactions and a proof-of-work search
//! that runs in bounded steps, so that a block arriving from a peer can cancel
//! it between two steps. Receiving events and broadcasting results is left to
//! the caller, which feeds events in and acts on what comes back.

use vstd::prelude::*;
use crate::block::{header_digest, sealed, with_nonce, Block, BlockView};
use crate::chain::{add_outcome, after_add, has_hash, tip, txs_acceptable, BlockChain};
use crate::error::BlockChainError;
use crate::pow::{meets_target, PowParameters};
use crate::transaction::{copy_transactions, txs_view, Transaction, TxView};

verus! {

/// The outcome of one mining step.
pub enum MineStatus {
    /// No block is being mined.
    Idle,
    /// The nonces of this step failed; the search goes on.
    Searching,
    /// A block was mined and committed; it is for the peers.
    Mined(Block),
    /// Every nonce failed, or the block mined is already known; the attempt is dropped.
    Exhausted,
}

/// The transactions of `s` whose hash no transaction of `txs` has, in order.
pub open spec fn unmined(s: Seq<TxView>, txs: Seq<TxView>) -> Seq<TxView>
    decreases s.len(),
{
    if s.len() == 0 {
        seq![]
    } else {
        let r = unmined(s.drop_last(), txs);
        if exists|j: int| 0 <= j < txs.len() && (#[trigger] txs[j]).tx_hash == s.last().tx_hash {
            r
        } else {
            r.push(s.last())
        }
    }
}

/// Walking `s` in order, each transaction that may go into a block together
/// with those kept before it.
pub open spec fn fitting(history: Seq<TxView>, s: Seq<TxView>) -> Seq<TxView>
    decreases s.len(),
{
    if s.len() == 0 {
        seq![]
    } else {
        let k = fitting(history, s.drop_last());
        if txs_acceptable(history, k.push(s.last())) {
            k.push(s.last())
        } else {
            k
        }
    }
}

pub proof fn lemma_fitting_acceptable(history: Seq<TxView>, s: Seq<TxView>)
    ensures
        txs_acceptable(history, fitting(history, s)),
    decreases s.len(),
{
    if s.len() == 0 {
        assert(crate::chain::spend_keys(Seq::<TxView>::empty()) =~= Seq::empty());
    } else {
        lemma_fitting_acceptable(history, s.drop_last());
    }
}

pub struct Miner {
    chain: BlockChain,
    pending: Vec<Transaction>,
    candidate: Option<Block>,
    next_nonce: u64,
}

impl Miner {
    pub closed spec fn chain_view(&self) -> Seq<BlockView> {
        self.chain@
    }

    pub closed spec fn history(&self) -> Seq<TxView> {
        self.chain.history()
    }

    /// The pending transactions in order of arrival.
    pub closed spec fn pending_view(&self) -> Seq<TxView> {
        txs_view(self.pending@)
    }

    /// The block being mined, if any.
    pub closed spec fn candidate_view(&self) -> Option<BlockView> {
        match self.candidate {
            Some(b) => Some(b@),
            None => None,
        }
    }

    pub closed spec fn chain_wf(&self) -> bool {
        self.chain.wf() && self.next_nonce <= 0x1_0000_0000
    }

    /// The next nonce to try on the block being mined.
    pub closed spec fn nonce_cursor(&self) -> u64 {
        self.next_nonce
    }

    /// The block being mined and the next nonce to try.
    pub closed spec fn search_state(&self) -> (Option<Block>, u64) {
        (self.candidate, self.next_nonce)
    }

    /// The chain is well formed, the pending transactions may go into the next
    /// block, and a block being mined extends the tip with acceptable
    /// transactions, no nonce below the next one meeting its target.
    pub closed spec fn wf(&self) -> bool {
        &&& self.chain.wf()
        &&& txs_acceptable(self.chain.history(), txs_view(self.pending@))
        &&& self.next_nonce <= 0x1_0000_0000
        &&& self.candidate matches Some(b) ==> {
            &&& b@.header.prev_hash == tip(self.chain@)
            &&& b@.height == self.chain@.len() + 1
            &&& b@.header.nbits == self.chain.difficulty()
            &&& txs_acceptable(self.chain.history(), b@.txs)
            &&& forall|m: u32| m < self.next_nonce ==> !meets_target(
                #[trigger] header_digest(with_nonce(b@.header, m)),
                b@.header.nbits,
            )
        }
    }

    /// A miner over a chain, with no pending transactions.
    pub fn new(chain: BlockChain) -> (r: Self)
        requires
            chain.wf(),
        ensures
            r.wf(),
            r.chain_view() == chain@,
            r.pending_view().len() == 0,
            r.candidate_view().is_none(),
    {
        let r = Miner { chain, pending: Vec::new(), candidate: None, next_nonce: 0 };
        assert(txs_view(r.pending@) =~= Seq::<TxView>::empty());
        assert(crate::chain::spend_keys(Seq::<TxView>::empty()) =~= Seq::empty());
        r
    }

    pub fn get_chain(&self) -> (r: &BlockChain)
        ensures
            r@ == self.chain_view(),
            r.history() == self.history(),
    {
        &self.chain
    }

    /// The pending transactions in order of arrival.
    pub fn get_sorted_txs(&self) -> (r: Vec<Transaction>)
        ensures
            txs_view(r@) == self.pending_view(),
    {
        copy_transactions(self.pending.as_slice())
    }

    /// Adds a transaction to the pool when the pool with it may still go into
    /// a block; gives whether it was added.
    pub fn add_pending_tx(&mut self, tx: Transaction) -> (r: bool)
        requires
            old(self).wf(),
        ensures
            final(self).wf(),
            final(self).chain_view() == old(self).chain_view(),
            final(self).candidate_view() == old(self).candidate_view(),
            r == txs_acceptable(old(self).history(), old(self).pending_view().push(tx@)),
            r ==> final(self).pending_view() == old(self).pending_view().push(tx@),
            !r ==> final(self).pending_view() == old(self).pending_view(),
    {
        let mut trial = copy_transactions(self.pending.as_slice());
        let ghost t = tx@;
        trial.push(tx);
        assert(txs_view(trial@) =~= txs_view(self.pending@).push(t));
        if self.chain.txs_valid(trial.as_slice()) {
            self.pending = trial;
            true
        } else {
            false
        }
    }

    /// Drops the pending transactions whose hash a block holds; the others
    /// stay, in order.
    pub fn remove_mined_txs(&mut self, block: &Block)
        requires
            old(self).chain_wf(),
        ensures
            final(self).chain_view() == old(self).chain_view(),
            final(self).history() == old(self).history(),
            final(self).chain_wf(),
            final(self).search_state() == old(self).search_state(),
            final(self).pending_view() == unmined(old(self).pending_view(), block@.txs),
    {
        let ghost pv = txs_view(self.pending@);
        let mut kept: Vec<Transaction> = Vec::new();
        assert(txs_view(kept@) =~= unmined(pv.take(0), block@.txs));
        let mut i: usize = 0;
        while i < self.pending.len()
            invariant
                i <= self.pending@.len(),
                pv == txs_view(self.pending@),
                txs_view(kept@) == unmined(pv.take(i as int), block@.txs),
            decreases self.pending@.len() - i,
        {
            let t = &self.pending[i];
            let mut found = false;
            let mut j: usize = 0;
            while j < block.tx_sets.len()
                invariant
                    j <= block.tx_sets@.len(),
                    i < self.pending@.len(),
                    *t == self.pending@[i as int],
                    found == exists|j2: int| 0 <= j2 < j && (#[trigger] block@.txs[j2]).tx_hash == t@.tx_hash,
                decreases block.tx_sets@.len() - j,
            {
                assert(block@.txs[j as int] == block.tx_sets@[j as int]@);
                if crate::codec::bytes_eq(block.tx_sets[j].tx_hash.as_slice(), t.tx_hash.as_slice()) {
                    found = true;
                }
                j = j + 1;
            }
            proof {
                assert(pv.take(i as int + 1).drop_last() =~= pv.take(i as int));
                assert(pv.take(i as int + 1).last() == t@);
            }
            if !found {
                let ghost before = txs_view(kept@);
                kept.push(t.duplicate());
                assert(txs_view(kept@) =~= before.push(t@));
            }
            i = i + 1;
        }
        assert(pv.take(self.pending@.len() as int) =~= pv);
        self.pending = kept;
    }

    /// Keeps, in order, each pending transaction that may go into a block
    /// together with those kept before it, and drops the others.
    pub fn reset_tx_state(&mut self)
        requires
            old(self).chain_wf(),
        ensures
            final(self).chain_view() == old(self).chain_view(),
            final(self).history() == old(self).history(),
            final(self).chain_wf(),
            final(self).pending_view() == fitting(old(self).history(), old(self).pending_view()),
            txs_acceptable(final(self).history(), final(self).pending_view()),
            final(self).search_state() == old(self).search_state(),
    {
        let ghost pv = txs_view(self.pending@);
        let ghost h = self.chain.history();
        let mut kept: Vec<Transaction> = Vec::new();
        assert(txs_view(kept@) =~= fitting(h, pv.take(0)));
        let mut i: usize = 0;
        while i < self.pending.len()
            invariant
                i <= self.pending@.len(),
                pv == txs_view(self.pending@),
                h == self.chain.history(),
                self.chain.wf(),
                txs_view(kept@) == fitting(h, pv.take(i as int)),
            decreases self.pending@.len() - i,
        {
            let mut trial = copy_transactions(kept.as_slice());
            let ghost before = txs_view(kept@);
            trial.push(self.pending[i].duplicate());
            proof {
                assert(txs_view(trial@) =~= before.push(pv[i as int]));
                assert(pv.take(i as int + 1).drop_last() =~= pv.take(i as int));
                assert(pv.take(i as int + 1).last() == pv[i as int]);
            }
            if self.chain.txs_valid(trial.as_slice()) {
                kept = trial;
            }
            i = i + 1;
        }
        assert(pv.take(self.pending@.len() as int) =~= pv);
        proof {
            lemma_fitting_acceptable(h, pv);
        }
        self.pending = kept;
    }

    /// Adds a block from a peer. When it extends the chain, the block being
    /// mined is dropped (it no longer extends the tip) and the pool loses the
    /// transactions that the block holds or that no longer fit.
    pub fn add_block(&mut self, block: Block) -> (r: Result<(), BlockChainError>)
        requires
            old(self).wf(),
        ensures
            final(self).wf(),
            final(self).chain_view() == after_add(old(self).chain_view(), block@),
            match add_outcome(old(self).chain_view(), block@) {
                Ok(_) => r is Ok,
                Err(e) => r == Err::<(), BlockChainError>(e),
            },
            add_outcome(old(self).chain_view(), block@) == Ok::<bool, BlockChainError>(true)
                ==> final(self).candidate_view().is_none(),
    {
        let n = self.chain.get_height();
        let copy = block.duplicate();
        let r = self.chain.add_block(block);
        if self.chain.get_height() != n {
            self.candidate = None;
            self.remove_mined_txs(&copy);
            self.reset_tx_state();
        } else {
            proof {
                assert(self.chain@ == old(self).chain@);
            }
        }
        r
    }

    /// Starts mining a block of the pending transactions on the tip, unless a
    /// block is being mined already, the pool is empty, the chain has no
    /// genesis block, or no height is left for another block.
    pub fn start_round(&mut self)
        requires
            old(self).wf(),
        ensures
            final(self).wf(),
            final(self).chain_view() == old(self).chain_view(),
            final(self).pending_view() == old(self).pending_view(),
            old(self).candidate_view().is_some() ==> final(self).candidate_view() == old(self).candidate_view(),
            old(self).candidate_view().is_none() && old(self).pending_view().len() > 0 && 0 < old(self).chain_view().len() < u64::MAX ==> (
                final(self).candidate_view() matches Some(b) && b.txs == old(self).pending_view()),
    {
        if self.candidate.is_some() || self.pending.len() == 0 {
            return;
        }
        let n = self.chain.get_height();
        let prev = match self.chain.get_latest_block_hash() {
            Some(h) => h,
            None => return,
        };
        if n == u64::MAX {
            return;
        }
        let block = Block::assemble(self.pending.as_slice(), prev.as_slice(), self.chain.get_difficulty(), n + 1);
        assert(block@.header.prev_hash == tip(self.chain@));
        assert(block@.txs == txs_view(self.pending@));
        self.candidate = Some(block);
        self.next_nonce = 0;
    }

    /// Drops the block being mined.
    pub fn cancel(&mut self)
        requires
            old(self).wf(),
        ensures
            final(self).wf(),
            final(self).chain_view() == old(self).chain_view(),
            final(self).pending_view() == old(self).pending_view(),
            final(self).candidate_view().is_none(),
    {
        self.candidate = None;
    }

    /// Tries up to `batch` further nonces on the block being mined, from the
    /// next untried one. A nonce that meets the target seals the block, which is
    /// committed and handed back; the pool then loses what the block holds and
    /// what no longer fits. When every nonce has failed, or the sealed block is
    /// already committed, the attempt is dropped.
    pub fn mine(&mut self, batch: u64) -> (r: MineStatus)
        requires
            old(self).wf(),
        ensures
            final(self).wf(),
            match r {
                MineStatus::Idle => {
                    &&& old(self).candidate_view().is_none()
                    &&& final(self).candidate_view().is_none()
                    &&& final(self).chain_view() == old(self).chain_view()
                    &&& final(self).pending_view() == old(self).pending_view()
                },
                MineStatus::Searching => (old(self).candidate_view() matches Some(c) && {
                    &&& final(self).chain_view() == old(self).chain_view()
                    &&& final(self).pending_view() == old(self).pending_view()
                    &&& (final(self).candidate_view() matches Some(c2) && c2.txs == c.txs && c2.height == c.height
                        && c2.header == with_nonce(c.header, c2.header.nonce))
                    &&& final(self).nonce_cursor() == old(self).nonce_cursor() + batch
                    &&& final(self).nonce_cursor() < 0x1_0000_0000
                    &&& forall|m: u32| old(self).nonce_cursor() <= m < final(self).nonce_cursor() ==> !meets_target(
                        #[trigger] header_digest(with_nonce(c.header, m)),
                        c.header.nbits,
                    )
                }),
                MineStatus::Exhausted => (old(self).candidate_view() matches Some(c) && {
                    &&& final(self).chain_view() == old(self).chain_view()
                    &&& final(self).pending_view() == old(self).pending_view()
                    &&& final(self).candidate_view().is_none()
                    &&& ((forall|m: u32| !meets_target(#[trigger] header_digest(with_nonce(c.header, m)), c.header.nbits))
                        || exists|m: u32| meets_target(#[trigger] header_digest(with_nonce(c.header, m)), c.header.nbits)
                            && has_hash(old(self).chain_view(), header_digest(with_nonce(c.header, m))))
                }),
                MineStatus::Mined(b) => (old(self).candidate_view() matches Some(c) && {
                    &&& b@.header == with_nonce(c.header, b@.header.nonce)
                    &&& b@.txs == c.txs
                    &&& b@.height == c.height
                    &&& b@.height == old(self).chain_view().len() + 1
                    &&& old(self).nonce_cursor() <= b@.header.nonce
                    &&& forall|m: u32| m < b@.header.nonce ==> !meets_target(
                        #[trigger] header_digest(with_nonce(c.header, m)),
                        c.header.nbits,
                    )
                    &&& sealed(b@)
                    &&& final(self).chain_view() == old(self).chain_view().push(b@)
                    &&& final(self).candidate_view().is_none()
                    &&& final(self).pending_view() == fitting(final(self).history(), unmined(old(self).pending_view(), b@.txs))
                }),
            },
    {
        let mut block = match self.candidate.take() {
            Some(b) => b,
            None => return MineStatus::Idle,
        };
        proof {
            self.chain.lemma_wf();
        }
        let start = self.next_nonce;
        let end = if batch > 0x1_0000_0000 - start { 0x1_0000_0000 } else { start + batch };
        let pow = PowParameters::new(block.header.nbits);
        let ghost h0 = block@.header;
        match pow.search(&mut block.header, start, end) {
            Some(hash) => {
                block.hash = hash;
                if self.chain.has_block(block.hash.as_slice()) {
                    assert(with_nonce(h0, block@.header.nonce) == block@.header);
                    assert(meets_target(header_digest(with_nonce(h0, block@.header.nonce)), h0.nbits));
                    return MineStatus::Exhausted;
                }
                let result = block.duplicate();
                let _ = self.chain.add_block(block);
                assert(self.chain@ == old(self).chain@.push(result@));
                self.remove_mined_txs(&result);
                self.reset_tx_state();
                MineStatus::Mined(result)
            },
            None => {
                if end == 0x1_0000_0000 {
                    assert forall|m: u32| !meets_target(#[trigger] header_digest(with_nonce(h0, m)), h0.nbits) by {
                        if m < start {
                            assert(with_nonce(old(self).candidate->0@.header, m) == with_nonce(h0, m));
                        }
                    }
                    MineStatus::Exhausted
                } else {
                    assert(block@.header == with_nonce(h0, block@.header.nonce));
                    assert forall|m: u32| m < end implies !meets_target(
                        #[trigger] header_digest(with_nonce(block@.header, m)),
                        block@.header.nbits,
                    ) by {
                        assert(with_nonce(block@.header, m) == with_nonce(h0, m));
                    }
                    self.candidate = Some(block);
                    self.next_nonce = end;
                    MineStatus::Searching
                }
            },
        }
    }
}

} // verus!
