//! Blocks and their headers, and the proof-of-work search over the nonce.

use vstd::prelude::*;
use crate::codec::{copy_bytes, field_bytes, put_field, put_u32, put_u64, u32_bytes, u64_bytes};
use crate::crypto::{compute_root_hash, merkle_root_of, sha256, sha256_of};
use crate::pow::{hash_meets_target, meets_target, PowParameters};
use crate::transaction::{
    address_key, coinbase_view, copy_transactions, encode_transactions, txs_bytes, txs_view,
    Transaction, TxView,
};

verus! {

pub struct BlockHeader {
    pub nbits: u32,
    pub timestamp: i64,
    pub root_hash: Vec<u8>,
    pub prev_hash: Vec<u8>,
    pub nonce: u32,
}

/// A header, the hash that identifies the block, its transactions in order,
/// and its height (the genesis block has height 1).
pub struct Block {
    pub header: BlockHeader,
    pub hash: Vec<u8>,
    pub tx_sets: Vec<Transaction>,
    pub height: u64,
}

pub struct HeaderView {
    pub nbits: u32,
    pub timestamp: i64,
    pub root_hash: Seq<u8>,
    pub prev_hash: Seq<u8>,
    pub nonce: u32,
}

pub struct BlockView {
    pub header: HeaderView,
    pub hash: Seq<u8>,
    pub txs: Seq<TxView>,
    pub height: u64,
}

impl View for BlockHeader {
    type V = HeaderView;

    open spec fn view(&self) -> HeaderView {
        HeaderView {
            nbits: self.nbits,
            timestamp: self.timestamp,
            root_hash: self.root_hash@,
            prev_hash: self.prev_hash@,
            nonce: self.nonce,
        }
    }
}

impl View for Block {
    type V = BlockView;

    open spec fn view(&self) -> BlockView {
        BlockView { header: self.header@, hash: self.hash@, txs: txs_view(self.tx_sets@), height: self.height }
    }
}

pub open spec fn blocks_view(v: Seq<Block>) -> Seq<BlockView> {
    v.map_values(|b: Block| b@)
}

/// The predecessor reference of a genesis block: no block.
pub open spec fn genesis_prev_hash() -> Seq<u8> {
    seq![]
}

/// The canonical bytes of a header.
pub open spec fn header_bytes(h: HeaderView) -> Seq<u8> {
    u32_bytes(h.nbits) + u64_bytes(h.timestamp as u64) + field_bytes(h.root_hash) + field_bytes(
        h.prev_hash,
    ) + u32_bytes(h.nonce)
}

/// The proof-of-work digest of a header.
pub open spec fn header_digest(h: HeaderView) -> Seq<u8> {
    sha256_of(header_bytes(h))
}

pub open spec fn with_nonce(h: HeaderView, n: u32) -> HeaderView {
    HeaderView { nonce: n, ..h }
}

/// A block whose identifying hash is its header's digest and meets the
/// target of the header's difficulty.
pub open spec fn sealed(b: BlockView) -> bool {
    b.hash == header_digest(b.header) && meets_target(b.hash, b.header.nbits)
}

/// The canonical bytes of a block: its header, its hash as a field, its
/// transactions, and its height.
pub open spec fn block_bytes(b: BlockView) -> Seq<u8> {
    header_bytes(b.header) + field_bytes(b.hash) + txs_bytes(b.txs) + u64_bytes(b.height)
}

/// The root hash of a list of transactions.
pub open spec fn root_of(txs: Seq<TxView>) -> Seq<u8> {
    merkle_root_of(txs_bytes(txs))
}

/// Relies on chrono's `Utc::now().timestamp()`: seconds since the Unix epoch,
/// read from the clock, so no value is promised.
#[verifier::external_body]
fn now_timestamp() -> i64 {
    chrono::Utc::now().timestamp()
}

impl BlockHeader {
    /// A header over `prev_hash` with difficulty `bits`, stamped with the
    /// current time, with no root hash yet and nonce 0.
    pub fn new(prev_hash: &[u8], bits: u32) -> (r: Self)
        ensures
            r@.nbits == bits,
            r@.prev_hash == prev_hash@,
            r@.root_hash.len() == 0,
            r@.nonce == 0,
    {
        BlockHeader {
            nbits: bits,
            timestamp: now_timestamp(),
            root_hash: Vec::new(),
            prev_hash: copy_bytes(prev_hash),
            nonce: 0,
        }
    }

    pub fn duplicate(&self) -> (r: Self)
        ensures
            r@ == self@,
    {
        BlockHeader {
            nbits: self.nbits,
            timestamp: self.timestamp,
            root_hash: copy_bytes(self.root_hash.as_slice()),
            prev_hash: copy_bytes(self.prev_hash.as_slice()),
            nonce: self.nonce,
        }
    }

    /// Sets the root hash to that of the transactions.
    pub fn set_root_hash(&mut self, txs: &[Transaction])
        ensures
            final(self)@ == (HeaderView { root_hash: root_of(txs_view(txs@)), ..old(self)@ }),
    {
        let bytes = encode_transactions(txs);
        self.root_hash = compute_root_hash(bytes.as_slice());
    }

    /// Stamps the header with the current time.
    pub fn set_timestamp(&mut self)
        ensures
            final(self)@ == (HeaderView { timestamp: final(self)@.timestamp, ..old(self)@ }),
    {
        self.timestamp = now_timestamp();
    }

    pub fn get_prev_hash(&self) -> (r: Vec<u8>)
        ensures
            r@ == self@.prev_hash,
    {
        copy_bytes(self.prev_hash.as_slice())
    }

    pub fn set_prev_hash(&mut self, hash: Vec<u8>)
        ensures
            final(self)@ == (HeaderView { prev_hash: hash@, ..old(self)@ }),
    {
        self.prev_hash = hash;
    }

    pub fn set_nonce(&mut self, nonce: u32)
        ensures
            final(self)@ == with_nonce(old(self)@, nonce),
    {
        self.nonce = nonce;
    }

    /// The canonical bytes of the header.
    pub fn encode(&self) -> (r: Vec<u8>)
        ensures
            r@ == header_bytes(self@),
    {
        let mut out: Vec<u8> = Vec::new();
        put_u32(&mut out, self.nbits);
        put_u64(&mut out, self.timestamp as u64);
        put_field(&mut out, self.root_hash.as_slice());
        put_field(&mut out, self.prev_hash.as_slice());
        put_u32(&mut out, self.nonce);
        assert(out@ =~= header_bytes(self@));
        out
    }

    /// The proof-of-work digest of the header.
    pub fn digest(&self) -> (r: Vec<u8>)
        ensures
            r@ == header_digest(self@),
            r@.len() == 32,
    {
        let bytes = self.encode();
        sha256(bytes.as_slice())
    }
}

impl PowParameters {
    /// Sets the header's nonce and returns the bytes that are hashed.
    pub fn prepare_data(header: &mut BlockHeader, nonce: u32) -> (r: Vec<u8>)
        ensures
            final(header)@ == with_nonce(old(header)@, nonce),
            r@ == header_bytes(final(header)@),
    {
        header.set_nonce(nonce);
        header.encode()
    }

    /// Tries the nonces `from..to` in increasing order and stops at the first
    /// whose digest meets the target; the header keeps that nonce and the
    /// digest is returned. `None` when no nonce of the range does.
    pub fn search(&self, header: &mut BlockHeader, from: u64, to: u64) -> (r: Option<Vec<u8>>)
        requires
            from <= to <= 0x1_0000_0000,
            old(header)@.nbits == self.nbits,
        ensures
            final(header)@ == with_nonce(old(header)@, final(header)@.nonce),
            forall|m: u32| from <= m < to && m < final(header)@.nonce ==> !meets_target(
                #[trigger] header_digest(with_nonce(old(header)@, m)),
                self.nbits,
            ),
            match r {
                Some(h) => {
                    &&& from <= final(header)@.nonce < to
                    &&& h@ == header_digest(final(header)@)
                    &&& meets_target(h@, self.nbits)
                },
                None => forall|m: u32|
                    from <= m < to ==> !meets_target(
                        #[trigger] header_digest(with_nonce(old(header)@, m)),
                        self.nbits,
                    ),
            },
            self.nbits == 0 && from < to ==> r is Some,
    {
        let ghost h0 = header@;
        let mut n: u64 = from;
        while n < to
            invariant
                from <= n <= to <= 0x1_0000_0000,
                h0 == old(header)@,
                h0.nbits == self.nbits,
                header@ == with_nonce(h0, header@.nonce),
                header@.nonce < n || n == from,
                self.nbits == 0 ==> n == from,
                forall|m: u32| from <= m < n ==> !meets_target(
                    #[trigger] header_digest(with_nonce(h0, m)),
                    self.nbits,
                ),
            decreases to - n,
        {
            let bytes = Self::prepare_data(header, n as u32);
            let hash = sha256(bytes.as_slice());
            assert(with_nonce(h0, n as u32) == header@);
            proof {
                if self.nbits == 0 {
                    crate::pow::lemma_be_bound(hash@);
                }
            }
            if self.accepts(hash.as_slice()) {
                assert(header@.nonce == n);
                assert(h0 == old(header)@);
                assert(header@ == with_nonce(old(header)@, header@.nonce));
                return Some(hash);
            }
            n = n + 1;
        }
        None
    }

    /// Searches every nonce for the block and, on success, records the digest
    /// as the block's identifying hash. The predecessor reference is left as it is.
    pub fn run(&self, block: &mut Block) -> (r: bool)
        requires
            old(block)@.header.nbits == self.nbits,
        ensures
            final(block)@.txs == old(block)@.txs,
            final(block)@.height == old(block)@.height,
            final(block)@.header == with_nonce(old(block)@.header, final(block)@.header.nonce),
            forall|m: u32| m < final(block)@.header.nonce ==> !meets_target(
                #[trigger] header_digest(with_nonce(old(block)@.header, m)),
                self.nbits,
            ),
            r ==> sealed(final(block)@),
            self.nbits == 0 ==> r,
            !r ==> final(block)@.hash == old(block)@.hash && forall|m: u32| !meets_target(
                #[trigger] header_digest(with_nonce(old(block)@.header, m)),
                self.nbits,
            ),
    {
        match self.search(&mut block.header, 0, 0x1_0000_0000) {
            Some(h) => {
                block.hash = h;
                true
            },
            None => false,
        }
    }
}

impl Block {
    /// A block at `height` over `prev_hash` holding `txs`, with its root hash
    /// set and nonce 0, not yet sealed.
    pub fn assemble(txs: &[Transaction], prev_hash: &[u8], bits: u32, height: u64) -> (r: Block)
        ensures
            r@.txs == txs_view(txs@),
            r@.header.prev_hash == prev_hash@,
            r@.header.nbits == bits,
            r@.header.root_hash == root_of(txs_view(txs@)),
            r@.header.nonce == 0,
            r@.height == height,
            r@.hash.len() == 0,
    {
        let mut header = BlockHeader::new(prev_hash, bits);
        header.set_root_hash(txs);
        Block { header, hash: Vec::new(), tx_sets: copy_transactions(txs), height }
    }

    /// Assembles a block and searches its nonce; `None` when no nonce meets the
    /// target.
    pub fn new(txs: &[Transaction], prev_hash: &[u8], bits: u32, height: u64) -> (r: Option<Block>)
        requires
            bits <= 256,
        ensures
            match r {
                Some(b) => {
                    &&& b@.txs == txs_view(txs@)
                    &&& b@.header.prev_hash == prev_hash@
                    &&& b@.header.nbits == bits
                    &&& b@.header.root_hash == root_of(txs_view(txs@))
                    &&& b@.height == height
                    &&& sealed(b@)
                    &&& forall|m: u32| m < b@.header.nonce ==> !meets_target(
                        #[trigger] header_digest(with_nonce(b@.header, m)),
                        bits,
                    )
                },
                None => bits != 0 && exists|h: HeaderView|
                    {
                        &&& h.prev_hash == prev_hash@
                        &&& h.nbits == bits
                        &&& h.root_hash == root_of(txs_view(txs@))
                        &&& forall|m: u32| !meets_target(#[trigger] header_digest(with_nonce(h, m)), bits)
                    },
            },
    {
        let mut block = Block::assemble(txs, prev_hash, bits, height);
        let pow = PowParameters::new(bits);
        let ghost h0 = block@.header;
        if pow.run(&mut block) {
            proof {
                assert forall|m: u32| m < block@.header.nonce implies !meets_target(
                    #[trigger] header_digest(with_nonce(block@.header, m)),
                    bits,
                ) by {
                    assert(with_nonce(block@.header, m) == with_nonce(h0, m));
                }
            }
            Some(block)
        } else {
            assert(h0.prev_hash == prev_hash@ && h0.nbits == bits);
            None
        }
    }

    /// The genesis block: one coinbase to `genesis_addr`, over the genesis
    /// predecessor reference, at height 1. `None` when the address holds no key
    /// hash, or when no nonce meets the target for the header stamped with the
    /// current time (never at difficulty 0).
    pub fn create_genesis_block(bits: u32, genesis_addr: &str) -> (r: Option<Block>)
        requires
            bits <= 256,
        ensures
            match r {
                Some(b) => {
                    &&& address_key(genesis_addr@) matches Some(k)
                    &&& b@.txs == seq![coinbase_view(k)]
                    &&& b@.header.prev_hash == genesis_prev_hash()
                    &&& b@.header.nbits == bits
                    &&& b@.header.root_hash == root_of(b@.txs)
                    &&& b@.height == 1
                    &&& sealed(b@)
                },
                None => address_key(genesis_addr@).is_none() || (bits != 0 && exists|h: HeaderView|
                    {
                        &&& h.prev_hash == genesis_prev_hash()
                        &&& h.nbits == bits
                        &&& h.root_hash == root_of(seq![coinbase_view(address_key(genesis_addr@)->0)])
                        &&& forall|m: u32| !meets_target(#[trigger] header_digest(with_nonce(h, m)), bits)
                    }),
            },
    {
        let coinbase = match Transaction::new_coinbase(genesis_addr) {
            Some(t) => t,
            None => return None,
        };
        let mut txs: Vec<Transaction> = Vec::new();
        txs.push(coinbase);
        let empty: Vec<u8> = Vec::new();
        assert(empty@ =~= genesis_prev_hash());
        assert(txs_view(txs@) =~= seq![coinbase_view(address_key(genesis_addr@)->0)]);
        let r = Self::new(txs.as_slice(), empty.as_slice(), bits, 1);
        if let Some(b) = &r {
            assert(b@.txs == seq![coinbase_view(address_key(genesis_addr@)->0)]);
            assert(b@.header.prev_hash == genesis_prev_hash());
        }
        r
    }

    pub fn get_header(&self) -> (r: BlockHeader)
        ensures
            r@ == self@.header,
    {
        self.header.duplicate()
    }

    pub fn get_txs(&self) -> (r: Vec<Transaction>)
        ensures
            txs_view(r@) == self@.txs,
    {
        copy_transactions(self.tx_sets.as_slice())
    }

    pub fn get_hash(&self) -> (r: Vec<u8>)
        ensures
            r@ == self@.hash,
    {
        copy_bytes(self.hash.as_slice())
    }

    pub fn get_height(&self) -> (r: u64)
        ensures
            r == self@.height,
    {
        self.height
    }

    pub fn duplicate(&self) -> (r: Block)
        ensures
            r@ == self@,
    {
        Block {
            header: self.header.duplicate(),
            hash: copy_bytes(self.hash.as_slice()),
            tx_sets: copy_transactions(self.tx_sets.as_slice()),
            height: self.height,
        }
    }

    /// The canonical bytes of the block, as stored and sent to peers.
    pub fn encode(&self) -> (r: Vec<u8>)
        ensures
            r@ == block_bytes(self@),
    {
        let mut out = self.header.encode();
        put_field(&mut out, self.hash.as_slice());
        let txs = encode_transactions(self.tx_sets.as_slice());
        let ghost before = out@;
        let mut i: usize = 0;
        while i < txs.len()
            invariant
                i <= txs@.len(),
                out@ == before + txs@.take(i as int),
            decreases txs@.len() - i,
        {
            out.push(txs[i]);
            i = i + 1;
            assert(out@ =~= before + txs@.take(i as int));
        }
        assert(txs@.take(txs@.len() as int) =~= txs@);
        put_u64(&mut out, self.height);
        assert(out@ =~= block_bytes(self@));
        out
    }

    /// Whether the identifying hash is the header's digest and meets its target.
    pub fn is_sealed(&self) -> (r: bool)
        ensures
            r == sealed(self@),
    {
        let digest = self.header.digest();
        if !crate::codec::bytes_eq(digest.as_slice(), self.hash.as_slice()) {
            return false;
        }
        hash_meets_target(digest.as_slice(), self.header.nbits)
    }
}

} // verus!
