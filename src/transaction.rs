//! Transactions: inputs that name the outputs they spend, outputs that lock a
//! value to a key hash, their canonical bytes, and the digests taken over them.

use vstd::prelude::*;
use crate::codec::{copy_bytes, field_bytes, put_field, put_u64, u64_bytes};
use crate::chain::BlockChain;
use crate::crypto::{
    base58_decode, base58_decoded, ecdsa_accepts, ecdsa_signature, ecdsa_signature_verify, public_key,
    public_key_of, sha256, sha256_of,
};
use crate::error::BlockChainError;
use crate::utxo::{lemma_select_bound, points_view, select, OutKey, UTXOSet};
use crate::wallet::{Wallet, ADDRESS_CHECKSUM_LEN};

verus! {

/// The value that a coinbase transaction creates.
pub const SUBSIDY: u64 = 10;

/// A reference to an output of an earlier transaction, with the signature
/// that spends it and the public key to check the signature against.
pub struct TxIn {
    pub tx_hash: Vec<u8>,
    pub tx_out_index: u64,
    pub signature: Vec<u8>,
    pub public_key: Vec<u8>,
}

/// A value locked to the hash of a public key.
pub struct TxOut {
    pub bitcoin_value: u64,
    pub tx_public_key: Vec<u8>,
}

pub struct Transaction {
    pub vin: Vec<TxIn>,
    pub vout: Vec<TxOut>,
    pub tx_hash: Vec<u8>,
}

pub struct TxInView {
    pub tx_hash: Seq<u8>,
    pub vout: u64,
    pub signature: Seq<u8>,
    pub public_key: Seq<u8>,
}

pub struct TxOutView {
    pub value: u64,
    pub key: Seq<u8>,
}

pub struct TxView {
    pub vin: Seq<TxInView>,
    pub vout: Seq<TxOutView>,
    pub tx_hash: Seq<u8>,
}

impl View for TxIn {
    type V = TxInView;

    open spec fn view(&self) -> TxInView {
        TxInView {
            tx_hash: self.tx_hash@,
            vout: self.tx_out_index,
            signature: self.signature@,
            public_key: self.public_key@,
        }
    }
}

impl View for TxOut {
    type V = TxOutView;

    open spec fn view(&self) -> TxOutView {
        TxOutView { value: self.bitcoin_value, key: self.tx_public_key@ }
    }
}

pub open spec fn ins_view(v: Seq<TxIn>) -> Seq<TxInView> {
    v.map_values(|i: TxIn| i@)
}

pub open spec fn outs_view(v: Seq<TxOut>) -> Seq<TxOutView> {
    v.map_values(|o: TxOut| o@)
}

pub open spec fn txs_view(v: Seq<Transaction>) -> Seq<TxView> {
    v.map_values(|t: Transaction| t@)
}

impl View for Transaction {
    type V = TxView;

    open spec fn view(&self) -> TxView {
        TxView { vin: ins_view(self.vin@), vout: outs_view(self.vout@), tx_hash: self.tx_hash@ }
    }
}

// ---- canonical bytes ----
pub open spec fn txin_bytes(i: TxInView) -> Seq<u8> {
    field_bytes(i.tx_hash) + u64_bytes(i.vout) + field_bytes(i.signature) + field_bytes(
        i.public_key,
    )
}

pub open spec fn txout_bytes(o: TxOutView) -> Seq<u8> {
    u64_bytes(o.value) + field_bytes(o.key)
}

pub open spec fn inputs_bytes(s: Seq<TxInView>) -> Seq<u8>
    decreases s.len(),
{
    if s.len() == 0 {
        seq![]
    } else {
        inputs_bytes(s.drop_last()) + txin_bytes(s.last())
    }
}

pub open spec fn outputs_bytes(s: Seq<TxOutView>) -> Seq<u8>
    decreases s.len(),
{
    if s.len() == 0 {
        seq![]
    } else {
        outputs_bytes(s.drop_last()) + txout_bytes(s.last())
    }
}

/// Inputs and outputs, each list preceded by its length.
pub open spec fn body_bytes(vin: Seq<TxInView>, vout: Seq<TxOutView>) -> Seq<u8> {
    u64_bytes(vin.len() as u64) + inputs_bytes(vin) + u64_bytes(vout.len() as u64) + outputs_bytes(
        vout,
    )
}

/// A whole transaction: its body, then its hash as a field.
pub open spec fn tx_bytes(t: TxView) -> Seq<u8> {
    body_bytes(t.vin, t.vout) + field_bytes(t.tx_hash)
}

pub open spec fn tx_list_bytes(s: Seq<TxView>) -> Seq<u8>
    decreases s.len(),
{
    if s.len() == 0 {
        seq![]
    } else {
        tx_list_bytes(s.drop_last()) + tx_bytes(s.last())
    }
}

/// A list of transactions: its length, then each transaction.
pub open spec fn txs_bytes(s: Seq<TxView>) -> Seq<u8> {
    u64_bytes(s.len() as u64) + tx_list_bytes(s)
}

// ---- trimmed copies and digests ----
pub open spec fn trimmed_input(i: TxInView) -> TxInView {
    TxInView { tx_hash: i.tx_hash, vout: i.vout, signature: seq![], public_key: seq![] }
}

/// The inputs with every signature and public key cleared, except that input
/// `sel` (if it is an index) carries `key` as its public key.
pub open spec fn trimmed_with_key(vin: Seq<TxInView>, sel: int, key: Seq<u8>) -> Seq<TxInView> {
    Seq::new(
        vin.len(),
        |j: int|
            if j == sel {
                TxInView { tx_hash: vin[j].tx_hash, vout: vin[j].vout, signature: seq![], public_key: key }
            } else {
                trimmed_input(vin[j])
            },
    )
}

/// The hash of a transaction: the digest of its trimmed copy, which does not
/// change when its inputs are signed.
pub open spec fn tx_id(vin: Seq<TxInView>, vout: Seq<TxOutView>) -> Seq<u8> {
    sha256_of(body_bytes(trimmed_with_key(vin, -1, seq![]), vout))
}

/// The message that input `k` signs: the digest of the trimmed copy in which
/// input `k` carries the locking key of the output it spends.
pub open spec fn signing_payload(t: TxView, k: int, key: Seq<u8>) -> Seq<u8> {
    sha256_of(body_bytes(trimmed_with_key(t.vin, k, key), t.vout))
}

pub open spec fn is_coinbase_spec(t: TxView) -> bool {
    t.vin.len() > 0 && t.vin[0].signature.len() == 0
}

/// The sentinel input of a coinbase: it names no earlier output.
pub open spec fn is_sentinel_input(i: TxInView) -> bool {
    i.tx_hash.len() == 0
}

/// The coinbase paying the subsidy to key hash `key`: one sentinel input, one
/// output, and the hash of its trimmed copy.
pub open spec fn coinbase_view(key: Seq<u8>) -> TxView {
    let vin = seq![TxInView { tx_hash: seq![], vout: 0, signature: seq![], public_key: seq![] }];
    let vout = seq![TxOutView { value: SUBSIDY, key }];
    TxView { vin, vout, tx_hash: tx_id(vin, vout) }
}

/// A coinbase by shape: a single input that names no earlier output.
pub open spec fn has_sentinel_shape(t: TxView) -> bool {
    t.vin.len() == 1 && is_sentinel_input(t.vin[0])
}

/// The key hash that an address locks to: the decoded payload without its
/// version byte and its checksum.
pub open spec fn address_key(address: Seq<char>) -> Option<Seq<u8>> {
    match base58_decoded(address) {
        Some(p) => if p.len() >= 1 + ADDRESS_CHECKSUM_LEN {
            Some(p.subrange(1, p.len() - ADDRESS_CHECKSUM_LEN))
        } else {
            None
        },
        None => None,
    }
}

// ---- lemmas on the byte layout ----
pub proof fn lemma_inputs_bytes_step(s: Seq<TxInView>, i: int)
    requires
        0 <= i < s.len(),
    ensures
        inputs_bytes(s.take(i + 1)) == inputs_bytes(s.take(i)) + txin_bytes(s[i]),
{
    assert(s.take(i + 1).drop_last() =~= s.take(i));
}

pub proof fn lemma_outputs_bytes_step(s: Seq<TxOutView>, i: int)
    requires
        0 <= i < s.len(),
    ensures
        outputs_bytes(s.take(i + 1)) == outputs_bytes(s.take(i)) + txout_bytes(s[i]),
{
    assert(s.take(i + 1).drop_last() =~= s.take(i));
}

pub proof fn lemma_tx_list_bytes_step(s: Seq<TxView>, i: int)
    requires
        0 <= i < s.len(),
    ensures
        tx_list_bytes(s.take(i + 1)) == tx_list_bytes(s.take(i)) + tx_bytes(s[i]),
{
    assert(s.take(i + 1).drop_last() =~= s.take(i));
}

// ---- encoders ----
fn put_input(out: &mut Vec<u8>, tx_hash: &[u8], vout: u64, signature: &[u8], public_key: &[u8])
    ensures
        final(out)@ == old(out)@ + txin_bytes(
            TxInView { tx_hash: tx_hash@, vout, signature: signature@, public_key: public_key@ },
        ),
{
    let ghost start = out@;
    put_field(out, tx_hash);
    put_u64(out, vout);
    put_field(out, signature);
    put_field(out, public_key);
    assert(out@ =~= start + txin_bytes(
        TxInView { tx_hash: tx_hash@, vout, signature: signature@, public_key: public_key@ },
    ));
}

fn put_output(out: &mut Vec<u8>, o: &TxOut)
    ensures
        final(out)@ == old(out)@ + txout_bytes(o@),
{
    let ghost start = out@;
    put_u64(out, o.bitcoin_value);
    put_field(out, o.tx_public_key.as_slice());
    assert(out@ =~= start + txout_bytes(o@));
}

/// Appends the inputs, trimmed with `key` at input `sel` (no input is chosen
/// when `sel` is out of range), each signature and public key included.
fn put_trimmed_inputs(out: &mut Vec<u8>, vin: &[TxIn], sel: usize, key: &[u8])
    ensures
        final(out)@ == old(out)@ + u64_bytes(vin@.len() as u64) + inputs_bytes(
            trimmed_with_key(ins_view(vin@), sel as int, key@),
        ),
{
    let ghost tv = trimmed_with_key(ins_view(vin@), sel as int, key@);
    put_u64(out, vin.len() as u64);
    let ghost start = out@;
    let empty: Vec<u8> = Vec::new();
    let mut i: usize = 0;
    while i < vin.len()
        invariant
            i <= vin@.len(),
            tv == trimmed_with_key(ins_view(vin@), sel as int, key@),
            out@ == start + inputs_bytes(tv.take(i as int)),
            empty@.len() == 0,
        decreases vin@.len() - i,
    {
        let input = &vin[i];
        if i == sel {
            put_input(out, input.tx_hash.as_slice(), input.tx_out_index, empty.as_slice(), key);
        } else {
            put_input(
                out,
                input.tx_hash.as_slice(),
                input.tx_out_index,
                empty.as_slice(),
                empty.as_slice(),
            );
        }
        proof {
            lemma_inputs_bytes_step(tv, i as int);
            assert(empty@ =~= Seq::<u8>::empty());
            assert(tv[i as int] == if i == sel {
                TxInView { tx_hash: input.tx_hash@, vout: input.tx_out_index, signature: empty@, public_key: key@ }
            } else {
                TxInView { tx_hash: input.tx_hash@, vout: input.tx_out_index, signature: empty@, public_key: empty@ }
            });
        }
        i = i + 1;
    }
    assert(tv.take(vin@.len() as int) =~= tv);
}

/// Appends the inputs as they stand.
fn put_inputs(out: &mut Vec<u8>, vin: &[TxIn])
    ensures
        final(out)@ == old(out)@ + u64_bytes(vin@.len() as u64) + inputs_bytes(ins_view(vin@)),
{
    put_u64(out, vin.len() as u64);
    let ghost start = out@;
    let ghost v = ins_view(vin@);
    let mut i: usize = 0;
    while i < vin.len()
        invariant
            i <= vin@.len(),
            v == ins_view(vin@),
            out@ == start + inputs_bytes(v.take(i as int)),
        decreases vin@.len() - i,
    {
        let input = &vin[i];
        put_input(
            out,
            input.tx_hash.as_slice(),
            input.tx_out_index,
            input.signature.as_slice(),
            input.public_key.as_slice(),
        );
        proof {
            lemma_inputs_bytes_step(v, i as int);
        }
        i = i + 1;
    }
    assert(v.take(vin@.len() as int) =~= v);
}

fn put_outputs(out: &mut Vec<u8>, vout: &[TxOut])
    ensures
        final(out)@ == old(out)@ + u64_bytes(vout@.len() as u64) + outputs_bytes(outs_view(vout@)),
{
    put_u64(out, vout.len() as u64);
    let ghost start = out@;
    let ghost v = outs_view(vout@);
    let mut i: usize = 0;
    while i < vout.len()
        invariant
            i <= vout@.len(),
            v == outs_view(vout@),
            out@ == start + outputs_bytes(v.take(i as int)),
        decreases vout@.len() - i,
    {
        put_output(out, &vout[i]);
        proof {
            lemma_outputs_bytes_step(v, i as int);
        }
        i = i + 1;
    }
    assert(v.take(vout@.len() as int) =~= v);
}

/// The digest of the trimmed copy with `key` at input `sel`.
fn trimmed_digest(vin: &[TxIn], vout: &[TxOut], sel: usize, key: &[u8]) -> (r: Vec<u8>)
    ensures
        r@ == sha256_of(body_bytes(trimmed_with_key(ins_view(vin@), sel as int, key@), outs_view(vout@))),
        r@.len() == 32,
{
    let mut bytes: Vec<u8> = Vec::new();
    put_trimmed_inputs(&mut bytes, vin, sel, key);
    put_outputs(&mut bytes, vout);
    proof {
        let tv = trimmed_with_key(ins_view(vin@), sel as int, key@);
        assert(tv.len() == vin@.len());
        assert(bytes@ =~= body_bytes(tv, outs_view(vout@)));
    }
    sha256(bytes.as_slice())
}

// ---- inputs and outputs ----
impl TxIn {
    /// An unsigned input spending output `index` of transaction `tx_hash`.
    pub fn new(tx_hash: Vec<u8>, index: u64, public_key: &[u8]) -> (r: Self)
        ensures
            r@ == (TxInView { tx_hash: tx_hash@, vout: index, signature: seq![], public_key: public_key@ }),
    {
        let r = TxIn { tx_hash, tx_out_index: index, signature: Vec::new(), public_key: copy_bytes(public_key) };
        assert(r.signature@ =~= Seq::<u8>::empty());
        r
    }

    pub fn duplicate(&self) -> (r: Self)
        ensures
            r@ == self@,
    {
        TxIn {
            tx_hash: copy_bytes(self.tx_hash.as_slice()),
            tx_out_index: self.tx_out_index,
            signature: copy_bytes(self.signature.as_slice()),
            public_key: copy_bytes(self.public_key.as_slice()),
        }
    }

    pub fn get_tx_hash(&self) -> (r: Vec<u8>)
        ensures
            r@ == self.tx_hash@,
    {
        copy_bytes(self.tx_hash.as_slice())
    }

    pub fn get_vout(&self) -> (r: u64)
        ensures
            r == self.tx_out_index,
    {
        self.tx_out_index
    }

    pub fn get_signature(&self) -> (r: &[u8])
        ensures
            r@ == self.signature@,
    {
        self.signature.as_slice()
    }

    pub fn set_signature(&mut self, signature: Vec<u8>)
        ensures
            final(self)@ == (TxInView { signature: signature@, ..old(self)@ }),
    {
        self.signature = signature;
    }

    pub fn set_pub_key(&mut self, pub_key: &[u8])
        ensures
            final(self)@ == (TxInView { public_key: pub_key@, ..old(self)@ }),
    {
        self.public_key = copy_bytes(pub_key);
    }
}

impl Default for TxIn {
    /// The sentinel input of a coinbase: no source transaction, index 0, no
    /// signature and no public key.
    fn default() -> (r: Self)
        ensures
            r@ == (TxInView { tx_hash: seq![], vout: 0, signature: seq![], public_key: seq![] }),
    {
        let r = TxIn { tx_hash: Vec::new(), tx_out_index: 0, signature: Vec::new(), public_key: Vec::new() };
        assert(r@ =~= (TxInView { tx_hash: seq![], vout: 0, signature: seq![], public_key: seq![] }));
        r
    }
}

impl TxOut {
    /// `value` locked to the key hash inside `to_addr`; `None` when the address
    /// does not decode to a payload with a version byte and a checksum.
    pub fn new(value: u64, to_addr: &str) -> (r: Option<Self>)
        ensures
            match r {
                Some(o) => address_key(to_addr@) == Some(o@.key) && o@.value == value,
                None => address_key(to_addr@).is_none(),
            },
    {
        let mut output = TxOut { bitcoin_value: value, tx_public_key: Vec::new() };
        if output.lock(to_addr) {
            Some(output)
        } else {
            None
        }
    }

    /// `value` locked to a key hash given as bytes.
    pub fn with_key(value: u64, key: &[u8]) -> (r: Self)
        ensures
            r@ == (TxOutView { value, key: key@ }),
    {
        TxOut { bitcoin_value: value, tx_public_key: copy_bytes(key) }
    }

    /// Locks the output to the key hash inside `address`; false, with the
    /// output unchanged, when the address holds none.
    pub fn lock(&mut self, address: &str) -> (r: bool)
        ensures
            r == address_key(address@).is_some(),
            r ==> final(self)@ == (TxOutView { value: old(self)@.value, key: address_key(address@)->0 }),
            !r ==> final(self)@ == old(self)@,
    {
        let payload = match base58_decode(address) {
            Some(p) => p,
            None => return false,
        };
        if payload.len() < 1 + ADDRESS_CHECKSUM_LEN {
            return false;
        }
        let end = payload.len() - ADDRESS_CHECKSUM_LEN;
        let mut key: Vec<u8> = Vec::new();
        let mut i: usize = 1;
        while i < end
            invariant
                1 <= i <= end,
                end == payload@.len() - ADDRESS_CHECKSUM_LEN,
                key@ == payload@.subrange(1, i as int),
            decreases end - i,
        {
            key.push(payload[i]);
            i = i + 1;
            assert(key@ =~= payload@.subrange(1, i as int));
        }
        self.tx_public_key = key;
        true
    }

    /// Whether the output is locked to `pub_key_hash`.
    pub fn is_locked(&self, pub_key_hash: &[u8]) -> (r: bool)
        ensures
            r == (self.tx_public_key@ == pub_key_hash@),
    {
        crate::codec::bytes_eq(self.tx_public_key.as_slice(), pub_key_hash)
    }

    pub fn get_value(&self) -> (r: u64)
        ensures
            r == self.bitcoin_value,
    {
        self.bitcoin_value
    }

    pub fn get_pub_key_hash(&self) -> (r: Vec<u8>)
        ensures
            r@ == self.tx_public_key@,
    {
        copy_bytes(self.tx_public_key.as_slice())
    }

    pub fn duplicate(&self) -> (r: Self)
        ensures
            r@ == self@,
    {
        TxOut { bitcoin_value: self.bitcoin_value, tx_public_key: copy_bytes(self.tx_public_key.as_slice()) }
    }
}

pub fn copy_inputs(v: &[TxIn]) -> (r: Vec<TxIn>)
    ensures
        ins_view(r@) == ins_view(v@),
{
    let mut r: Vec<TxIn> = Vec::new();
    let mut i: usize = 0;
    while i < v.len()
        invariant
            i <= v@.len(),
            r@.len() == i,
            forall|j: int| 0 <= j < i ==> #[trigger] r@[j]@ == v@[j]@,
        decreases v@.len() - i,
    {
        r.push(v[i].duplicate());
        i = i + 1;
    }
    assert(ins_view(r@) =~= ins_view(v@));
    r
}

pub fn copy_outputs(v: &[TxOut]) -> (r: Vec<TxOut>)
    ensures
        outs_view(r@) == outs_view(v@),
{
    let mut r: Vec<TxOut> = Vec::new();
    let mut i: usize = 0;
    while i < v.len()
        invariant
            i <= v@.len(),
            r@.len() == i,
            forall|j: int| 0 <= j < i ==> #[trigger] r@[j]@ == v@[j]@,
        decreases v@.len() - i,
    {
        r.push(v[i].duplicate());
        i = i + 1;
    }
    assert(outs_view(r@) =~= outs_view(v@));
    r
}

pub fn copy_transactions(v: &[Transaction]) -> (r: Vec<Transaction>)
    ensures
        txs_view(r@) == txs_view(v@),
{
    let mut r: Vec<Transaction> = Vec::new();
    let mut i: usize = 0;
    while i < v.len()
        invariant
            i <= v@.len(),
            r@.len() == i,
            forall|j: int| 0 <= j < i ==> #[trigger] r@[j]@ == v@[j]@,
        decreases v@.len() - i,
    {
        r.push(v[i].duplicate());
        i = i + 1;
    }
    assert(txs_view(r@) =~= txs_view(v@));
    r
}

fn put_transaction(out: &mut Vec<u8>, t: &Transaction)
    ensures
        final(out)@ == old(out)@ + tx_bytes(t@),
{
    let ghost before = out@;
    put_inputs(out, t.vin.as_slice());
    put_outputs(out, t.vout.as_slice());
    put_field(out, t.tx_hash.as_slice());
    assert(out@ =~= before + tx_bytes(t@));
}

/// The canonical bytes of a list of transactions.
pub fn encode_transactions(txs: &[Transaction]) -> (r: Vec<u8>)
    ensures
        r@ == txs_bytes(txs_view(txs@)),
{
    let mut out: Vec<u8> = Vec::new();
    put_u64(&mut out, txs.len() as u64);
    let ghost start = out@;
    let ghost v = txs_view(txs@);
    let mut i: usize = 0;
    while i < txs.len()
        invariant
            i <= txs@.len(),
            v == txs_view(txs@),
            out@ == start + tx_list_bytes(v.take(i as int)),
        decreases txs@.len() - i,
    {
        put_transaction(&mut out, &txs[i]);
        proof {
            lemma_tx_list_bytes_step(v, i as int);
            assert(v[i as int] == txs@[i as int]@);
        }
        i = i + 1;
    }
    assert(v.take(txs@.len() as int) =~= v);
    out
}

impl Transaction {
    pub fn duplicate(&self) -> (r: Self)
        ensures
            r@ == self@,
    {
        Transaction {
            vin: copy_inputs(self.vin.as_slice()),
            vout: copy_outputs(self.vout.as_slice()),
            tx_hash: copy_bytes(self.tx_hash.as_slice()),
        }
    }

    /// A coinbase paying the subsidy to `to_address`: one sentinel input and one
    /// output; `None` when the address holds no key hash.
    pub fn new_coinbase(to_address: &str) -> (r: Option<Transaction>)
        ensures
            match r {
                Some(t) => address_key(to_address@) matches Some(k) && t@ == coinbase_view(k),
                None => address_key(to_address@).is_none(),
            },
    {
        let tx_in = TxIn::default();
        let tx_out = match TxOut::new(SUBSIDY, to_address) {
            Some(o) => o,
            None => return None,
        };
        let mut vin: Vec<TxIn> = Vec::new();
        vin.push(tx_in);
        let mut vout: Vec<TxOut> = Vec::new();
        vout.push(tx_out);
        let mut tx = Transaction { vin, vout, tx_hash: Vec::new() };
        tx.set_tx_hash();
        proof {
            assert(tx@.vin =~= seq![TxInView { tx_hash: seq![], vout: 0, signature: seq![], public_key: seq![] }]);
            assert(tx@.vout =~= seq![TxOutView { value: SUBSIDY, key: address_key(to_address@)->0 }]);
        }
        Some(tx)
    }

    /// Sets the hash to the digest of the trimmed copy.
    pub fn set_tx_hash(&mut self)
        ensures
            final(self)@ == (TxView { tx_hash: tx_id(old(self)@.vin, old(self)@.vout), ..old(self)@ }),
    {
        let empty: Vec<u8> = Vec::new();
        let h = trimmed_digest(self.vin.as_slice(), self.vout.as_slice(), self.vin.len(), empty.as_slice());
        proof {
            assert(empty@ =~= Seq::<u8>::empty());
            assert(trimmed_with_key(self@.vin, self.vin@.len() as int, empty@) =~= trimmed_with_key(
                self@.vin,
                -1,
                seq![],
            ));
        }
        self.tx_hash = h;
    }

    /// Whether the first input carries no signature.
    pub fn is_coinbase(&self) -> (r: bool)
        ensures
            r == is_coinbase_spec(self@),
    {
        self.vin.len() != 0 && self.vin[0].signature.len() == 0
    }

    /// Whether the transaction is a coinbase by shape: one input that names no
    /// earlier output.
    pub fn has_sentinel_input(&self) -> (r: bool)
        ensures
            r == has_sentinel_shape(self@),
    {
        self.vin.len() == 1 && self.vin[0].tx_hash.len() == 0
    }

    /// A copy with every signature and public key cleared.
    pub fn trimmed_copy(&self) -> (r: Transaction)
        ensures
            r@ == (TxView { vin: trimmed_with_key(self@.vin, -1, seq![]), ..self@ }),
    {
        let mut inputs: Vec<TxIn> = Vec::new();
        let empty: Vec<u8> = Vec::new();
        let ghost tv = trimmed_with_key(self@.vin, -1, seq![]);
        let mut i: usize = 0;
        while i < self.vin.len()
            invariant
                i <= self.vin@.len(),
                empty@.len() == 0,
                tv == trimmed_with_key(self@.vin, -1, seq![]),
                inputs@.len() == i,
                forall|j: int| 0 <= j < i ==> #[trigger] inputs@[j]@ == tv[j],
            decreases self.vin@.len() - i,
        {
            let input = TxIn::new(self.vin[i].get_tx_hash(), self.vin[i].tx_out_index, empty.as_slice());
            assert(empty@ =~= Seq::<u8>::empty());
            inputs.push(input);
            i = i + 1;
        }
        assert(ins_view(inputs@) =~= tv);
        Transaction {
            vin: inputs,
            vout: copy_outputs(self.vout.as_slice()),
            tx_hash: copy_bytes(self.tx_hash.as_slice()),
        }
    }

    pub fn get_vout(&self) -> (r: &[TxOut])
        ensures
            outs_view(r@) == self@.vout,
    {
        self.vout.as_slice()
    }

    pub fn get_vin(&self) -> (r: &[TxIn])
        ensures
            ins_view(r@) == self@.vin,
    {
        self.vin.as_slice()
    }

    pub fn get_tx_hash(&self) -> (r: Vec<u8>)
        ensures
            r@ == self@.tx_hash,
    {
        copy_bytes(self.tx_hash.as_slice())
    }

    /// The message that input `k` signs, given the locking key of the output it spends.
    pub fn signing_payload(&self, k: usize, key: &[u8]) -> (r: Vec<u8>)
        requires
            k < self.vin@.len(),
        ensures
            r@ == signing_payload(self@, k as int, key@),
    {
        trimmed_digest(self.vin.as_slice(), self.vout.as_slice(), k, key)
    }
}

// ---- looking up spent outputs ----
/// The first transaction of a history with a given hash.
pub open spec fn find_tx(s: Seq<TxView>, h: Seq<u8>) -> Option<TxView>
    decreases s.len(),
{
    if s.len() == 0 {
        None
    } else {
        match find_tx(s.drop_last(), h) {
            Some(t) => Some(t),
            None => if s.last().tx_hash == h {
                Some(s.last())
            } else {
                None
            },
        }
    }
}

/// Once a prefix holds a transaction with the hash, the whole history finds the same.
pub proof fn lemma_find_tx_prefix(s: Seq<TxView>, n: int, h: Seq<u8>)
    requires
        0 <= n <= s.len(),
        find_tx(s.take(n), h).is_some(),
    ensures
        find_tx(s, h) == find_tx(s.take(n), h),
    decreases s.len() - n,
{
    if n < s.len() {
        assert(s.take(n + 1).drop_last() =~= s.take(n));
        lemma_find_tx_prefix(s, n + 1, h);
    } else {
        assert(s.take(n) =~= s);
    }
}

/// The output that an input spends, looked up in a history.
pub open spec fn spent_output(history: Seq<TxView>, i: TxInView) -> Option<TxOutView> {
    match find_tx(history, i.tx_hash) {
        Some(p) => if i.vout < p.vout.len() {
            Some(p.vout[i.vout as int])
        } else {
            None
        },
        None => None,
    }
}

/// Input `k` names an output of the history and its signature verifies, under
/// its public key, over its signing payload.
pub open spec fn input_verifies(history: Seq<TxView>, t: TxView, k: int) -> bool {
    match spent_output(history, t.vin[k]) {
        Some(o) => ecdsa_accepts(t.vin[k].public_key, t.vin[k].signature, signing_payload(t, k, o.key)),
        None => false,
    }
}

/// A coinbase passes unchecked; any other transaction passes when every input verifies.
pub open spec fn verify_spec(history: Seq<TxView>, t: TxView) -> bool {
    is_coinbase_spec(t) || forall|k: int| 0 <= k < t.vin.len() ==> input_verifies(history, t, k)
}

pub open spec fn inputs_resolve(history: Seq<TxView>, t: TxView) -> bool {
    forall|k: int| 0 <= k < t.vin.len() ==> (#[trigger] spent_output(history, t.vin[k])).is_some()
}

/// `s` is `t` with every input signed by the key pair whose public key is
/// `pk`, each over its signing payload, and carrying `pk`.
pub open spec fn signed_by(history: Seq<TxView>, t: TxView, s: TxView, pk: Seq<u8>) -> bool {
    &&& s.vout == t.vout
    &&& s.tx_hash == t.tx_hash
    &&& s.vin.len() == t.vin.len()
    &&& forall|k: int|
        #![trigger s.vin[k]]
        0 <= k < t.vin.len() ==> {
            &&& s.vin[k].tx_hash == t.vin[k].tx_hash
            &&& s.vin[k].vout == t.vin[k].vout
            &&& s.vin[k].public_key == pk
            &&& spent_output(history, t.vin[k]) matches Some(o) && ecdsa_accepts(
                pk,
                s.vin[k].signature,
                signing_payload(t, k, o.key),
            )
        }
}

/// A transaction signed from another verifies against the same history.
pub proof fn lemma_signed_verifies(history: Seq<TxView>, t: TxView, s: TxView, pk: Seq<u8>)
    requires
        signed_by(history, t, s, pk),
    ensures
        verify_spec(history, s),
{
    assert forall|k: int| 0 <= k < s.vin.len() implies input_verifies(history, s, k) by {
        assert(s.vin[k].tx_hash == t.vin[k].tx_hash);
        assert(spent_output(history, s.vin[k]) == spent_output(history, t.vin[k]));
        let o = spent_output(history, t.vin[k])->0;
        assert(trimmed_with_key(s.vin, k, o.key) =~= trimmed_with_key(t.vin, k, o.key));
    }
}

/// The first transaction of a list with a given hash.
pub fn find_first_tx<'a>(txs: &'a [Transaction], tx_hash: &[u8]) -> (r: Option<&'a Transaction>)
    ensures
        match r {
            Some(t) => find_tx(txs_view(txs@), tx_hash@) == Some(t@),
            None => find_tx(txs_view(txs@), tx_hash@).is_none(),
        },
{
    let ghost s = txs_view(txs@);
    let mut i: usize = 0;
    assert(s.take(0) =~= Seq::<TxView>::empty());
    while i < txs.len()
        invariant
            i <= txs@.len(),
            s == txs_view(txs@),
            find_tx(s.take(i as int), tx_hash@).is_none(),
        decreases txs@.len() - i,
    {
        proof {
            assert(s.take(i as int + 1).drop_last() =~= s.take(i as int));
            assert(s.take(i as int + 1).last() == txs@[i as int]@);
        }
        if crate::codec::bytes_eq(txs[i].tx_hash.as_slice(), tx_hash) {
            proof {
                lemma_find_tx_prefix(s, i as int + 1, tx_hash@);
            }
            return Some(&txs[i]);
        }
        i = i + 1;
    }
    assert(s.take(txs@.len() as int) =~= s);
    None
}

/// Appends copies of `src` to `dst`.
pub fn append_transactions(dst: &mut Vec<Transaction>, src: &[Transaction])
    ensures
        txs_view(final(dst)@) == txs_view(old(dst)@) + txs_view(src@),
{
    let ghost start = txs_view(dst@);
    let mut i: usize = 0;
    while i < src.len()
        invariant
            i <= src@.len(),
            txs_view(dst@) == start + txs_view(src@).take(i as int),
        decreases src@.len() - i,
    {
        let ghost before = dst@;
        dst.push(src[i].duplicate());
        proof {
            assert(dst@ == before.push(dst@.last()));
            assert(txs_view(dst@) =~= txs_view(before).push(src@[i as int]@));
            assert(txs_view(src@).take(i as int + 1) =~= txs_view(src@).take(i as int).push(src@[i as int]@));
        }
        i = i + 1;
    }
    assert(txs_view(src@).take(src@.len() as int) =~= txs_view(src@));
}

impl Transaction {
    /// Looks up the output that input `k` spends.
    fn spent_output_of<'a>(&self, chain: &'a BlockChain, k: usize) -> (r: Option<&'a TxOut>)
        requires
            chain.wf(),
            k < self.vin@.len(),
        ensures
            match r {
                Some(o) => spent_output(chain.history(), self@.vin[k as int]) == Some(o@),
                None => spent_output(chain.history(), self@.vin[k as int]).is_none(),
            },
    {
        let input = &self.vin[k];
        match chain.find_transaction_ref(input.tx_hash.as_slice()) {
            Some(prev) => {
                if input.tx_out_index < prev.vout.len() as u64 {
                    Some(&prev.vout[input.tx_out_index as usize])
                } else {
                    None
                }
            },
            None => None,
        }
    }

    /// Checks every input's signature against its public key over its signing
    /// payload; a coinbase passes unchecked.
    pub fn verify(&self, chain: &BlockChain) -> (r: bool)
        requires
            chain.wf(),
        ensures
            r == verify_spec(chain.history(), self@),
    {
        if self.is_coinbase() {
            return true;
        }
        let mut k: usize = 0;
        while k < self.vin.len()
            invariant
                chain.wf(),
                !is_coinbase_spec(self@),
                k <= self.vin@.len(),
                forall|j: int| 0 <= j < k ==> input_verifies(chain.history(), self@, j),
            decreases self.vin@.len() - k,
        {
            let o = match self.spent_output_of(chain, k) {
                Some(o) => o,
                None => {
                    assert(!input_verifies(chain.history(), self@, k as int));
                    return false;
                },
            };
            let payload = self.signing_payload(k, o.tx_public_key.as_slice());
            let input = &self.vin[k];
            assert(self@.vin[k as int] == input@);
            if !ecdsa_signature_verify(input.public_key.as_slice(), input.signature.as_slice(), payload.as_slice()) {
                assert(!input_verifies(chain.history(), self@, k as int));
                return false;
            }
            k = k + 1;
        }
        true
    }

    /// Signs every input with the PKCS#8 key pair `pkcs8`: each signature is
    /// over the input's signing payload, and each input then carries the key
    /// pair's public key. A coinbase (one input naming no earlier output) is left
    /// as it is. On an error the transaction is unchanged.
    pub fn sign(&mut self, chain: &BlockChain, pkcs8: &[u8]) -> (r: Result<(), BlockChainError>)
        requires
            chain.wf(),
        ensures
            has_sentinel_shape(old(self)@) ==> r is Ok && final(self)@ == old(self)@,
            !has_sentinel_shape(old(self)@) ==> {
                &&& (r == Err::<(), BlockChainError>(BlockChainError::InvalidTransaction) <==> !inputs_resolve(chain.history(), old(self)@))
                &&& (inputs_resolve(chain.history(), old(self)@) && public_key_of(pkcs8@).is_none()) ==> r == Err::<(), BlockChainError>(BlockChainError::InvalidSignature)
                &&& r is Ok ==> (public_key_of(pkcs8@) matches Some(pk) && signed_by(chain.history(), old(self)@, final(self)@, pk))
            },
            r is Err ==> final(self)@ == old(self)@,
            r is Err ==> r == Err::<(), BlockChainError>(BlockChainError::InvalidTransaction) || r == Err::<(), BlockChainError>(BlockChainError::InvalidSignature),
    {
        if self.has_sentinel_input() {
            return Ok(());
        }
        let ghost t = self@;
        let ghost h = chain.history();
        let mut payloads: Vec<Vec<u8>> = Vec::new();
        let mut k: usize = 0;
        while k < self.vin.len()
            invariant
                chain.wf(),
                h == chain.history(),
                self@ == t,
                t == old(self)@,
                !has_sentinel_shape(t),
                k <= self.vin@.len(),
                payloads@.len() == k,
                forall|j: int| 0 <= j < k ==> ((#[trigger] spent_output(h, t.vin[j])) matches Some(o) && payloads@[j]@ == signing_payload(t, j, o.key)),
            decreases self.vin@.len() - k,
        {
            let o = match self.spent_output_of(chain, k) {
                Some(o) => o,
                None => return Err(BlockChainError::InvalidTransaction),
            };
            payloads.push(self.signing_payload(k, o.tx_public_key.as_slice()));
            k = k + 1;
        }
        let pk = match public_key(pkcs8) {
            Some(pk) => pk,
            None => return Err(BlockChainError::InvalidSignature),
        };
        let mut sigs: Vec<Vec<u8>> = Vec::new();
        let mut k: usize = 0;
        while k < payloads.len()
            invariant
                h == chain.history(),
                self@ == t,
                t == old(self)@,
                !has_sentinel_shape(t),
                payloads@.len() == t.vin.len(),
                forall|j: int| 0 <= j < t.vin.len() ==> ((#[trigger] spent_output(h, t.vin[j])) matches Some(o) && payloads@[j]@ == signing_payload(t, j, o.key)),
                k <= payloads@.len(),
                sigs@.len() == k,
                public_key_of(pkcs8@) == Some(pk@),
                forall|j: int| 0 <= j < k ==> ecdsa_accepts(pk@, #[trigger] sigs@[j]@, payloads@[j]@),
            decreases payloads@.len() - k,
        {
            match ecdsa_signature(pkcs8, payloads[k].as_slice()) {
                Some(sig) => sigs.push(sig),
                None => return Err(BlockChainError::InvalidSignature),
            }
            k = k + 1;
        }
        let mut k: usize = 0;
        while k < sigs.len()
            invariant
                h == chain.history(),
                t == old(self)@,
                !has_sentinel_shape(t),
                public_key_of(pkcs8@) == Some(pk@),
                forall|j: int| 0 <= j < t.vin.len() ==> ((#[trigger] spent_output(h, t.vin[j])) matches Some(o) && payloads@[j]@ == signing_payload(t, j, o.key)),
                forall|j: int| 0 <= j < t.vin.len() ==> ecdsa_accepts(pk@, #[trigger] sigs@[j]@, payloads@[j]@),
                k <= sigs@.len(),
                sigs@.len() == t.vin.len(),
                payloads@.len() == t.vin.len(),
                self.vin@.len() == t.vin.len(),
                self@.vout == t.vout,
                self@.tx_hash == t.tx_hash,
                forall|j: int| 0 <= j < t.vin.len() ==> #[trigger] self@.vin[j].tx_hash == t.vin[j].tx_hash && self@.vin[j].vout == t.vin[j].vout,
                forall|j: int| k <= j < t.vin.len() ==> #[trigger] self@.vin[j] == t.vin[j],
                forall|j: int| 0 <= j < k ==> #[trigger] self@.vin[j].public_key == pk@ && self@.vin[j].signature == sigs@[j]@,
            decreases sigs@.len() - k,
        {
            let ghost before_view = self@.vin;
            assert(before_view[k as int] == t.vin[k as int]);
            let mut input = self.vin[k].duplicate();
            input.set_signature(copy_bytes(sigs[k].as_slice()));
            input.set_pub_key(pk.as_slice());
            assert(input@.tx_hash == t.vin[k as int].tx_hash && input@.vout == t.vin[k as int].vout);
            let ghost before = self.vin@;
            assert(ins_view(before) == before_view);
            self.vin.set(k, input);
            proof {
                assert(ins_view(self.vin@) =~= ins_view(before).update(k as int, self.vin@[k as int]@));
                assert forall|j: int| 0 <= j < t.vin.len() implies #[trigger] self@.vin[j].tx_hash == t.vin[j].tx_hash && self@.vin[j].vout == t.vin[j].vout by {
                    if j != k {
                        assert(self@.vin[j] == before_view[j]);
                    }
                }
                assert forall|j: int| k + 1 <= j < t.vin.len() implies #[trigger] self@.vin[j] == t.vin[j] by {
                    assert(self@.vin[j] == before_view[j]);
                }
                assert forall|j: int| 0 <= j < k + 1 implies #[trigger] self@.vin[j].public_key == pk@ && self@.vin[j].signature == sigs@[j]@ by {
                    if j != k {
                        assert(self@.vin[j] == before_view[j]);
                    }
                }
            }
            k = k + 1;
        }
        proof {
            assert forall|j: int| #![trigger self@.vin[j]] 0 <= j < t.vin.len() implies {
                &&& self@.vin[j].tx_hash == t.vin[j].tx_hash
                &&& self@.vin[j].vout == t.vin[j].vout
                &&& self@.vin[j].public_key == pk@
                &&& spent_output(h, t.vin[j]) matches Some(o) && ecdsa_accepts(
                    pk@,
                    self@.vin[j].signature,
                    signing_payload(t, j, o.key),
                )
            } by {
                assert(spent_output(h, t.vin[j]) is Some);
                assert(ecdsa_accepts(pk@, sigs@[j]@, payloads@[j]@));
            }
        }
        Ok(())
    }
}

// ---- building a payment ----
/// Unsigned inputs that spend the given outputs.
pub open spec fn spend_inputs(sel: Seq<OutKey>) -> Seq<TxInView> {
    sel.map_values(|k: OutKey| TxInView { tx_hash: k.0, vout: k.1, signature: seq![], public_key: seq![] })
}

/// The payment to `to_key`, then the change back to `from_key` when the value
/// taken exceeds the amount.
pub open spec fn spend_outputs(to_key: Seq<u8>, from_key: Seq<u8>, amount: u64, taken: nat) -> Seq<TxOutView> {
    if taken > amount {
        seq![TxOutView { value: amount, key: to_key }, TxOutView { value: (taken - amount) as u64, key: from_key }]
    } else {
        seq![TxOutView { value: amount, key: to_key }]
    }
}

/// An unsigned payment with its hash set.
pub open spec fn unsigned_spend(sel: Seq<OutKey>, outs: Seq<TxOutView>) -> TxView {
    TxView { vin: spend_inputs(sel), vout: outs, tx_hash: tx_id(spend_inputs(sel), outs) }
}

/// The key hash inside an address.
pub fn locking_key(address: &str) -> (r: Option<Vec<u8>>)
    ensures
        match r {
            Some(k) => address_key(address@) == Some(k@),
            None => address_key(address@).is_none(),
        },
{
    match TxOut::new(0, address) {
        Some(o) => Some(o.tx_public_key),
        None => None,
    }
}

impl Transaction {
    /// A payment of `amount` from `from` to `to`, signed with `wallet`'s key.
    /// The outputs locked to `from` are taken from the index in its order
    /// until they cover the amount; the transaction spends them, pays `to`,
    /// and returns any excess to `from`.
    pub fn new_utxo(
        wallet: &Wallet,
        from: &str,
        to: &str,
        amount: u64,
        utxo_set: &UTXOSet,
        chain: &BlockChain,
    ) -> (r: Result<Transaction, BlockChainError>)
        requires
            chain.wf(),
        ensures
            address_key(from@).is_none() || address_key(to@).is_none() ==> r == Err::<Transaction, BlockChainError>(BlockChainError::InvalidAddress),
            address_key(from@).is_some() && address_key(to@).is_some() ==> {
                let fk = address_key(from@)->0;
                let tk = address_key(to@)->0;
                let taken = select(utxo_set@, fk, amount).0;
                let sel = select(utxo_set@, fk, amount).1;
                let u = unsigned_spend(sel, spend_outputs(tk, fk, amount, taken));
                &&& taken < amount ==> r == Err::<Transaction, BlockChainError>(BlockChainError::InsufficientFunds)
                &&& taken >= amount ==> (r is Ok || r == Err::<Transaction, BlockChainError>(BlockChainError::InvalidTransaction)
                    || r == Err::<Transaction, BlockChainError>(BlockChainError::InvalidSignature))
                &&& taken >= amount && !inputs_resolve(chain.history(), u) && !has_sentinel_shape(u)
                    ==> r == Err::<Transaction, BlockChainError>(BlockChainError::InvalidTransaction)
                &&& r matches Ok(t) ==> if has_sentinel_shape(u) {
                    t@ == u
                } else {
                    public_key_of(wallet.personal_key@) matches Some(pk) && signed_by(chain.history(), u, t@, pk)
                }
            },
    {
        let from_key = match locking_key(from) {
            Some(k) => k,
            None => return Err(BlockChainError::InvalidAddress),
        };
        let pay = match TxOut::new(amount, to) {
            Some(o) => o,
            None => return Err(BlockChainError::InvalidAddress),
        };
        let ghost tk = pay@.key;
        let (taken, picked) = utxo_set.find_spendable_outputs(from_key.as_slice(), amount);
        if taken < amount as u128 {
            return Err(BlockChainError::InsufficientFunds);
        }
        let ghost sel = points_view(picked@);
        let mut inputs: Vec<TxIn> = Vec::new();
        let empty: Vec<u8> = Vec::new();
        let mut i: usize = 0;
        while i < picked.len()
            invariant
                i <= picked@.len(),
                sel == points_view(picked@),
                empty@.len() == 0,
                inputs@.len() == i,
                forall|j: int| 0 <= j < i ==> #[trigger] inputs@[j]@ == spend_inputs(sel)[j],
            decreases picked@.len() - i,
        {
            let p = &picked[i];
            inputs.push(TxIn::new(copy_bytes(p.tx_hash.as_slice()), p.index, empty.as_slice()));
            proof {
                assert(empty@ =~= Seq::<u8>::empty());
                assert(sel[i as int] == p@);
            }
            i = i + 1;
        }
        assert(ins_view(inputs@) =~= spend_inputs(sel));
        proof {
            lemma_select_bound(utxo_set@, from_key@, amount);
        }
        let mut outputs: Vec<TxOut> = Vec::new();
        outputs.push(pay);
        if taken > amount as u128 {
            outputs.push(TxOut::with_key((taken - amount as u128) as u64, from_key.as_slice()));
        }
        assert(outs_view(outputs@) =~= spend_outputs(tk, from_key@, amount, taken as nat));
        let mut tx = Transaction { vin: inputs, vout: outputs, tx_hash: Vec::new() };
        tx.set_tx_hash();
        assert(tx@ == unsigned_spend(sel, spend_outputs(tk, from_key@, amount, taken as nat)));
        match tx.sign(chain, wallet.personal_key.as_slice()) {
            Ok(_) => Ok(tx),
            Err(e) => Err(e),
        }
    }
}

} // verus!
