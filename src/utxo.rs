//! The unspent-output index: every output that no input of the chain spends,
//! kept sorted by transaction hash (bytewise) and then output index.

use vstd::prelude::*;
use crate::codec::{bytes_eq, copy_bytes};
use crate::transaction::{txs_view, Transaction, TxOut, TxOutView, TxView};

verus! {

/// An output named by its transaction's hash and its index in that transaction.
pub type OutKey = (Seq<u8>, u64);

pub struct OutPoint {
    pub tx_hash: Vec<u8>,
    pub index: u64,
}

impl View for OutPoint {
    type V = OutKey;

    open spec fn view(&self) -> OutKey {
        (self.tx_hash@, self.index)
    }
}

/// An unspent output with the place it was created.
pub struct Utxo {
    pub tx_hash: Vec<u8>,
    pub index: u64,
    pub output: TxOut,
}

pub struct UtxoView {
    pub key: OutKey,
    pub out: TxOutView,
}

impl View for Utxo {
    type V = UtxoView;

    open spec fn view(&self) -> UtxoView {
        UtxoView { key: (self.tx_hash@, self.index), out: self.output@ }
    }
}

pub open spec fn utxos_view(v: Seq<Utxo>) -> Seq<UtxoView> {
    v.map_values(|u: Utxo| u@)
}

pub open spec fn points_view(v: Seq<OutPoint>) -> Seq<OutKey> {
    v.map_values(|p: OutPoint| p@)
}

// ---- order ----
/// Bytewise lexicographic order; a proper prefix comes first.
pub open spec fn bytes_lt(a: Seq<u8>, b: Seq<u8>) -> bool
    decreases a.len(),
{
    if a.len() == 0 {
        b.len() > 0
    } else if b.len() == 0 {
        false
    } else if a[0] != b[0] {
        a[0] < b[0]
    } else {
        bytes_lt(a.drop_first(), b.drop_first())
    }
}

/// Order by transaction hash, then by output index.
pub open spec fn key_lt(a: OutKey, b: OutKey) -> bool {
    bytes_lt(a.0, b.0) || (a.0 == b.0 && a.1 < b.1)
}

pub open spec fn sorted(v: Seq<UtxoView>) -> bool {
    forall|i: int, j: int| 0 <= i < j < v.len() ==> key_lt(#[trigger] v[i].key, #[trigger] v[j].key)
}

pub proof fn lemma_bytes_lt_irreflexive(a: Seq<u8>)
    ensures
        !bytes_lt(a, a),
    decreases a.len(),
{
    if a.len() > 0 {
        lemma_bytes_lt_irreflexive(a.drop_first());
    }
}

pub proof fn lemma_bytes_lt_trans(a: Seq<u8>, b: Seq<u8>, c: Seq<u8>)
    requires
        bytes_lt(a, b),
        bytes_lt(b, c),
    ensures
        bytes_lt(a, c),
    decreases a.len(),
{
    if a.len() > 0 && b.len() > 0 && c.len() > 0 {
        if a[0] == b[0] && b[0] == c[0] {
            lemma_bytes_lt_trans(a.drop_first(), b.drop_first(), c.drop_first());
        }
    }
}

pub proof fn lemma_bytes_lt_total(a: Seq<u8>, b: Seq<u8>)
    ensures
        a == b || bytes_lt(a, b) || bytes_lt(b, a),
    decreases a.len(),
{
    if a.len() > 0 && b.len() > 0 && a[0] == b[0] {
        lemma_bytes_lt_total(a.drop_first(), b.drop_first());
        if a.drop_first() == b.drop_first() {
            assert(a =~= seq![a[0]] + a.drop_first());
            assert(b =~= seq![b[0]] + b.drop_first());
        }
    } else if a.len() == 0 && b.len() == 0 {
        assert(a =~= b);
    }
}

pub proof fn lemma_key_lt_trans(a: OutKey, b: OutKey, c: OutKey)
    requires
        key_lt(a, b),
        key_lt(b, c),
    ensures
        key_lt(a, c),
{
    if bytes_lt(a.0, b.0) && bytes_lt(b.0, c.0) {
        lemma_bytes_lt_trans(a.0, b.0, c.0);
    }
}

pub proof fn lemma_key_lt_total(a: OutKey, b: OutKey)
    ensures
        a == b || key_lt(a, b) || key_lt(b, a),
{
    lemma_bytes_lt_total(a.0, b.0);
}

pub proof fn lemma_key_lt_irreflexive(a: OutKey)
    ensures
        !key_lt(a, a),
{
    lemma_bytes_lt_irreflexive(a.0);
}

/// Whether `a` orders before `b` bytewise.
pub fn bytes_less(a: &[u8], b: &[u8]) -> (r: bool)
    ensures
        r == bytes_lt(a@, b@),
{
    let mut i: usize = 0;
    assert(a@.skip(0) =~= a@);
    assert(b@.skip(0) =~= b@);
    while i < a.len() && i < b.len()
        invariant
            i <= a@.len(),
            i <= b@.len(),
            bytes_lt(a@, b@) == bytes_lt(a@.skip(i as int), b@.skip(i as int)),
        decreases a@.len() - i,
    {
        if a[i] != b[i] {
            return a[i] < b[i];
        }
        proof {
            assert(a@.skip(i as int).drop_first() =~= a@.skip(i as int + 1));
            assert(b@.skip(i as int).drop_first() =~= b@.skip(i as int + 1));
        }
        i = i + 1;
    }
    i == a.len() && i < b.len()
}

/// Whether key `(h1, i1)` orders before key `(h2, i2)`.
pub fn key_less(h1: &[u8], i1: u64, h2: &[u8], i2: u64) -> (r: bool)
    ensures
        r == key_lt((h1@, i1), (h2@, i2)),
{
    if bytes_less(h1, h2) {
        true
    } else {
        bytes_eq(h1, h2) && i1 < i2
    }
}

// ---- what the index holds ----
/// Whether some input of the transactions spends output `j` of transaction `h`.
pub open spec fn spends(s: Seq<TxView>, h: Seq<u8>, j: u64) -> bool {
    exists|k: int, i: int|
        0 <= k < s.len() && 0 <= i < s[k].vin.len() && #[trigger] s[k].vin[i].tx_hash == h
            && s[k].vin[i].vout == j
}

/// Records the first `n` outputs of `t` that no input of `all` spends, unless
/// their key is already recorded.
pub open spec fn add_outputs(
    m: Map<OutKey, TxOutView>,
    t: TxView,
    all: Seq<TxView>,
    n: nat,
) -> Map<OutKey, TxOutView>
    decreases n,
{
    if n == 0 {
        m
    } else {
        let m1 = add_outputs(m, t, all, (n - 1) as nat);
        let key = (t.tx_hash, (n - 1) as u64);
        if !spends(all, t.tx_hash, (n - 1) as u64) && !m1.contains_key(key) {
            m1.insert(key, t.vout[n - 1])
        } else {
            m1
        }
    }
}

/// The unspent outputs of the transactions `p`, spends taken from `all`.
pub open spec fn utxo_fold(p: Seq<TxView>, all: Seq<TxView>) -> Map<OutKey, TxOutView>
    decreases p.len(),
{
    if p.len() == 0 {
        Map::empty()
    } else {
        add_outputs(utxo_fold(p.drop_last(), all), p.last(), all, p.last().vout.len())
    }
}

/// The unspent outputs of a transaction history: walking it in order, each
/// output that no input spends, under its transaction hash and index (the
/// first transaction with a hash gives the outputs under that hash).
pub open spec fn utxo_map(all: Seq<TxView>) -> Map<OutKey, TxOutView> {
    utxo_fold(all, all)
}

/// A sorted sequence that holds exactly the entries of a map.
pub open spec fn represents(v: Seq<UtxoView>, m: Map<OutKey, TxOutView>) -> bool {
    &&& sorted(v)
    &&& forall|i: int| 0 <= i < v.len() ==> #[trigger] m.contains_key(v[i].key) && m[v[i].key] == v[i].out
    &&& forall|k: OutKey| #[trigger] m.contains_key(k) ==> exists|i: int| 0 <= i < v.len() && v[i].key == k
}

/// Two sorted sequences that represent one map are equal.
pub proof fn lemma_represents_unique(v: Seq<UtxoView>, w: Seq<UtxoView>, m: Map<OutKey, TxOutView>)
    requires
        represents(v, m),
        represents(w, m),
    ensures
        v == w,
    decreases v.len() + w.len(),
{
    if v.len() == 0 {
        if w.len() > 0 {
            assert(m.contains_key(w[0].key));
        }
        assert(v =~= w);
    } else if w.len() == 0 {
        assert(m.contains_key(v[0].key));
    } else {
        let a = v.last().key;
        let b = w.last().key;
        assert(m.contains_key(a));
        assert(m.contains_key(b));
        let ia = choose|i: int| 0 <= i < w.len() && w[i].key == a;
        let ib = choose|i: int| 0 <= i < v.len() && v[i].key == b;
        lemma_key_lt_total(a, b);
        if key_lt(a, b) {
            if ib < v.len() - 1 {
                assert(key_lt(v[ib].key, v[v.len() - 1].key));
                lemma_key_lt_trans(b, a, b);
                lemma_key_lt_irreflexive(b);
            } else {
                lemma_key_lt_irreflexive(a);
            }
        } else if key_lt(b, a) {
            if ia < w.len() - 1 {
                assert(key_lt(w[ia].key, w[w.len() - 1].key));
                lemma_key_lt_trans(a, b, a);
                lemma_key_lt_irreflexive(a);
            } else {
                lemma_key_lt_irreflexive(b);
            }
        } else {
            let m1 = m.remove(a);
            let v1 = v.drop_last();
            let w1 = w.drop_last();
            assert forall|i: int| 0 <= i < v1.len() implies #[trigger] m1.contains_key(v1[i].key)
                && m1[v1[i].key] == v1[i].out by {
                assert(key_lt(v[i].key, v[v.len() - 1].key));
                lemma_key_lt_irreflexive(a);
            }
            assert forall|k: OutKey| #[trigger] m1.contains_key(k) implies exists|i: int|
                0 <= i < v1.len() && v1[i].key == k by {
                let i = choose|i: int| 0 <= i < v.len() && v[i].key == k;
                assert(v1[i].key == k);
            }
            assert forall|i: int| 0 <= i < w1.len() implies #[trigger] m1.contains_key(w1[i].key)
                && m1[w1[i].key] == w1[i].out by {
                assert(key_lt(w[i].key, w[w.len() - 1].key));
                lemma_key_lt_irreflexive(a);
            }
            assert forall|k: OutKey| #[trigger] m1.contains_key(k) implies exists|i: int|
                0 <= i < w1.len() && w1[i].key == k by {
                let i = choose|i: int| 0 <= i < w.len() && w[i].key == k;
                assert(w1[i].key == k);
            }
            lemma_represents_unique(v1, w1, m1);
            assert(v =~= w1.push(w.last()));
            assert(w =~= w1.push(w.last()));
        }
    }
}

// ---- building the index ----
/// Whether some input of `history` spends output `j` of transaction `h`.
pub fn is_spent(history: &[Transaction], h: &[u8], j: u64) -> (r: bool)
    ensures
        r == spends(txs_view(history@), h@, j),
{
    let ghost s = txs_view(history@);
    let mut k: usize = 0;
    while k < history.len()
        invariant
            k <= history@.len(),
            s == txs_view(history@),
            forall|k2: int, i2: int|
                0 <= k2 < k && 0 <= i2 < s[k2].vin.len() ==> !(#[trigger] s[k2].vin[i2].tx_hash == h@
                    && s[k2].vin[i2].vout == j),
        decreases history@.len() - k,
    {
        let vin = &history[k].vin;
        let mut i: usize = 0;
        while i < vin.len()
            invariant
                k < history@.len(),
                i <= vin@.len(),
                s == txs_view(history@),
                vin@ == history@[k as int].vin@,
                forall|k2: int, i2: int|
                    0 <= k2 < k && 0 <= i2 < s[k2].vin.len() ==> !(#[trigger] s[k2].vin[i2].tx_hash
                        == h@ && s[k2].vin[i2].vout == j),
                forall|i2: int|
                    0 <= i2 < i ==> !(#[trigger] s[k as int].vin[i2].tx_hash == h@ && s[k as int].vin[i2].vout
                        == j),
            decreases vin@.len() - i,
        {
            if vin[i].tx_out_index == j && bytes_eq(vin[i].tx_hash.as_slice(), h) {
                assert(s[k as int].vin[i as int].tx_hash == h@);
                return true;
            }
            i = i + 1;
        }
        k = k + 1;
    }
    false
}

/// Whether the index holds key `(h, j)`.
fn holds_key(v: &[Utxo], h: &[u8], j: u64) -> (r: bool)
    ensures
        r == exists|i: int| 0 <= i < v@.len() && (#[trigger] v@[i]@).key == (h@, j),
{
    let mut i: usize = 0;
    while i < v.len()
        invariant
            i <= v@.len(),
            forall|i2: int| 0 <= i2 < i ==> (#[trigger] v@[i2]@).key != (h@, j),
        decreases v@.len() - i,
    {
        if v[i].index == j && bytes_eq(v[i].tx_hash.as_slice(), h) {
            assert(v@[i as int]@.key == (h@, j));
            return true;
        }
        i = i + 1;
    }
    false
}

/// Inserts an entry whose key the map lacks at its place in the order.
fn insert_sorted(v: &mut Vec<Utxo>, e: Utxo, Ghost(m): Ghost<Map<OutKey, TxOutView>>)
    requires
        represents(utxos_view(old(v)@), m),
        !m.contains_key(e@.key),
    ensures
        represents(utxos_view(final(v)@), m.insert(e@.key, e@.out)),
{
    let ghost old_v = utxos_view(v@);
    let mut p: usize = 0;
    while p < v.len() && key_less(v[p].tx_hash.as_slice(), v[p].index, e.tx_hash.as_slice(), e.index)
        invariant
            p <= v@.len(),
            old_v == utxos_view(v@),
            forall|i: int| 0 <= i < p ==> key_lt(#[trigger] old_v[i].key, e@.key),
        decreases v@.len() - p,
    {
        p = p + 1;
    }
    let ghost k = e@.key;
    proof {
        if p < old_v.len() {
            assert(m.contains_key(old_v[p as int].key));
            lemma_key_lt_total(old_v[p as int].key, k);
        }
    }
    v.insert(p, e);
    let ghost w = utxos_view(v@);
    let ghost m2 = m.insert(k, w[p as int].out);
    proof {
        assert(w =~= old_v.insert(p as int, w[p as int]));
        assert forall|i: int, j: int| 0 <= i < j < w.len() implies key_lt(#[trigger] w[i].key, #[trigger] w[j].key) by {
            if j < p {
            } else if j == p {
            } else if i == p {
                if j - 1 > p {
                    assert(key_lt(old_v[p as int].key, old_v[j - 1].key));
                    lemma_key_lt_trans(k, old_v[p as int].key, old_v[j - 1].key);
                }
            } else if i < p {
                assert(key_lt(old_v[i].key, old_v[j - 1].key));
            } else {
                assert(key_lt(old_v[i - 1].key, old_v[j - 1].key));
            }
        }
        assert forall|i: int| 0 <= i < w.len() implies #[trigger] m2.contains_key(w[i].key) && m2[w[i].key] == w[i].out by {
            if i < p {
                assert(m.contains_key(old_v[i].key));
            } else if i > p {
                assert(m.contains_key(old_v[i - 1].key));
            }
        }
        assert forall|kk: OutKey| #[trigger] m2.contains_key(kk) implies exists|i: int| 0 <= i < w.len() && w[i].key == kk by {
            if kk == k {
                assert(w[p as int].key == kk);
            } else {
                assert(m.contains_key(kk));
                let i = choose|i: int| 0 <= i < old_v.len() && old_v[i].key == kk;
                if i < p {
                    assert(w[i].key == kk);
                } else {
                    assert(w[i + 1].key == kk);
                }
            }
        }
    }
}

pub proof fn lemma_add_outputs_step(m: Map<OutKey, TxOutView>, t: TxView, all: Seq<TxView>, n: nat)
    ensures
        add_outputs(m, t, all, n + 1) == ({
            let m1 = add_outputs(m, t, all, n);
            let key = (t.tx_hash, n as u64);
            if !spends(all, t.tx_hash, n as u64) && !m1.contains_key(key) {
                m1.insert(key, t.vout[n as int])
            } else {
                m1
            }
        }),
{
}

/// The unspent outputs of a history, sorted.
pub fn collect_unspent(history: &[Transaction]) -> (r: Vec<Utxo>)
    ensures
        represents(utxos_view(r@), utxo_map(txs_view(history@))),
{
    let ghost all = txs_view(history@);
    let mut v: Vec<Utxo> = Vec::new();
    let mut k: usize = 0;
    while k < history.len()
        invariant
            k <= history@.len(),
            all == txs_view(history@),
            represents(utxos_view(v@), utxo_fold(all.take(k as int), all)),
        decreases history@.len() - k,
    {
        let t = &history[k];
        let ghost m0 = utxo_fold(all.take(k as int), all);
        let mut j: usize = 0;
        while j < t.vout.len()
            invariant
                k < history@.len(),
                j <= t.vout@.len(),
                all == txs_view(history@),
                *t == history@[k as int],
                m0 == utxo_fold(all.take(k as int), all),
                represents(utxos_view(v@), add_outputs(m0, all[k as int], all, j as nat)),
            decreases t.vout@.len() - j,
        {
            let ghost m1 = add_outputs(m0, all[k as int], all, j as nat);
            proof {
                lemma_add_outputs_step(m0, all[k as int], all, j as nat);
            }
            if !is_spent(history, t.tx_hash.as_slice(), j as u64) && !holds_key(
                v.as_slice(),
                t.tx_hash.as_slice(),
                j as u64,
            ) {
                let e = Utxo {
                    tx_hash: copy_bytes(t.tx_hash.as_slice()),
                    index: j as u64,
                    output: t.vout[j].duplicate(),
                };
                proof {
                    if m1.contains_key(e@.key) {
                        let i = choose|i: int| 0 <= i < utxos_view(v@).len() && utxos_view(v@)[i].key == e@.key;
                        assert(v@[i]@.key == e@.key);
                    }
                }
                insert_sorted(&mut v, e, Ghost(m1));
            } else {
                proof {
                    if !spends(all, t.tx_hash@, j as u64) {
                        let i = choose|i: int| 0 <= i < v@.len() && (#[trigger] v@[i]@).key == (t.tx_hash@, j as u64);
                        assert(utxos_view(v@)[i].key == (t.tx_hash@, j as u64));
                    }
                }
            }
            j = j + 1;
        }
        proof {
            assert(all.take(k as int + 1).drop_last() =~= all.take(k as int));
        }
        k = k + 1;
    }
    assert(all.take(history@.len() as int) =~= all);
    v
}

// ---- the index and its queries ----
/// Greedy selection in index order: each output locked to `key` is taken
/// while the value taken so far is below `amount`. Gives the value taken and
/// the keys of the outputs taken.
pub open spec fn select(v: Seq<UtxoView>, key: Seq<u8>, amount: u64) -> (nat, Seq<OutKey>)
    decreases v.len(),
{
    if v.len() == 0 {
        (0, seq![])
    } else {
        let (acc, sel) = select(v.drop_last(), key, amount);
        let e = v.last();
        if e.out.key == key && acc < amount {
            ((acc + e.out.value) as nat, sel.push(e.key))
        } else {
            (acc, sel)
        }
    }
}

/// The total value of the outputs locked to `key`.
pub open spec fn balance(v: Seq<UtxoView>, key: Seq<u8>) -> nat
    decreases v.len(),
{
    if v.len() == 0 {
        0
    } else {
        balance(v.drop_last(), key) + if v.last().out.key == key {
            v.last().out.value as nat
        } else {
            0
        }
    }
}

pub proof fn lemma_select_bound(v: Seq<UtxoView>, key: Seq<u8>, amount: u64)
    ensures
        select(v, key, amount).0 < amount + 0x1_0000_0000_0000_0000,
    decreases v.len(),
{
    if v.len() > 0 {
        lemma_select_bound(v.drop_last(), key, amount);
    }
}

pub struct UTXOSet {
    entries: Vec<Utxo>,
}

impl View for UTXOSet {
    type V = Seq<UtxoView>;

    closed spec fn view(&self) -> Seq<UtxoView> {
        utxos_view(self.entries@)
    }
}

impl UTXOSet {
    /// The entries are in index order, no key twice.
    pub open spec fn wf(&self) -> bool {
        sorted(self@)
    }

    /// An empty index.
    pub fn new() -> (r: Self)
        ensures
            r.wf(),
            r@.len() == 0,
            represents(r@, Map::empty()),
    {
        let r = UTXOSet { entries: Vec::new() };
        assert(r@ =~= Seq::<UtxoView>::empty());
        r
    }

    /// An index over the unspent outputs of a history.
    pub fn from_history(history: &[Transaction]) -> (r: Self)
        ensures
            r.wf(),
            represents(r@, utxo_map(txs_view(history@))),
    {
        UTXOSet { entries: collect_unspent(history) }
    }

    /// An index over entries already sorted.
    pub fn from_utxos(entries: Vec<Utxo>, Ghost(m): Ghost<Map<OutKey, TxOutView>>) -> (r: Self)
        requires
            represents(utxos_view(entries@), m),
        ensures
            r.wf(),
            represents(r@, m),
            r@ == utxos_view(entries@),
    {
        UTXOSet { entries }
    }

    /// Replaces the whole index with the unspent outputs of a history.
    pub fn rebuild(&mut self, history: &[Transaction])
        ensures
            final(self).wf(),
            represents(final(self)@, utxo_map(txs_view(history@))),
    {
        self.clear_utxo_set();
        self.entries = collect_unspent(history);
    }

    pub fn clear_utxo_set(&mut self)
        ensures
            final(self).wf(),
            final(self)@.len() == 0,
    {
        self.entries = Vec::new();
        assert(self@ =~= Seq::<UtxoView>::empty());
    }

    /// Whether the index holds output `index` of transaction `tx_hash`.
    pub fn contains(&self, tx_hash: &[u8], index: u64) -> (r: bool)
        ensures
            r == exists|i: int| 0 <= i < self@.len() && (#[trigger] self@[i]).key == (tx_hash@, index),
    {
        let r = holds_key(self.entries.as_slice(), tx_hash, index);
        proof {
            if r {
                let i = choose|i: int| 0 <= i < self.entries@.len() && (#[trigger] self.entries@[i]@).key == (tx_hash@, index);
                assert(self@[i].key == (tx_hash@, index));
            } else {
                assert forall|i: int| 0 <= i < self@.len() implies (#[trigger] self@[i]).key != (tx_hash@, index) by {
                    assert(self@[i] == self.entries@[i]@);
                }
            }
        }
        r
    }

    /// The entries in index order.
    pub fn get_utxo_set(&self) -> (r: &[Utxo])
        ensures
            utxos_view(r@) == self@,
    {
        self.entries.as_slice()
    }

    /// Selects outputs locked to `public_key_hash` in index order until their
    /// value reaches `amount`; gives the value selected and the selected outputs.
    /// Fewer than `amount` means the whole index did not cover it.
    pub fn find_spendable_outputs(&self, public_key_hash: &[u8], amount: u64) -> (r: (u128, Vec<OutPoint>))
        ensures
            r.0 == select(self@, public_key_hash@, amount).0,
            points_view(r.1@) == select(self@, public_key_hash@, amount).1,
    {
        let ghost v = self@;
        let mut acc: u128 = 0;
        let mut picked: Vec<OutPoint> = Vec::new();
        let mut i: usize = 0;
        while i < self.entries.len()
            invariant
                i <= self.entries@.len(),
                v == self@,
                v == utxos_view(self.entries@),
                acc == select(v.take(i as int), public_key_hash@, amount).0,
                points_view(picked@) == select(v.take(i as int), public_key_hash@, amount).1,
            decreases self.entries@.len() - i,
        {
            let e = &self.entries[i];
            proof {
                assert(v.take(i as int + 1).drop_last() =~= v.take(i as int));
                lemma_select_bound(v.take(i as int), public_key_hash@, amount);
            }
            if acc < amount as u128 && e.output.is_locked(public_key_hash) {
                acc = acc + e.output.bitcoin_value as u128;
                let ghost before = points_view(picked@);
                picked.push(OutPoint { tx_hash: copy_bytes(e.tx_hash.as_slice()), index: e.index });
                assert(points_view(picked@) =~= before.push(v[i as int].key));
            }
            i = i + 1;
        }
        assert(v.take(self.entries@.len() as int) =~= v);
        (acc, picked)
    }

    /// The total value locked to `public_key_hash`.
    pub fn get_balance(&self, public_key_hash: &[u8]) -> (r: u128)
        ensures
            r == balance(self@, public_key_hash@),
    {
        let ghost v = self@;
        let mut total: u128 = 0;
        let mut i: usize = 0;
        while i < self.entries.len()
            invariant
                i <= self.entries@.len(),
                v == utxos_view(self.entries@),
                total == balance(v.take(i as int), public_key_hash@),
                total <= i * 0xFFFF_FFFF_FFFF_FFFFnat,
            decreases self.entries@.len() - i,
        {
            let e = &self.entries[i];
            proof {
                assert(v.take(i as int + 1).drop_last() =~= v.take(i as int));
            }
            if e.output.is_locked(public_key_hash) {
                proof {
                    assert(i * 0xFFFF_FFFF_FFFF_FFFFnat + 0xFFFF_FFFF_FFFF_FFFFnat < 0x1_0000_0000_0000_0000_0000_0000_0000_0000) by (nonlinear_arith)
                        requires
                            i < 0x1_0000_0000_0000_0000,
                    ;
                }
                total = total + e.output.bitcoin_value as u128;
            }
            i = i + 1;
        }
        assert(v.take(self.entries@.len() as int) =~= v);
        total
    }
}

/// Whether a list of outputs holds `(h, j)`.
pub fn contains_point(v: &[OutPoint], h: &[u8], j: u64) -> (r: bool)
    ensures
        r == points_view(v@).contains((h@, j)),
{
    let mut i: usize = 0;
    while i < v.len()
        invariant
            i <= v@.len(),
            forall|i2: int| 0 <= i2 < i ==> (#[trigger] v@[i2]@) != (h@, j),
        decreases v@.len() - i,
    {
        if v[i].index == j && bytes_eq(v[i].tx_hash.as_slice(), h) {
            assert(points_view(v@)[i as int] == (h@, j));
            return true;
        }
        i = i + 1;
    }
    proof {
        if points_view(v@).contains((h@, j)) {
            let k = choose|k: int| 0 <= k < points_view(v@).len() && points_view(v@)[k] == (h@, j);
            assert(v@[k]@ == (h@, j));
        }
    }
    false
}

} // verus!
