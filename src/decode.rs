//! Reading the canonical bytes back. Each reader takes bytes and a position
//! and gives the value found there and the position after it; a block is
//! read only from bytes that are exactly its encoding.

use vstd::prelude::*;
use crate::block::{block_bytes, header_bytes, Block, BlockHeader, BlockView, HeaderView};
use crate::codec::{field_bytes, u32_bytes, u64_bytes};
use crate::transaction::{
    inputs_bytes, ins_view, outputs_bytes, outs_view, tx_bytes, tx_list_bytes, txin_bytes,
    txout_bytes, txs_bytes, txs_view, Transaction, TxIn, TxInView, TxOut, TxOutView, TxView,
};

verus! {

/// `e` stands in `b` from position `pos` on.
pub open spec fn at(b: Seq<u8>, pos: int, e: Seq<u8>) -> bool {
    0 <= pos && pos + e.len() <= b.len() && b.subrange(pos, pos + e.len()) == e
}

pub proof fn lemma_at_concat(b: Seq<u8>, pos: int, e1: Seq<u8>, e2: Seq<u8>)
    ensures
        at(b, pos, e1 + e2) <==> (at(b, pos, e1) && at(b, pos + e1.len(), e2)),
{
    if at(b, pos, e1 + e2) {
        let s = b.subrange(pos, pos + e1.len() + e2.len());
        assert forall|i: int| 0 <= i < e1.len() implies b[pos + i] == e1[i] by {
            assert(s[i] == b[pos + i]);
            assert((e1 + e2)[i] == e1[i]);
        }
        assert forall|i: int| 0 <= i < e2.len() implies b[pos + e1.len() + i] == e2[i] by {
            assert(s[e1.len() + i] == b[pos + e1.len() + i]);
            assert((e1 + e2)[e1.len() + i] == e2[i]);
        }
        assert(b.subrange(pos, pos + e1.len()) =~= e1);
        assert(b.subrange(pos + e1.len(), pos + e1.len() + e2.len()) =~= e2);
    }
    if at(b, pos, e1) && at(b, pos + e1.len(), e2) {
        assert(b.subrange(pos, pos + (e1 + e2).len()) =~= e1 + e2);
    }
}

pub open spec fn be_u64_of(b0: u8, b1: u8, b2: u8, b3: u8, b4: u8, b5: u8, b6: u8, b7: u8) -> u64 {
    ((b0 as u64) << 56u64) | ((b1 as u64) << 48u64) | ((b2 as u64) << 40u64) | ((b3 as u64) << 32u64)
        | ((b4 as u64) << 24u64) | ((b5 as u64) << 16u64) | ((b6 as u64) << 8u64) | (b7 as u64)
}

pub open spec fn be_u32_of(b0: u8, b1: u8, b2: u8, b3: u8) -> u32 {
    ((b0 as u32) << 24u32) | ((b1 as u32) << 16u32) | ((b2 as u32) << 8u32) | (b3 as u32)
}

#[verifier::opaque]
pub open spec fn read_u64(b: Seq<u8>, pos: int) -> Option<(u64, int)> {
    if 0 <= pos && pos + 8 <= b.len() {
        Some(
            (
                be_u64_of(b[pos], b[pos + 1], b[pos + 2], b[pos + 3], b[pos + 4], b[pos + 5], b[pos + 6], b[pos + 7]),
                pos + 8,
            ),
        )
    } else {
        None
    }
}

#[verifier::opaque]
pub open spec fn read_u32(b: Seq<u8>, pos: int) -> Option<(u32, int)> {
    if 0 <= pos && pos + 4 <= b.len() {
        Some((be_u32_of(b[pos], b[pos + 1], b[pos + 2], b[pos + 3]), pos + 4))
    } else {
        None
    }
}

#[verifier::opaque]
pub open spec fn read_field(b: Seq<u8>, pos: int) -> Option<(Seq<u8>, int)> {
    match read_u64(b, pos) {
        Some((n, p)) => if p + n <= b.len() {
            Some((b.subrange(p, p + n), p + n))
        } else {
            None
        },
        None => None,
    }
}

proof fn lemma_u64_bits(x: u64)
    ensures
        be_u64_of(
            (x >> 56u64) as u8,
            (x >> 48u64) as u8,
            (x >> 40u64) as u8,
            (x >> 32u64) as u8,
            (x >> 24u64) as u8,
            (x >> 16u64) as u8,
            (x >> 8u64) as u8,
            x as u8,
        ) == x,
{
    assert(((((x >> 56u64) as u8) as u64) << 56u64) | ((((x >> 48u64) as u8) as u64) << 48u64) | ((((x
        >> 40u64) as u8) as u64) << 40u64) | ((((x >> 32u64) as u8) as u64) << 32u64) | ((((x >> 24u64)
        as u8) as u64) << 24u64) | ((((x >> 16u64) as u8) as u64) << 16u64) | ((((x >> 8u64) as u8)
        as u64) << 8u64) | ((x as u8) as u64) == x) by (bit_vector);
}

proof fn lemma_u64_bytes_of(b0: u8, b1: u8, b2: u8, b3: u8, b4: u8, b5: u8, b6: u8, b7: u8)
    ensures
        u64_bytes(be_u64_of(b0, b1, b2, b3, b4, b5, b6, b7)) == seq![b0, b1, b2, b3, b4, b5, b6, b7],
{
    let x = be_u64_of(b0, b1, b2, b3, b4, b5, b6, b7);
    assert((x >> 56u64) as u8 == b0 && (x >> 48u64) as u8 == b1 && (x >> 40u64) as u8 == b2 && (x
        >> 32u64) as u8 == b3 && (x >> 24u64) as u8 == b4 && (x >> 16u64) as u8 == b5 && (x >> 8u64)
        as u8 == b6 && x as u8 == b7) by (bit_vector)
        requires
            x == ((b0 as u64) << 56u64) | ((b1 as u64) << 48u64) | ((b2 as u64) << 40u64) | ((b3 as u64)
                << 32u64) | ((b4 as u64) << 24u64) | ((b5 as u64) << 16u64) | ((b6 as u64) << 8u64) | (b7
                as u64),
    ;
    assert(u64_bytes(x) =~= seq![b0, b1, b2, b3, b4, b5, b6, b7]);
}

proof fn lemma_u32_bits(x: u32)
    ensures
        be_u32_of((x >> 24u32) as u8, (x >> 16u32) as u8, (x >> 8u32) as u8, x as u8) == x,
{
    assert(((((x >> 24u32) as u8) as u32) << 24u32) | ((((x >> 16u32) as u8) as u32) << 16u32) | ((((x
        >> 8u32) as u8) as u32) << 8u32) | ((x as u8) as u32) == x) by (bit_vector);
}

proof fn lemma_u32_bytes_of(b0: u8, b1: u8, b2: u8, b3: u8)
    ensures
        u32_bytes(be_u32_of(b0, b1, b2, b3)) == seq![b0, b1, b2, b3],
{
    let x = be_u32_of(b0, b1, b2, b3);
    assert((x >> 24u32) as u8 == b0 && (x >> 16u32) as u8 == b1 && (x >> 8u32) as u8 == b2 && x as u8
        == b3) by (bit_vector)
        requires
            x == ((b0 as u32) << 24u32) | ((b1 as u32) << 16u32) | ((b2 as u32) << 8u32) | (b3 as u32),
    ;
    assert(u32_bytes(x) =~= seq![b0, b1, b2, b3]);
}

/// What `read_u64` finds is the encoding of what it gives, and it finds the
/// encoding of any `u64`.
pub proof fn lemma_read_u64(b: Seq<u8>, pos: int)
    ensures
        read_u64(b, pos) matches Some((x, p)) ==> p == pos + 8 && at(b, pos, u64_bytes(x)),
        forall|x: u64| at(b, pos, u64_bytes(x)) ==> read_u64(b, pos) == Some((x, pos + 8)),
{
    reveal(read_u64);
    if 0 <= pos && pos + 8 <= b.len() {
        lemma_u64_bytes_of(b[pos], b[pos + 1], b[pos + 2], b[pos + 3], b[pos + 4], b[pos + 5], b[pos + 6], b[pos + 7]);
        assert(b.subrange(pos, pos + 8) =~= seq![b[pos], b[pos + 1], b[pos + 2], b[pos + 3], b[pos + 4], b[pos + 5], b[pos + 6], b[pos + 7]]);
    }
    assert forall|x: u64| at(b, pos, u64_bytes(x)) implies read_u64(b, pos) == Some((x, pos + 8)) by {
        lemma_u64_bits(x);
        let s = b.subrange(pos, pos + 8);
        assert(s[0] == b[pos] && s[1] == b[pos + 1] && s[2] == b[pos + 2] && s[3] == b[pos + 3]);
        assert(s[4] == b[pos + 4] && s[5] == b[pos + 5] && s[6] == b[pos + 6] && s[7] == b[pos + 7]);
    }
}

pub proof fn lemma_read_u32(b: Seq<u8>, pos: int)
    ensures
        read_u32(b, pos) matches Some((x, p)) ==> p == pos + 4 && at(b, pos, u32_bytes(x)),
        forall|x: u32| at(b, pos, u32_bytes(x)) ==> read_u32(b, pos) == Some((x, pos + 4)),
{
    reveal(read_u32);
    if 0 <= pos && pos + 4 <= b.len() {
        lemma_u32_bytes_of(b[pos], b[pos + 1], b[pos + 2], b[pos + 3]);
        assert(b.subrange(pos, pos + 4) =~= seq![b[pos], b[pos + 1], b[pos + 2], b[pos + 3]]);
    }
    assert forall|x: u32| at(b, pos, u32_bytes(x)) implies read_u32(b, pos) == Some((x, pos + 4)) by {
        lemma_u32_bits(x);
        let s = b.subrange(pos, pos + 4);
        assert(s[0] == b[pos] && s[1] == b[pos + 1] && s[2] == b[pos + 2] && s[3] == b[pos + 3]);
    }
}

pub proof fn lemma_read_field(b: Seq<u8>, pos: int)
    requires
        b.len() < 0x1_0000_0000_0000_0000,
    ensures
        read_field(b, pos) matches Some((v, p)) ==> p == pos + field_bytes(v).len() && at(b, pos, field_bytes(v)),
        forall|v: Seq<u8>| at(b, pos, field_bytes(v)) ==> read_field(b, pos) == Some((v, pos + field_bytes(v).len())),
{
    reveal(read_field);
    lemma_read_u64(b, pos);
    if let Some((n, p)) = read_u64(b, pos) {
        if p + n <= b.len() {
            let v = b.subrange(p, p + n);
            assert(v.len() as u64 == n);
            lemma_at_concat(b, pos, u64_bytes(n), v);
            assert(b.subrange(p, p + v.len()) == v);
        }
    }
    assert forall|v: Seq<u8>| at(b, pos, field_bytes(v)) implies read_field(b, pos) == Some((v, pos + field_bytes(v).len())) by {
        lemma_at_concat(b, pos, u64_bytes(v.len() as u64), v);
    }
}

#[verifier::opaque]
pub open spec fn read_txin(b: Seq<u8>, pos: int) -> Option<(TxInView, int)> {
    match read_field(b, pos) {
        Some((h, p1)) => match read_u64(b, p1) {
            Some((v, p2)) => match read_field(b, p2) {
                Some((sg, p3)) => match read_field(b, p3) {
                    Some((pk, p4)) => Some((TxInView { tx_hash: h, vout: v, signature: sg, public_key: pk }, p4)),
                    None => None,
                },
                None => None,
            },
            None => None,
        },
        None => None,
    }
}

#[verifier::opaque]
pub open spec fn read_txout(b: Seq<u8>, pos: int) -> Option<(TxOutView, int)> {
    match read_u64(b, pos) {
        Some((v, p1)) => match read_field(b, p1) {
            Some((k, p2)) => Some((TxOutView { value: v, key: k }, p2)),
            None => None,
        },
        None => None,
    }
}

pub proof fn lemma_read_txin(b: Seq<u8>, pos: int)
    requires
        b.len() < 0x1_0000_0000_0000_0000,
    ensures
        read_txin(b, pos) matches Some((x, p)) ==> p == pos + txin_bytes(x).len() && at(b, pos, txin_bytes(x)),
        forall|x: TxInView| #[trigger] at(b, pos, txin_bytes(x)) ==> read_txin(b, pos) == Some((x, pos + txin_bytes(x).len())),
{
    reveal(read_txin);
    lemma_read_field(b, pos);
    if let Some((h, p1)) = read_field(b, pos) {
        lemma_read_u64(b, p1);
        if let Some((v, p2)) = read_u64(b, p1) {
            lemma_read_field(b, p2);
            if let Some((sg, p3)) = read_field(b, p2) {
                lemma_read_field(b, p3);
                if let Some((pk, p4)) = read_field(b, p3) {
                    let x = TxInView { tx_hash: h, vout: v, signature: sg, public_key: pk };
                    lemma_at_concat(b, pos, field_bytes(h), u64_bytes(v));
                    lemma_at_concat(b, pos, field_bytes(h) + u64_bytes(v), field_bytes(sg));
                    lemma_at_concat(b, pos, field_bytes(h) + u64_bytes(v) + field_bytes(sg), field_bytes(pk));
                }
            }
        }
    }
    assert forall|x: TxInView| #[trigger] at(b, pos, txin_bytes(x)) implies read_txin(b, pos) == Some((x, pos + txin_bytes(x).len())) by {
        let a = field_bytes(x.tx_hash);
        let c = u64_bytes(x.vout);
        let d = field_bytes(x.signature);
        let e = field_bytes(x.public_key);
        lemma_at_concat(b, pos, a + c + d, e);
        lemma_at_concat(b, pos, a + c, d);
        lemma_at_concat(b, pos, a, c);
        lemma_read_u64(b, pos + a.len());
        lemma_read_field(b, pos + a.len() + c.len());
        lemma_read_field(b, pos + a.len() + c.len() + d.len());
    }
}

pub proof fn lemma_read_txout(b: Seq<u8>, pos: int)
    requires
        b.len() < 0x1_0000_0000_0000_0000,
    ensures
        read_txout(b, pos) matches Some((x, p)) ==> p == pos + txout_bytes(x).len() && at(b, pos, txout_bytes(x)),
        forall|x: TxOutView| #[trigger] at(b, pos, txout_bytes(x)) ==> read_txout(b, pos) == Some((x, pos + txout_bytes(x).len())),
{
    reveal(read_txout);
    lemma_read_u64(b, pos);
    if let Some((v, p1)) = read_u64(b, pos) {
        lemma_read_field(b, p1);
        if let Some((k, p2)) = read_field(b, p1) {
            lemma_at_concat(b, pos, u64_bytes(v), field_bytes(k));
        }
    }
    assert forall|x: TxOutView| #[trigger] at(b, pos, txout_bytes(x)) implies read_txout(b, pos) == Some((x, pos + txout_bytes(x).len())) by {
        lemma_at_concat(b, pos, u64_bytes(x.value), field_bytes(x.key));
        lemma_read_field(b, pos + 8);
    }
}

pub open spec fn read_inputs_n(b: Seq<u8>, pos: int, n: nat) -> Option<(Seq<TxInView>, int)>
    decreases n,
{
    if n == 0 {
        if 0 <= pos <= b.len() {
            Some((seq![], pos))
        } else {
            None
        }
    } else {
        match read_inputs_n(b, pos, (n - 1) as nat) {
            Some((s, p)) => match read_txin(b, p) {
                Some((x, q)) => Some((s.push(x), q)),
                None => None,
            },
            None => None,
        }
    }
}

pub open spec fn read_outputs_n(b: Seq<u8>, pos: int, n: nat) -> Option<(Seq<TxOutView>, int)>
    decreases n,
{
    if n == 0 {
        if 0 <= pos <= b.len() {
            Some((seq![], pos))
        } else {
            None
        }
    } else {
        match read_outputs_n(b, pos, (n - 1) as nat) {
            Some((s, p)) => match read_txout(b, p) {
                Some((x, q)) => Some((s.push(x), q)),
                None => None,
            },
            None => None,
        }
    }
}

pub proof fn lemma_read_inputs_n(b: Seq<u8>, pos: int, n: nat)
    requires
        b.len() < 0x1_0000_0000_0000_0000,
    ensures
        read_inputs_n(b, pos, n) matches Some((s, p)) ==> s.len() == n && p == pos + inputs_bytes(s).len() && at(b, pos, inputs_bytes(s)),
        forall|s: Seq<TxInView>| s.len() == n && #[trigger] at(b, pos, inputs_bytes(s)) ==> read_inputs_n(b, pos, n) == Some((s, pos + inputs_bytes(s).len())),
    decreases n,
{
    if n == 0 {
        assert(at(b, pos, Seq::<u8>::empty()) ==> 0 <= pos);
        if 0 <= pos && pos <= b.len() {
            assert(b.subrange(pos, pos) =~= Seq::<u8>::empty());
        }
        assert forall|s: Seq<TxInView>| s.len() == n && #[trigger] at(b, pos, inputs_bytes(s)) implies read_inputs_n(b, pos, n) == Some((s, pos + inputs_bytes(s).len())) by {
            assert(s =~= Seq::<TxInView>::empty());
        }
    } else {
        lemma_read_inputs_n(b, pos, (n - 1) as nat);
        if let Some((s0, p)) = read_inputs_n(b, pos, (n - 1) as nat) {
            lemma_read_txin(b, p);
            if let Some((x, q)) = read_txin(b, p) {
                let s = s0.push(x);
                assert(s.drop_last() =~= s0);
                lemma_at_concat(b, pos, inputs_bytes(s0), txin_bytes(x));
            }
        }
        assert forall|s: Seq<TxInView>| s.len() == n && #[trigger] at(b, pos, inputs_bytes(s)) implies read_inputs_n(b, pos, n) == Some((s, pos + inputs_bytes(s).len())) by {
            let s0 = s.drop_last();
            lemma_at_concat(b, pos, inputs_bytes(s0), txin_bytes(s.last()));
            assert(at(b, pos, inputs_bytes(s0)));
            lemma_read_txin(b, pos + inputs_bytes(s0).len());
            assert(s0.push(s.last()) =~= s);
        }
    }
}

pub proof fn lemma_read_outputs_n(b: Seq<u8>, pos: int, n: nat)
    requires
        b.len() < 0x1_0000_0000_0000_0000,
    ensures
        read_outputs_n(b, pos, n) matches Some((s, p)) ==> s.len() == n && p == pos + outputs_bytes(s).len() && at(b, pos, outputs_bytes(s)),
        forall|s: Seq<TxOutView>| s.len() == n && #[trigger] at(b, pos, outputs_bytes(s)) ==> read_outputs_n(b, pos, n) == Some((s, pos + outputs_bytes(s).len())),
    decreases n,
{
    if n == 0 {
        if 0 <= pos && pos <= b.len() {
            assert(b.subrange(pos, pos) =~= Seq::<u8>::empty());
        }
        assert forall|s: Seq<TxOutView>| s.len() == n && #[trigger] at(b, pos, outputs_bytes(s)) implies read_outputs_n(b, pos, n) == Some((s, pos + outputs_bytes(s).len())) by {
            assert(s =~= Seq::<TxOutView>::empty());
        }
    } else {
        lemma_read_outputs_n(b, pos, (n - 1) as nat);
        if let Some((s0, p)) = read_outputs_n(b, pos, (n - 1) as nat) {
            lemma_read_txout(b, p);
            if let Some((x, q)) = read_txout(b, p) {
                let s = s0.push(x);
                assert(s.drop_last() =~= s0);
                lemma_at_concat(b, pos, outputs_bytes(s0), txout_bytes(x));
            }
        }
        assert forall|s: Seq<TxOutView>| s.len() == n && #[trigger] at(b, pos, outputs_bytes(s)) implies read_outputs_n(b, pos, n) == Some((s, pos + outputs_bytes(s).len())) by {
            let s0 = s.drop_last();
            lemma_at_concat(b, pos, outputs_bytes(s0), txout_bytes(s.last()));
            lemma_read_txout(b, pos + outputs_bytes(s0).len());
            assert(s0.push(s.last()) =~= s);
        }
    }
}

proof fn lemma_inputs_len(s: Seq<TxInView>)
    ensures
        inputs_bytes(s).len() >= s.len(),
    decreases s.len(),
{
    if s.len() > 0 {
        lemma_inputs_len(s.drop_last());
    }
}

proof fn lemma_outputs_len(s: Seq<TxOutView>)
    ensures
        outputs_bytes(s).len() >= s.len(),
    decreases s.len(),
{
    if s.len() > 0 {
        lemma_outputs_len(s.drop_last());
    }
}

proof fn lemma_tx_list_len(s: Seq<TxView>)
    ensures
        tx_list_bytes(s).len() >= s.len(),
    decreases s.len(),
{
    if s.len() > 0 {
        lemma_tx_list_len(s.drop_last());
    }
}

#[verifier::opaque]
pub open spec fn read_tx(b: Seq<u8>, pos: int) -> Option<(TxView, int)> {
    match read_u64(b, pos) {
        Some((n, p1)) => match read_inputs_n(b, p1, n as nat) {
            Some((vin, p2)) => match read_u64(b, p2) {
                Some((m, p3)) => match read_outputs_n(b, p3, m as nat) {
                    Some((vout, p4)) => match read_field(b, p4) {
                        Some((h, p5)) => Some((TxView { vin, vout, tx_hash: h }, p5)),
                        None => None,
                    },
                    None => None,
                },
                None => None,
            },
            None => None,
        },
        None => None,
    }
}

proof fn lemma_read_tx_sound(b: Seq<u8>, pos: int)
    requires
        b.len() < 0x1_0000_0000_0000_0000,
    ensures
        read_tx(b, pos) matches Some((x, p)) ==> p == pos + tx_bytes(x).len() && at(b, pos, tx_bytes(x)),
{
    reveal(read_tx);
    lemma_read_u64(b, pos);
    if let Some((n, p1)) = read_u64(b, pos) {
        lemma_read_inputs_n(b, p1, n as nat);
        if let Some((vin, p2)) = read_inputs_n(b, p1, n as nat) {
            lemma_read_u64(b, p2);
            if let Some((m, p3)) = read_u64(b, p2) {
                lemma_read_outputs_n(b, p3, m as nat);
                if let Some((vout, p4)) = read_outputs_n(b, p3, m as nat) {
                    lemma_read_field(b, p4);
                    if let Some((h, p5)) = read_field(b, p4) {
                        assert(vin.len() as u64 == n);
                        assert(vout.len() as u64 == m);
                        let a = u64_bytes(n);
                        let c = inputs_bytes(vin);
                        let d = u64_bytes(m);
                        let e = outputs_bytes(vout);
                        let f = field_bytes(h);
                        lemma_at_concat(b, pos, a, c);
                        lemma_at_concat(b, pos, a + c, d);
                        lemma_at_concat(b, pos, a + c + d, e);
                        lemma_at_concat(b, pos, a + c + d + e, f);
                    }
                }
            }
        }
    }
}

proof fn lemma_read_tx_complete(b: Seq<u8>, pos: int, x: TxView)
    requires
        b.len() < 0x1_0000_0000_0000_0000,
        at(b, pos, tx_bytes(x)),
    ensures
        read_tx(b, pos) == Some((x, pos + tx_bytes(x).len())),
{
    reveal(read_tx);
    let a = u64_bytes(x.vin.len() as u64);
    let c = inputs_bytes(x.vin);
    let d = u64_bytes(x.vout.len() as u64);
    let e = outputs_bytes(x.vout);
    let f = field_bytes(x.tx_hash);
    lemma_at_concat(b, pos, a + c + d + e, f);
    lemma_at_concat(b, pos, a + c + d, e);
    lemma_at_concat(b, pos, a + c, d);
    lemma_at_concat(b, pos, a, c);
    lemma_inputs_len(x.vin);
    lemma_outputs_len(x.vout);
    lemma_read_u64(b, pos);
    lemma_read_inputs_n(b, pos + 8, x.vin.len());
    lemma_read_u64(b, pos + 8 + c.len());
    lemma_read_outputs_n(b, pos + 16 + c.len(), x.vout.len());
    lemma_read_field(b, pos + 16 + c.len() + e.len());
}

pub proof fn lemma_read_tx(b: Seq<u8>, pos: int)
    requires
        b.len() < 0x1_0000_0000_0000_0000,
    ensures
        read_tx(b, pos) matches Some((x, p)) ==> p == pos + tx_bytes(x).len() && at(b, pos, tx_bytes(x)),
        forall|x: TxView| #[trigger] at(b, pos, tx_bytes(x)) ==> read_tx(b, pos) == Some((x, pos + tx_bytes(x).len())),
{
    lemma_read_tx_sound(b, pos);
    assert forall|x: TxView| #[trigger] at(b, pos, tx_bytes(x)) implies read_tx(b, pos) == Some((x, pos + tx_bytes(x).len())) by {
        lemma_read_tx_complete(b, pos, x);
    }
}

pub open spec fn read_txs_n(b: Seq<u8>, pos: int, n: nat) -> Option<(Seq<TxView>, int)>
    decreases n,
{
    if n == 0 {
        if 0 <= pos <= b.len() {
            Some((seq![], pos))
        } else {
            None
        }
    } else {
        match read_txs_n(b, pos, (n - 1) as nat) {
            Some((s, p)) => match read_tx(b, p) {
                Some((x, q)) => Some((s.push(x), q)),
                None => None,
            },
            None => None,
        }
    }
}

pub proof fn lemma_read_txs_n(b: Seq<u8>, pos: int, n: nat)
    requires
        b.len() < 0x1_0000_0000_0000_0000,
    ensures
        read_txs_n(b, pos, n) matches Some((s, p)) ==> s.len() == n && p == pos + tx_list_bytes(s).len() && at(b, pos, tx_list_bytes(s)),
        forall|s: Seq<TxView>| s.len() == n && #[trigger] at(b, pos, tx_list_bytes(s)) ==> read_txs_n(b, pos, n) == Some((s, pos + tx_list_bytes(s).len())),
    decreases n,
{
    if n == 0 {
        if 0 <= pos && pos <= b.len() {
            assert(b.subrange(pos, pos) =~= Seq::<u8>::empty());
        }
        assert forall|s: Seq<TxView>| s.len() == n && #[trigger] at(b, pos, tx_list_bytes(s)) implies read_txs_n(b, pos, n) == Some((s, pos + tx_list_bytes(s).len())) by {
            assert(s =~= Seq::<TxView>::empty());
        }
    } else {
        lemma_read_txs_n(b, pos, (n - 1) as nat);
        if let Some((s0, p)) = read_txs_n(b, pos, (n - 1) as nat) {
            lemma_read_tx(b, p);
            if let Some((x, q)) = read_tx(b, p) {
                let s = s0.push(x);
                assert(s.drop_last() =~= s0);
                lemma_at_concat(b, pos, tx_list_bytes(s0), tx_bytes(x));
            }
        }
        assert forall|s: Seq<TxView>| s.len() == n && #[trigger] at(b, pos, tx_list_bytes(s)) implies read_txs_n(b, pos, n) == Some((s, pos + tx_list_bytes(s).len())) by {
            let s0 = s.drop_last();
            lemma_at_concat(b, pos, tx_list_bytes(s0), tx_bytes(s.last()));
            lemma_read_tx(b, pos + tx_list_bytes(s0).len());
            assert(s0.push(s.last()) =~= s);
        }
    }
}

#[verifier::opaque]
pub open spec fn read_txs(b: Seq<u8>, pos: int) -> Option<(Seq<TxView>, int)> {
    match read_u64(b, pos) {
        Some((n, p)) => read_txs_n(b, p, n as nat),
        None => None,
    }
}

pub proof fn lemma_read_txs(b: Seq<u8>, pos: int)
    requires
        b.len() < 0x1_0000_0000_0000_0000,
    ensures
        read_txs(b, pos) matches Some((x, p)) ==> p == pos + txs_bytes(x).len() && at(b, pos, txs_bytes(x)),
        forall|x: Seq<TxView>| #[trigger] at(b, pos, txs_bytes(x)) ==> read_txs(b, pos) == Some((x, pos + txs_bytes(x).len())),
{
    reveal(read_txs);
    lemma_read_u64(b, pos);
    if let Some((n, p)) = read_u64(b, pos) {
        lemma_read_txs_n(b, p, n as nat);
        if let Some((x, q)) = read_txs_n(b, p, n as nat) {
            assert(x.len() as u64 == n);
            lemma_at_concat(b, pos, u64_bytes(n), tx_list_bytes(x));
        }
    }
    assert forall|x: Seq<TxView>| #[trigger] at(b, pos, txs_bytes(x)) implies read_txs(b, pos) == Some((x, pos + txs_bytes(x).len())) by {
        lemma_at_concat(b, pos, u64_bytes(x.len() as u64), tx_list_bytes(x));
        lemma_tx_list_len(x);
        lemma_read_txs_n(b, pos + 8, x.len());
    }
}

#[verifier::opaque]
pub open spec fn read_header(b: Seq<u8>, pos: int) -> Option<(HeaderView, int)> {
    match read_u32(b, pos) {
        Some((nbits, p1)) => match read_u64(b, p1) {
            Some((ts, p2)) => match read_field(b, p2) {
                Some((root, p3)) => match read_field(b, p3) {
                    Some((prev, p4)) => match read_u32(b, p4) {
                        Some((nonce, p5)) => Some((HeaderView { nbits, timestamp: ts as i64, root_hash: root, prev_hash: prev, nonce }, p5)),
                        None => None,
                    },
                    None => None,
                },
                None => None,
            },
            None => None,
        },
        None => None,
    }
}

pub proof fn lemma_read_header(b: Seq<u8>, pos: int)
    requires
        b.len() < 0x1_0000_0000_0000_0000,
    ensures
        read_header(b, pos) matches Some((x, p)) ==> p == pos + header_bytes(x).len() && at(b, pos, header_bytes(x)),
        forall|x: HeaderView| #[trigger] at(b, pos, header_bytes(x)) ==> read_header(b, pos) == Some((x, pos + header_bytes(x).len())),
{
    reveal(read_header);
    lemma_read_u32(b, pos);
    if let Some((nbits, p1)) = read_u32(b, pos) {
        lemma_read_u64(b, p1);
        if let Some((ts, p2)) = read_u64(b, p1) {
            lemma_read_field(b, p2);
            if let Some((root, p3)) = read_field(b, p2) {
                lemma_read_field(b, p3);
                if let Some((prev, p4)) = read_field(b, p3) {
                    lemma_read_u32(b, p4);
                    if let Some((nonce, p5)) = read_u32(b, p4) {
                        assert((ts as i64) as u64 == ts) by (bit_vector);
                        let a = u32_bytes(nbits);
                        let c = u64_bytes(ts);
                        let d = field_bytes(root);
                        let e = field_bytes(prev);
                        let f = u32_bytes(nonce);
                        lemma_at_concat(b, pos, a, c);
                        lemma_at_concat(b, pos, a + c, d);
                        lemma_at_concat(b, pos, a + c + d, e);
                        lemma_at_concat(b, pos, a + c + d + e, f);
                    }
                }
            }
        }
    }
    assert forall|x: HeaderView| #[trigger] at(b, pos, header_bytes(x)) implies read_header(b, pos) == Some((x, pos + header_bytes(x).len())) by {
        let a = u32_bytes(x.nbits);
        let c = u64_bytes(x.timestamp as u64);
        let d = field_bytes(x.root_hash);
        let e = field_bytes(x.prev_hash);
        let f = u32_bytes(x.nonce);
        lemma_at_concat(b, pos, a + c + d + e, f);
        lemma_at_concat(b, pos, a + c + d, e);
        lemma_at_concat(b, pos, a + c, d);
        lemma_at_concat(b, pos, a, c);
        lemma_read_u64(b, pos + 4);
        lemma_read_field(b, pos + 12);
        lemma_read_field(b, pos + 12 + d.len());
        lemma_read_u32(b, pos + 12 + d.len() + e.len());
        let t = x.timestamp;
        assert((t as u64) as i64 == t) by (bit_vector);
    }
}

pub open spec fn read_block(b: Seq<u8>, pos: int) -> Option<(BlockView, int)> {
    match read_header(b, pos) {
        Some((h, p1)) => match read_field(b, p1) {
            Some((hash, p2)) => match read_txs(b, p2) {
                Some((txs, p3)) => match read_u64(b, p3) {
                    Some((height, p4)) => Some((BlockView { header: h, hash, txs, height }, p4)),
                    None => None,
                },
                None => None,
            },
            None => None,
        },
        None => None,
    }
}

/// The block whose encoding is exactly the given bytes.
pub open spec fn decoded_block(b: Seq<u8>) -> Option<BlockView> {
    match read_block(b, 0) {
        Some((v, p)) => if p == b.len() {
            Some(v)
        } else {
            None
        },
        None => None,
    }
}

proof fn lemma_read_block_sound(b: Seq<u8>)
    requires
        b.len() < 0x1_0000_0000_0000_0000,
    ensures
        decoded_block(b) matches Some(v) ==> block_bytes(v) == b,
{
    lemma_read_header(b, 0);
    if let Some((h, p1)) = read_header(b, 0) {
        lemma_read_field(b, p1);
        if let Some((hash, p2)) = read_field(b, p1) {
            lemma_read_txs(b, p2);
            if let Some((txs, p3)) = read_txs(b, p2) {
                lemma_read_u64(b, p3);
                if let Some((height, p4)) = read_u64(b, p3) {
                    let a = header_bytes(h);
                    let c = field_bytes(hash);
                    let d = txs_bytes(txs);
                    let e = u64_bytes(height);
                    lemma_at_concat(b, 0, a, c);
                    lemma_at_concat(b, 0, a + c, d);
                    lemma_at_concat(b, 0, a + c + d, e);
                    if p4 == b.len() {
                        assert(b.subrange(0, b.len() as int) =~= b);
                    }
                }
            }
        }
    }
}

proof fn lemma_read_block_complete(b: Seq<u8>, v: BlockView)
    requires
        b.len() < 0x1_0000_0000_0000_0000,
        block_bytes(v) == b,
    ensures
        decoded_block(b) == Some(v),
{
    let a = header_bytes(v.header);
    let c = field_bytes(v.hash);
    let d = txs_bytes(v.txs);
    let e = u64_bytes(v.height);
    assert(b.subrange(0, b.len() as int) =~= b);
    assert(at(b, 0, block_bytes(v)));
    lemma_at_concat(b, 0, a + c + d, e);
    lemma_at_concat(b, 0, a + c, d);
    lemma_at_concat(b, 0, a, c);
    lemma_read_header(b, 0);
    lemma_read_field(b, a.len() as int);
    lemma_read_txs(b, (a.len() + c.len()) as int);
    lemma_read_u64(b, (a.len() + c.len() + d.len()) as int);
}

/// Reading gives back exactly the block whose canonical bytes were read, and
/// only bytes that are a block's canonical bytes are read.
pub proof fn lemma_decode_block(b: Seq<u8>)
    requires
        b.len() < 0x1_0000_0000_0000_0000,
    ensures
        decoded_block(b) matches Some(v) ==> block_bytes(v) == b,
        forall|v: BlockView| #[trigger] block_bytes(v) == b ==> decoded_block(b) == Some(v),
{
    lemma_read_block_sound(b);
    assert forall|v: BlockView| #[trigger] block_bytes(v) == b implies decoded_block(b) == Some(v) by {
        lemma_read_block_complete(b, v);
    }
}

// ---- readers over byte slices ----
fn get_u64(b: &[u8], pos: usize) -> (r: Option<(u64, usize)>)
    ensures
        match r {
            Some((x, p)) => read_u64(b@, pos as int) == Some((x, p as int)),
            None => read_u64(b@, pos as int).is_none(),
        },
{
    reveal(read_u64);
    if pos > b.len() || b.len() - pos < 8 {
        return None;
    }
    let x = ((b[pos] as u64) << 56u64) | ((b[pos + 1] as u64) << 48u64) | ((b[pos + 2] as u64) << 40u64)
        | ((b[pos + 3] as u64) << 32u64) | ((b[pos + 4] as u64) << 24u64) | ((b[pos + 5] as u64) << 16u64)
        | ((b[pos + 6] as u64) << 8u64) | (b[pos + 7] as u64);
    Some((x, pos + 8))
}

fn get_u32(b: &[u8], pos: usize) -> (r: Option<(u32, usize)>)
    ensures
        match r {
            Some((x, p)) => read_u32(b@, pos as int) == Some((x, p as int)),
            None => read_u32(b@, pos as int).is_none(),
        },
{
    reveal(read_u32);
    if pos > b.len() || b.len() - pos < 4 {
        return None;
    }
    let x = ((b[pos] as u32) << 24u32) | ((b[pos + 1] as u32) << 16u32) | ((b[pos + 2] as u32) << 8u32)
        | (b[pos + 3] as u32);
    Some((x, pos + 4))
}

fn get_field(b: &[u8], pos: usize) -> (r: Option<(Vec<u8>, usize)>)
    ensures
        match r {
            Some((v, p)) => read_field(b@, pos as int) == Some((v@, p as int)),
            None => read_field(b@, pos as int).is_none(),
        },
{
    reveal(read_field);
    reveal(read_u64);
    let (n, p) = match get_u64(b, pos) {
        Some(x) => x,
        None => return None,
    };
    if n > (b.len() - p) as u64 {
        return None;
    }
    let end = p + n as usize;
    let mut v: Vec<u8> = Vec::new();
    let mut i: usize = p;
    while i < end
        invariant
            p <= i <= end <= b@.len(),
            v@ == b@.subrange(p as int, i as int),
        decreases end - i,
    {
        v.push(b[i]);
        i = i + 1;
        assert(v@ =~= b@.subrange(p as int, i as int));
    }
    Some((v, end))
}

fn get_txin(b: &[u8], pos: usize) -> (r: Option<(TxIn, usize)>)
    ensures
        match r {
            Some((x, p)) => read_txin(b@, pos as int) == Some((x@, p as int)),
            None => read_txin(b@, pos as int).is_none(),
        },
{
    reveal(read_txin);
    let (tx_hash, p1) = match get_field(b, pos) {
        Some(x) => x,
        None => return None,
    };
    let (vout, p2) = match get_u64(b, p1) {
        Some(x) => x,
        None => return None,
    };
    let (signature, p3) = match get_field(b, p2) {
        Some(x) => x,
        None => return None,
    };
    let (public_key, p4) = match get_field(b, p3) {
        Some(x) => x,
        None => return None,
    };
    Some((TxIn { tx_hash, tx_out_index: vout, signature, public_key }, p4))
}

fn get_txout(b: &[u8], pos: usize) -> (r: Option<(TxOut, usize)>)
    ensures
        match r {
            Some((x, p)) => read_txout(b@, pos as int) == Some((x@, p as int)),
            None => read_txout(b@, pos as int).is_none(),
        },
{
    reveal(read_txout);
    let (value, p1) = match get_u64(b, pos) {
        Some(x) => x,
        None => return None,
    };
    let (key, p2) = match get_field(b, p1) {
        Some(x) => x,
        None => return None,
    };
    Some((TxOut { bitcoin_value: value, tx_public_key: key }, p2))
}

fn get_inputs(b: &[u8], pos: usize, n: u64) -> (r: Option<(Vec<TxIn>, usize)>)
    requires
        pos <= b@.len(),
    ensures
        match r {
            Some((v, p)) => read_inputs_n(b@, pos as int, n as nat) == Some((ins_view(v@), p as int)),
            None => read_inputs_n(b@, pos as int, n as nat).is_none(),
        },
{
    let mut v: Vec<TxIn> = Vec::new();
    let mut p = pos;
    let mut i: u64 = 0;
    assert(ins_view(v@) =~= Seq::<TxInView>::empty());
    while i < n
        invariant
            i <= n,
            pos <= b@.len(),
            read_inputs_n(b@, pos as int, i as nat) == Some((ins_view(v@), p as int)),
        decreases n - i,
    {
        match get_txin(b, p) {
            Some((x, q)) => {
                let ghost before = ins_view(v@);
                v.push(x);
                assert(ins_view(v@) =~= before.push(v@.last()@));
                p = q;
            },
            None => {
                proof {
                    lemma_inputs_n_stops(b@, pos as int, (i + 1) as nat, n as nat);
                }
                return None;
            },
        }
        i = i + 1;
    }
    Some((v, p))
}

fn get_outputs(b: &[u8], pos: usize, n: u64) -> (r: Option<(Vec<TxOut>, usize)>)
    requires
        pos <= b@.len(),
    ensures
        match r {
            Some((v, p)) => read_outputs_n(b@, pos as int, n as nat) == Some((outs_view(v@), p as int)),
            None => read_outputs_n(b@, pos as int, n as nat).is_none(),
        },
{
    let mut v: Vec<TxOut> = Vec::new();
    let mut p = pos;
    let mut i: u64 = 0;
    assert(outs_view(v@) =~= Seq::<TxOutView>::empty());
    while i < n
        invariant
            i <= n,
            pos <= b@.len(),
            read_outputs_n(b@, pos as int, i as nat) == Some((outs_view(v@), p as int)),
        decreases n - i,
    {
        match get_txout(b, p) {
            Some((x, q)) => {
                let ghost before = outs_view(v@);
                v.push(x);
                assert(outs_view(v@) =~= before.push(v@.last()@));
                p = q;
            },
            None => {
                proof {
                    lemma_outputs_n_stops(b@, pos as int, (i + 1) as nat, n as nat);
                }
                return None;
            },
        }
        i = i + 1;
    }
    Some((v, p))
}

proof fn lemma_inputs_n_stops(b: Seq<u8>, pos: int, k: nat, n: nat)
    requires
        k <= n,
        read_inputs_n(b, pos, k).is_none(),
    ensures
        read_inputs_n(b, pos, n).is_none(),
    decreases n - k,
{
    if k < n {
        lemma_inputs_n_stops(b, pos, k + 1, n);
    }
}

proof fn lemma_outputs_n_stops(b: Seq<u8>, pos: int, k: nat, n: nat)
    requires
        k <= n,
        read_outputs_n(b, pos, k).is_none(),
    ensures
        read_outputs_n(b, pos, n).is_none(),
    decreases n - k,
{
    if k < n {
        lemma_outputs_n_stops(b, pos, k + 1, n);
    }
}

proof fn lemma_txs_n_stops(b: Seq<u8>, pos: int, k: nat, n: nat)
    requires
        k <= n,
        read_txs_n(b, pos, k).is_none(),
    ensures
        read_txs_n(b, pos, n).is_none(),
    decreases n - k,
{
    if k < n {
        lemma_txs_n_stops(b, pos, k + 1, n);
    }
}

fn get_tx(b: &[u8], pos: usize) -> (r: Option<(Transaction, usize)>)
    ensures
        match r {
            Some((x, p)) => read_tx(b@, pos as int) == Some((x@, p as int)),
            None => read_tx(b@, pos as int).is_none(),
        },
{
    reveal(read_tx);
    reveal(read_u64);
    let (n, p1) = match get_u64(b, pos) {
        Some(x) => x,
        None => return None,
    };
    let (vin, p2) = match get_inputs(b, p1, n) {
        Some(x) => x,
        None => return None,
    };
    let (m, p3) = match get_u64(b, p2) {
        Some(x) => x,
        None => return None,
    };
    let (vout, p4) = match get_outputs(b, p3, m) {
        Some(x) => x,
        None => return None,
    };
    let (tx_hash, p5) = match get_field(b, p4) {
        Some(x) => x,
        None => return None,
    };
    Some((Transaction { vin, vout, tx_hash }, p5))
}

fn get_txs(b: &[u8], pos: usize) -> (r: Option<(Vec<Transaction>, usize)>)
    ensures
        match r {
            Some((v, p)) => read_txs(b@, pos as int) == Some((txs_view(v@), p as int)),
            None => read_txs(b@, pos as int).is_none(),
        },
{
    reveal(read_txs);
    reveal(read_u64);
    let (n, start) = match get_u64(b, pos) {
        Some(x) => x,
        None => return None,
    };
    let mut v: Vec<Transaction> = Vec::new();
    let mut p = start;
    let mut i: u64 = 0;
    assert(txs_view(v@) =~= Seq::<TxView>::empty());
    while i < n
        invariant
            i <= n,
            start <= b@.len(),
            read_txs(b@, pos as int) == read_txs_n(b@, start as int, n as nat),
            read_txs_n(b@, start as int, i as nat) == Some((txs_view(v@), p as int)),
        decreases n - i,
    {
        match get_tx(b, p) {
            Some((x, q)) => {
                let ghost before = txs_view(v@);
                v.push(x);
                assert(txs_view(v@) =~= before.push(v@.last()@));
                p = q;
            },
            None => {
                proof {
                    lemma_txs_n_stops(b@, start as int, (i + 1) as nat, n as nat);
                }
                return None;
            },
        }
        i = i + 1;
    }
    Some((v, p))
}

fn get_header(b: &[u8], pos: usize) -> (r: Option<(BlockHeader, usize)>)
    ensures
        match r {
            Some((x, p)) => read_header(b@, pos as int) == Some((x@, p as int)),
            None => read_header(b@, pos as int).is_none(),
        },
{
    reveal(read_header);
    let (nbits, p1) = match get_u32(b, pos) {
        Some(x) => x,
        None => return None,
    };
    let (ts, p2) = match get_u64(b, p1) {
        Some(x) => x,
        None => return None,
    };
    let (root_hash, p3) = match get_field(b, p2) {
        Some(x) => x,
        None => return None,
    };
    let (prev_hash, p4) = match get_field(b, p3) {
        Some(x) => x,
        None => return None,
    };
    let (nonce, p5) = match get_u32(b, p4) {
        Some(x) => x,
        None => return None,
    };
    Some((BlockHeader { nbits, timestamp: ts as i64, root_hash, prev_hash, nonce }, p5))
}

/// The block whose canonical bytes are exactly `bytes`, if there is one.
pub fn decode_block(bytes: &[u8]) -> (r: Option<Block>)
    ensures
        match r {
            Some(b) => block_bytes(b@) == bytes@,
            None => forall|v: BlockView| block_bytes(v) != bytes@,
        },
{
    let len = bytes.len();
    assert(len as int == bytes@.len());
    assert(len as int <= usize::MAX);
    assert(usize::MAX < 0x1_0000_0000_0000_0000);
    proof {
        lemma_decode_block(bytes@);
    }
    let result = match get_header(bytes, 0) {
        Some((header, p1)) => match get_field(bytes, p1) {
            Some((hash, p2)) => match get_txs(bytes, p2) {
                Some((tx_sets, p3)) => match get_u64(bytes, p3) {
                    Some((height, p4)) => if p4 == bytes.len() {
                        Some(Block { header, hash, tx_sets, height })
                    } else {
                        None
                    },
                    None => None,
                },
                None => None,
            },
            None => None,
        },
        None => None,
    };
    assert(match result {
        Some(b) => decoded_block(bytes@) == Some(b@),
        None => decoded_block(bytes@).is_none(),
    });
    result
}

} // verus!
