//! Proof-of-work targets. A digest is read as a big-endian unsigned integer;
//! difficulty `nbits` sets the target `2^(256 - nbits)`, and a digest meets it
//! when its value lies strictly below.

use vstd::prelude::*;

verus! {

pub open spec fn pow2(e: nat) -> nat
    decreases e,
{
    if e == 0 {
        1
    } else {
        2 * pow2((e - 1) as nat)
    }
}

/// The value of a byte string read as a big-endian unsigned integer.
pub open spec fn be_value(s: Seq<u8>) -> nat
    decreases s.len(),
{
    if s.len() == 0 {
        0
    } else {
        be_value(s.drop_last()) * 256 + (s.last() as nat)
    }
}

/// Whether a digest meets the target of difficulty `nbits`.
pub open spec fn meets_target(hash: Seq<u8>, nbits: u32) -> bool {
    nbits <= 256 && be_value(hash) < pow2((256 - nbits) as nat)
}

pub proof fn lemma_pow2_add(a: nat, b: nat)
    ensures
        pow2(a + b) == pow2(a) * pow2(b),
    decreases a,
{
    if a > 0 {
        lemma_pow2_add((a - 1) as nat, b);
        let x = pow2((a - 1) as nat);
        let y = pow2(b);
        assert(pow2(a + b) == 2 * pow2((a - 1 + b) as nat));
        assert(pow2(a + b) == 2 * (x * y));
        assert(pow2(a) * y == 2 * (x * y)) by (nonlinear_arith)
            requires
                pow2(a) == 2 * x,
        ;
    } else {
        assert(pow2(a) == 1);
        assert(pow2(a) * pow2(b) == pow2(b)) by (nonlinear_arith)
            requires
                pow2(a) == 1,
        ;
    }
    lemma_nonneg_product(pow2(a), pow2(b));
}

proof fn lemma_nonneg_product(x: nat, y: nat)
    ensures
        x * y >= 0,
{
    assert(x * y >= 0) by (nonlinear_arith)
        requires
            x >= 0,
            y >= 0,
    ;
}

pub proof fn lemma_pow2_pos(e: nat)
    ensures
        pow2(e) >= 1,
    decreases e,
{
    if e > 0 {
        lemma_pow2_pos((e - 1) as nat);
    }
}

pub proof fn lemma_pow2_mono(a: nat, b: nat)
    requires
        a <= b,
    ensures
        pow2(a) <= pow2(b),
{
    lemma_pow2_add(a, (b - a) as nat);
    lemma_pow2_pos((b - a) as nat);
    lemma_pow2_pos(a);
    assert(pow2(a) * pow2((b - a) as nat) >= pow2(a)) by (nonlinear_arith)
        requires
            pow2((b - a) as nat) >= 1,
            pow2(a) >= 1,
    ;
}

proof fn lemma_pow2_8()
    ensures
        pow2(8) == 256,
{
    reveal_with_fuel(pow2, 9);
}

pub proof fn lemma_be_bound(s: Seq<u8>)
    ensures
        be_value(s) < pow2(8 * s.len()),
    decreases s.len(),
{
    if s.len() > 0 {
        let d = s.drop_last();
        lemma_be_bound(d);
        lemma_pow2_add(8 * d.len(), 8);
        lemma_pow2_8();
        assert(8 * s.len() == 8 * d.len() + 8);
        let p = pow2(8 * d.len());
        assert(be_value(d) * 256 + (s.last() as nat) < p * 256) by (nonlinear_arith)
            requires
                be_value(d) < p,
                s.last() < 256,
        ;
    }
}

pub proof fn lemma_be_concat(a: Seq<u8>, b: Seq<u8>)
    ensures
        be_value(a + b) == be_value(a) * pow2(8 * b.len()) + be_value(b),
    decreases b.len(),
{
    if b.len() == 0 {
        assert(a + b =~= a);
        assert(pow2(8 * b.len()) == 1);
        assert(be_value(b) == 0);
        assert(be_value(a) * pow2(8 * b.len()) == be_value(a)) by (nonlinear_arith)
            requires
                pow2(8 * b.len()) == 1,
        ;
    } else {
        let b1 = b.drop_last();
        lemma_be_concat(a, b1);
        assert((a + b).drop_last() =~= a + b1);
        assert((a + b).last() == b.last());
        lemma_pow2_add(8 * b1.len(), 8);
        lemma_pow2_8();
        assert(8 * b.len() == 8 * b1.len() + 8);
        let p = pow2(8 * b1.len());
        let va = be_value(a);
        let vb1 = be_value(b1);
        let l = b.last() as nat;
        assert(pow2(8 * b.len()) == p * 256);
        assert(be_value(a + b) == be_value(a + b1) * 256 + l);
        assert(be_value(b) == vb1 * 256 + l);
        assert((va * p + vb1) * 256 + l == va * (p * 256) + (vb1 * 256 + l)) by (nonlinear_arith);
    }
    lemma_nonneg_product(be_value(a), pow2(8 * b.len()));
}

pub proof fn lemma_be_zeros(s: Seq<u8>)
    requires
        forall|i: int| 0 <= i < s.len() ==> s[i] == 0,
    ensures
        be_value(s) == 0,
    decreases s.len(),
{
    if s.len() > 0 {
        lemma_be_zeros(s.drop_last());
    }
}

pub proof fn lemma_be_nonzero(s: Seq<u8>, k: int)
    requires
        0 <= k < s.len(),
        s[k] != 0,
    ensures
        be_value(s) >= 1,
    decreases s.len(),
{
    if k < s.len() - 1 {
        lemma_be_nonzero(s.drop_last(), k);
    }
}

/// The target test read byte by byte: the first `nbits / 8` bytes are zero and
/// the next byte lies below `2^(8 - nbits % 8)`.
pub proof fn lemma_target_by_bytes(s: Seq<u8>, nbits: u32)
    requires
        s.len() == 32,
        nbits <= 256,
    ensures
        meets_target(s, nbits) <==> ((forall|i: int| 0 <= i < nbits / 8 ==> s[i] == 0) && (nbits
            % 8 != 0 ==> s[(nbits / 8) as int] < pow2((8 - nbits % 8) as nat))),
{
    let q = (nbits / 8) as int;
    let r = (nbits % 8) as int;
    let p = s.take(q);
    let t = s.skip(q);
    assert(s =~= p + t);
    lemma_be_concat(p, t);
    let e = (256 - nbits) as nat;
    assert(e == 8 * t.len() - r);
    if exists|i: int| 0 <= i < q && s[i] != 0 {
        let i = choose|i: int| 0 <= i < q && s[i] != 0;
        assert(p[i] == s[i]);
        lemma_be_nonzero(p, i);
        lemma_pow2_mono(e, 8 * t.len());
        assert(be_value(p) * pow2(8 * t.len()) >= pow2(8 * t.len())) by (nonlinear_arith)
            requires
                be_value(p) >= 1,
        ;
        assert(!meets_target(s, nbits));
    } else {
        assert forall|i: int| 0 <= i < p.len() implies p[i] == 0 by {
            assert(p[i] == s[i]);
        }
        lemma_be_zeros(p);
        assert(be_value(p) * pow2(8 * t.len()) == 0) by (nonlinear_arith)
            requires
                be_value(p) == 0,
        ;
        assert(be_value(s) == be_value(t));
        if r == 0 {
            lemma_be_bound(t);
        } else {
            let b = t[0];
            let u = t.drop_first();
            assert(t =~= seq![b] + u);
            lemma_be_concat(seq![b], u);
            assert(seq![b].drop_last() =~= Seq::<u8>::empty());
            assert(seq![b].last() == b);
            assert(be_value(Seq::<u8>::empty()) == 0);
            assert(be_value(seq![b]) == be_value(seq![b].drop_last()) * 256 + (b as nat));
            assert(be_value(seq![b]) == b as nat);
            assert(8 * seq![b].len() == 8);
            lemma_be_bound(u);
            let m = pow2(8 * u.len());
            let c = pow2((8 - r) as nat);
            assert(e == (8 - r) + 8 * u.len());
            lemma_pow2_add((8 - r) as nat, 8 * u.len());
            assert(pow2(e) == c * m);
            assert(be_value(t) == (b as nat) * m + be_value(u));
            assert((b as nat) < c <==> (b as nat) * m + be_value(u) < c * m) by (nonlinear_arith)
                requires
                    be_value(u) < m,
            ;
            assert(s[q] == b);
        }
    }
}

/// `2^e` for a small exponent.
fn small_pow2(e: u32) -> (r: u32)
    requires
        e <= 8,
    ensures
        r == pow2(e as nat),
{
    let mut r: u32 = 1;
    let mut i: u32 = 0;
    while i < e
        invariant
            i <= e <= 8,
            r == pow2(i as nat),
            r <= 256,
        decreases e - i,
    {
        proof {
            lemma_pow2_mono((i + 1) as nat, 8);
            lemma_pow2_8();
        }
        r = r * 2;
        i = i + 1;
    }
    r
}

/// Whether a 32-byte digest meets the target of difficulty `nbits`.
pub fn hash_meets_target(hash: &[u8], nbits: u32) -> (r: bool)
    requires
        hash@.len() == 32,
    ensures
        r == meets_target(hash@, nbits),
{
    if nbits > 256 {
        return false;
    }
    proof {
        lemma_target_by_bytes(hash@, nbits);
    }
    let q = (nbits / 8) as usize;
    let rem = nbits % 8;
    let mut i: usize = 0;
    while i < q
        invariant
            q == nbits / 8,
            nbits <= 256,
            q <= 32,
            i <= q,
            hash@.len() == 32,
            forall|j: int| 0 <= j < i ==> hash@[j] == 0,
        decreases q - i,
    {
        if hash[i] != 0 {
            proof {
                lemma_target_by_bytes(hash@, nbits);
            }
            assert(hash@[i as int] != 0);
            assert(!(forall|j: int| 0 <= j < nbits / 8 ==> hash@[j] == 0));
            return false;
        }
        i = i + 1;
    }
    if rem == 0 {
        true
    } else {
        (hash[q] as u32) < small_pow2(8 - rem)
    }
}

/// The difficulty that a proof-of-work search works against.
pub struct PowParameters {
    pub nbits: u32,
}

impl PowParameters {
    /// Parameters for difficulty `bits`, whose target is `2^(256 - bits)`.
    pub fn new(bits: u32) -> (r: Self)
        requires
            bits <= 256,
        ensures
            r.nbits == bits,
    {
        PowParameters { nbits: bits }
    }

    /// Whether a 32-byte digest meets this target.
    pub fn accepts(&self, hash: &[u8]) -> (r: bool)
        requires
            hash@.len() == 32,
        ensures
            r == meets_target(hash@, self.nbits),
    {
        hash_meets_target(hash, self.nbits)
    }
}

} // verus!
