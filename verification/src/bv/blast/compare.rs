//! Equality and ordering predicates over words, each a single literal.
use crate::bv::blast::arith::adder;
use crate::bv::blast::bitwise::bvnot;
use crate::bv::blast::{extends, lemma_extends_refl, lemma_extends_trans, BitLit, Blaster};
use crate::bv::semantics::{
    bit_of, lemma_word_val_bits, lemma_word_val_bound, lemma_word_val_not, lit_holds, lits_below,
    word_sval, word_val, Assignment,
};
use vstd::arithmetic::power2::{lemma_pow2_unfold, pow2};
use vstd::prelude::*;

verus! {

/// One literal that is true exactly when the two words are equal.
pub fn eq(b: &mut Blaster, x: &[BitLit], y: &[BitLit]) -> (r: BitLit)
    requires
        old(b).wf(),
        x@.len() == y@.len(),
        lits_below(x@, old(b).vars()),
        lits_below(y@, old(b).vars()),
        old(b).vars() + 2 * x@.len() <= u32::MAX,
    ensures
        final(b).wf(),
        final(b).vars() == old(b).vars() + 2 * x@.len(),
        final(b).drained_count() == old(b).drained_count(),
        extends(*old(b), *final(b)),
        r.var < final(b).vars(),
        forall|m: Assignment| #[trigger] final(b).models(m) ==>
            lit_holds(m, r) == (word_val(m, x@) == word_val(m, y@)),
{
    let ghost b0 = *b;
    proof { b.lemma_wf(); lemma_extends_refl(b0); }
    let mut acc = b.one();
    let n = x.len();
    let mut i: usize = 0;
    while i < n
        invariant
            b.wf(),
            0 <= i <= n,
            n == x@.len(),
            x@.len() == y@.len(),
            lits_below(x@, b0.vars()),
            lits_below(y@, b0.vars()),
            b0.vars() + 2 * n <= u32::MAX,
            b.vars() == b0.vars() + 2 * i,
            b.drained_count() == b0.drained_count(),
            extends(b0, *b),
            acc.var < b.vars(),
            forall|m: Assignment| #[trigger] b.models(m) ==>
                lit_holds(m, acc) == (forall|k: int| 0 <= k < i ==> lit_holds(m, #[trigger] x@[k]) == lit_holds(m, y@[k])),
        decreases n - i,
    {
        let ghost bi = *b;
        let ghost acc_i = acc;
        assert(x@[i as int].var < b0.vars() && y@[i as int].var < b0.vars());
        let xn = b.xor2(x[i], y[i]);
        let ghost b1 = *b;
        let same = b.not1(xn);
        acc = b.and2(acc, same);
        proof {
            lemma_extends_trans(b0, bi, b1);
            lemma_extends_trans(b0, b1, *b);
            lemma_extends_trans(bi, b1, *b);
            assert forall|m: Assignment| #[trigger] b.models(m) implies
                lit_holds(m, acc) == (forall|k: int| 0 <= k < i + 1 ==> lit_holds(m, #[trigger] x@[k]) == lit_holds(m, y@[k])) by {
                assert(b1.models(m));
                assert(bi.models(m));
                if lit_holds(m, acc) {
                    assert forall|k: int| 0 <= k < i + 1 implies lit_holds(m, #[trigger] x@[k]) == lit_holds(m, y@[k]) by {
                        if k < i {
                            assert(lit_holds(m, acc_i));
                        }
                    }
                }
            }
        }
        i = i + 1;
    }
    proof {
        assert forall|m: Assignment| #[trigger] b.models(m) implies
            lit_holds(m, acc) == (word_val(m, x@) == word_val(m, y@)) by {
            lemma_word_val_bits(m, x@, y@);
        }
    }
    acc
}

/// One literal that is true exactly when `x < y` as unsigned numbers: the
/// borrow out of `x - y`, computed as `x + !y + 1`.
fn ult_core(b: &mut Blaster, x: &[BitLit], y: &[BitLit]) -> (r: BitLit)
    requires
        old(b).wf(),
        x@.len() == y@.len(),
        lits_below(x@, old(b).vars()),
        lits_below(y@, old(b).vars()),
        old(b).vars() + 5 * x@.len() <= u32::MAX,
    ensures
        final(b).wf(),
        final(b).vars() == old(b).vars() + 5 * x@.len(),
        final(b).drained_count() == old(b).drained_count(),
        extends(*old(b), *final(b)),
        r.var < final(b).vars(),
        forall|m: Assignment| #[trigger] final(b).models(m) ==>
            lit_holds(m, r) == (word_val(m, x@) < word_val(m, y@)),
{
    let ny = bvnot(b, y);
    let one = b.one();
    proof {
        b.lemma_wf();
        assert forall|k: int| 0 <= k < ny@.len() implies (#[trigger] ny@[k]).var < b.vars() by {
            assert(ny@[k] == y@[k].negate_spec());
        }
    }
    let (sum, carry) = adder(b, x, ny.as_slice(), one);
    let r = b.not1(carry);
    proof {
        b.lemma_wf();
        assert forall|m: Assignment| #[trigger] b.models(m) implies
            lit_holds(m, r) == (word_val(m, x@) < word_val(m, y@)) by {
            assert(m(0u32));
            lemma_word_val_not(m, y@, ny@);
            lemma_word_val_bound(m, sum@);
            lemma_word_val_bound(m, x@);
            lemma_word_val_bound(m, y@);
            lemma_borrow(word_val(m, sum@), bit_of(m, carry), pow2(x@.len()), word_val(m, x@), word_val(m, y@), word_val(m, ny@));
        }
    }
    r
}

proof fn lemma_borrow(sv: nat, c: nat, p: nat, xv: nat, yv: nat, nyv: nat)
    requires
        sv < p,
        c <= 1,
        sv + p * c == xv + nyv + 1,
        nyv + yv + 1 == p,
        xv < p,
        yv < p,
    ensures
        (c == 0) == (xv < yv),
{
    if c == 0 {
        assert(p * c == 0);
    } else {
        assert(p * c == p);
    }
}

/// Unsigned `x < y`.
pub fn ult(b: &mut Blaster, x: &[BitLit], y: &[BitLit]) -> (r: BitLit)
    requires
        old(b).wf(),
        x@.len() == y@.len(),
        lits_below(x@, old(b).vars()),
        lits_below(y@, old(b).vars()),
        old(b).vars() + 5 * x@.len() <= u32::MAX,
    ensures
        final(b).wf(),
        final(b).vars() == old(b).vars() + 5 * x@.len(),
        final(b).drained_count() == old(b).drained_count(),
        extends(*old(b), *final(b)),
        r.var < final(b).vars(),
        forall|m: Assignment| #[trigger] final(b).models(m) ==>
            lit_holds(m, r) == (word_val(m, x@) < word_val(m, y@)),
{
    ult_core(b, x, y)
}

/// Unsigned `x > y`.
pub fn ugt(b: &mut Blaster, x: &[BitLit], y: &[BitLit]) -> (r: BitLit)
    requires
        old(b).wf(),
        x@.len() == y@.len(),
        lits_below(x@, old(b).vars()),
        lits_below(y@, old(b).vars()),
        old(b).vars() + 5 * x@.len() <= u32::MAX,
    ensures
        final(b).wf(),
        final(b).vars() == old(b).vars() + 5 * x@.len(),
        final(b).drained_count() == old(b).drained_count(),
        extends(*old(b), *final(b)),
        r.var < final(b).vars(),
        forall|m: Assignment| #[trigger] final(b).models(m) ==>
            lit_holds(m, r) == (word_val(m, x@) > word_val(m, y@)),
{
    ult(b, y, x)
}

/// Unsigned `x <= y`.
pub fn ule(b: &mut Blaster, x: &[BitLit], y: &[BitLit]) -> (r: BitLit)
    requires
        old(b).wf(),
        x@.len() == y@.len(),
        lits_below(x@, old(b).vars()),
        lits_below(y@, old(b).vars()),
        old(b).vars() + 5 * x@.len() <= u32::MAX,
    ensures
        final(b).wf(),
        final(b).vars() == old(b).vars() + 5 * x@.len(),
        final(b).drained_count() == old(b).drained_count(),
        extends(*old(b), *final(b)),
        r.var < final(b).vars(),
        forall|m: Assignment| #[trigger] final(b).models(m) ==>
            lit_holds(m, r) == (word_val(m, x@) <= word_val(m, y@)),
{
    let g = ugt(b, x, y);
    b.not1(g)
}

/// Unsigned `x >= y`.
pub fn uge(b: &mut Blaster, x: &[BitLit], y: &[BitLit]) -> (r: BitLit)
    requires
        old(b).wf(),
        x@.len() == y@.len(),
        lits_below(x@, old(b).vars()),
        lits_below(y@, old(b).vars()),
        old(b).vars() + 5 * x@.len() <= u32::MAX,
    ensures
        final(b).wf(),
        final(b).vars() == old(b).vars() + 5 * x@.len(),
        final(b).drained_count() == old(b).drained_count(),
        extends(*old(b), *final(b)),
        r.var < final(b).vars(),
        forall|m: Assignment| #[trigger] final(b).models(m) ==>
            lit_holds(m, r) == (word_val(m, x@) >= word_val(m, y@)),
{
    let l = ult(b, x, y);
    b.not1(l)
}

/// The signed value of a non-empty word, from its top bit and the value of
/// the bits below it.
proof fn lemma_sval_split(m: Assignment, w: Seq<BitLit>)
    requires
        w.len() >= 1,
    ensures
        word_sval(m, w) == word_val(m, w.drop_last()) - (if lit_holds(m, w.last()) { pow2((w.len() - 1) as nat) } else { 0 }),
        word_val(m, w.drop_last()) < pow2((w.len() - 1) as nat),
        word_val(m, w) == word_val(m, w.drop_last()) + (if lit_holds(m, w.last()) { pow2((w.len() - 1) as nat) } else { 0 }),
{
    lemma_word_val_bound(m, w.drop_last());
    lemma_pow2_unfold(w.len());
    if lit_holds(m, w.last()) {
        assert(bit_of(m, w.last()) == 1);
        assert(pow2(w.len()) * bit_of(m, w.last()) == pow2(w.len()));
    } else {
        assert(bit_of(m, w.last()) == 0);
        assert(pow2(w.len()) * bit_of(m, w.last()) == 0);
    }
}

/// Signed (two's-complement) `x < y`.
pub fn slt(b: &mut Blaster, x: &[BitLit], y: &[BitLit]) -> (r: BitLit)
    requires
        old(b).wf(),
        x@.len() == y@.len(),
        x@.len() >= 1,
        lits_below(x@, old(b).vars()),
        lits_below(y@, old(b).vars()),
        old(b).vars() + 5 * x@.len() + 4 <= u32::MAX,
    ensures
        final(b).wf(),
        final(b).vars() == old(b).vars() + 5 * x@.len() + 4,
        final(b).drained_count() == old(b).drained_count(),
        extends(*old(b), *final(b)),
        r.var < final(b).vars(),
        forall|m: Assignment| #[trigger] final(b).models(m) ==>
            lit_holds(m, r) == (word_sval(m, x@) < word_sval(m, y@)),
{
    let ghost b0 = *b;
    let n = x.len();
    let mx = x[n - 1];
    let my = y[n - 1];
    let u = ult_core(b, x, y);
    let ghost b1 = *b;
    let nmy = b.not1(my);
    let neg_only = b.and2(mx, nmy);
    let ghost b2 = *b;
    let d = b.xor2(mx, my);
    let ghost b3 = *b;
    let same_sign = b.not1(d);
    let same_and_u = b.and2(same_sign, u);
    let ghost b4 = *b;
    let r = b.or2(neg_only, same_and_u);
    proof {
        lemma_extends_trans(b0, b1, b2);
        lemma_extends_trans(b0, b2, b3);
        lemma_extends_trans(b0, b3, b4);
        lemma_extends_trans(b0, b4, *b);
        lemma_extends_trans(b1, b2, b3);
        lemma_extends_trans(b2, b3, b4);
        lemma_extends_trans(b3, b4, *b);
        lemma_extends_trans(b1, b3, *b);
        lemma_extends_trans(b2, b4, *b);
        assert forall|m: Assignment| #[trigger] b.models(m) implies
            lit_holds(m, r) == (word_sval(m, x@) < word_sval(m, y@)) by {
            assert(b1.models(m) && b2.models(m) && b3.models(m) && b4.models(m));
            assert(x@.last() == mx && y@.last() == my);
            lemma_sval_split(m, x@);
            lemma_sval_split(m, y@);
        }
    }
    r
}

/// Signed `x > y`.
pub fn sgt(b: &mut Blaster, x: &[BitLit], y: &[BitLit]) -> (r: BitLit)
    requires
        old(b).wf(),
        x@.len() == y@.len(),
        x@.len() >= 1,
        lits_below(x@, old(b).vars()),
        lits_below(y@, old(b).vars()),
        old(b).vars() + 5 * x@.len() + 4 <= u32::MAX,
    ensures
        final(b).wf(),
        final(b).vars() == old(b).vars() + 5 * x@.len() + 4,
        final(b).drained_count() == old(b).drained_count(),
        extends(*old(b), *final(b)),
        r.var < final(b).vars(),
        forall|m: Assignment| #[trigger] final(b).models(m) ==>
            lit_holds(m, r) == (word_sval(m, x@) > word_sval(m, y@)),
{
    slt(b, y, x)
}

/// Signed `x <= y`.
pub fn sle(b: &mut Blaster, x: &[BitLit], y: &[BitLit]) -> (r: BitLit)
    requires
        old(b).wf(),
        x@.len() == y@.len(),
        x@.len() >= 1,
        lits_below(x@, old(b).vars()),
        lits_below(y@, old(b).vars()),
        old(b).vars() + 5 * x@.len() + 4 <= u32::MAX,
    ensures
        final(b).wf(),
        final(b).vars() == old(b).vars() + 5 * x@.len() + 4,
        final(b).drained_count() == old(b).drained_count(),
        extends(*old(b), *final(b)),
        r.var < final(b).vars(),
        forall|m: Assignment| #[trigger] final(b).models(m) ==>
            lit_holds(m, r) == (word_sval(m, x@) <= word_sval(m, y@)),
{
    let g = sgt(b, x, y);
    b.not1(g)
}

/// Signed `x >= y`.
pub fn sge(b: &mut Blaster, x: &[BitLit], y: &[BitLit]) -> (r: BitLit)
    requires
        old(b).wf(),
        x@.len() == y@.len(),
        x@.len() >= 1,
        lits_below(x@, old(b).vars()),
        lits_below(y@, old(b).vars()),
        old(b).vars() + 5 * x@.len() + 4 <= u32::MAX,
    ensures
        final(b).wf(),
        final(b).vars() == old(b).vars() + 5 * x@.len() + 4,
        final(b).drained_count() == old(b).drained_count(),
        extends(*old(b), *final(b)),
        r.var < final(b).vars(),
        forall|m: Assignment| #[trigger] final(b).models(m) ==>
            lit_holds(m, r) == (word_sval(m, x@) >= word_sval(m, y@)),
{
    let l = slt(b, x, y);
    b.not1(l)
}

} // verus!
