//! Division gadgets: restoring unsigned division, and the signed forms that
//! SMT-LIB defines through it.
use crate::bv::blast::arith::{adder, bvadd, bvneg};
use crate::bv::blast::bitwise::bvnot;
use crate::bv::blast::{extends, lemma_extends_refl, lemma_extends_trans, BitLit, Blaster};
use crate::bv::semantics::{
    bit_of, lemma_word_val_bits, lemma_word_val_bound, lemma_word_val_not, lemma_word_val_zero, lit_holds,
    lits_below, word_val, Assignment,
};
use vstd::arithmetic::power2::pow2;
use vstd::prelude::*;

verus! {

/// Bit by bit, `sel ? a : c`.
pub(crate) fn mux_word(b: &mut Blaster, sel: BitLit, a: &[BitLit], c: &[BitLit]) -> (r: Vec<BitLit>)
    requires
        old(b).wf(),
        a@.len() == c@.len(),
        sel.var < old(b).vars(),
        lits_below(a@, old(b).vars()),
        lits_below(c@, old(b).vars()),
        old(b).vars() + a@.len() <= u32::MAX,
    ensures
        final(b).wf(),
        final(b).vars() == old(b).vars() + a@.len(),
        final(b).drained_count() == old(b).drained_count(),
        extends(*old(b), *final(b)),
        r@.len() == a@.len(),
        lits_below(r@, final(b).vars()),
        forall|m: Assignment| #[trigger] final(b).models(m) ==>
            word_val(m, r@) == if lit_holds(m, sel) { word_val(m, a@) } else { word_val(m, c@) },
{
    let ghost b0 = *b;
    let mut r: Vec<BitLit> = Vec::new();
    let n = a.len();
    let mut i: usize = 0;
    proof { lemma_extends_refl(b0); }
    while i < n
        invariant
            b.wf(),
            0 <= i <= n,
            n == a@.len(),
            a@.len() == c@.len(),
            sel.var < b0.vars(),
            lits_below(a@, b0.vars()),
            lits_below(c@, b0.vars()),
            b0.vars() + n <= u32::MAX,
            b.vars() == b0.vars() + i,
            b.drained_count() == b0.drained_count(),
            extends(b0, *b),
            r@.len() == i,
            lits_below(r@, b.vars()),
            forall|m: Assignment| #[trigger] b.models(m) ==> forall|k: int| 0 <= k < i ==>
                lit_holds(m, #[trigger] r@[k]) == if lit_holds(m, sel) { lit_holds(m, a@[k]) } else { lit_holds(m, c@[k]) },
        decreases n - i,
    {
        let ghost bi = *b;
        let ghost ri = r@;
        assert(a@[i as int].var < b0.vars());
        assert(c@[i as int].var < b0.vars());
        let o = b.mux2(sel, a[i], c[i]);
        r.push(o);
        proof {
            lemma_extends_trans(b0, bi, *b);
            assert forall|m: Assignment| #[trigger] b.models(m) implies forall|k: int| 0 <= k < i + 1 ==>
                lit_holds(m, #[trigger] r@[k]) == if lit_holds(m, sel) { lit_holds(m, a@[k]) } else { lit_holds(m, c@[k]) } by {
                assert(bi.models(m));
                assert forall|k: int| 0 <= k < i + 1 implies
                    lit_holds(m, #[trigger] r@[k]) == if lit_holds(m, sel) { lit_holds(m, a@[k]) } else { lit_holds(m, c@[k]) } by {
                    if k < i {
                        assert(r@[k] == ri[k]);
                    }
                }
            }
        }
        i = i + 1;
    }
    proof {
        assert forall|m: Assignment| #[trigger] b.models(m) implies
            word_val(m, r@) == if lit_holds(m, sel) { word_val(m, a@) } else { word_val(m, c@) } by {
            lemma_word_val_bits(m, r@, a@);
            lemma_word_val_bits(m, r@, c@);
        }
    }
    r
}

/// One literal that holds exactly when `x` denotes 0.
fn is_zero(b: &mut Blaster, x: &[BitLit]) -> (r: BitLit)
    requires
        old(b).wf(),
        x@.len() >= 1,
        lits_below(x@, old(b).vars()),
        old(b).vars() + x@.len() <= u32::MAX,
    ensures
        final(b).wf(),
        final(b).vars() == old(b).vars() + x@.len() - 1,
        final(b).drained_count() == old(b).drained_count(),
        extends(*old(b), *final(b)),
        r.var < final(b).vars(),
        forall|m: Assignment| #[trigger] final(b).models(m) ==> lit_holds(m, r) == (word_val(m, x@) == 0),
{
    let ghost b0 = *b;
    proof { lemma_extends_refl(b0); }
    let mut acc = x[0];
    let mut i: usize = 1;
    while i < x.len()
        invariant
            b.wf(),
            1 <= i <= x@.len(),
            lits_below(x@, b0.vars()),
            b0.vars() + x@.len() <= u32::MAX,
            b.vars() == b0.vars() + i - 1,
            b.drained_count() == b0.drained_count(),
            extends(b0, *b),
            acc.var < b.vars(),
            forall|m: Assignment| #[trigger] b.models(m) ==>
                lit_holds(m, acc) == exists|k: int| 0 <= k < i && lit_holds(m, #[trigger] x@[k]),
        decreases x@.len() - i,
    {
        let ghost bi = *b;
        let ghost acc_i = acc;
        assert(x@[i as int].var < b0.vars());
        acc = b.or2(acc, x[i]);
        proof {
            lemma_extends_trans(b0, bi, *b);
            assert forall|m: Assignment| #[trigger] b.models(m) implies
                lit_holds(m, acc) == exists|k: int| 0 <= k < i + 1 && lit_holds(m, #[trigger] x@[k]) by {
                assert(bi.models(m));
                if exists|k: int| 0 <= k < i + 1 && lit_holds(m, #[trigger] x@[k]) {
                    let k = choose|k: int| 0 <= k < i + 1 && lit_holds(m, #[trigger] x@[k]);
                    if k < i {
                        assert(lit_holds(m, acc_i));
                    }
                }
            }
        }
        i = i + 1;
    }
    let r = b.not1(acc);
    proof {
        assert forall|m: Assignment| #[trigger] b.models(m) implies lit_holds(m, r) == (word_val(m, x@) == 0) by {
            lemma_word_val_zero(m, x@);
        }
    }
    r
}

/// Trial subtraction: `a - d` modulo `2^n`, and a literal that holds
/// exactly when `a < d` (the borrow).
fn sub_borrow(b: &mut Blaster, a: &[BitLit], d: &[BitLit]) -> (r: (Vec<BitLit>, BitLit))
    requires
        old(b).wf(),
        a@.len() == d@.len(),
        lits_below(a@, old(b).vars()),
        lits_below(d@, old(b).vars()),
        old(b).vars() + 5 * a@.len() <= u32::MAX,
    ensures
        final(b).wf(),
        final(b).vars() == old(b).vars() + 5 * a@.len(),
        final(b).drained_count() == old(b).drained_count(),
        extends(*old(b), *final(b)),
        r.0@.len() == a@.len(),
        lits_below(r.0@, final(b).vars()),
        r.1.var < final(b).vars(),
        forall|m: Assignment| #[trigger] final(b).models(m) ==> {
            &&& lit_holds(m, r.1) == (word_val(m, a@) < word_val(m, d@))
            &&& word_val(m, a@) >= word_val(m, d@) ==> word_val(m, r.0@) == word_val(m, a@) - word_val(m, d@)
        },
{
    let nd = bvnot(b, d);
    let one = b.one();
    proof {
        b.lemma_wf();
        assert forall|k: int| 0 <= k < nd@.len() implies (#[trigger] nd@[k]).var < b.vars() by {
            assert(nd@[k] == d@[k].negate_spec());
        }
    }
    let (diff, carry) = adder(b, a, nd.as_slice(), one);
    let borrow = b.not1(carry);
    proof {
        b.lemma_wf();
        assert forall|m: Assignment| #[trigger] b.models(m) implies {
            &&& lit_holds(m, borrow) == (word_val(m, a@) < word_val(m, d@))
            &&& word_val(m, a@) >= word_val(m, d@) ==> word_val(m, diff@) == word_val(m, a@) - word_val(m, d@)
        } by {
            assert(m(0u32));
            lemma_word_val_not(m, d@, nd@);
            lemma_word_val_bound(m, diff@);
            lemma_word_val_bound(m, a@);
            lemma_word_val_bound(m, d@);
            lemma_trial(word_val(m, diff@), bit_of(m, carry), pow2(a@.len()), word_val(m, a@), word_val(m, d@), word_val(m, nd@));
        }
    }
    (diff, borrow)
}

/// What the adder's sum and carry say of `a + !d + 1`.
proof fn lemma_trial(sv: nat, c: nat, p: nat, av: nat, dv: nat, ndv: nat)
    requires
        sv < p,
        c <= 1,
        sv + p * c == av + ndv + 1,
        ndv + dv + 1 == p,
        av < p,
        dv < p,
    ensures
        (c == 0) == (av < dv),
        av >= dv ==> sv == av - dv,
{
    if c == 0 {
        assert(p * c == 0);
    } else {
        assert(p * c == p);
    }
}

/// An upper bound on the variables one division of `n`-bit words adds.
pub open spec fn div_gates(n: nat) -> nat {
    6 * n * n + 3 * n
}

/// The unsigned quotient SMT-LIB defines: all ones when dividing by 0.
pub open spec fn udiv_val(a: nat, d: nat, n: nat) -> nat {
    if d == 0 { (pow2(n) - 1) as nat } else { a / d }
}

/// The unsigned remainder SMT-LIB defines: the dividend when dividing by 0.
pub open spec fn urem_val(a: nat, d: nat) -> nat {
    if d == 0 { a } else { a % d }
}

/// A word whose literals all hold denotes `2^n - 1`.
proof fn lemma_word_val_ones(m: Assignment, w: Seq<BitLit>)
    requires
        forall|i: int| 0 <= i < w.len() ==> lit_holds(m, #[trigger] w[i]),
    ensures
        word_val(m, w) + 1 == pow2(w.len()),
{
    let nw = w.map_values(|l: BitLit| l.negate_spec());
    assert forall|i: int| 0 <= i < w.len() implies lit_holds(m, #[trigger] nw[i]) == !lit_holds(m, w[i]) by {}
    lemma_word_val_not(m, w, nw);
    assert forall|i: int| 0 <= i < nw.len() implies !lit_holds(m, #[trigger] nw[i]) by {
        assert(lit_holds(m, w[i]));
    }
    lemma_word_val_zero(m, nw);
}

/// One step of restoring division: bring down the next dividend bit, and
/// subtract the divisor when it fits.
proof fn lemma_div_step(xb: nat, x: nat, q: nat, r: nat, y: nat, k: nat, p: nat)
    requires
        x == q * y + r,
        y == 0 ==> q + 1 == p,
        y > 0 ==> r < y,
        xb <= 1,
        k == (if xb + 2 * r >= y { 1nat } else { 0nat }),
    ensures
        xb + 2 * x == (k + 2 * q) * y + (if k == 1 { xb + 2 * r - y } else { (xb + 2 * r) as int }),
        y == 0 ==> k + 2 * q + 1 == 2 * p,
        y > 0 ==> (if k == 1 { xb + 2 * r - y } else { (xb + 2 * r) as int }) < y,
{
    assert((k + 2 * q) * y == k * y + 2 * (q * y)) by (nonlinear_arith);
    if k == 1 {
        assert(k * y == y);
    } else {
        assert(k * y == 0);
    }
}

/// The value of the word made by bringing `l` in below the low `n - 1`
/// literals of a word that denotes less than `2^(n-1)`.
proof fn lemma_shift_in(m: Assignment, l: BitLit, rem: Seq<BitLit>, shifted: Seq<BitLit>)
    requires
        rem.len() >= 1,
        shifted == seq![l] + rem.take(rem.len() - 1),
        word_val(m, rem) < pow2((rem.len() - 1) as nat),
    ensures
        word_val(m, shifted) == bit_of(m, l) + 2 * word_val(m, rem),
{
    let n = rem.len() as int;
    crate::bv::semantics::lemma_word_val_first(m, shifted);
    assert(shifted.drop_first() =~= rem.take(n - 1));
    crate::bv::semantics::lemma_word_val_split(m, rem, n - 1);
    lemma_word_val_bound(m, rem.take(n - 1));
    let hi = word_val(m, rem.skip(n - 1));
    if hi > 0 {
        assert(pow2((n - 1) as nat) * hi >= pow2((n - 1) as nat)) by (nonlinear_arith)
            requires hi > 0;
    }
}

/// The invariant of restoring division once the dividend bits from `i` up
/// are brought in: `x_hi == q_hi * y + r`, the remainder below the divisor,
/// and an all-ones quotient when the divisor is 0.
spec fn div_state(m: Assignment, x: Seq<BitLit>, y: Seq<BitLit>, quot: Seq<BitLit>, rem: Seq<BitLit>, i: int) -> bool {
    let xv = word_val(m, x.skip(i));
    let qv = word_val(m, quot.skip(i));
    let rv = word_val(m, rem);
    let yv = word_val(m, y);
    &&& xv == qv * yv + rv
    &&& yv == 0 ==> qv + 1 == pow2((x.len() - i) as nat)
    &&& yv > 0 ==> rv < yv
}

/// Unsigned division by restoring: the quotient and the remainder; by 0,
/// the quotient is all ones and the remainder the dividend (SMT-LIB).
pub fn udivurem(b: &mut Blaster, x: &[BitLit], y: &[BitLit]) -> (r: (Vec<BitLit>, Vec<BitLit>))
    requires
        old(b).wf(),
        x@.len() == y@.len(),
        x@.len() >= 1,
        lits_below(x@, old(b).vars()),
        lits_below(y@, old(b).vars()),
        old(b).vars() + div_gates(x@.len()) <= u32::MAX,
    ensures
        final(b).wf(),
        old(b).vars() <= final(b).vars() <= old(b).vars() + div_gates(x@.len()),
        final(b).drained_count() == old(b).drained_count(),
        extends(*old(b), *final(b)),
        r.0@.len() == x@.len(),
        r.1@.len() == x@.len(),
        lits_below(r.0@, final(b).vars()),
        lits_below(r.1@, final(b).vars()),
        forall|m: Assignment| #[trigger] final(b).models(m) ==> {
            &&& word_val(m, r.0@) == udiv_val(word_val(m, x@), word_val(m, y@), x@.len())
            &&& word_val(m, r.1@) == urem_val(word_val(m, x@), word_val(m, y@))
        },
{
    let ghost b0 = *b;
    let n = x.len();
    let zero = b.zero();
    proof {
        b.lemma_wf();
        lemma_extends_refl(b0);
    }
    let mut rem: Vec<BitLit> = Vec::new();
    let mut quot: Vec<BitLit> = Vec::new();
    let mut k: usize = 0;
    while k < n
        invariant
            0 <= k <= n,
            rem@.len() == k,
            quot@.len() == k,
            forall|j: int| 0 <= j < k ==> #[trigger] rem@[j] == zero,
            forall|j: int| 0 <= j < k ==> #[trigger] quot@[j] == zero,
        decreases n - k,
    {
        rem.push(zero);
        quot.push(zero);
        k = k + 1;
    }
    proof {
        assert forall|m: Assignment| #[trigger] b.models(m) implies div_state(m, x@, y@, quot@, rem@, n as int) by {
            assert(m(0u32));
            assert forall|j: int| 0 <= j < rem@.len() implies !lit_holds(m, #[trigger] rem@[j]) by {
                assert(rem@[j] == zero);
            }
            lemma_word_val_zero(m, rem@);
            assert(word_val(m, rem@) == 0);
            assert(x@.skip(n as int) =~= Seq::<BitLit>::empty());
            assert(quot@.skip(n as int) =~= Seq::<BitLit>::empty());
            assert(word_val(m, x@.skip(n as int)) == 0);
            assert(word_val(m, quot@.skip(n as int)) == 0);
            assert(0 * word_val(m, y@) == 0);
            assert(pow2(0) == 1) by { vstd::arithmetic::power2::lemma2_to64(); }
        }
    }
    let mut i: usize = n;
    while i > 0
        invariant
            b.wf(),
            0 <= i <= n,
            n == x@.len(),
            x@.len() == y@.len(),
            n >= 1,
            lits_below(x@, b0.vars()),
            lits_below(y@, b0.vars()),
            b0.vars() + div_gates(n as nat) <= u32::MAX,
            b.vars() == b0.vars() + (n - i) * (6 * n),
            b.drained_count() == b0.drained_count(),
            extends(b0, *b),
            rem@.len() == n,
            quot@.len() == n,
            lits_below(rem@, b.vars()),
            lits_below(quot@, b.vars()),
            forall|m: Assignment| #[trigger] b.models(m) ==> div_state(m, x@, y@, quot@, rem@, i as int),
        decreases i,
    {
        let ghost bi = *b;
        let ghost quot_i = quot@;
        let ghost rem_i = rem@;
        proof {
            assert((n - i + 1) * (6 * n) <= n * (6 * n)) by (nonlinear_arith)
                requires 1 <= i <= n;
            assert((n - i + 1) * (6 * n) == (n - i) * (6 * n) + 6 * n) by (nonlinear_arith);
            assert(n * (6 * n) == 6 * n * n) by (nonlinear_arith);
            assert(b.vars() + 6 * n <= u32::MAX);
        }
        let xi = x[i - 1];
        let mut shifted: Vec<BitLit> = Vec::new();
        shifted.push(xi);
        let mut j: usize = 0;
        while j < n - 1
            invariant
                0 <= j <= n - 1,
                n == rem@.len(),
                shifted@ == seq![xi] + rem@.take(j as int),
            decreases n - 1 - j,
        {
            proof { assert(rem@.take(j + 1) =~= rem@.take(j as int).push(rem@[j as int])); }
            shifted.push(rem[j]);
            j = j + 1;
        }
        proof {
            assert(shifted@ == seq![xi] + rem@.take(n - 1));
            assert(xi.var < bi.vars());
            assert forall|t: int| 0 <= t < shifted@.len() implies (#[trigger] shifted@[t]).var < b.vars() by {
                if t > 0 {
                    assert(shifted@[t] == rem@[t - 1]);
                }
            }
        }
        let (diff, borrow) = sub_borrow(b, shifted.as_slice(), y);
        let keep = b.not1(borrow);
        let ghost bs = *b;
        let new_rem = mux_word(b, keep, diff.as_slice(), shifted.as_slice());
        proof {
            lemma_extends_trans(bi, bs, *b);
            lemma_extends_trans(b0, bi, *b);
        }
        rem = new_rem;
        quot.set(i - 1, keep);
        proof {
            b.lemma_wf();
            assert forall|t: int| 0 <= t < quot@.len() implies (#[trigger] quot@[t]).var < b.vars() by {
                if t != i - 1 {
                    assert(quot@[t] == quot_i[t]);
                }
            }
            assert forall|m: Assignment| #[trigger] b.models(m) implies div_state(m, x@, y@, quot@, rem@, i - 1) by {
                assert(bs.models(m));
                assert(bi.models(m));
                let xv = word_val(m, x@.skip(i as int));
                let qv = word_val(m, quot_i.skip(i as int));
                let rv = word_val(m, rem_i);
                let yv = word_val(m, y@);
                lemma_word_val_bound(m, x@.skip(i as int));
                if i > 1 {
                    vstd::arithmetic::power2::lemma_pow2_strictly_increases((n - i) as nat, (n - 1) as nat);
                }
                lemma_shift_in(m, xi, rem_i, shifted@);
                crate::bv::semantics::lemma_word_val_first(m, x@.skip(i - 1));
                assert(x@.skip(i - 1).drop_first() =~= x@.skip(i as int));
                assert(x@.skip(i - 1)[0] == xi);
                crate::bv::semantics::lemma_word_val_first(m, quot@.skip(i - 1));
                assert(quot@.skip(i - 1).drop_first() =~= quot_i.skip(i as int));
                assert(quot@.skip(i - 1)[0] == keep);
                let kb: nat = if lit_holds(m, keep) { 1 } else { 0 };
                lemma_div_step(bit_of(m, xi), xv, qv, rv, yv, kb, pow2((n - i) as nat));
                vstd::arithmetic::power2::lemma_pow2_unfold((n - i + 1) as nat);
            }
        }
        i = i - 1;
    }
    let ghost bl = *b;
    proof {
        assert(x@.skip(0) =~= x@);
        assert(quot@.skip(0) =~= quot@);
        assert forall|m: Assignment| #[trigger] b.models(m) implies {
            &&& word_val(m, quot@) == udiv_val(word_val(m, x@), word_val(m, y@), x@.len())
            &&& word_val(m, rem@) == urem_val(word_val(m, x@), word_val(m, y@))
        } by {
            assert(div_state(m, x@, y@, quot@, rem@, 0));
            let xv = word_val(m, x@);
            let yv = word_val(m, y@);
            if yv > 0 {
                vstd::arithmetic::div_mod::lemma_fundamental_div_mod_converse(
                    xv as int, yv as int, word_val(m, quot@) as int, word_val(m, rem@) as int);
            }
        }
        assert(n * (6 * n) == 6 * n * n) by (nonlinear_arith);
    }
    let yz = is_zero(b, y);
    let mut ones: Vec<BitLit> = Vec::new();
    let mut k: usize = 0;
    while k < n
        invariant
            0 <= k <= n,
            ones@.len() == k,
            forall|j: int| 0 <= j < k ==> #[trigger] ones@[j] == crate::bv::blast::true_lit(),
        decreases n - k,
    {
        ones.push(b.one());
        k = k + 1;
    }
    proof {
        b.lemma_wf();
        lemma_extends_trans(b0, bl, *b);
    }
    let ghost bz = *b;
    let q = mux_word(b, yz, ones.as_slice(), quot.as_slice());
    let ghost bq = *b;
    let r = mux_word(b, yz, x, rem.as_slice());
    proof {
        lemma_extends_trans(bz, bq, *b);
        lemma_extends_trans(b0, bz, *b);
        lemma_extends_trans(bl, bz, *b);
        assert forall|m: Assignment| #[trigger] b.models(m) implies {
            &&& word_val(m, q@) == udiv_val(word_val(m, x@), word_val(m, y@), x@.len())
            &&& word_val(m, r@) == urem_val(word_val(m, x@), word_val(m, y@))
        } by {
            assert(bq.models(m));
            assert(bz.models(m));
            assert(bl.models(m));
            assert(m(0u32)) by { b.lemma_wf(); }
            lemma_word_val_ones(m, ones@);
        }
    }
    (q, r)
}

/// Unsigned quotient (SMT-LIB `bvudiv`).
pub fn bvudiv(b: &mut Blaster, x: &[BitLit], y: &[BitLit]) -> (r: Vec<BitLit>)
    requires
        old(b).wf(),
        x@.len() == y@.len(),
        x@.len() >= 1,
        lits_below(x@, old(b).vars()),
        lits_below(y@, old(b).vars()),
        old(b).vars() + div_gates(x@.len()) <= u32::MAX,
    ensures
        final(b).wf(),
        old(b).vars() <= final(b).vars() <= old(b).vars() + div_gates(x@.len()),
        final(b).drained_count() == old(b).drained_count(),
        extends(*old(b), *final(b)),
        r@.len() == x@.len(),
        lits_below(r@, final(b).vars()),
        forall|m: Assignment| #[trigger] final(b).models(m) ==>
            word_val(m, r@) == udiv_val(word_val(m, x@), word_val(m, y@), x@.len()),
{
    udivurem(b, x, y).0
}

/// Unsigned remainder (SMT-LIB `bvurem`).
pub fn bvurem(b: &mut Blaster, x: &[BitLit], y: &[BitLit]) -> (r: Vec<BitLit>)
    requires
        old(b).wf(),
        x@.len() == y@.len(),
        x@.len() >= 1,
        lits_below(x@, old(b).vars()),
        lits_below(y@, old(b).vars()),
        old(b).vars() + div_gates(x@.len()) <= u32::MAX,
    ensures
        final(b).wf(),
        old(b).vars() <= final(b).vars() <= old(b).vars() + div_gates(x@.len()),
        final(b).drained_count() == old(b).drained_count(),
        extends(*old(b), *final(b)),
        r@.len() == x@.len(),
        lits_below(r@, final(b).vars()),
        forall|m: Assignment| #[trigger] final(b).models(m) ==>
            word_val(m, r@) == urem_val(word_val(m, x@), word_val(m, y@)),
{
    udivurem(b, x, y).1
}

/// `2^n - v`, modulo `2^n`: the two's-complement negation of `v`.
pub open spec fn neg_val(v: nat, n: nat) -> nat {
    ((pow2(n) - v) % (pow2(n) as int)) as nat
}

/// The magnitude of a non-empty two's-complement word: its value, negated
/// when the sign bit holds.
pub open spec fn abs_val(m: Assignment, w: Seq<BitLit>) -> nat {
    if lit_holds(m, w.last()) { neg_val(word_val(m, w), w.len()) } else { word_val(m, w) }
}

/// An upper bound on the variables one signed division of `n`-bit words
/// adds.
pub open spec fn sdiv_gates(n: nat) -> nat {
    div_gates(n) + 40 * n
}

/// `sel ? -x : x`, modulo `2^n`.
fn neg_if(b: &mut Blaster, sel: BitLit, x: &[BitLit]) -> (r: Vec<BitLit>)
    requires
        old(b).wf(),
        sel.var < old(b).vars(),
        lits_below(x@, old(b).vars()),
        old(b).vars() + 6 * x@.len() <= u32::MAX,
    ensures
        final(b).wf(),
        final(b).vars() == old(b).vars() + 6 * x@.len(),
        final(b).drained_count() == old(b).drained_count(),
        extends(*old(b), *final(b)),
        r@.len() == x@.len(),
        lits_below(r@, final(b).vars()),
        forall|m: Assignment| #[trigger] final(b).models(m) ==>
            word_val(m, r@) == if lit_holds(m, sel) { neg_val(word_val(m, x@), x@.len()) } else { word_val(m, x@) },
{
    let ghost b0 = *b;
    let negx = bvneg(b, x);
    let ghost b1 = *b;
    proof {
        b.lemma_wf();
        assert forall|k: int| 0 <= k < x@.len() implies (#[trigger] x@[k]).var < b.vars() by {}
    }
    let r = mux_word(b, sel, negx.as_slice(), x);
    proof {
        lemma_extends_trans(b0, b1, *b);
        assert forall|m: Assignment| #[trigger] b.models(m) implies
            word_val(m, r@) == if lit_holds(m, sel) { neg_val(word_val(m, x@), x@.len()) } else { word_val(m, x@) } by {
            assert(b1.models(m));
            lemma_word_val_bound(m, x@);
        }
    }
    r
}

/// The magnitude of a two's-complement word.
fn magnitude(b: &mut Blaster, x: &[BitLit]) -> (r: Vec<BitLit>)
    requires
        old(b).wf(),
        x@.len() >= 1,
        lits_below(x@, old(b).vars()),
        old(b).vars() + 6 * x@.len() <= u32::MAX,
    ensures
        final(b).wf(),
        final(b).vars() == old(b).vars() + 6 * x@.len(),
        final(b).drained_count() == old(b).drained_count(),
        extends(*old(b), *final(b)),
        r@.len() == x@.len(),
        lits_below(r@, final(b).vars()),
        forall|m: Assignment| #[trigger] final(b).models(m) ==> word_val(m, r@) == abs_val(m, x@),
{
    let sx = x[x.len() - 1];
    proof { assert(sx.var < b.vars()); }
    neg_if(b, sx, x)
}

/// SMT-LIB `bvsdiv`: the unsigned quotient of the magnitudes, negated when
/// the signs differ.
pub open spec fn sdiv_val(m: Assignment, x: Seq<BitLit>, y: Seq<BitLit>) -> nat {
    let u = udiv_val(abs_val(m, x), abs_val(m, y), x.len());
    if lit_holds(m, x.last()) != lit_holds(m, y.last()) { neg_val(u, x.len()) } else { u }
}

/// SMT-LIB `bvsrem`: the unsigned remainder of the magnitudes, negated
/// when the dividend is negative.
pub open spec fn srem_val(m: Assignment, x: Seq<BitLit>, y: Seq<BitLit>) -> nat {
    let u = urem_val(abs_val(m, x), abs_val(m, y));
    if lit_holds(m, x.last()) { neg_val(u, x.len()) } else { u }
}

/// SMT-LIB `bvsmod`: the remainder that takes the divisor's sign.
pub open spec fn smod_val(m: Assignment, x: Seq<BitLit>, y: Seq<BitLit>) -> nat {
    let n = x.len();
    let u = urem_val(abs_val(m, x), abs_val(m, y));
    let sx = lit_holds(m, x.last());
    let sy = lit_holds(m, y.last());
    if u == 0 {
        0
    } else if !sx && !sy {
        u
    } else if sx && !sy {
        (neg_val(u, n) + word_val(m, y)) % pow2(n)
    } else if !sx && sy {
        (u + word_val(m, y)) % pow2(n)
    } else {
        neg_val(u, n)
    }
}

/// Signed quotient, truncating toward zero (SMT-LIB `bvsdiv`).
pub fn bvsdiv(b: &mut Blaster, x: &[BitLit], y: &[BitLit]) -> (r: Vec<BitLit>)
    requires
        old(b).wf(),
        x@.len() == y@.len(),
        x@.len() >= 1,
        lits_below(x@, old(b).vars()),
        lits_below(y@, old(b).vars()),
        old(b).vars() + sdiv_gates(x@.len()) <= u32::MAX,
    ensures
        final(b).wf(),
        old(b).vars() <= final(b).vars() <= old(b).vars() + sdiv_gates(x@.len()),
        final(b).drained_count() == old(b).drained_count(),
        extends(*old(b), *final(b)),
        r@.len() == x@.len(),
        lits_below(r@, final(b).vars()),
        forall|m: Assignment| #[trigger] final(b).models(m) ==> word_val(m, r@) == sdiv_val(m, x@, y@),
{
    let ghost b0 = *b;
    let n = x.len();
    let sx = x[n - 1];
    let sy = y[n - 1];
    proof { assert(sx.var < b0.vars() && sy.var < b0.vars()); }
    let ux = magnitude(b, x);
    let ghost b1 = *b;
    proof { b.lemma_wf(); assert forall|k: int| 0 <= k < y@.len() implies (#[trigger] y@[k]).var < b.vars() by {} }
    let uy = magnitude(b, y);
    let ghost b2 = *b;
    proof {
        b.lemma_wf();
        assert forall|k: int| 0 <= k < ux@.len() implies (#[trigger] ux@[k]).var < b.vars() by {}
        lemma_extends_trans(b0, b1, b2);
    }
    let u = bvudiv(b, ux.as_slice(), uy.as_slice());
    let ghost b3 = *b;
    proof { lemma_extends_trans(b0, b2, b3); }
    let sign_diff = b.xor2(sx, sy);
    let ghost b4 = *b;
    proof {
        b.lemma_wf();
        assert forall|k: int| 0 <= k < u@.len() implies (#[trigger] u@[k]).var < b.vars() by {}
        lemma_extends_trans(b0, b3, b4);
    }
    let r = neg_if(b, sign_diff, u.as_slice());
    proof {
        lemma_extends_trans(b0, b4, *b);
        assert forall|m: Assignment| #[trigger] b.models(m) implies word_val(m, r@) == sdiv_val(m, x@, y@) by {
            lemma_extends_trans(b3, b4, *b);
            lemma_extends_trans(b2, b3, *b);
            lemma_extends_trans(b1, b2, *b);
            assert(b4.models(m));
            assert(b3.models(m));
            assert(b2.models(m));
            assert(b1.models(m));
            assert(x@.last() == sx && y@.last() == sy);
        }
    }
    r
}

/// Signed remainder, taking the dividend's sign (SMT-LIB `bvsrem`).
pub fn bvsrem(b: &mut Blaster, x: &[BitLit], y: &[BitLit]) -> (r: Vec<BitLit>)
    requires
        old(b).wf(),
        x@.len() == y@.len(),
        x@.len() >= 1,
        lits_below(x@, old(b).vars()),
        lits_below(y@, old(b).vars()),
        old(b).vars() + sdiv_gates(x@.len()) <= u32::MAX,
    ensures
        final(b).wf(),
        old(b).vars() <= final(b).vars() <= old(b).vars() + sdiv_gates(x@.len()),
        final(b).drained_count() == old(b).drained_count(),
        extends(*old(b), *final(b)),
        r@.len() == x@.len(),
        lits_below(r@, final(b).vars()),
        forall|m: Assignment| #[trigger] final(b).models(m) ==> word_val(m, r@) == srem_val(m, x@, y@),
{
    let ghost b0 = *b;
    let n = x.len();
    let sx = x[n - 1];
    proof { assert(sx.var < b0.vars()); }
    let ux = magnitude(b, x);
    let ghost b1 = *b;
    proof { b.lemma_wf(); assert forall|k: int| 0 <= k < y@.len() implies (#[trigger] y@[k]).var < b.vars() by {} }
    let uy = magnitude(b, y);
    let ghost b2 = *b;
    proof {
        b.lemma_wf();
        assert forall|k: int| 0 <= k < ux@.len() implies (#[trigger] ux@[k]).var < b.vars() by {}
        lemma_extends_trans(b0, b1, b2);
    }
    let u = bvurem(b, ux.as_slice(), uy.as_slice());
    let ghost b3 = *b;
    proof {
        b.lemma_wf();
        lemma_extends_trans(b0, b2, b3);
    }
    let r = neg_if(b, sx, u.as_slice());
    proof {
        lemma_extends_trans(b0, b3, *b);
        assert forall|m: Assignment| #[trigger] b.models(m) implies word_val(m, r@) == srem_val(m, x@, y@) by {
            lemma_extends_trans(b2, b3, *b);
            lemma_extends_trans(b1, b2, *b);
            assert(b3.models(m));
            assert(b2.models(m));
            assert(b1.models(m));
            assert(x@.last() == sx);
        }
    }
    r
}

/// The word of `n` false literals.
pub(crate) fn zeros(b: &Blaster, n: usize) -> (r: Vec<BitLit>)
    ensures
        r@.len() == n,
        forall|j: int| 0 <= j < n ==> #[trigger] r@[j] == crate::bv::blast::true_lit().negate_spec(),
{
    let mut r: Vec<BitLit> = Vec::new();
    let mut k: usize = 0;
    while k < n
        invariant
            0 <= k <= n,
            r@.len() == k,
            forall|j: int| 0 <= j < k ==> #[trigger] r@[j] == crate::bv::blast::true_lit().negate_spec(),
        decreases n - k,
    {
        r.push(b.zero());
        k = k + 1;
    }
    r
}

/// Signed modulo, taking the divisor's sign (SMT-LIB `bvsmod`).
pub fn bvsmod(b: &mut Blaster, x: &[BitLit], y: &[BitLit]) -> (r: Vec<BitLit>)
    requires
        old(b).wf(),
        x@.len() == y@.len(),
        x@.len() >= 1,
        lits_below(x@, old(b).vars()),
        lits_below(y@, old(b).vars()),
        old(b).vars() + sdiv_gates(x@.len()) <= u32::MAX,
    ensures
        final(b).wf(),
        old(b).vars() <= final(b).vars() <= old(b).vars() + sdiv_gates(x@.len()),
        final(b).drained_count() == old(b).drained_count(),
        extends(*old(b), *final(b)),
        r@.len() == x@.len(),
        lits_below(r@, final(b).vars()),
        forall|m: Assignment| #[trigger] final(b).models(m) ==> word_val(m, r@) == smod_val(m, x@, y@),
{
    let ghost b0 = *b;
    let n = x.len();
    let sx = x[n - 1];
    let sy = y[n - 1];
    proof { assert(sx.var < b0.vars() && sy.var < b0.vars()); }
    let ux = magnitude(b, x);
    let ghost b1 = *b;
    proof { b.lemma_wf(); assert forall|k: int| 0 <= k < y@.len() implies (#[trigger] y@[k]).var < b.vars() by {} }
    let uy = magnitude(b, y);
    let ghost b2 = *b;
    proof {
        b.lemma_wf();
        assert forall|k: int| 0 <= k < ux@.len() implies (#[trigger] ux@[k]).var < b.vars() by {}
    }
    let u = bvurem(b, ux.as_slice(), uy.as_slice());
    let ghost b3 = *b;
    proof { b.lemma_wf(); }
    let uz = is_zero(b, u.as_slice());
    let ghost b4 = *b;
    proof {
        b.lemma_wf();
        assert forall|k: int| 0 <= k < u@.len() implies (#[trigger] u@[k]).var < b.vars() by {}
    }
    let negu = bvneg(b, u.as_slice());
    let ghost b5 = *b;
    let zero_vec = zeros(b, n);
    proof {
        b.lemma_wf();
        assert forall|k: int| 0 <= k < y@.len() implies (#[trigger] y@[k]).var < b.vars() by {}
    }
    let negu_plus_y = bvadd(b, negu.as_slice(), y);
    let ghost b6 = *b;
    let not_uz = b.not1(uz);
    proof {
        b.lemma_wf();
        assert forall|k: int| 0 <= k < zero_vec@.len() implies (#[trigger] zero_vec@[k]).var < b.vars() by {}
    }
    let case_10 = mux_word(b, not_uz, negu_plus_y.as_slice(), zero_vec.as_slice());
    let ghost b7 = *b;
    proof {
        b.lemma_wf();
        assert forall|k: int| 0 <= k < u@.len() implies (#[trigger] u@[k]).var < b.vars() by {}
        assert forall|k: int| 0 <= k < y@.len() implies (#[trigger] y@[k]).var < b.vars() by {}
    }
    let u_plus_y = bvadd(b, u.as_slice(), y);
    let ghost b8 = *b;
    proof {
        b.lemma_wf();
        assert forall|k: int| 0 <= k < zero_vec@.len() implies (#[trigger] zero_vec@[k]).var < b.vars() by {}
    }
    let case_01 = mux_word(b, not_uz, u_plus_y.as_slice(), zero_vec.as_slice());
    let ghost b9 = *b;
    proof {
        b.lemma_wf();
        assert forall|k: int| 0 <= k < case_10@.len() implies (#[trigger] case_10@[k]).var < b.vars() by {}
        assert forall|k: int| 0 <= k < u@.len() implies (#[trigger] u@[k]).var < b.vars() by {}
    }
    let when_sy0 = mux_word(b, sx, case_10.as_slice(), u.as_slice());
    let ghost b10 = *b;
    proof {
        b.lemma_wf();
        assert forall|k: int| 0 <= k < negu@.len() implies (#[trigger] negu@[k]).var < b.vars() by {}
        assert forall|k: int| 0 <= k < case_01@.len() implies (#[trigger] case_01@[k]).var < b.vars() by {}
    }
    let when_sy1 = mux_word(b, sx, negu.as_slice(), case_01.as_slice());
    let ghost b11 = *b;
    proof {
        b.lemma_wf();
        assert forall|k: int| 0 <= k < when_sy0@.len() implies (#[trigger] when_sy0@[k]).var < b.vars() by {}
    }
    let r = mux_word(b, sy, when_sy1.as_slice(), when_sy0.as_slice());
    proof {
        lemma_extends_trans(b10, b11, *b);
        lemma_extends_trans(b9, b10, *b);
        lemma_extends_trans(b8, b9, *b);
        lemma_extends_trans(b7, b8, *b);
        lemma_extends_trans(b6, b7, *b);
        lemma_extends_trans(b5, b6, *b);
        lemma_extends_trans(b4, b5, *b);
        lemma_extends_trans(b3, b4, *b);
        lemma_extends_trans(b2, b3, *b);
        lemma_extends_trans(b1, b2, *b);
        lemma_extends_trans(b0, b1, *b);
        assert forall|m: Assignment| #[trigger] b.models(m) implies word_val(m, r@) == smod_val(m, x@, y@) by {
            assert(b11.models(m));
            assert(b10.models(m));
            assert(b9.models(m));
            assert(b8.models(m));
            assert(b7.models(m));
            assert(b6.models(m));
            assert(b5.models(m));
            assert(b4.models(m));
            assert(b3.models(m));
            assert(b2.models(m));
            assert(b1.models(m));
            assert(x@.last() == sx && y@.last() == sy);
            assert(m(0u32)) by { b0.lemma_wf(); }
            assert forall|j: int| 0 <= j < zero_vec@.len() implies !lit_holds(m, #[trigger] zero_vec@[j]) by {}
            lemma_word_val_zero(m, zero_vec@);
            let uv = word_val(m, u@);
            let p = pow2(n as nat);
            if uv == 0 {
                assert(((p - 0) as int) % (p as int) == 0) by {
                    vstd::arithmetic::power2::lemma_pow2_pos(n as nat);
                    vstd::arithmetic::div_mod::lemma_mod_self_0(p as int);
                }
            }
        }
    }
    r
}

} // verus!
