//! Ripple-carry addition and the gadgets built on it.
use crate::bv::blast::bitwise::bvnot;
use crate::bv::blast::div::{mux_word, zeros};
use crate::bv::blast::{extends, lemma_extends_refl, lemma_extends_trans, true_lit, BitLit, Blaster};
use crate::bv::semantics::{
    bit_of, lemma_word_val_first, lemma_word_val_split, lemma_word_val_bound, lemma_word_val_not, lemma_word_val_push, lit_holds, lits_below,
    word_val, Assignment,
};
use vstd::arithmetic::div_mod::lemma_fundamental_div_mod_converse;
use vstd::arithmetic::power2::{lemma_pow2_pos, lemma_pow2_unfold, pow2};
use vstd::prelude::*;

verus! {

proof fn lemma_adder_step(p: int, vs: int, s: int, c: int, cold: int, xi: int, yi: int, xs: int, ys: int, cin: int)
    by (nonlinear_arith)
    requires
        vs + p * cold == xs + ys + cin,
        s + 2 * c == xi + yi + cold,
    ensures
        vs + p * s + (2 * p) * c == (xs + p * xi) + (ys + p * yi) + cin,
{
}

proof fn lemma_weight(m: Assignment, l: BitLit, p: nat)
    ensures
        (if lit_holds(m, l) { p } else { 0 }) == p * bit_of(m, l),
{
}

/// The low `n` bits of a sum whose carry-out is known.
pub proof fn lemma_low_bits_of_sum(a: nat, c: nat, n: nat, t: int)
    requires
        a < pow2(n),
        a + pow2(n) * c == t,
    ensures
        a == t % (pow2(n) as int),
        c == t / (pow2(n) as int),
{
    lemma_pow2_pos(n);
    vstd::arithmetic::mul::lemma_mul_is_commutative(pow2(n) as int, c as int);
    lemma_fundamental_div_mod_converse(t, pow2(n) as int, c as int, a as int);
}

/// Ripple-carry adder: `x + y + cin`, as an `n`-bit sum and a carry-out.
pub fn adder(b: &mut Blaster, x: &[BitLit], y: &[BitLit], cin: BitLit) -> (r: (Vec<BitLit>, BitLit))
    requires
        old(b).wf(),
        x@.len() == y@.len(),
        lits_below(x@, old(b).vars()),
        lits_below(y@, old(b).vars()),
        cin.var < old(b).vars(),
        old(b).vars() + 5 * x@.len() <= u32::MAX,
    ensures
        final(b).wf(),
        final(b).vars() == old(b).vars() + 5 * x@.len(),
        final(b).drained_count() == old(b).drained_count(),
        extends(*old(b), *final(b)),
        r.0@.len() == x@.len(),
        lits_below(r.0@, final(b).vars()),
        r.1.var < final(b).vars(),
        forall|m: Assignment| #[trigger] final(b).models(m) ==>
            word_val(m, r.0@) + pow2(x@.len()) * bit_of(m, r.1) == word_val(m, x@) + word_val(m, y@) + bit_of(m, cin),
{
    let ghost b0 = *b;
    let mut carry = cin;
    let mut sum: Vec<BitLit> = Vec::new();
    let n = x.len();
    let mut i: usize = 0;
    proof {
        lemma_extends_refl(b0);
        assert forall|m: Assignment| #[trigger] b.models(m) implies
            word_val(m, sum@) + pow2(0) * bit_of(m, carry) == word_val(m, x@.take(0)) + word_val(m, y@.take(0)) + bit_of(m, cin) by {
            assert(pow2(0) == 1) by { vstd::arithmetic::power2::lemma2_to64(); }
            assert(x@.take(0) =~= Seq::<BitLit>::empty());
            assert(y@.take(0) =~= Seq::<BitLit>::empty());
        }
    }
    while i < n
        invariant
            b.wf(),
            0 <= i <= n,
            n == x@.len(),
            x@.len() == y@.len(),
            lits_below(x@, b0.vars()),
            lits_below(y@, b0.vars()),
            cin.var < b0.vars(),
            b0.vars() + 5 * n <= u32::MAX,
            b.vars() == b0.vars() + 5 * i,
            b.drained_count() == b0.drained_count(),
            extends(b0, *b),
            sum@.len() == i,
            lits_below(sum@, b.vars()),
            carry.var < b.vars(),
            forall|m: Assignment| #[trigger] b.models(m) ==>
                word_val(m, sum@) + pow2(i as nat) * bit_of(m, carry)
                    == word_val(m, x@.take(i as int)) + word_val(m, y@.take(i as int)) + bit_of(m, cin),
        decreases n - i,
    {
        let ghost bi = *b;
        let ghost si = sum@;
        let ghost ci = carry;
        assert(x@[i as int].var < b0.vars() && y@[i as int].var < b0.vars());
        let (s, c) = b.full_adder(x[i], y[i], carry);
        sum.push(s);
        carry = c;
        proof {
            lemma_extends_trans(b0, bi, *b);
            assert(x@.take(i + 1) =~= x@.take(i as int).push(x@[i as int]));
            assert(y@.take(i + 1) =~= y@.take(i as int).push(y@[i as int]));
            assert(sum@ =~= si.push(s));
            lemma_pow2_unfold((i + 1) as nat);
            let p = pow2(i as nat);
            assert forall|m: Assignment| #[trigger] b.models(m) implies
                word_val(m, sum@) + pow2((i + 1) as nat) * bit_of(m, carry)
                    == word_val(m, x@.take(i + 1)) + word_val(m, y@.take(i + 1)) + bit_of(m, cin) by {
                assert(bi.models(m));
                lemma_word_val_push(m, si, s);
                lemma_word_val_push(m, x@.take(i as int), x@[i as int]);
                lemma_word_val_push(m, y@.take(i as int), y@[i as int]);
                lemma_weight(m, s, p);
                lemma_weight(m, x@[i as int], p);
                lemma_weight(m, y@[i as int], p);
                lemma_adder_step(
                    p as int,
                    word_val(m, si) as int,
                    bit_of(m, s) as int,
                    bit_of(m, c) as int,
                    bit_of(m, ci) as int,
                    bit_of(m, x@[i as int]) as int,
                    bit_of(m, y@[i as int]) as int,
                    word_val(m, x@.take(i as int)) as int,
                    word_val(m, y@.take(i as int)) as int,
                    bit_of(m, cin) as int,
                );
            }
            assert forall|k: int| 0 <= k < sum@.len() implies (#[trigger] sum@[k]).var < b.vars() by {
                if k < i {
                    assert(sum@[k] == si[k]);
                }
            }
        }
        i = i + 1;
    }
    proof {
        assert(x@.take(n as int) =~= x@);
        assert(y@.take(n as int) =~= y@);
    }
    (sum, carry)
}

/// Addition modulo `2^n`.
pub fn bvadd(b: &mut Blaster, x: &[BitLit], y: &[BitLit]) -> (r: Vec<BitLit>)
    requires
        old(b).wf(),
        x@.len() == y@.len(),
        lits_below(x@, old(b).vars()),
        lits_below(y@, old(b).vars()),
        old(b).vars() + 5 * x@.len() <= u32::MAX,
    ensures
        final(b).wf(),
        final(b).vars() == old(b).vars() + 5 * x@.len(),
        final(b).drained_count() == old(b).drained_count(),
        extends(*old(b), *final(b)),
        r@.len() == x@.len(),
        lits_below(r@, final(b).vars()),
        forall|m: Assignment| #[trigger] final(b).models(m) ==>
            word_val(m, r@) == (word_val(m, x@) + word_val(m, y@)) % pow2(x@.len()),
{
    let z = b.zero();
    proof { b.lemma_wf(); }
    let r = adder(b, x, y, z);
    proof {
        b.lemma_wf();
        assert forall|m: Assignment| #[trigger] b.models(m) implies
            word_val(m, r.0@) == (word_val(m, x@) + word_val(m, y@)) % pow2(x@.len()) by {
            assert(m(0u32));
            assert(bit_of(m, z) == 0);
            lemma_word_val_bound(m, r.0@);
            lemma_low_bits_of_sum(word_val(m, r.0@), bit_of(m, r.1), x@.len(), (word_val(m, x@) + word_val(m, y@)) as int);
        }
    }
    r.0
}

/// Two's-complement negation modulo `2^n`.
pub fn bvneg(b: &mut Blaster, x: &[BitLit]) -> (r: Vec<BitLit>)
    requires
        old(b).wf(),
        lits_below(x@, old(b).vars()),
        old(b).vars() + 5 * x@.len() <= u32::MAX,
    ensures
        final(b).wf(),
        final(b).vars() == old(b).vars() + 5 * x@.len(),
        final(b).drained_count() == old(b).drained_count(),
        extends(*old(b), *final(b)),
        r@.len() == x@.len(),
        lits_below(r@, final(b).vars()),
        forall|m: Assignment| #[trigger] final(b).models(m) ==>
            word_val(m, r@) == (pow2(x@.len()) - word_val(m, x@)) % (pow2(x@.len()) as int),
{
    let nx = bvnot(b, x);
    let mut ones: Vec<BitLit> = Vec::new();
    let n = x.len();
    let mut i: usize = 0;
    while i < n
        invariant
            0 <= i <= n,
            n == x@.len(),
            ones@.len() == i,
            forall|k: int| 0 <= k < i ==> #[trigger] ones@[k] == if k == 0 { true_lit() } else { true_lit().negate_spec() },
        decreases n - i,
    {
        if i == 0 {
            ones.push(b.one());
        } else {
            ones.push(b.zero());
        }
        i = i + 1;
    }
    let z = b.zero();
    proof {
        b.lemma_wf();
        assert forall|k: int| 0 <= k < nx@.len() implies (#[trigger] nx@[k]).var < b.vars() by {
            assert(nx@[k] == x@[k].negate_spec());
        }
    }
    let r = adder(b, nx.as_slice(), ones.as_slice(), z);
    proof {
        b.lemma_wf();
        assert forall|m: Assignment| #[trigger] b.models(m) implies
            word_val(m, r.0@) == (pow2(x@.len()) - word_val(m, x@)) % (pow2(x@.len()) as int) by {
            assert(m(0u32));
            lemma_word_val_not(m, x@, nx@);
            lemma_word_val_bound(m, r.0@);
            lemma_one_hot(m, ones@);
            if x@.len() == 0 {
                assert(pow2(0) == 1) by { vstd::arithmetic::power2::lemma2_to64(); }
                assert(r.0@.len() == 0);
            } else {
                assert(bit_of(m, z) == 0);
                lemma_low_bits_of_sum(word_val(m, r.0@), bit_of(m, r.1), x@.len(), pow2(x@.len()) - word_val(m, x@));
            }
        }
    }
    r.0
}

/// A word whose first literal is true and whose others are false denotes 1
/// (0 when it is empty).
proof fn lemma_one_hot(m: Assignment, w: Seq<BitLit>)
    requires
        m(0u32),
        forall|k: int| 0 <= k < w.len() ==> #[trigger] w[k] == if k == 0 { true_lit() } else { true_lit().negate_spec() },
    ensures
        word_val(m, w) == if w.len() == 0 { 0nat } else { 1nat },
    decreases w.len(),
{
    if w.len() > 0 {
        assert forall|k: int| 0 <= k < w.drop_last().len() implies #[trigger] w.drop_last()[k] == if k == 0 { true_lit() } else { true_lit().negate_spec() } by {
            assert(w.drop_last()[k] == w[k]);
        }
        lemma_one_hot(m, w.drop_last());
        if w.len() == 1 {
            assert(pow2(0) == 1) by { vstd::arithmetic::power2::lemma2_to64(); }
        }
    }
}

/// Subtraction modulo `2^n`: `x + !y + 1`.
pub fn bvsub(b: &mut Blaster, x: &[BitLit], y: &[BitLit]) -> (r: Vec<BitLit>)
    requires
        old(b).wf(),
        x@.len() == y@.len(),
        lits_below(x@, old(b).vars()),
        lits_below(y@, old(b).vars()),
        old(b).vars() + 5 * x@.len() <= u32::MAX,
    ensures
        final(b).wf(),
        final(b).vars() == old(b).vars() + 5 * x@.len(),
        final(b).drained_count() == old(b).drained_count(),
        extends(*old(b), *final(b)),
        r@.len() == x@.len(),
        lits_below(r@, final(b).vars()),
        forall|m: Assignment| #[trigger] final(b).models(m) ==>
            word_val(m, r@) == (word_val(m, x@) + pow2(x@.len()) - word_val(m, y@)) % (pow2(x@.len()) as int),
{
    let ny = bvnot(b, y);
    let one = b.one();
    proof {
        b.lemma_wf();
        assert forall|k: int| 0 <= k < ny@.len() implies (#[trigger] ny@[k]).var < b.vars() by {
            assert(ny@[k] == y@[k].negate_spec());
        }
    }
    let r = adder(b, x, ny.as_slice(), one);
    proof {
        b.lemma_wf();
        assert forall|m: Assignment| #[trigger] b.models(m) implies
            word_val(m, r.0@) == (word_val(m, x@) + pow2(x@.len()) - word_val(m, y@)) % (pow2(x@.len()) as int) by {
            assert(m(0u32));
            lemma_word_val_not(m, y@, ny@);
            lemma_word_val_bound(m, r.0@);
            lemma_low_bits_of_sum(word_val(m, r.0@), bit_of(m, r.1), x@.len(), word_val(m, x@) + pow2(x@.len()) - word_val(m, y@));
        }
    }
    r.0
}


/// The cost of one more step of the multiplier stays within the whole.
proof fn lemma_mul_steps(n: int, j: int)
    by (nonlinear_arith)
    requires
        0 <= j < n,
    ensures
        6 * n * j + 6 * n == 6 * n * (j + 1),
        6 * n * (j + 1) <= 6 * n * n,
{
}

/// One step of shift-and-add: doubling the product so far and adding the
/// multiplicand for a set bit, modulo `p`.
pub(crate) proof fn lemma_mul_step(vx: int, s: int, yb: int, p: int)
    requires
        p > 0,
    ensures
        ((2 * ((vx * s) % p)) % p + yb * vx) % p == (vx * (yb + 2 * s)) % p,
{
    vstd::arithmetic::div_mod::lemma_mul_mod_noop_right(2, vx * s, p);
    vstd::arithmetic::div_mod::lemma_add_mod_noop_right(yb * vx, 2 * (vx * s), p);
    assert(vx * (yb + 2 * s) == yb * vx + 2 * (vx * s)) by (nonlinear_arith);
}

/// Multiplication modulo `2^n`: shift and add, from the multiplier's top
/// bit down.
pub fn bvmul(b: &mut Blaster, x: &[BitLit], y: &[BitLit]) -> (r: Vec<BitLit>)
    requires
        old(b).wf(),
        x@.len() == y@.len(),
        lits_below(x@, old(b).vars()),
        lits_below(y@, old(b).vars()),
        old(b).vars() + 6 * x@.len() * x@.len() <= u32::MAX,
    ensures
        final(b).wf(),
        final(b).vars() == old(b).vars() + 6 * x@.len() * x@.len(),
        final(b).drained_count() == old(b).drained_count(),
        extends(*old(b), *final(b)),
        r@.len() == x@.len(),
        lits_below(r@, final(b).vars()),
        forall|m: Assignment| #[trigger] final(b).models(m) ==>
            word_val(m, r@) == (word_val(m, x@) * word_val(m, y@)) % pow2(x@.len()),
{
    let ghost b0 = *b;
    let n = x.len();
    proof {
        b.lemma_wf();
        lemma_extends_refl(b0);
        lemma_pow2_pos(n as nat);
    }
    let zs = zeros(b, n);
    let mut acc = zeros(b, n);
    let mut i: usize = n;
    proof {
        assert forall|m: Assignment| #[trigger] b.models(m) implies
            word_val(m, acc@) == (word_val(m, x@) * word_val(m, y@.skip(n as int))) % pow2(n as nat) by {
            assert(m(0u32));
            crate::bv::semantics::lemma_word_val_zero(m, acc@);
            assert(y@.skip(n as int).len() == 0);
            assert(word_val(m, y@.skip(n as int)) == 0);
            assert(word_val(m, x@) * 0 == 0);
        }
    }
    while i > 0
        invariant
            b.wf(),
            0 <= i <= n,
            n == x@.len(),
            x@.len() == y@.len(),
            lits_below(x@, b0.vars()),
            lits_below(y@, b0.vars()),
            b0.vars() + 6 * n * n <= u32::MAX,
            b.vars() == b0.vars() + 6 * n * (n - i),
            b.drained_count() == b0.drained_count(),
            extends(b0, *b),
            b0.wf(),
            zs@.len() == n,
            forall|j: int| 0 <= j < n ==> #[trigger] zs@[j] == true_lit().negate_spec(),
            acc@.len() == n,
            lits_below(acc@, b.vars()),
            forall|m: Assignment| #[trigger] b.models(m) ==>
                word_val(m, acc@) == (word_val(m, x@) * word_val(m, y@.skip(i as int))) % pow2(n as nat),
        decreases i,
    {
        i = i - 1;
        proof {
            lemma_mul_steps(n as int, (n - i - 1) as int);
            b.lemma_wf();
        }
        let ghost bi = *b;
        let ghost ai = acc@;
        let mut d: Vec<BitLit> = Vec::new();
        d.push(b.zero());
        let mut k: usize = 0;
        while k + 1 < n
            invariant
                0 <= k < n,
                n == acc@.len(),
                d@.len() == k + 1,
                d@[0] == true_lit().negate_spec(),
                forall|j: int| 1 <= j <= k ==> #[trigger] d@[j] == acc@[j - 1],
            decreases n - k,
        {
            d.push(acc[k]);
            k = k + 1;
        }
        proof {
            assert(d@ =~= seq![true_lit().negate_spec()] + acc@.take(n - 1));
            assert forall|j: int| 0 <= j < n implies (#[trigger] zs@[j]).var < b.vars() by {}
            assert forall|j: int| 0 <= j < n implies (#[trigger] d@[j]).var < b.vars() by {
                if j > 0 { assert(d@[j] == acc@[j - 1]); }
            }
            assert(lits_below(zs@, b.vars()));
            assert(lits_below(d@, b.vars()));
            assert(y@[i as int].var < b0.vars());
        }
        let part = mux_word(b, y[i], x, zs.as_slice());
        let ghost bp = *b;
        proof {
            lemma_extends_trans(b0, bi, bp);
            b.lemma_wf();
        }
        let s = bvadd(b, d.as_slice(), part.as_slice());
        proof {
            lemma_extends_trans(b0, bp, *b);
            lemma_extends_trans(bi, bp, *b);
            assert forall|m: Assignment| #[trigger] b.models(m) implies
                word_val(m, s@) == (word_val(m, x@) * word_val(m, y@.skip(i as int))) % pow2(n as nat) by {
                crate::bv::blast::lemma_extends_models(bp, *b);
                crate::bv::blast::lemma_extends_models(bi, bp);
                assert(bp.models(m));
                assert(bi.models(m));
                assert(m(0u32));
                let vx = word_val(m, x@);
                let rest = word_val(m, y@.skip(i + 1));
                let yb = bit_of(m, y@[i as int]);
                // the multiplier's bits from `i` up
                assert(y@.skip(i as int).drop_first() =~= y@.skip(i + 1));
                lemma_word_val_first(m, y@.skip(i as int));
                // doubling the product so far
                lemma_word_val_first(m, d@);
                assert(d@.drop_first() =~= ai.take(n - 1));
                lemma_word_val_split(m, ai, n - 1);
                assert(ai.skip(n - 1).len() == 1);
                crate::bv::semantics::lemma_word_val_bound(m, ai.take(n - 1));
                lemma_pow2_unfold(n as nat);
                lemma_pow2_pos(n as nat);
                let dv = word_val(m, d@);
                assert(dv == 2 * word_val(m, ai.take(n - 1)));
                let c = word_val(m, ai.skip(n - 1));
                let h = pow2((n - 1) as nat);
                assert(2 * (h * c) == (2 * h) * c) by (nonlinear_arith);
                lemma_low_bits_of_sum(dv, c, n as nat, (2 * word_val(m, ai)) as int);
                // the partial product
                assert(word_val(m, part@) == yb * vx) by {
                    if lit_holds(m, y@[i as int]) {
                    } else {
                        crate::bv::semantics::lemma_word_val_zero(m, zs@);
                    }
                }
                lemma_mul_step(vx as int, rest as int, yb as int, pow2(n as nat) as int);
            }
        }
        acc = s;
    }
    proof {
        assert(y@.skip(0) =~= y@);
    }
    acc
}
} // verus!
