//! Barrel shifters (shift amount given as a word) and constant rotations
//! (a permutation of literals, no clauses).
use crate::bv::blast::{extends, lemma_extends_refl, lemma_extends_trans, true_lit, BitLit, Blaster};
use crate::bv::semantics::{
    lemma_word_val_split, lemma_word_val_take_succ, lemma_word_val_zero, lit_holds, lits_below,
    word_val, Assignment,
};
use vstd::arithmetic::power2::{lemma2_to64, lemma_pow2_pos, lemma_pow2_unfold, pow2};
use vstd::prelude::*;

verus! {

/// `pow2(k) > k`.
proof fn lemma_pow2_gt(k: nat)
    ensures
        pow2(k) > k,
    decreases k,
{
    if k == 0 {
        lemma2_to64();
    } else {
        lemma_pow2_gt((k - 1) as nat);
        lemma_pow2_unfold(k);
        lemma_pow2_pos((k - 1) as nat);
    }
}

/// The number of barrel stages a width-`n` shifter needs: the least `s`
/// with `2^s >= n` (0 for `n <= 1`).
fn log2_ceil(n: usize) -> (s: usize)
    ensures
        n <= 1 ==> s == 0,
        n > 1 ==> pow2((s - 1) as nat) < n <= pow2(s as nat),
        n > 1 ==> 1 <= s <= 64,
{
    if n <= 1 {
        return 0;
    }
    let x = (n - 1) as u64;
    let lz = x.leading_zeros();
    proof {
        vstd::std_specs::bits::axiom_u64_leading_zeros(x);
        let s = (64 - lz) as nat;
        assert(x != 0);
        assert(lz < 64);
        if lz > 0 {
            vstd::bits::lemma_u64_shr_is_div(x, (64 - lz) as u64);
            assert(x as nat / pow2(s) == 0);
            lemma_pow2_pos(s);
            assert(x < pow2(s)) by {
                vstd::arithmetic::div_mod::lemma_fundamental_div_mod(x as int, pow2(s) as int);
            }
        } else {
            lemma2_to64();
            vstd::arithmetic::power2::lemma2_to64_rest();
            lemma_pow2_unfold(64);
            assert(x < pow2(s));
        }
        vstd::bits::lemma_u64_shr_is_div(x, (63 - lz) as u64);
        assert((x >> ((63 - lz) as u64)) & 1u64 != 0u64);
        let q = x >> ((63 - lz) as u64);
        assert(q & 1u64 != 0u64 ==> q >= 1) by (bit_vector);
        lemma_pow2_pos((s - 1) as nat);
        assert(x as nat >= pow2((s - 1) as nat)) by {
            vstd::arithmetic::div_mod::lemma_fundamental_div_mod(x as int, pow2((s - 1) as nat) as int);
            assert(pow2((s - 1) as nat) * (x as nat / pow2((s - 1) as nat)) >= pow2((s - 1) as nat)) by {
                vstd::arithmetic::mul::lemma_mul_increases((x as nat / pow2((s - 1) as nat)) as int, pow2((s - 1) as nat) as int);
            }
        }
    }
    (64 - lz) as usize
}

/// `x` rotated left by `k` places.
pub open spec fn rotl_seq(x: Seq<BitLit>, k: u32) -> Seq<BitLit> {
    let n = x.len() as int;
    Seq::new(x.len(), |i: int| x[(i + n - (k as int % n)) % n])
}

/// `x` rotated right by `k` places.
pub open spec fn rotr_seq(x: Seq<BitLit>, k: u32) -> Seq<BitLit> {
    let n = x.len() as int;
    Seq::new(x.len(), |i: int| x[(i + (k as int % n)) % n])
}

/// Rotating right by `k` undoes rotating left by `k`, for every word.
pub proof fn lemma_rotate_round_trip(x: Seq<BitLit>, k: u32)
    ensures
        rotr_seq(rotl_seq(x, k), k) == x,
{
    let n = x.len() as int;
    let l = rotl_seq(x, k);
    if n > 0 {
        let kk = k as int % n;
        assert(0 <= kk < n);
        assert forall|i: int| 0 <= i < n implies #[trigger] rotr_seq(l, k)[i] == x[i] by {
            let j = (i + kk) % n;
            if i + kk < n {
                vstd::arithmetic::div_mod::lemma_small_mod((i + kk) as nat, n as nat);
                vstd::arithmetic::div_mod::lemma_fundamental_div_mod_converse(j + n - kk, n, 1, i);
            } else {
                vstd::arithmetic::div_mod::lemma_fundamental_div_mod_converse(i + kk, n, 1, i + kk - n);
                vstd::arithmetic::div_mod::lemma_small_mod(i as nat, n as nat);
            }
            assert(l[j] == x[(j + n - kk) % n]);
        }
    }
    assert(rotr_seq(l, k) =~= x);
}

/// Left rotation by a constant: `r[i] = x[(i + n - k mod n) mod n]`.
pub fn rotate_left(x: &[BitLit], k: u32) -> (r: Vec<BitLit>)
    ensures
        r@ == rotl_seq(x@, k),
        r@.len() == x@.len(),
        forall|i: int| 0 <= i < r@.len() ==> #[trigger] r@[i] == x@[(i + x@.len() - (k as int % x@.len() as int)) % (x@.len() as int)],
{
    let n = x.len();
    if n == 0 {
        return Vec::new();
    }
    let k = (k as usize) % n;
    let mut v: Vec<BitLit> = Vec::new();
    let mut i: usize = 0;
    while i < n
        invariant
            0 <= i <= n,
            n == x@.len(),
            n >= 1,
            k < n,
            v@.len() == i,
            forall|j: int| 0 <= j < i ==> #[trigger] v@[j] == x@[(j + n - k) % (n as int)],
        decreases n - i,
    {
        let j = if i >= k { i - k } else { i + (n - k) };
        proof {
            if i >= k {
                vstd::arithmetic::div_mod::lemma_fundamental_div_mod_converse((i + n - k) as int, n as int, 1, (i - k) as int);
            } else {
                vstd::arithmetic::div_mod::lemma_small_mod((i + n - k) as nat, n as nat);
            }
        }
        v.push(x[j]);
        i = i + 1;
    }
    v
}

/// Right rotation by a constant: `r[i] = x[(i + k mod n) mod n]`.
pub fn rotate_right(x: &[BitLit], k: u32) -> (r: Vec<BitLit>)
    ensures
        r@ == rotr_seq(x@, k),
        r@.len() == x@.len(),
        forall|i: int| 0 <= i < r@.len() ==> #[trigger] r@[i] == x@[(i + (k as int % x@.len() as int)) % (x@.len() as int)],
{
    let n = x.len();
    if n == 0 {
        return Vec::new();
    }
    let k = (k as usize) % n;
    let mut v: Vec<BitLit> = Vec::new();
    let mut i: usize = 0;
    while i < n
        invariant
            0 <= i <= n,
            n == x@.len(),
            n >= 1,
            k < n,
            v@.len() == i,
            forall|j: int| 0 <= j < i ==> #[trigger] v@[j] == x@[(j + k) % (n as int)],
        decreases n - i,
    {
        let j = if i < n - k { i + k } else { i - (n - k) };
        proof {
            if i < n - k {
                vstd::arithmetic::div_mod::lemma_small_mod((i + k) as nat, n as nat);
            } else {
                vstd::arithmetic::div_mod::lemma_fundamental_div_mod_converse((i + k) as int, n as int, 1, (i + k - n) as int);
            }
        }
        v.push(x[j]);
        i = i + 1;
    }
    v
}

/// Bit `j` of `x` shifted up by `k`, zero-filled.
pub open spec fn shl_bit(m: Assignment, x: Seq<BitLit>, k: nat, j: int) -> bool {
    if j >= k { lit_holds(m, x[j - k]) } else { false }
}

/// Bit `j` of `x` shifted down by `k`, with `fill` shifted in at the top.
pub open spec fn shr_bit(m: Assignment, x: Seq<BitLit>, k: nat, j: int, fill: bool) -> bool {
    if j + k < x.len() { lit_holds(m, x[j + k]) } else { fill }
}

/// One literal true exactly when some literal of `lits` is (false for an
/// empty list).
fn or_reduce(b: &mut Blaster, lits: &[BitLit]) -> (r: BitLit)
    requires
        old(b).wf(),
        lits_below(lits@, old(b).vars()),
        old(b).vars() + lits@.len() <= u32::MAX,
    ensures
        final(b).wf(),
        old(b).vars() <= final(b).vars() <= old(b).vars() + lits@.len(),
        final(b).drained_count() == old(b).drained_count(),
        extends(*old(b), *final(b)),
        r.var < final(b).vars(),
        forall|m: Assignment| #[trigger] final(b).models(m) ==>
            lit_holds(m, r) == exists|i: int| 0 <= i < lits@.len() && lit_holds(m, #[trigger] lits@[i]),
{
    let ghost b0 = *b;
    proof { b.lemma_wf(); lemma_extends_refl(b0); }
    if lits.len() == 0 {
        return b.zero();
    }
    let mut acc = lits[0];
    let mut i: usize = 1;
    while i < lits.len()
        invariant
            b.wf(),
            1 <= i <= lits@.len(),
            lits_below(lits@, b0.vars()),
            b0.vars() + lits@.len() <= u32::MAX,
            b.vars() == b0.vars() + i - 1,
            b.drained_count() == b0.drained_count(),
            extends(b0, *b),
            acc.var < b.vars(),
            forall|m: Assignment| #[trigger] b.models(m) ==>
                lit_holds(m, acc) == exists|k: int| 0 <= k < i && lit_holds(m, #[trigger] lits@[k]),
        decreases lits@.len() - i,
    {
        let ghost bi = *b;
        let ghost acc_i = acc;
        assert(lits@[i as int].var < b0.vars());
        acc = b.or2(acc, lits[i]);
        proof {
            lemma_extends_trans(b0, bi, *b);
            assert forall|m: Assignment| #[trigger] b.models(m) implies
                lit_holds(m, acc) == exists|k: int| 0 <= k < i + 1 && lit_holds(m, #[trigger] lits@[k]) by {
                assert(bi.models(m));
                if exists|k: int| 0 <= k < i + 1 && lit_holds(m, #[trigger] lits@[k]) {
                    let k = choose|k: int| 0 <= k < i + 1 && lit_holds(m, #[trigger] lits@[k]);
                    if k < i {
                        assert(lit_holds(m, acc_i));
                    }
                }
            }
        }
        i = i + 1;
    }
    proof {
        b.lemma_wf();
        assert forall|m: Assignment| #[trigger] b.models(m) implies
            lit_holds(m, acc) == exists|k: int| 0 <= k < lits@.len() && lit_holds(m, #[trigger] lits@[k]) by {}
    }
    acc
}

/// One barrel stage towards the top: where `sel` holds, bit `j` takes bit
/// `j - amount` (or `fill` below `amount`); elsewhere it is unchanged.
fn barrel_stage_shl(b: &mut Blaster, cur: &[BitLit], sel: BitLit, amount: usize, fill: BitLit) -> (r: Vec<BitLit>)
    requires
        old(b).wf(),
        lits_below(cur@, old(b).vars()),
        sel.var < old(b).vars(),
        fill.var < old(b).vars(),
        old(b).vars() + cur@.len() <= u32::MAX,
    ensures
        final(b).wf(),
        final(b).vars() == old(b).vars() + cur@.len(),
        final(b).drained_count() == old(b).drained_count(),
        extends(*old(b), *final(b)),
        r@.len() == cur@.len(),
        lits_below(r@, final(b).vars()),
        forall|m: Assignment| #[trigger] final(b).models(m) ==> forall|j: int| 0 <= j < r@.len() ==>
            lit_holds(m, #[trigger] r@[j]) == if lit_holds(m, sel) {
                if j >= amount { lit_holds(m, cur@[j - amount]) } else { lit_holds(m, fill) }
            } else {
                lit_holds(m, cur@[j])
            },
{
    let ghost b0 = *b;
    proof { lemma_extends_refl(b0); }
    let n = cur.len();
    let mut r: Vec<BitLit> = Vec::new();
    let mut j: usize = 0;
    while j < n
        invariant
            b.wf(),
            0 <= j <= n,
            n == cur@.len(),
            lits_below(cur@, b0.vars()),
            sel.var < b0.vars(),
            fill.var < b0.vars(),
            b0.vars() + n <= u32::MAX,
            b.vars() == b0.vars() + j,
            b.drained_count() == b0.drained_count(),
            extends(b0, *b),
            r@.len() == j,
            lits_below(r@, b.vars()),
            forall|m: Assignment| #[trigger] b.models(m) ==> forall|k: int| 0 <= k < r@.len() ==>
                lit_holds(m, #[trigger] r@[k]) == if lit_holds(m, sel) {
                    if k >= amount { lit_holds(m, cur@[k - amount]) } else { lit_holds(m, fill) }
                } else {
                    lit_holds(m, cur@[k])
                },
        decreases n - j,
    {
        let ghost bj = *b;
        let ghost rj = r@;
        let shifted = if j >= amount { cur[j - amount] } else { fill };
        assert(cur@[j as int].var < b0.vars());
        let o = b.mux2(sel, shifted, cur[j]);
        r.push(o);
        proof {
            lemma_extends_trans(b0, bj, *b);
            assert forall|m: Assignment| #[trigger] b.models(m) implies forall|k: int| 0 <= k < r@.len() ==>
                lit_holds(m, #[trigger] r@[k]) == if lit_holds(m, sel) {
                    if k >= amount { lit_holds(m, cur@[k - amount]) } else { lit_holds(m, fill) }
                } else {
                    lit_holds(m, cur@[k])
                } by {
                assert(bj.models(m));
                assert forall|k: int| 0 <= k < r@.len() implies lit_holds(m, #[trigger] r@[k]) == if lit_holds(m, sel) {
                    if k >= amount { lit_holds(m, cur@[k - amount]) } else { lit_holds(m, fill) }
                } else {
                    lit_holds(m, cur@[k])
                } by {
                    if k < j {
                        assert(r@[k] == rj[k]);
                    }
                }
            }
        }
        j = j + 1;
    }
    r
}

/// One barrel stage towards the bottom: where `sel` holds, bit `j` takes
/// bit `j + amount` (or `fill` at the top); elsewhere it is unchanged.
fn barrel_stage_lshr(b: &mut Blaster, cur: &[BitLit], sel: BitLit, amount: usize, fill: BitLit) -> (r: Vec<BitLit>)
    requires
        old(b).wf(),
        lits_below(cur@, old(b).vars()),
        sel.var < old(b).vars(),
        fill.var < old(b).vars(),
        old(b).vars() + cur@.len() <= u32::MAX,
        cur@.len() + amount <= usize::MAX,
    ensures
        final(b).wf(),
        final(b).vars() == old(b).vars() + cur@.len(),
        final(b).drained_count() == old(b).drained_count(),
        extends(*old(b), *final(b)),
        r@.len() == cur@.len(),
        lits_below(r@, final(b).vars()),
        forall|m: Assignment| #[trigger] final(b).models(m) ==> forall|j: int| 0 <= j < r@.len() ==>
            lit_holds(m, #[trigger] r@[j]) == if lit_holds(m, sel) {
                if j + amount < cur@.len() { lit_holds(m, cur@[j + amount]) } else { lit_holds(m, fill) }
            } else {
                lit_holds(m, cur@[j])
            },
{
    let ghost b0 = *b;
    proof { lemma_extends_refl(b0); }
    let n = cur.len();
    let mut r: Vec<BitLit> = Vec::new();
    let mut j: usize = 0;
    while j < n
        invariant
            b.wf(),
            0 <= j <= n,
            n == cur@.len(),
            n + amount <= usize::MAX,
            lits_below(cur@, b0.vars()),
            sel.var < b0.vars(),
            fill.var < b0.vars(),
            b0.vars() + n <= u32::MAX,
            b.vars() == b0.vars() + j,
            b.drained_count() == b0.drained_count(),
            extends(b0, *b),
            r@.len() == j,
            lits_below(r@, b.vars()),
            forall|m: Assignment| #[trigger] b.models(m) ==> forall|k: int| 0 <= k < r@.len() ==>
                lit_holds(m, #[trigger] r@[k]) == if lit_holds(m, sel) {
                    if k + amount < n { lit_holds(m, cur@[k + amount]) } else { lit_holds(m, fill) }
                } else {
                    lit_holds(m, cur@[k])
                },
        decreases n - j,
    {
        let ghost bj = *b;
        let ghost rj = r@;
        let shifted = if j + amount < n { cur[j + amount] } else { fill };
        assert(cur@[j as int].var < b0.vars());
        let o = b.mux2(sel, shifted, cur[j]);
        r.push(o);
        proof {
            lemma_extends_trans(b0, bj, *b);
            assert forall|m: Assignment| #[trigger] b.models(m) implies forall|k: int| 0 <= k < r@.len() ==>
                lit_holds(m, #[trigger] r@[k]) == if lit_holds(m, sel) {
                    if k + amount < n { lit_holds(m, cur@[k + amount]) } else { lit_holds(m, fill) }
                } else {
                    lit_holds(m, cur@[k])
                } by {
                assert(bj.models(m));
                assert forall|k: int| 0 <= k < r@.len() implies lit_holds(m, #[trigger] r@[k]) == if lit_holds(m, sel) {
                    if k + amount < n { lit_holds(m, cur@[k + amount]) } else { lit_holds(m, fill) }
                } else {
                    lit_holds(m, cur@[k])
                } by {
                    if k < j {
                        assert(r@[k] == rj[k]);
                    }
                }
            }
        }
        j = j + 1;
    }
    r
}

/// Bit `j` of a shift of `x` by `k`: towards the top when `left`, towards
/// the bottom otherwise, with `fill` shifted in.
pub open spec fn shift_bit(left: bool, m: Assignment, x: Seq<BitLit>, k: nat, j: int, fill: bool) -> bool {
    if left {
        if j >= k { lit_holds(m, x[j - k]) } else { fill }
    } else {
        shr_bit(m, x, k, j, fill)
    }
}

/// The variables a width-`n` barrel shifter may add.
pub open spec fn shift_budget(n: nat) -> nat {
    n * n + 2 * n
}

proof fn lemma_stage_step(left: bool, m: Assignment, x: Seq<BitLit>, cur: Seq<BitLit>, r: Seq<BitLit>,
    sel: bool, a: nat, ks: nat, fill: bool)
    requires
        cur.len() == x.len(),
        r.len() == x.len(),
        a >= 1,
        forall|j: int| 0 <= j < cur.len() ==> lit_holds(m, #[trigger] cur[j]) == shift_bit(left, m, x, ks, j, fill),
        forall|j: int| 0 <= j < r.len() ==> lit_holds(m, #[trigger] r[j]) == if sel {
            if left {
                if j >= a { lit_holds(m, cur[j - a]) } else { fill }
            } else {
                if j + a < cur.len() { lit_holds(m, cur[j + a]) } else { fill }
            }
        } else {
            lit_holds(m, cur[j])
        },
    ensures
        forall|j: int| 0 <= j < r.len() ==> lit_holds(m, #[trigger] r[j]) == shift_bit(left, m, x, ks + (if sel { a } else { 0 }), j, fill),
{
    assert forall|j: int| 0 <= j < r.len() implies lit_holds(m, #[trigger] r[j]) == shift_bit(left, m, x, ks + (if sel { a } else { 0 }), j, fill) by {
        if sel {
            if left {
                if j >= a {
                    assert(lit_holds(m, cur[j - a]) == shift_bit(left, m, x, ks, j - a, fill));
                }
            } else {
                if j + a < cur.len() {
                    assert(lit_holds(m, cur[j + a]) == shift_bit(left, m, x, ks, j + a, fill));
                }
            }
        } else {
            assert(lit_holds(m, cur[j]) == shift_bit(left, m, x, ks, j, fill));
        }
    }
}

/// The shared barrel shifter behind `bvshl`, `bvlshr` and `bvashr`.
fn barrel(b: &mut Blaster, x: &[BitLit], y: &[BitLit], left: bool, fill: BitLit) -> (r: Vec<BitLit>)
    requires
        old(b).wf(),
        x@.len() >= 1,
        y@.len() == x@.len(),
        x@.len() <= usize::MAX / 2,
        lits_below(x@, old(b).vars()),
        lits_below(y@, old(b).vars()),
        fill.var < old(b).vars(),
        old(b).vars() + shift_budget(x@.len()) <= u32::MAX,
    ensures
        final(b).wf(),
        old(b).vars() <= final(b).vars() <= old(b).vars() + shift_budget(x@.len()),
        final(b).drained_count() == old(b).drained_count(),
        extends(*old(b), *final(b)),
        r@.len() == x@.len(),
        lits_below(r@, final(b).vars()),
        forall|m: Assignment| #[trigger] final(b).models(m) ==> forall|j: int| 0 <= j < r@.len() ==>
            lit_holds(m, #[trigger] r@[j]) == shift_bit(left, m, x@, word_val(m, y@), j, lit_holds(m, fill)),
{
    let ghost b0 = *b;
    proof { b.lemma_wf(); lemma_extends_refl(b0); }
    let n = x.len();
    let stages = log2_ceil(n);
    proof {
        if n > 1 {
            lemma_pow2_gt((stages - 1) as nat);
        }
        assert(stages <= n);
        assert(stages * n <= n * n) by (nonlinear_arith) requires stages <= n;
    }
    let mut cur: Vec<BitLit> = vstd::slice::slice_to_vec(x);
    let mut amount: usize = 1;
    let mut s: usize = 0;
    proof {
        assert forall|m: Assignment| #[trigger] b.models(m) implies forall|j: int| 0 <= j < cur@.len() ==>
            lit_holds(m, #[trigger] cur@[j]) == shift_bit(left, m, x@, word_val(m, y@.take(0)), j, lit_holds(m, fill)) by {
            assert(y@.take(0) =~= Seq::<BitLit>::empty());
        }
        lemma2_to64();
    }
    while s < stages
        invariant
            b.wf(),
            0 <= s <= stages <= n,
            n == x@.len(),
            n >= 1,
            n <= usize::MAX / 2,
            y@.len() == n,
            n <= 1 ==> stages == 0,
            n > 1 ==> pow2((stages - 1) as nat) < n,
            s < stages ==> amount == pow2(s as nat),
            lits_below(x@, b0.vars()),
            lits_below(y@, b0.vars()),
            fill.var < b0.vars(),
            b0.vars() + shift_budget(n as nat) <= u32::MAX,
            stages * n <= n * n,
            b.vars() == b0.vars() + s * n,
            b.drained_count() == b0.drained_count(),
            extends(b0, *b),
            cur@.len() == n,
            lits_below(cur@, b.vars()),
            forall|m: Assignment| #[trigger] b.models(m) ==> forall|j: int| 0 <= j < cur@.len() ==>
                lit_holds(m, #[trigger] cur@[j]) == shift_bit(left, m, x@, word_val(m, y@.take(s as int)), j, lit_holds(m, fill)),
        decreases stages - s,
    {
        let ghost bs = *b;
        let ghost cs = cur@;
        proof {
            assert(s * n + n <= stages * n) by (nonlinear_arith) requires s < stages;
            assert(y@[s as int].var < b0.vars());
            if s + 1 < stages {
                vstd::arithmetic::power2::lemma_pow2_strictly_increases(s as nat, (stages - 1) as nat);
            }
            assert(amount < n);
        }
        let sel = y[s];
        let next = if left {
            barrel_stage_shl(b, cur.as_slice(), sel, amount, fill)
        } else {
            barrel_stage_lshr(b, cur.as_slice(), sel, amount, fill)
        };
        cur = next;
        proof {
            lemma_extends_trans(b0, bs, *b);
            assert((s + 1) * n == s * n + n) by (nonlinear_arith);
            assert forall|m: Assignment| #[trigger] b.models(m) implies forall|j: int| 0 <= j < cur@.len() ==>
                lit_holds(m, #[trigger] cur@[j]) == shift_bit(left, m, x@, word_val(m, y@.take(s + 1)), j, lit_holds(m, fill)) by {
                assert(bs.models(m));
                lemma_word_val_take_succ(m, y@, s as int);
                lemma_pow2_pos(s as nat);
                lemma_stage_step(left, m, x@, cs, cur@, lit_holds(m, sel), amount as nat, word_val(m, y@.take(s as int)), lit_holds(m, fill));
            }
        }
        if s + 1 < stages {
            proof {
                if s + 1 < stages - 1 {
                    vstd::arithmetic::power2::lemma_pow2_strictly_increases((s + 1) as nat, (stages - 1) as nat);
                }
                lemma_pow2_unfold((s + 1) as nat);
            }
            amount = amount * 2;
        }
        s = s + 1;
    }
    proof {
        assert forall|m: Assignment| #[trigger] b.models(m) implies word_val(m, y@.take(stages as int)) < pow2(stages as nat) by {
            crate::bv::semantics::lemma_word_val_bound(m, y@.take(stages as int));
        }
        if n <= 1 {
            lemma2_to64();
        }
    }
    if stages < y.len() {
        let ghost bo = *b;
        let hi = vstd::slice::slice_subrange(y, stages, y.len());
        proof {
            assert forall|k: int| 0 <= k < hi@.len() implies (#[trigger] hi@[k]).var < b.vars() by {
                assert(hi@[k] == y@[stages + k]);
            }
            assert(n * n + n + (n - stages) <= shift_budget(n as nat));
        }
        let overflow = or_reduce(b, hi);
        let ghost bm = *b;
        let ghost cs = cur@;
        let mut out: Vec<BitLit> = Vec::new();
        let mut j: usize = 0;
        proof { lemma_extends_trans(b0, bo, bm); lemma_extends_refl(bm); }
        while j < n
            invariant
                b.wf(),
                0 <= j <= n,
                n == x@.len(),
                cs.len() == n,
                cur@ == cs,
                bm.wf(),
                lits_below(cs, bm.vars()),
                overflow.var < bm.vars(),
                fill.var < bm.vars(),
                bm.vars() + n <= u32::MAX,
                b.vars() == bm.vars() + j,
                b.drained_count() == bm.drained_count(),
                extends(bm, *b),
                out@.len() == j,
                lits_below(out@, b.vars()),
                forall|m: Assignment| #[trigger] b.models(m) ==> forall|k: int| 0 <= k < out@.len() ==>
                    lit_holds(m, #[trigger] out@[k]) == if lit_holds(m, overflow) { lit_holds(m, fill) } else { lit_holds(m, cs[k]) },
            decreases n - j,
        {
            let ghost bj = *b;
            let ghost oj = out@;
            assert(cs[j as int].var < bm.vars());
            let o = b.mux2(overflow, fill, cur[j]);
            out.push(o);
            proof {
                lemma_extends_trans(bm, bj, *b);
                assert forall|m: Assignment| #[trigger] b.models(m) implies forall|k: int| 0 <= k < out@.len() ==>
                    lit_holds(m, #[trigger] out@[k]) == if lit_holds(m, overflow) { lit_holds(m, fill) } else { lit_holds(m, cs[k]) } by {
                    assert(bj.models(m));
                    assert forall|k: int| 0 <= k < out@.len() implies lit_holds(m, #[trigger] out@[k]) == if lit_holds(m, overflow) { lit_holds(m, fill) } else { lit_holds(m, cs[k]) } by {
                        if k < j {
                            assert(out@[k] == oj[k]);
                        }
                    }
                }
            }
            j = j + 1;
        }
        proof {
            lemma_extends_trans(b0, bm, *b);
            assert forall|m: Assignment| #[trigger] b.models(m) implies forall|j: int| 0 <= j < out@.len() ==>
                lit_holds(m, #[trigger] out@[j]) == shift_bit(left, m, x@, word_val(m, y@), j, lit_holds(m, fill)) by {
                assert(bm.models(m));
                assert(bo.models(m));
                lemma_word_val_split(m, y@, stages as int);
                assert(hi@ =~= y@.skip(stages as int));
                lemma_word_val_zero(m, y@.skip(stages as int));
                crate::bv::semantics::lemma_word_val_bound(m, y@.take(stages as int));
                if lit_holds(m, overflow) {
                    let i = choose|i: int| 0 <= i < hi@.len() && lit_holds(m, #[trigger] hi@[i]);
                    assert(word_val(m, y@.skip(stages as int)) >= 1);
                    assert(pow2(stages as nat) * word_val(m, y@.skip(stages as int)) >= pow2(stages as nat)) by {
                        vstd::arithmetic::mul::lemma_mul_increases(word_val(m, y@.skip(stages as int)) as int, pow2(stages as nat) as int);
                    }
                    assert(word_val(m, y@) >= n);
                } else {
                    assert(forall|i: int| 0 <= i < hi@.len() ==> !lit_holds(m, #[trigger] hi@[i]));
                    assert(word_val(m, y@.skip(stages as int)) == 0);
                    let hv = word_val(m, y@.skip(stages as int));
                    let pw = pow2(stages as nat);
                    assert(pw * hv == 0) by (nonlinear_arith)
                        requires hv == 0;
                    assert(word_val(m, y@) == word_val(m, y@.take(stages as int)));
                }
            }
        }
        out
    } else {
        proof {
            assert(y@.take(stages as int) =~= y@);
            assert(n * n <= shift_budget(n as nat));
        }
        cur
    }
}

/// Left shift `x << y`; all zero once `y >= n`.
pub fn bvshl(b: &mut Blaster, x: &[BitLit], y: &[BitLit]) -> (r: Vec<BitLit>)
    requires
        old(b).wf(),
        x@.len() >= 1,
        y@.len() == x@.len(),
        x@.len() <= usize::MAX / 2,
        lits_below(x@, old(b).vars()),
        lits_below(y@, old(b).vars()),
        old(b).vars() + shift_budget(x@.len()) <= u32::MAX,
    ensures
        final(b).wf(),
        old(b).vars() <= final(b).vars() <= old(b).vars() + shift_budget(x@.len()),
        final(b).drained_count() == old(b).drained_count(),
        extends(*old(b), *final(b)),
        r@.len() == x@.len(),
        lits_below(r@, final(b).vars()),
        forall|m: Assignment| #[trigger] final(b).models(m) ==> forall|j: int| 0 <= j < r@.len() ==>
            lit_holds(m, #[trigger] r@[j]) == shl_bit(m, x@, word_val(m, y@), j),
{
    let fill = b.zero();
    proof { b.lemma_wf(); }
    let r = barrel(b, x, y, true, fill);
    proof { b.lemma_wf(); }
    r
}

/// Logical right shift `x >> y`; all zero once `y >= n`.
pub fn bvlshr(b: &mut Blaster, x: &[BitLit], y: &[BitLit]) -> (r: Vec<BitLit>)
    requires
        old(b).wf(),
        x@.len() >= 1,
        y@.len() == x@.len(),
        x@.len() <= usize::MAX / 2,
        lits_below(x@, old(b).vars()),
        lits_below(y@, old(b).vars()),
        old(b).vars() + shift_budget(x@.len()) <= u32::MAX,
    ensures
        final(b).wf(),
        old(b).vars() <= final(b).vars() <= old(b).vars() + shift_budget(x@.len()),
        final(b).drained_count() == old(b).drained_count(),
        extends(*old(b), *final(b)),
        r@.len() == x@.len(),
        lits_below(r@, final(b).vars()),
        forall|m: Assignment| #[trigger] final(b).models(m) ==> forall|j: int| 0 <= j < r@.len() ==>
            lit_holds(m, #[trigger] r@[j]) == shr_bit(m, x@, word_val(m, y@), j, false),
{
    let fill = b.zero();
    proof { b.lemma_wf(); }
    let r = barrel(b, x, y, false, fill);
    proof { b.lemma_wf(); }
    r
}

/// Arithmetic right shift: the sign bit is shifted in; all sign once
/// `y >= n`.
pub fn bvashr(b: &mut Blaster, x: &[BitLit], y: &[BitLit]) -> (r: Vec<BitLit>)
    requires
        old(b).wf(),
        x@.len() >= 1,
        y@.len() == x@.len(),
        x@.len() <= usize::MAX / 2,
        lits_below(x@, old(b).vars()),
        lits_below(y@, old(b).vars()),
        old(b).vars() + shift_budget(x@.len()) <= u32::MAX,
    ensures
        final(b).wf(),
        old(b).vars() <= final(b).vars() <= old(b).vars() + shift_budget(x@.len()),
        final(b).drained_count() == old(b).drained_count(),
        extends(*old(b), *final(b)),
        r@.len() == x@.len(),
        lits_below(r@, final(b).vars()),
        forall|m: Assignment| #[trigger] final(b).models(m) ==> forall|j: int| 0 <= j < r@.len() ==>
            lit_holds(m, #[trigger] r@[j]) == shr_bit(m, x@, word_val(m, y@), j, lit_holds(m, x@.last())),
{
    let n = x.len();
    let sign = x[n - 1];
    barrel(b, x, y, false, sign)
}

} // verus!
