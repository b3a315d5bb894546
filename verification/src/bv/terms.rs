//! Bit-vector terms in a table where every operand precedes the term that
//! uses it, their widths, and their meaning as sequences of bits (least
//! significant first), following SMT-LIB's fixed-size bit-vector theory.
use crate::bv::blast::div::{neg_val, udiv_val, urem_val};
use crate::bv::semantics::{
    bit_of, lemma_word_val_bound, lemma_word_val_first, lemma_word_val_split, lit_holds, word_bits, word_val,
    Assignment,
};
use crate::bv::blast::BitLit;
use vstd::arithmetic::power2::pow2;
use vstd::prelude::*;

verus! {

/// One bit-vector term; operands are indices of earlier terms.
#[derive(Debug)]
pub enum BvNode {
    /// A constant, its bits least significant first.
    Const(Vec<bool>),
    /// A variable of the given width.
    Var(u32),
    Not(usize),
    Neg(usize),
    And(usize, usize),
    Or(usize, usize),
    Xor(usize, usize),
    Nand(usize, usize),
    Nor(usize, usize),
    Xnor(usize, usize),
    Add(usize, usize),
    /// Multiplication modulo `2^w`.
    Mul(usize, usize),
    Sub(usize, usize),
    Udiv(usize, usize),
    Urem(usize, usize),
    Sdiv(usize, usize),
    Srem(usize, usize),
    Smod(usize, usize),
    Shl(usize, usize),
    Lshr(usize, usize),
    Ashr(usize, usize),
    /// `concat(hi, lo)`: the first operand gives the high bits.
    Concat(usize, usize),
    /// `extract(arg, hi, lo)`: bits `lo..=hi`.
    Extract(usize, u32, u32),
    ZeroExtend(usize, u32),
    SignExtend(usize, u32),
    RotateLeft(usize, u32),
    RotateRight(usize, u32),
    Repeat(usize, u32),
}

/// A Boolean predicate over two bit-vector terms.
#[derive(Debug, Clone, Copy, PartialEq, Eq, Structural)]
pub enum BvAtom {
    Eq(usize, usize),
    Distinct(usize, usize),
    Ult(usize, usize),
    Ule(usize, usize),
    Ugt(usize, usize),
    Uge(usize, usize),
    Slt(usize, usize),
    Sle(usize, usize),
    Sgt(usize, usize),
    Sge(usize, usize),
}

/// The widest word a term may have.
pub const MAX_WIDTH: u32 = 0x7fff_ffff;

/// The number the bits denote, the first least significant.
pub open spec fn bits_val(s: Seq<bool>) -> nat
    decreases s.len(),
{
    if s.len() == 0 {
        0
    } else {
        bits_val(s.drop_last()) + (if s.last() { pow2((s.len() - 1) as nat) } else { 0 })
    }
}

/// The low `n` bits of `v`, least significant first.
pub open spec fn nat_bits(v: nat, n: nat) -> Seq<bool> {
    Seq::new(n, |i: int| (v / pow2(i as nat)) % 2 == 1)
}

/// The magnitude of a non-empty two's-complement bit sequence.
pub open spec fn abs_bits(e: Seq<bool>) -> nat {
    if e.last() { neg_val(bits_val(e), e.len()) } else { bits_val(e) }
}

/// The two's-complement value of a non-empty bit sequence.
pub open spec fn sval_bits(e: Seq<bool>) -> int {
    bits_val(e) - (if e.last() { pow2(e.len()) } else { 0 })
}

/// `bvsdiv` on bit sequences of one length.
pub open spec fn sdiv_bits(a: Seq<bool>, b: Seq<bool>) -> nat {
    let u = udiv_val(abs_bits(a), abs_bits(b), a.len());
    if a.last() != b.last() { neg_val(u, a.len()) } else { u }
}

/// `bvsrem` on bit sequences of one length.
pub open spec fn srem_bits(a: Seq<bool>, b: Seq<bool>) -> nat {
    let u = urem_val(abs_bits(a), abs_bits(b));
    if a.last() { neg_val(u, a.len()) } else { u }
}

/// `bvsmod` on bit sequences of one length.
pub open spec fn smod_bits(a: Seq<bool>, b: Seq<bool>) -> nat {
    let n = a.len();
    let u = urem_val(abs_bits(a), abs_bits(b));
    if u == 0 {
        0
    } else if !a.last() && !b.last() {
        u
    } else if a.last() && !b.last() {
        (neg_val(u, n) + bits_val(b)) % pow2(n)
    } else if !a.last() && b.last() {
        (u + bits_val(b)) % pow2(n)
    } else {
        neg_val(u, n)
    }
}

/// `k` copies of `s`, the first lowest.
pub open spec fn repeat_bits(s: Seq<bool>, k: nat) -> Seq<bool>
    decreases k,
{
    if k == 0 { Seq::empty() } else { repeat_bits(s, (k - 1) as nat) + s }
}

/// The width of term `t`.
pub open spec fn width(ts: Seq<BvNode>, t: int) -> nat
    decreases t,
{
    if t < 0 || t >= ts.len() {
        0
    } else {
        match ts[t] {
            BvNode::Const(bits) => bits@.len(),
            BvNode::Var(w) => w as nat,
            BvNode::Not(a) | BvNode::Neg(a) | BvNode::RotateLeft(a, _) | BvNode::RotateRight(a, _) =>
                if a < t { width(ts, a as int) } else { 0 },
            BvNode::And(a, _) | BvNode::Or(a, _) | BvNode::Xor(a, _) | BvNode::Nand(a, _) | BvNode::Nor(a, _)
            | BvNode::Xnor(a, _) | BvNode::Add(a, _) | BvNode::Mul(a, _) | BvNode::Sub(a, _) | BvNode::Udiv(a, _) | BvNode::Urem(a, _)
            | BvNode::Sdiv(a, _) | BvNode::Srem(a, _) | BvNode::Smod(a, _) | BvNode::Shl(a, _) | BvNode::Lshr(a, _)
            | BvNode::Ashr(a, _) => if a < t { width(ts, a as int) } else { 0 },
            BvNode::Concat(h, l) =>
                if h < t && l < t { width(ts, h as int) + width(ts, l as int) } else { 0 },
            BvNode::Extract(_, hi, lo) => if lo <= hi { (hi - lo + 1) as nat } else { 0 },
            BvNode::ZeroExtend(a, k) | BvNode::SignExtend(a, k) => if a < t { width(ts, a as int) + k as nat } else { 0 },
            BvNode::Repeat(a, k) => if a < t { width(ts, a as int) * (k as nat) } else { 0 },
        }
    }
}

/// The operands of term `t` come before it and fit the operation: equal
/// widths for the binary operations, a bit range inside the operand for
/// `Extract`, and a copy count of at least one for `Repeat`.
pub open spec fn node_ok(ts: Seq<BvNode>, t: int) -> bool {
    match ts[t] {
        BvNode::Const(_) | BvNode::Var(_) => true,
        BvNode::Not(a) | BvNode::Neg(a) | BvNode::RotateLeft(a, _) | BvNode::RotateRight(a, _)
        | BvNode::ZeroExtend(a, _) | BvNode::SignExtend(a, _) => a < t,
        BvNode::And(a, b) | BvNode::Or(a, b) | BvNode::Xor(a, b) | BvNode::Nand(a, b) | BvNode::Nor(a, b)
        | BvNode::Xnor(a, b) | BvNode::Add(a, b) | BvNode::Mul(a, b) | BvNode::Sub(a, b) | BvNode::Udiv(a, b) | BvNode::Urem(a, b)
        | BvNode::Sdiv(a, b) | BvNode::Srem(a, b) | BvNode::Smod(a, b) | BvNode::Shl(a, b) | BvNode::Lshr(a, b)
        | BvNode::Ashr(a, b) => a < t && b < t && width(ts, a as int) == width(ts, b as int),
        BvNode::Concat(h, l) => h < t && l < t,
        BvNode::Extract(a, hi, lo) => a < t && lo <= hi && hi < width(ts, a as int),
        BvNode::Repeat(a, k) => a < t && k >= 1,
    }
}

/// Every term fits its operation and has a width from 1 to `MAX_WIDTH`.
pub open spec fn well_typed(ts: Seq<BvNode>) -> bool {
    forall|t: int| 0 <= t < ts.len() ==> node_ok(ts, t) && 1 <= #[trigger] width(ts, t) <= MAX_WIDTH
}

/// The meaning of term `t`, its variables read from `env`.
pub open spec fn eval(ts: Seq<BvNode>, env: spec_fn(int) -> Seq<bool>, t: int) -> Seq<bool>
    decreases t,
{
    if t < 0 || t >= ts.len() {
        Seq::empty()
    } else {
        match ts[t] {
            BvNode::Const(bits) => bits@,
            BvNode::Var(_) => env(t),
            BvNode::Not(a) => if a < t {
                let ea = eval(ts, env, a as int);
                Seq::new(ea.len(), |i: int| !ea[i])
            } else { Seq::empty() },
            BvNode::Neg(a) => if a < t {
                let ea = eval(ts, env, a as int);
                nat_bits(neg_val(bits_val(ea), ea.len()), ea.len())
            } else { Seq::empty() },
            BvNode::And(a, b) => if a < t && b < t {
                let ea = eval(ts, env, a as int);
                let eb = eval(ts, env, b as int);
                Seq::new(ea.len(), |i: int| ea[i] && eb[i])
            } else { Seq::empty() },
            BvNode::Or(a, b) => if a < t && b < t {
                let ea = eval(ts, env, a as int);
                let eb = eval(ts, env, b as int);
                Seq::new(ea.len(), |i: int| ea[i] || eb[i])
            } else { Seq::empty() },
            BvNode::Xor(a, b) => if a < t && b < t {
                let ea = eval(ts, env, a as int);
                let eb = eval(ts, env, b as int);
                Seq::new(ea.len(), |i: int| ea[i] != eb[i])
            } else { Seq::empty() },
            BvNode::Nand(a, b) => if a < t && b < t {
                let ea = eval(ts, env, a as int);
                let eb = eval(ts, env, b as int);
                Seq::new(ea.len(), |i: int| !(ea[i] && eb[i]))
            } else { Seq::empty() },
            BvNode::Nor(a, b) => if a < t && b < t {
                let ea = eval(ts, env, a as int);
                let eb = eval(ts, env, b as int);
                Seq::new(ea.len(), |i: int| !(ea[i] || eb[i]))
            } else { Seq::empty() },
            BvNode::Xnor(a, b) => if a < t && b < t {
                let ea = eval(ts, env, a as int);
                let eb = eval(ts, env, b as int);
                Seq::new(ea.len(), |i: int| ea[i] == eb[i])
            } else { Seq::empty() },
            BvNode::Add(a, b) => if a < t && b < t {
                let ea = eval(ts, env, a as int);
                let eb = eval(ts, env, b as int);
                nat_bits((bits_val(ea) + bits_val(eb)) % pow2(ea.len()), ea.len())
            } else { Seq::empty() },
            BvNode::Mul(a, b) => if a < t && b < t {
                let ea = eval(ts, env, a as int);
                let eb = eval(ts, env, b as int);
                nat_bits((bits_val(ea) * bits_val(eb)) % pow2(ea.len()), ea.len())
            } else { Seq::empty() },
            BvNode::Sub(a, b) => if a < t && b < t {
                let ea = eval(ts, env, a as int);
                let eb = eval(ts, env, b as int);
                nat_bits(((bits_val(ea) + pow2(ea.len()) - bits_val(eb)) % (pow2(ea.len()) as int)) as nat, ea.len())
            } else { Seq::empty() },
            BvNode::Udiv(a, b) => if a < t && b < t {
                let ea = eval(ts, env, a as int);
                let eb = eval(ts, env, b as int);
                nat_bits(udiv_val(bits_val(ea), bits_val(eb), ea.len()), ea.len())
            } else { Seq::empty() },
            BvNode::Urem(a, b) => if a < t && b < t {
                let ea = eval(ts, env, a as int);
                let eb = eval(ts, env, b as int);
                nat_bits(urem_val(bits_val(ea), bits_val(eb)), ea.len())
            } else { Seq::empty() },
            BvNode::Sdiv(a, b) => if a < t && b < t {
                let ea = eval(ts, env, a as int);
                let eb = eval(ts, env, b as int);
                nat_bits(sdiv_bits(ea, eb), ea.len())
            } else { Seq::empty() },
            BvNode::Srem(a, b) => if a < t && b < t {
                let ea = eval(ts, env, a as int);
                let eb = eval(ts, env, b as int);
                nat_bits(srem_bits(ea, eb), ea.len())
            } else { Seq::empty() },
            BvNode::Smod(a, b) => if a < t && b < t {
                let ea = eval(ts, env, a as int);
                let eb = eval(ts, env, b as int);
                nat_bits(smod_bits(ea, eb), ea.len())
            } else { Seq::empty() },
            BvNode::Shl(a, b) => if a < t && b < t {
                let ea = eval(ts, env, a as int);
                let k = bits_val(eval(ts, env, b as int));
                Seq::new(ea.len(), |j: int| if j >= k { ea[j - k] } else { false })
            } else { Seq::empty() },
            BvNode::Lshr(a, b) => if a < t && b < t {
                let ea = eval(ts, env, a as int);
                let k = bits_val(eval(ts, env, b as int));
                Seq::new(ea.len(), |j: int| if j + k < ea.len() { ea[j + k] } else { false })
            } else { Seq::empty() },
            BvNode::Ashr(a, b) => if a < t && b < t {
                let ea = eval(ts, env, a as int);
                let k = bits_val(eval(ts, env, b as int));
                Seq::new(ea.len(), |j: int| if j + k < ea.len() { ea[j + k] } else { ea.last() })
            } else { Seq::empty() },
            BvNode::Concat(h, l) => if h < t && l < t {
                eval(ts, env, l as int) + eval(ts, env, h as int)
            } else { Seq::empty() },
            BvNode::Extract(a, hi, lo) => if a < t {
                eval(ts, env, a as int).subrange(lo as int, hi as int + 1)
            } else { Seq::empty() },
            BvNode::ZeroExtend(a, k) => if a < t {
                eval(ts, env, a as int) + Seq::new(k as nat, |i: int| false)
            } else { Seq::empty() },
            BvNode::SignExtend(a, k) => if a < t {
                let ea = eval(ts, env, a as int);
                ea + Seq::new(k as nat, |i: int| ea.last())
            } else { Seq::empty() },
            BvNode::RotateLeft(a, k) => if a < t {
                let ea = eval(ts, env, a as int);
                let n = ea.len() as int;
                Seq::new(ea.len(), |i: int| ea[(i + n - (k as int % n)) % n])
            } else { Seq::empty() },
            BvNode::RotateRight(a, k) => if a < t {
                let ea = eval(ts, env, a as int);
                let n = ea.len() as int;
                Seq::new(ea.len(), |i: int| ea[(i + (k as int % n)) % n])
            } else { Seq::empty() },
            BvNode::Repeat(a, k) => if a < t {
                repeat_bits(eval(ts, env, a as int), k as nat)
            } else { Seq::empty() },
        }
    }
}

/// The truth of a predicate over two terms.
pub open spec fn eval_atom(ts: Seq<BvNode>, env: spec_fn(int) -> Seq<bool>, p: BvAtom) -> bool {
    match p {
        BvAtom::Eq(a, b) => eval(ts, env, a as int) == eval(ts, env, b as int),
        BvAtom::Distinct(a, b) => eval(ts, env, a as int) != eval(ts, env, b as int),
        BvAtom::Ult(a, b) => bits_val(eval(ts, env, a as int)) < bits_val(eval(ts, env, b as int)),
        BvAtom::Ule(a, b) => bits_val(eval(ts, env, a as int)) <= bits_val(eval(ts, env, b as int)),
        BvAtom::Ugt(a, b) => bits_val(eval(ts, env, a as int)) > bits_val(eval(ts, env, b as int)),
        BvAtom::Uge(a, b) => bits_val(eval(ts, env, a as int)) >= bits_val(eval(ts, env, b as int)),
        BvAtom::Slt(a, b) => sval_bits(eval(ts, env, a as int)) < sval_bits(eval(ts, env, b as int)),
        BvAtom::Sle(a, b) => sval_bits(eval(ts, env, a as int)) <= sval_bits(eval(ts, env, b as int)),
        BvAtom::Sgt(a, b) => sval_bits(eval(ts, env, a as int)) > sval_bits(eval(ts, env, b as int)),
        BvAtom::Sge(a, b) => sval_bits(eval(ts, env, a as int)) >= sval_bits(eval(ts, env, b as int)),
    }
}

/// What well-typedness says of one term.
pub proof fn lemma_typed(ts: Seq<BvNode>, t: int)
    requires
        well_typed(ts),
        0 <= t < ts.len(),
    ensures
        node_ok(ts, t),
        1 <= width(ts, t) <= MAX_WIDTH,
{
    assert(1 <= width(ts, t) <= MAX_WIDTH);
}

/// A word's bits denote the word's value.
pub proof fn lemma_bits_val_word(m: Assignment, w: Seq<BitLit>)
    ensures
        bits_val(word_bits(m, w)) == word_val(m, w),
    decreases w.len(),
{
    if w.len() > 0 {
        lemma_bits_val_word(m, w.drop_last());
        assert(word_bits(m, w).drop_last() =~= word_bits(m, w.drop_last()));
    }
}

/// A word's bits are the low bits of its value.
pub proof fn lemma_word_bits_nat(m: Assignment, w: Seq<BitLit>)
    ensures
        word_bits(m, w) == nat_bits(word_val(m, w), w.len()),
{
    assert forall|i: int| 0 <= i < w.len() implies #[trigger] word_bits(m, w)[i] == nat_bits(word_val(m, w), w.len())[i] by {
        lemma_word_val_split(m, w, i);
        lemma_word_val_bound(m, w.take(i));
        let lo = word_val(m, w.take(i));
        let hi = word_val(m, w.skip(i));
        let p = pow2(i as nat);
        vstd::arithmetic::power2::lemma_pow2_pos(i as nat);
        assert(word_val(m, w) == hi * p + lo) by (nonlinear_arith)
            requires word_val(m, w) == lo + p * hi;
        vstd::arithmetic::div_mod::lemma_fundamental_div_mod_converse(word_val(m, w) as int, p as int, hi as int, lo as int);
        lemma_word_val_first(m, w.skip(i));
        assert(w.skip(i)[0] == w[i]);
        let rest = word_val(m, w.skip(i).drop_first());
        vstd::arithmetic::div_mod::lemma_fundamental_div_mod_converse(hi as int, 2, rest as int, bit_of(m, w[i]) as int);
    }
    assert(word_bits(m, w) =~= nat_bits(word_val(m, w), w.len()));
}

} // verus!
