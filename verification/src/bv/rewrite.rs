//! A word-level simplification pass run before blasting: constant folding,
//! identities such as `x + 0 = x`, and `extract` over `extract` or
//! `concat`. Each rewrite keeps the term's meaning under every value of
//! the variables; leaving a term alone is always allowed.
use crate::bv::blast::div::neg_val;
use crate::bv::blast::word::{cost, node_cost, operands};
use crate::bv::terms::{bits_val, eval, lemma_typed, nat_bits, node_ok, well_typed, width, BvNode, MAX_WIDTH};
use vstd::arithmetic::power2::{lemma_pow2_pos, lemma_pow2_unfold, pow2};
use rustc_hash::FxHashMap;
use vstd::prelude::*;

verus! {

/// A sequence of bits is below `2^len`.
pub proof fn lemma_bits_val_bound(s: Seq<bool>)
    ensures
        bits_val(s) < pow2(s.len()),
    decreases s.len(),
{
    if s.len() == 0 {
        assert(pow2(0) == 1) by { vstd::arithmetic::power2::lemma2_to64(); }
    } else {
        lemma_bits_val_bound(s.drop_last());
        lemma_pow2_unfold(s.len());
    }
}

/// The value of a sequence with one more bit on top.
proof fn lemma_bits_val_push(s: Seq<bool>, b: bool)
    ensures
        bits_val(s.push(b)) == bits_val(s) + (if b { pow2(s.len()) } else { 0 }),
{
    assert(s.push(b).drop_last() =~= s);
}

/// The value of a sequence whose lowest bit is split off.
proof fn lemma_bits_val_first(s: Seq<bool>)
    requires
        s.len() > 0,
    ensures
        bits_val(s) == (if s[0] { 1nat } else { 0nat }) + 2 * bits_val(s.drop_first()),
    decreases s.len(),
{
    if s.len() == 1 {
        assert(s.drop_last() =~= Seq::<bool>::empty());
        assert(s.drop_first() =~= Seq::<bool>::empty());
        assert(pow2(0) == 1) by { vstd::arithmetic::power2::lemma2_to64(); }
    } else {
        lemma_bits_val_first(s.drop_last());
        assert(s.drop_last().drop_first() =~= s.drop_first().drop_last());
        assert(s.drop_first().last() == s.last());
        lemma_pow2_unfold((s.len() - 1) as nat);
    }
}

/// A sequence of bits is the low bits of its own value.
pub proof fn lemma_nat_bits_val(s: Seq<bool>)
    ensures
        nat_bits(bits_val(s), s.len()) == s,
    decreases s.len(),
{
    if s.len() == 0 {
        assert(nat_bits(bits_val(s), s.len()) =~= s);
    } else {
        lemma_nat_bits_val(s.drop_first());
        lemma_bits_val_first(s);
        let v = bits_val(s);
        let r = bits_val(s.drop_first());
        let b: nat = if s[0] { 1 } else { 0 };
        vstd::arithmetic::div_mod::lemma_fundamental_div_mod_converse(v as int, 2, r as int, b as int);
        lemma_nat_bits_first(v, s.len());
        let t = nat_bits(v, s.len());
        assert(t.drop_first() == s.drop_first());
        assert forall|i: int| 0 <= i < s.len() implies #[trigger] t[i] == s[i] by {
            if i > 0 {
                assert(t[i] == t.drop_first()[i - 1]);
                assert(s[i] == s.drop_first()[i - 1]);
            }
        }
        assert(t =~= s);
    }
}

/// The low `n` bits of `v`, the lowest split off.
proof fn lemma_nat_bits_first(v: nat, n: nat)
    requires
        n >= 1,
    ensures
        nat_bits(v, n)[0] == (v % 2 == 1),
        nat_bits(v, n).drop_first() == nat_bits(v / 2, (n - 1) as nat),
{
    assert(pow2(0) == 1) by { vstd::arithmetic::power2::lemma2_to64(); }
    assert(v / pow2(0) == v);
    assert forall|i: int| 0 <= i < n - 1 implies #[trigger] nat_bits(v, n).drop_first()[i] == nat_bits(v / 2, (n - 1) as nat)[i] by {
        lemma_pow2_unfold((i + 1) as nat);
        lemma_pow2_pos(i as nat);
        vstd::arithmetic::div_mod::lemma_div_denominator(v as int, 2, pow2(i as nat) as int);
    }
    assert(nat_bits(v, n).drop_first() =~= nat_bits(v / 2, (n - 1) as nat));
}

/// A value below `2^n` is the value of its low `n` bits.
pub proof fn lemma_bits_val_nat(v: nat, n: nat)
    requires
        v < pow2(n),
    ensures
        bits_val(nat_bits(v, n)) == v,
    decreases n,
{
    if n == 0 {
        assert(pow2(0) == 1) by { vstd::arithmetic::power2::lemma2_to64(); }
        assert(nat_bits(v, n) =~= Seq::<bool>::empty());
    } else {
        let s = nat_bits(v, n);
        lemma_nat_bits_first(v, n);
        lemma_pow2_unfold(n);
        assert(v / 2 < pow2((n - 1) as nat));
        lemma_bits_val_nat(v / 2, (n - 1) as nat);
        lemma_bits_val_first(s);
    }
}

/// The complement of a sequence of bits.
pub open spec fn not_bits(s: Seq<bool>) -> Seq<bool> {
    Seq::new(s.len(), |i: int| !s[i])
}

/// A sequence and its complement add up to all ones.
proof fn lemma_bits_val_not(s: Seq<bool>)
    ensures
        bits_val(not_bits(s)) + bits_val(s) + 1 == pow2(s.len()),
    decreases s.len(),
{
    if s.len() == 0 {
        assert(pow2(0) == 1) by { vstd::arithmetic::power2::lemma2_to64(); }
    } else {
        lemma_bits_val_not(s.drop_last());
        assert(not_bits(s).drop_last() =~= not_bits(s.drop_last()));
        lemma_pow2_unfold(s.len());
    }
}

proof fn lemma_add_step(v: int, r: int, p: int, a: int, b: int, c: int, c2: int, sbit: int, va: int, vb: int, cin: int)
    requires
        r + c * p == va + vb + cin,
        sbit + 2 * c2 == a + b + c,
    ensures
        (r + sbit * p) + c2 * (2 * p) == (va + a * p) + (vb + b * p) + cin,
{
    assert(c2 * (2 * p) == 2 * c2 * p) by (nonlinear_arith);
    assert((sbit + 2 * c2) * p == (a + b + c) * p);
    assert((sbit + 2 * c2) * p == sbit * p + 2 * c2 * p) by (nonlinear_arith);
    assert((a + b + c) * p == a * p + b * p + c * p) by (nonlinear_arith);
}

/// `a + b + cin` over bits of one length, modulo `2^n`.
fn add_bits(a: &[bool], b: &[bool], cin: bool) -> (r: Vec<bool>)
    requires
        a@.len() == b@.len(),
    ensures
        r@ == nat_bits((bits_val(a@) + bits_val(b@) + (if cin { 1nat } else { 0nat })) % pow2(a@.len()), a@.len()),
{
    let n = a.len();
    let mut r: Vec<bool> = Vec::new();
    let mut c = cin;
    let mut i: usize = 0;
    let ghost ci: nat = if cin { 1 } else { 0 };
    proof { assert(pow2(0) == 1) by { vstd::arithmetic::power2::lemma2_to64(); } }
    while i < n
        invariant
            0 <= i <= n,
            n == a@.len(),
            a@.len() == b@.len(),
            r@.len() == i,
            ci == (if cin { 1nat } else { 0nat }),
            bits_val(r@) + (if c { pow2(i as nat) } else { 0 }) == bits_val(a@.take(i as int)) + bits_val(b@.take(i as int)) + ci,
        decreases n - i,
    {
        let x = a[i];
        let y = b[i];
        let sbit = (x != y) != c;
        let c2 = (x && y) || (x && c) || (y && c);
        proof {
            lemma_bits_val_push(r@, sbit);
            assert(a@.take(i + 1) =~= a@.take(i as int).push(x));
            assert(b@.take(i + 1) =~= b@.take(i as int).push(y));
            lemma_bits_val_push(a@.take(i as int), x);
            lemma_bits_val_push(b@.take(i as int), y);
            lemma_pow2_unfold((i + 1) as nat);
            let p = pow2(i as nat) as int;
            lemma_add_step(0, bits_val(r@) as int, p,
                (if x { 1int } else { 0int }), (if y { 1int } else { 0int }), (if c { 1int } else { 0int }),
                (if c2 { 1int } else { 0int }), (if sbit { 1int } else { 0int }),
                bits_val(a@.take(i as int)) as int, bits_val(b@.take(i as int)) as int, ci as int);
        }
        r.push(sbit);
        c = c2;
        i = i + 1;
    }
    proof {
        assert(a@.take(n as int) =~= a@);
        assert(b@.take(n as int) =~= b@);
        lemma_bits_val_bound(r@);
        let total = bits_val(a@) + bits_val(b@) + ci;
        let cc: int = if c { 1 } else { 0 };
        assert(bits_val(r@) + cc * pow2(n as nat) == total);
        vstd::arithmetic::div_mod::lemma_fundamental_div_mod_converse(total as int, pow2(n as nat) as int, cc, bits_val(r@) as int);
        lemma_nat_bits_val(r@);
    }
    r
}

/// The complement, bit by bit.
fn not_word(a: &[bool]) -> (r: Vec<bool>)
    ensures
        r@ == not_bits(a@),
{
    let mut r: Vec<bool> = Vec::new();
    let mut i: usize = 0;
    while i < a.len()
        invariant
            0 <= i <= a@.len(),
            r@ == not_bits(a@.take(i as int)),
        decreases a@.len() - i,
    {
        r.push(!a[i]);
        i = i + 1;
        proof { assert(r@ =~= not_bits(a@.take(i as int))); }
    }
    proof { assert(a@.take(a@.len() as int) =~= a@); }
    r
}

/// `a - b` modulo `2^n`, as `a + !b + 1`.
fn sub_bits(a: &[bool], b: &[bool]) -> (r: Vec<bool>)
    requires
        a@.len() == b@.len(),
    ensures
        r@ == nat_bits(((bits_val(a@) + pow2(a@.len()) - bits_val(b@)) % (pow2(a@.len()) as int)) as nat, a@.len()),
{
    let nb = not_word(b);
    let r = add_bits(a, nb.as_slice(), true);
    proof {
        lemma_bits_val_not(b@);
        assert(bits_val(a@) + bits_val(nb@) + 1 == bits_val(a@) + pow2(a@.len()) - bits_val(b@));
    }
    r
}

/// `-a` modulo `2^n`, as `!a + 1`.
fn neg_bits(a: &[bool]) -> (r: Vec<bool>)
    ensures
        r@ == nat_bits(neg_val(bits_val(a@), a@.len()), a@.len()),
{
    let na = not_word(a);
    let mut zero: Vec<bool> = Vec::new();
    let mut i: usize = 0;
    while i < a.len()
        invariant
            0 <= i <= a@.len(),
            zero@ == Seq::new(i as nat, |j: int| false),
        decreases a@.len() - i,
    {
        zero.push(false);
        i = i + 1;
        proof { assert(zero@ =~= Seq::new(i as nat, |j: int| false)); }
    }
    proof { lemma_all_false(zero@); }
    let r = add_bits(na.as_slice(), zero.as_slice(), true);
    proof {
        lemma_bits_val_not(a@);
        lemma_bits_val_bound(a@);
    }
    r
}

/// All-false bits denote 0.
proof fn lemma_all_false(s: Seq<bool>)
    requires
        forall|i: int| 0 <= i < s.len() ==> !#[trigger] s[i],
    ensures
        bits_val(s) == 0,
    decreases s.len(),
{
    if s.len() > 0 {
        assert(!s[s.len() - 1]);
        lemma_all_false(s.drop_last());
    }
}

/// A higher part of a sequence never denotes more than the whole.
proof fn lemma_skip_le(s: Seq<bool>, i: int)
    requires
        0 <= i <= s.len(),
    ensures
        bits_val(s.skip(i)) <= bits_val(s),
    decreases i,
{
    if i > 0 {
        lemma_skip_le(s, i - 1);
        lemma_bits_val_first(s.skip(i - 1));
        assert(s.skip(i - 1).drop_first() =~= s.skip(i));
    } else {
        assert(s.skip(0) =~= s);
    }
}

/// The value the bits denote, when it is below `limit`.
fn small_value(s: &[bool], limit: u64) -> (r: Option<u64>)
    requires
        limit <= u32::MAX,
    ensures
        match r {
            Some(v) => v == bits_val(s@) && v < limit,
            None => bits_val(s@) >= limit,
        },
{
    let mut acc: u64 = 0;
    let mut i: usize = s.len();
    proof { assert(s@.skip(s@.len() as int) =~= Seq::<bool>::empty()); }
    while i > 0
        invariant
            0 <= i <= s@.len(),
            limit <= u32::MAX,
            acc == bits_val(s@.skip(i as int)),
            acc < limit || (acc == 0 && limit == 0),
        decreases i,
    {
        let b = s[i - 1];
        proof {
            lemma_bits_val_first(s@.skip(i - 1));
            assert(s@.skip(i - 1).drop_first() =~= s@.skip(i as int));
            assert(s@.skip(i - 1)[0] == b);
        }
        let next = 2 * acc + if b { 1u64 } else { 0u64 };
        if next >= limit {
            proof { lemma_skip_le(s@, i - 1); }
            return None;
        }
        acc = next;
        i = i - 1;
    }
    proof { assert(s@.skip(0) =~= s@); }
    if acc >= limit {
        return None;
    }
    Some(acc)
}

/// `a` shifted up by `k` places, zero-filled.
fn shl_bits(a: &[bool], k: u64) -> (r: Vec<bool>)
    ensures
        r@ == Seq::new(a@.len(), |j: int| if j >= k { a@[j - k] } else { false }),
{
    let mut r: Vec<bool> = Vec::new();
    let mut j: usize = 0;
    while j < a.len()
        invariant
            0 <= j <= a@.len(),
            r@ == Seq::new(j as nat, |i: int| if i >= k { a@[i - k] } else { false }),
        decreases a@.len() - j,
    {
        let bit = if (j as u64) >= k { a[j - k as usize] } else { false };
        r.push(bit);
        j = j + 1;
        proof { assert(r@ =~= Seq::new(j as nat, |i: int| if i >= k { a@[i - k] } else { false })); }
    }
    r
}

/// `new` keeps every term of `old` at its index.
pub open spec fn table_grows(old: Seq<BvNode>, new: Seq<BvNode>) -> bool {
    old.len() <= new.len() && forall|i: int| 0 <= i < old.len() ==> #[trigger] new[i] == old[i]
}

/// Each variable's value has the variable's width.
pub open spec fn env_fits(ts: Seq<BvNode>, env: spec_fn(int) -> Seq<bool>) -> bool {
    forall|v: int| 0 <= v < ts.len() && ts[v] is Var ==> #[trigger] env(v).len() == width(ts, v)
}

/// Terms `r` and `t` mean the same under every value of the variables
/// that fits their widths.
pub open spec fn same_meaning(ts: Seq<BvNode>, r: int, t: int) -> bool {
    forall|env: spec_fn(int) -> Seq<bool>| env_fits(ts, env) ==> #[trigger] eval(ts, env, r) == eval(ts, env, t)
}

/// No variable was appended.
pub open spec fn no_new_vars(old: Seq<BvNode>, new: Seq<BvNode>) -> bool {
    forall|i: int| old.len() <= i < new.len() ==> !(#[trigger] new[i] is Var)
}

/// `k` copies of a sequence are `k` times as long.
proof fn lemma_repeat_bits_len(s: Seq<bool>, k: nat)
    ensures
        crate::bv::terms::repeat_bits(s, k).len() == s.len() * k,
    decreases k,
{
    if k > 0 {
        lemma_repeat_bits_len(s, (k - 1) as nat);
        assert(s.len() * k == s.len() * ((k - 1) as nat) + s.len()) by (nonlinear_arith)
            requires k >= 1;
    } else {
        assert(s.len() * k == 0) by (nonlinear_arith)
            requires k == 0;
    }
}

/// Under values that fit, a term's meaning has the term's width.
pub proof fn lemma_eval_len(ts: Seq<BvNode>, env: spec_fn(int) -> Seq<bool>, t: int)
    requires
        well_typed(ts),
        env_fits(ts, env),
        0 <= t < ts.len(),
    ensures
        eval(ts, env, t).len() == width(ts, t),
    decreases t,
{
    lemma_typed(ts, t);
    match ts[t] {
        BvNode::Const(_) | BvNode::Var(_) => {},
        BvNode::Not(a) | BvNode::Neg(a) | BvNode::RotateLeft(a, _) | BvNode::RotateRight(a, _)
        | BvNode::ZeroExtend(a, _) | BvNode::SignExtend(a, _) | BvNode::Extract(a, _, _) => {
            lemma_eval_len(ts, env, a as int);
        },
        BvNode::Repeat(a, k) => {
            lemma_eval_len(ts, env, a as int);
            lemma_repeat_bits_len(eval(ts, env, a as int), k as nat);
        },
        BvNode::And(a, b) | BvNode::Or(a, b) | BvNode::Xor(a, b) | BvNode::Nand(a, b) | BvNode::Nor(a, b)
        | BvNode::Xnor(a, b) | BvNode::Add(a, b) | BvNode::Mul(a, b) | BvNode::Sub(a, b) | BvNode::Udiv(a, b) | BvNode::Urem(a, b)
        | BvNode::Sdiv(a, b) | BvNode::Srem(a, b) | BvNode::Smod(a, b) | BvNode::Shl(a, b) | BvNode::Lshr(a, b)
        | BvNode::Ashr(a, b) | BvNode::Concat(a, b) => {
            lemma_eval_len(ts, env, a as int);
            lemma_eval_len(ts, env, b as int);
        },
    }
}

/// A term keeps its blasting cost when terms are appended to the table.
pub proof fn lemma_cost_grow(old: Seq<BvNode>, new: Seq<BvNode>, t: int)
    requires
        table_grows(old, new),
        0 <= t < old.len(),
    ensures
        cost(new, t) == cost(old, t),
    decreases t,
{
    lemma_grow(old, new, t);
    assert(new[t] == old[t]);
    let ops = operands(old[t]);
    if ops.len() >= 1 && ops[0] < t {
        lemma_cost_grow(old, new, ops[0] as int);
    }
    if ops.len() >= 2 && ops[1] < t {
        lemma_cost_grow(old, new, ops[1] as int);
    }
}

/// Appending terms that are not variables keeps which values fit.
pub proof fn lemma_fits_grow(old: Seq<BvNode>, new: Seq<BvNode>, env: spec_fn(int) -> Seq<bool>)
    requires
        table_grows(old, new),
        no_new_vars(old, new),
    ensures
        env_fits(new, env) == env_fits(old, env),
{
    assert forall|v: int| 0 <= v < old.len() implies #[trigger] width(new, v) == width(old, v) by {
        lemma_grow(old, new, v);
    }
    if env_fits(old, env) {
        assert forall|v: int| 0 <= v < new.len() && new[v] is Var implies #[trigger] env(v).len() == width(new, v) by {
            assert(v < old.len());
            assert(new[v] == old[v]);
        }
    }
    if env_fits(new, env) {
        assert forall|v: int| 0 <= v < old.len() && old[v] is Var implies #[trigger] env(v).len() == width(old, v) by {
            assert(new[v] == old[v]);
            assert(env(v).len() == width(new, v));
        }
    }
}

/// A term keeps its width, its fit and its meaning when terms are
/// appended to the table.
pub proof fn lemma_grow(old: Seq<BvNode>, new: Seq<BvNode>, t: int)
    requires
        table_grows(old, new),
        0 <= t < old.len(),
    ensures
        width(new, t) == width(old, t),
        node_ok(new, t) == node_ok(old, t),
        forall|env: spec_fn(int) -> Seq<bool>| #[trigger] eval(new, env, t) == eval(old, env, t),
    decreases t,
{
    assert(new[t] == old[t]);
    match old[t] {
        BvNode::Const(_) | BvNode::Var(_) => {},
        BvNode::Not(a) | BvNode::Neg(a) | BvNode::RotateLeft(a, _) | BvNode::RotateRight(a, _)
        | BvNode::ZeroExtend(a, _) | BvNode::SignExtend(a, _) | BvNode::Repeat(a, _) | BvNode::Extract(a, _, _) => {
            if a < t {
                lemma_grow(old, new, a as int);
            }
        },
        BvNode::And(a, b) | BvNode::Or(a, b) | BvNode::Xor(a, b) | BvNode::Nand(a, b) | BvNode::Nor(a, b)
        | BvNode::Xnor(a, b) | BvNode::Add(a, b) | BvNode::Mul(a, b) | BvNode::Sub(a, b) | BvNode::Udiv(a, b) | BvNode::Urem(a, b)
        | BvNode::Sdiv(a, b) | BvNode::Srem(a, b) | BvNode::Smod(a, b) | BvNode::Shl(a, b) | BvNode::Lshr(a, b)
        | BvNode::Ashr(a, b) | BvNode::Concat(a, b) => {
            if a < t {
                lemma_grow(old, new, a as int);
            }
            if b < t {
                lemma_grow(old, new, b as int);
            }
        },
    }
    assert forall|env: spec_fn(int) -> Seq<bool>| #[trigger] eval(new, env, t) == eval(old, env, t) by {
        match old[t] {
            BvNode::Const(_) | BvNode::Var(_) => {},
            BvNode::Not(a) | BvNode::Neg(a) | BvNode::RotateLeft(a, _) | BvNode::RotateRight(a, _)
            | BvNode::ZeroExtend(a, _) | BvNode::SignExtend(a, _) | BvNode::Repeat(a, _) | BvNode::Extract(a, _, _) => {
                if a < t {
                    assert(eval(new, env, a as int) == eval(old, env, a as int));
                }
            },
            BvNode::And(a, b) | BvNode::Or(a, b) | BvNode::Xor(a, b) | BvNode::Nand(a, b) | BvNode::Nor(a, b)
            | BvNode::Xnor(a, b) | BvNode::Add(a, b) | BvNode::Mul(a, b) | BvNode::Sub(a, b) | BvNode::Udiv(a, b) | BvNode::Urem(a, b)
            | BvNode::Sdiv(a, b) | BvNode::Srem(a, b) | BvNode::Smod(a, b) | BvNode::Shl(a, b) | BvNode::Lshr(a, b)
            | BvNode::Ashr(a, b) | BvNode::Concat(a, b) => {
                if a < t {
                    assert(eval(new, env, a as int) == eval(old, env, a as int));
                }
                if b < t {
                    assert(eval(new, env, b as int) == eval(old, env, b as int));
                }
            },
        }
    }
}

/// Appending one well-fitting term keeps the table well typed, and every
/// earlier term its width and meaning.
proof fn lemma_push_typed(old: Seq<BvNode>, n: BvNode)
    requires
        well_typed(old),
        node_ok(old.push(n), old.len() as int),
        1 <= width(old.push(n), old.len() as int) <= MAX_WIDTH,
    ensures
        well_typed(old.push(n)),
        table_grows(old, old.push(n)),
{
    assert(table_grows(old, old.push(n)));
    assert forall|t: int| 0 <= t < old.push(n).len() implies #[trigger] node_ok(old.push(n), t) by {
        if t < old.len() {
            lemma_grow(old, old.push(n), t);
            lemma_typed(old, t);
        }
    }
    assert forall|t: int| 0 <= t < old.push(n).len() implies 1 <= #[trigger] width(old.push(n), t) <= MAX_WIDTH by {
        if t < old.len() {
            lemma_grow(old, old.push(n), t);
            lemma_typed(old, t);
        }
    }
}

/// Growth is transitive.
proof fn lemma_grows_trans(a: Seq<BvNode>, b: Seq<BvNode>, c: Seq<BvNode>)
    requires
        table_grows(a, b),
        table_grows(b, c),
    ensures
        table_grows(a, c),
{
    assert forall|i: int| 0 <= i < a.len() implies #[trigger] c[i] == a[i] by {
        assert(c[i] == b[i]);
    }
}

/// Append a term whose operands precede it and fit; return its index.
fn push_node(ctx: &mut crate::bv::blast::word::BvTerms, n: BvNode) -> (t: usize)
    requires
        well_typed(old(ctx).nodes@),
        node_ok(old(ctx).nodes@.push(n), old(ctx).nodes@.len() as int),
        1 <= width(old(ctx).nodes@.push(n), old(ctx).nodes@.len() as int) <= MAX_WIDTH,
    ensures
        final(ctx).nodes@ == old(ctx).nodes@.push(n),
        t == old(ctx).nodes@.len(),
        well_typed(final(ctx).nodes@),
        table_grows(old(ctx).nodes@, final(ctx).nodes@),
{
    proof { lemma_push_typed(ctx.nodes@, n); }
    ctx.push(n)
}

/// The width of term `t`.
fn term_width(ctx: &crate::bv::blast::word::BvTerms, t: usize) -> (w: u32)
    requires
        well_typed(ctx.nodes@),
        t < ctx.nodes@.len(),
    ensures
        w == width(ctx.nodes@, t as int),
    decreases t,
{
    let ghost ts = ctx.nodes@;
    proof { lemma_typed(ts, t as int); }
    match &ctx.nodes[t] {
        BvNode::Const(bits) => bits.len() as u32,
        BvNode::Var(w) => *w,
        BvNode::Not(a) | BvNode::Neg(a) | BvNode::RotateLeft(a, _) | BvNode::RotateRight(a, _) => term_width(ctx, *a),
        BvNode::And(a, _) | BvNode::Or(a, _) | BvNode::Xor(a, _) | BvNode::Nand(a, _) | BvNode::Nor(a, _)
        | BvNode::Xnor(a, _) | BvNode::Add(a, _) | BvNode::Mul(a, _) | BvNode::Sub(a, _) | BvNode::Udiv(a, _) | BvNode::Urem(a, _)
        | BvNode::Sdiv(a, _) | BvNode::Srem(a, _) | BvNode::Smod(a, _) | BvNode::Shl(a, _) | BvNode::Lshr(a, _)
        | BvNode::Ashr(a, _) => term_width(ctx, *a),
        BvNode::Concat(h, l) => {
            let wh = term_width(ctx, *h);
            let wl = term_width(ctx, *l);
            wh + wl
        },
        BvNode::Extract(_, hi, lo) => *hi - *lo + 1,
        BvNode::ZeroExtend(a, k) | BvNode::SignExtend(a, k) => {
            let wa = term_width(ctx, *a);
            wa + *k
        },
        BvNode::Repeat(a, k) => {
            let wa = term_width(ctx, *a);
            proof {
                assert(1 <= width(ts, *a as int));
                assert(wa as nat * (*k as nat) <= MAX_WIDTH);
                assert((wa as u64) * (*k as u64) == wa as nat * (*k as nat)) by (nonlinear_arith)
                    requires wa <= MAX_WIDTH, *k <= u32::MAX;
            }
            ((wa as u64) * (*k as u64)) as u32
        },
    }
}

/// The bits of term `t` when it is a constant.
fn const_of(ctx: &crate::bv::blast::word::BvTerms, t: usize) -> (r: Option<Vec<bool>>)
    requires
        t < ctx.nodes@.len(),
    ensures
        match r {
            Some(b) => ctx.nodes@[t as int] is Const && b@ == eval(ctx.nodes@, |v: int| Seq::<bool>::empty(), t as int)
                && forall|env: spec_fn(int) -> Seq<bool>| #[trigger] eval(ctx.nodes@, env, t as int) == b@,
            None => !(ctx.nodes@[t as int] is Const),
        },
{
    match &ctx.nodes[t] {
        BvNode::Const(bits) => Some(vstd::slice::slice_to_vec(bits.as_slice())),
        _ => None,
    }
}

/// The operands of a term.
pub open spec fn operands_of(n: BvNode) -> Seq<usize> {
    crate::bv::blast::word::operands(n)
}

/// Term `n` with its operands replaced by `a` (and `b`).
pub open spec fn with_operands(n: BvNode, a: usize, b: usize) -> BvNode {
    match n {
        BvNode::Not(_) => BvNode::Not(a),
        BvNode::Neg(_) => BvNode::Neg(a),
        BvNode::ZeroExtend(_, k) => BvNode::ZeroExtend(a, k),
        BvNode::SignExtend(_, k) => BvNode::SignExtend(a, k),
        BvNode::RotateLeft(_, k) => BvNode::RotateLeft(a, k),
        BvNode::RotateRight(_, k) => BvNode::RotateRight(a, k),
        BvNode::Repeat(_, k) => BvNode::Repeat(a, k),
        BvNode::Extract(_, hi, lo) => BvNode::Extract(a, hi, lo),
        BvNode::And(_, _) => BvNode::And(a, b),
        BvNode::Or(_, _) => BvNode::Or(a, b),
        BvNode::Xor(_, _) => BvNode::Xor(a, b),
        BvNode::Nand(_, _) => BvNode::Nand(a, b),
        BvNode::Nor(_, _) => BvNode::Nor(a, b),
        BvNode::Xnor(_, _) => BvNode::Xnor(a, b),
        BvNode::Add(_, _) => BvNode::Add(a, b),
        BvNode::Mul(_, _) => BvNode::Mul(a, b),
        BvNode::Sub(_, _) => BvNode::Sub(a, b),
        BvNode::Udiv(_, _) => BvNode::Udiv(a, b),
        BvNode::Urem(_, _) => BvNode::Urem(a, b),
        BvNode::Sdiv(_, _) => BvNode::Sdiv(a, b),
        BvNode::Srem(_, _) => BvNode::Srem(a, b),
        BvNode::Smod(_, _) => BvNode::Smod(a, b),
        BvNode::Shl(_, _) => BvNode::Shl(a, b),
        BvNode::Lshr(_, _) => BvNode::Lshr(a, b),
        BvNode::Ashr(_, _) => BvNode::Ashr(a, b),
        BvNode::Concat(_, _) => BvNode::Concat(a, b),
        BvNode::Const(_) | BvNode::Var(_) => n,
    }
}

/// A copy of the operation of `n` over new operands.
fn rebuild(n: &BvNode, a: usize, b: usize) -> (r: BvNode)
    requires
        operands_of(*n).len() > 0,
    ensures
        r == with_operands(*n, a, b),
{
    match n {
        BvNode::Not(_) => BvNode::Not(a),
        BvNode::Neg(_) => BvNode::Neg(a),
        BvNode::ZeroExtend(_, k) => BvNode::ZeroExtend(a, *k),
        BvNode::SignExtend(_, k) => BvNode::SignExtend(a, *k),
        BvNode::RotateLeft(_, k) => BvNode::RotateLeft(a, *k),
        BvNode::RotateRight(_, k) => BvNode::RotateRight(a, *k),
        BvNode::Repeat(_, k) => BvNode::Repeat(a, *k),
        BvNode::Extract(_, hi, lo) => BvNode::Extract(a, *hi, *lo),
        BvNode::And(_, _) => BvNode::And(a, b),
        BvNode::Or(_, _) => BvNode::Or(a, b),
        BvNode::Xor(_, _) => BvNode::Xor(a, b),
        BvNode::Nand(_, _) => BvNode::Nand(a, b),
        BvNode::Nor(_, _) => BvNode::Nor(a, b),
        BvNode::Xnor(_, _) => BvNode::Xnor(a, b),
        BvNode::Add(_, _) => BvNode::Add(a, b),
        BvNode::Mul(_, _) => BvNode::Mul(a, b),
        BvNode::Sub(_, _) => BvNode::Sub(a, b),
        BvNode::Udiv(_, _) => BvNode::Udiv(a, b),
        BvNode::Urem(_, _) => BvNode::Urem(a, b),
        BvNode::Sdiv(_, _) => BvNode::Sdiv(a, b),
        BvNode::Srem(_, _) => BvNode::Srem(a, b),
        BvNode::Smod(_, _) => BvNode::Smod(a, b),
        BvNode::Shl(_, _) => BvNode::Shl(a, b),
        BvNode::Lshr(_, _) => BvNode::Lshr(a, b),
        BvNode::Ashr(_, _) => BvNode::Ashr(a, b),
        BvNode::Concat(_, _) => BvNode::Concat(a, b),
        BvNode::Const(_) | BvNode::Var(_) => {
            proof { assert(false); }
            BvNode::Var(0)
        },
    }
}

/// The operands of term `t`, as a list.
fn operand_list(ctx: &crate::bv::blast::word::BvTerms, t: usize) -> (r: Vec<usize>)
    requires
        t < ctx.nodes@.len(),
    ensures
        r@ == operands_of(ctx.nodes@[t as int]),
{
    let mut r: Vec<usize> = Vec::new();
    match &ctx.nodes[t] {
        BvNode::Const(_) | BvNode::Var(_) => {},
        BvNode::Not(a) | BvNode::Neg(a) | BvNode::Extract(a, _, _) | BvNode::ZeroExtend(a, _)
        | BvNode::SignExtend(a, _) | BvNode::RotateLeft(a, _) | BvNode::RotateRight(a, _)
        | BvNode::Repeat(a, _) => {
            r.push(*a);
        },
        BvNode::And(a, b) | BvNode::Or(a, b) | BvNode::Xor(a, b) | BvNode::Nand(a, b) | BvNode::Nor(a, b)
        | BvNode::Xnor(a, b) | BvNode::Add(a, b) | BvNode::Mul(a, b) | BvNode::Sub(a, b) | BvNode::Udiv(a, b) | BvNode::Urem(a, b)
        | BvNode::Sdiv(a, b) | BvNode::Srem(a, b) | BvNode::Smod(a, b) | BvNode::Shl(a, b) | BvNode::Lshr(a, b)
        | BvNode::Ashr(a, b) | BvNode::Concat(a, b) => {
            r.push(*a);
            r.push(*b);
        },
    }
    proof { assert(r@ =~= operands_of(ctx.nodes@[t as int])); }
    r
}

/// A term rebuilt over operands of the same widths and meanings has the
/// old term's width, fit and meaning.
proof fn lemma_rebuild(ts: Seq<BvNode>, t: int, u: int, a: usize, b: usize)
    requires
        0 <= t < u < ts.len(),
        node_ok(ts, t),
        operands_of(ts[t]).len() > 0,
        ts[u] == with_operands(ts[t], a, b),
        a < u,
        width(ts, a as int) == width(ts, operands_of(ts[t])[0] as int),
        same_meaning(ts, a as int, operands_of(ts[t])[0] as int),
        operands_of(ts[t]).len() == 2 ==> b < u && width(ts, b as int) == width(ts, operands_of(ts[t])[1] as int)
            && same_meaning(ts, b as int, operands_of(ts[t])[1] as int),
    ensures
        width(ts, u) == width(ts, t),
        node_ok(ts, u),
        same_meaning(ts, u, t),
{
    let a0 = operands_of(ts[t])[0];
    assert forall|env: spec_fn(int) -> Seq<bool>| env_fits(ts, env) implies #[trigger] eval(ts, env, u) == eval(ts, env, t) by {
        assert(eval(ts, env, a as int) == eval(ts, env, a0 as int));
        if operands_of(ts[t]).len() == 2 {
            let b0 = operands_of(ts[t])[1];
            assert(eval(ts, env, b as int) == eval(ts, env, b0 as int));
        }
    }
}


/// Term `r` of `new` stands for term `t` of `old`: `new` only appends
/// terms, none of them a variable, and `r` has `t`'s width, costs no more
/// to blast, and has `t`'s meaning under every value of the variables
/// that fits.
pub open spec fn rewrites_to(old: Seq<BvNode>, new: Seq<BvNode>, t: int, r: int) -> bool {
    &&& well_typed(new)
    &&& table_grows(old, new)
    &&& no_new_vars(old, new)
    &&& 0 <= r < new.len()
    &&& width(new, r) == width(old, t)
    &&& cost(new, r) <= cost(old, t)
    &&& forall|env: spec_fn(int) -> Seq<bool>| env_fits(old, env) ==> #[trigger] eval(new, env, r) == eval(old, env, t)
}

/// A term stands for itself.
proof fn lemma_rewrites_refl(ts: Seq<BvNode>, t: int)
    requires
        well_typed(ts),
        0 <= t < ts.len(),
    ensures
        rewrites_to(ts, ts, t, t),
{
}

/// Standing for is transitive.
proof fn lemma_rewrites_trans(a: Seq<BvNode>, b: Seq<BvNode>, c: Seq<BvNode>, t: int, u: int, r: int)
    requires
        rewrites_to(a, b, t, u),
        rewrites_to(b, c, u, r),
    ensures
        rewrites_to(a, c, t, r),
{
    lemma_grows_trans(a, b, c);
    assert forall|i: int| a.len() <= i < c.len() implies !(#[trigger] c[i] is Var) by {
        if i < b.len() {
            assert(c[i] == b[i]);
        }
    }
    assert forall|env: spec_fn(int) -> Seq<bool>| env_fits(a, env) implies #[trigger] eval(c, env, r) == eval(a, env, t) by {
        lemma_fits_grow(a, b, env);
        assert(eval(c, env, r) == eval(b, env, u));
    }
}

/// A term of `old` keeps its meaning after the table grows.
proof fn lemma_rewrites_grow(a: Seq<BvNode>, b: Seq<BvNode>, c: Seq<BvNode>, t: int, r: int)
    requires
        rewrites_to(a, b, t, r),
        well_typed(c),
        table_grows(b, c),
        no_new_vars(b, c),
    ensures
        rewrites_to(a, c, t, r),
{
    lemma_grow(b, c, r);
    lemma_cost_grow(b, c, r);
    lemma_rewrites_refl(b, r);
    assert(rewrites_to(b, c, r, r)) by {
        assert forall|env: spec_fn(int) -> Seq<bool>| env_fits(b, env) implies #[trigger] eval(c, env, r) == eval(b, env, r) by {
            assert(eval(c, env, r) == eval(b, env, r));
        }
    }
    lemma_rewrites_trans(a, b, c, t, r, r);
}

/// Append a constant of width 1 to `MAX_WIDTH`; return its index.
fn push_const(ctx: &mut crate::bv::blast::word::BvTerms, bits: Vec<bool>) -> (r: usize)
    requires
        well_typed(old(ctx).nodes@),
        1 <= bits@.len() <= MAX_WIDTH,
    ensures
        final(ctx).nodes@ == old(ctx).nodes@.push(BvNode::Const(bits)),
        r == old(ctx).nodes@.len(),
        well_typed(final(ctx).nodes@),
        table_grows(old(ctx).nodes@, final(ctx).nodes@),
        no_new_vars(old(ctx).nodes@, final(ctx).nodes@),
        width(final(ctx).nodes@, r as int) == bits@.len(),
        forall|env: spec_fn(int) -> Seq<bool>| #[trigger] eval(final(ctx).nodes@, env, r as int) == bits@,
{
    let ghost b = bits@;
    let r = push_node(ctx, BvNode::Const(bits));
    r
}

/// Whether every bit is `v`.
fn all_bits_are(bits: &[bool], v: bool) -> (r: bool)
    ensures
        r == forall|i: int| 0 <= i < bits@.len() ==> #[trigger] bits@[i] == v,
{
    let mut i: usize = 0;
    while i < bits.len()
        invariant
            0 <= i <= bits@.len(),
            forall|j: int| 0 <= j < i ==> #[trigger] bits@[j] == v,
        decreases bits@.len() - i,
    {
        if bits[i] != v {
            return false;
        }
        i = i + 1;
    }
    true
}

/// `n` copies of bit `v`.
fn fill_bits(n: usize, v: bool) -> (r: Vec<bool>)
    ensures
        r@ == Seq::new(n as nat, |i: int| v),
{
    let mut r: Vec<bool> = Vec::new();
    let mut i: usize = 0;
    while i < n
        invariant
            0 <= i <= n,
            r@ == Seq::new(i as nat, |j: int| v),
        decreases n - i,
    {
        r.push(v);
        i = i + 1;
        proof { assert(r@ =~= Seq::new(i as nat, |j: int| v)); }
    }
    r
}

/// The bitwise operation a term applies, for the three that fold.
pub open spec fn bit_op(op: u8, x: bool, y: bool) -> bool {
    if op == 0 { x && y } else if op == 1 { x || y } else { x != y }
}

/// `a` and `b` combined bit by bit: `0` and, `1` or, otherwise xor.
fn bitwise_bits(a: &[bool], b: &[bool], op: u8) -> (r: Vec<bool>)
    requires
        a@.len() == b@.len(),
    ensures
        r@ == Seq::new(a@.len(), |i: int| bit_op(op, a@[i], b@[i])),
{
    let mut r: Vec<bool> = Vec::new();
    let mut i: usize = 0;
    while i < a.len()
        invariant
            0 <= i <= a@.len(),
            a@.len() == b@.len(),
            r@ == Seq::new(i as nat, |j: int| bit_op(op, a@[j], b@[j])),
        decreases a@.len() - i,
    {
        let x = a[i];
        let y = b[i];
        let z = if op == 0 { x && y } else if op == 1 { x || y } else { x != y };
        r.push(z);
        i = i + 1;
        proof { assert(r@ =~= Seq::new(i as nat, |j: int| bit_op(op, a@[j], b@[j]))); }
    }
    r
}


/// Adding zero gives the other operand back, on either side.
proof fn lemma_add_zero(x: Seq<bool>, z: Seq<bool>)
    requires
        z.len() == x.len(),
        forall|i: int| 0 <= i < z.len() ==> !#[trigger] z[i],
    ensures
        nat_bits((bits_val(x) + bits_val(z)) % pow2(x.len()), x.len()) == x,
        nat_bits((bits_val(z) + bits_val(x)) % pow2(x.len()), x.len()) == x,
{
    lemma_all_false(z);
    lemma_bits_val_bound(x);
    vstd::arithmetic::div_mod::lemma_small_mod(bits_val(x), pow2(x.len()));
    lemma_nat_bits_val(x);
}

/// Subtracting zero gives the first operand back.
proof fn lemma_sub_zero(x: Seq<bool>, z: Seq<bool>)
    requires
        z.len() == x.len(),
        forall|i: int| 0 <= i < z.len() ==> !#[trigger] z[i],
    ensures
        nat_bits(((bits_val(x) + pow2(x.len()) - bits_val(z)) % (pow2(x.len()) as int)) as nat, x.len()) == x,
{
    lemma_all_false(z);
    lemma_bits_val_bound(x);
    let p = pow2(x.len()) as int;
    let v = bits_val(x) as int;
    vstd::arithmetic::div_mod::lemma_fundamental_div_mod_converse(v + p, p, 1, v);
    lemma_nat_bits_val(x);
}

/// A word minus itself is zero.
proof fn lemma_sub_self(x: Seq<bool>)
    ensures
        nat_bits(((bits_val(x) + pow2(x.len()) - bits_val(x)) % (pow2(x.len()) as int)) as nat, x.len())
            == Seq::new(x.len(), |i: int| false),
{
    let p = pow2(x.len()) as int;
    lemma_pow2_pos(x.len());
    vstd::arithmetic::div_mod::lemma_mod_self_0(p);
    assert forall|i: int| 0 <= i < x.len() implies #[trigger] nat_bits(0, x.len())[i] == false by {
        lemma_pow2_pos(i as nat);
        vstd::arithmetic::div_mod::lemma_div_of0(pow2(i as nat) as int);
    }
    assert(nat_bits(0, x.len()) =~= Seq::new(x.len(), |i: int| false));
}

/// A bit sequence whose first bit alone is set denotes 1.
proof fn lemma_bits_val_one(s: Seq<bool>)
    requires
        s.len() >= 1,
        s[0],
        forall|j: int| 1 <= j < s.len() ==> !#[trigger] s[j],
    ensures
        bits_val(s) == 1,
{
    lemma_bits_val_first(s);
    assert forall|j: int| 0 <= j < s.drop_first().len() implies !#[trigger] s.drop_first()[j] by {
        assert(s.drop_first()[j] == s[j + 1]);
    }
    lemma_all_false(s.drop_first());
}

/// Shifting bits up by one place doubles their value modulo `2^n`.
proof fn lemma_bits_double(s: Seq<bool>, d: Seq<bool>)
    requires
        s.len() >= 1,
        d == seq![false] + s.take(s.len() - 1),
    ensures
        bits_val(d) == (2 * bits_val(s)) % pow2(s.len()),
{
    let n = s.len();
    lemma_bits_val_first(d);
    assert(d.drop_first() =~= s.take(n - 1));
    assert(s.drop_last() =~= s.take(n - 1));
    lemma_bits_val_bound(s.take(n - 1));
    lemma_pow2_unfold(n);
    let c: nat = if s.last() { 1 } else { 0 };
    let h = pow2((n - 1) as nat);
    assert(bits_val(s) == bits_val(s.take(n - 1)) + h * c);
    assert(2 * (h * c) == (2 * h) * c) by (nonlinear_arith);
    crate::bv::blast::arith::lemma_low_bits_of_sum(bits_val(d), c, n, (2 * bits_val(s)) as int);
}

/// `a * b` modulo `2^n` on constant bits: shift and add, from the top bit
/// of `b` down.
fn mul_bits(a: &[bool], b: &[bool]) -> (r: Vec<bool>)
    requires
        a@.len() == b@.len(),
    ensures
        r@ == nat_bits((bits_val(a@) * bits_val(b@)) % pow2(a@.len()), a@.len()),
{
    let n = a.len();
    let mut acc = fill_bits(n, false);
    let mut i: usize = n;
    proof {
        lemma_pow2_pos(n as nat);
        lemma_all_false(acc@);
        assert(b@.skip(n as int) =~= Seq::<bool>::empty());
        assert(bits_val(Seq::<bool>::empty()) == 0);
        assert(bits_val(a@) * 0 == 0);
    }
    while i > 0
        invariant
            0 <= i <= n,
            n == a@.len(),
            a@.len() == b@.len(),
            acc@.len() == n,
            pow2(n as nat) > 0,
            bits_val(acc@) == (bits_val(a@) * bits_val(b@.skip(i as int))) % pow2(n as nat),
        decreases i,
    {
        i = i - 1;
        let ghost ai = acc@;
        let mut d: Vec<bool> = Vec::new();
        d.push(false);
        let mut k: usize = 0;
        proof { assert(d@ =~= seq![false] + ai.take(0)); }
        while k + 1 < n
            invariant
                0 <= k < n,
                n == ai.len(),
                acc@ == ai,
                d@ == seq![false] + ai.take(k as int),
            decreases n - k,
        {
            d.push(acc[k]);
            proof { assert(d@ =~= seq![false] + ai.take(k + 1)); }
            k = k + 1;
        }
        let p = if b[i] { vstd::slice::slice_to_vec(a) } else { fill_bits(n, false) };
        let s = add_bits(d.as_slice(), p.as_slice(), false);
        proof {
            let vx = bits_val(a@);
            let rest = bits_val(b@.skip(i + 1));
            let yb: nat = if b@[i as int] { 1 } else { 0 };
            lemma_bits_double(ai, d@);
            assert(b@.skip(i as int).drop_first() =~= b@.skip(i + 1));
            lemma_bits_val_first(b@.skip(i as int));
            assert(bits_val(p@) == yb * vx) by {
                if !b@[i as int] {
                    lemma_all_false(p@);
                }
            }
            let t = (bits_val(d@) + bits_val(p@) + 0nat) % pow2(n as nat);
            vstd::arithmetic::div_mod::lemma_mod_bound((bits_val(d@) + bits_val(p@)) as int, pow2(n as nat) as int);
            lemma_bits_val_nat(t, n as nat);
            crate::bv::blast::arith::lemma_mul_step(vx as int, rest as int, yb as int, pow2(n as nat) as int);
        }
        acc = s;
    }
    proof {
        assert(b@.skip(0) =~= b@);
        lemma_nat_bits_val(acc@);
    }
    acc
}

/// `a << b` on constant bits, zero when `b` is at least the width.
fn shl_const(a: &[bool], b: &[bool]) -> (r: Vec<bool>)
    requires
        a@.len() <= MAX_WIDTH,
    ensures
        r@ == Seq::new(a@.len(), |j: int| if j >= bits_val(b@) { a@[j - bits_val(b@)] } else { false }),
{
    match small_value(b, a.len() as u64) {
        Some(k) => shl_bits(a, k),
        None => {
            let r = fill_bits(a.len(), false);
            proof {
                assert(r@ =~= Seq::new(a@.len(), |j: int| if j >= bits_val(b@) { a@[j - bits_val(b@)] } else { false }));
            }
            r
        },
    }
}

/// What one application of the local rules does to a term.
pub enum RuleStep {
    /// The term stays as it is.
    Keep,
    /// The term is replaced by one of its operands.
    Operand(usize),
    /// The term folds to a new constant.
    Constant,
    /// The term is replaced by a new `extract` of the given term and range.
    Extract(usize, u32, u32),
}

/// Term `i` is a constant whose bits are all `v`.
pub open spec fn const_all(ts: Seq<BvNode>, i: int, v: bool) -> bool {
    ts[i] matches BvNode::Const(bits) && forall|j: int| 0 <= j < bits@.len() ==> #[trigger] bits@[j] == v
}

/// Term `i` is a constant denoting 1.
pub open spec fn const_one(ts: Seq<BvNode>, i: int) -> bool {
    ts[i] matches BvNode::Const(bits) && bits@.len() >= 1 && bits@[0]
        && forall|j: int| 1 <= j < bits@.len() ==> !#[trigger] bits@[j]
}

/// The rule that applies at term `t`, its operands taken as they are:
/// folding when the operands are constants, then the identities, then the
/// `extract` rules.
pub open spec fn rule_step(ts: Seq<BvNode>, t: int) -> RuleStep {
    match ts[t] {
        BvNode::Not(a) | BvNode::Neg(a) => if ts[a as int] is Const { RuleStep::Constant } else { RuleStep::Keep },
        BvNode::Add(a, b) => if ts[a as int] is Const && ts[b as int] is Const {
            RuleStep::Constant
        } else if const_all(ts, b as int, false) {
            RuleStep::Operand(a)
        } else if const_all(ts, a as int, false) {
            RuleStep::Operand(b)
        } else {
            RuleStep::Keep
        },
        BvNode::Mul(a, b) => if ts[a as int] is Const && ts[b as int] is Const {
            RuleStep::Constant
        } else if const_one(ts, b as int) {
            RuleStep::Operand(a)
        } else if const_one(ts, a as int) {
            RuleStep::Operand(b)
        } else if const_all(ts, b as int, false) || const_all(ts, a as int, false) {
            RuleStep::Constant
        } else {
            RuleStep::Keep
        },
        BvNode::Sub(a, b) => if ts[a as int] is Const && ts[b as int] is Const {
            RuleStep::Constant
        } else if const_all(ts, b as int, false) {
            RuleStep::Operand(a)
        } else if a == b {
            RuleStep::Constant
        } else {
            RuleStep::Keep
        },
        BvNode::And(a, b) => if ts[a as int] is Const && ts[b as int] is Const {
            RuleStep::Constant
        } else if const_all(ts, b as int, true) {
            RuleStep::Operand(a)
        } else if const_all(ts, a as int, true) {
            RuleStep::Operand(b)
        } else if const_all(ts, b as int, false) || const_all(ts, a as int, false) {
            RuleStep::Constant
        } else {
            RuleStep::Keep
        },
        BvNode::Or(a, b) => if ts[a as int] is Const && ts[b as int] is Const {
            RuleStep::Constant
        } else if const_all(ts, b as int, false) {
            RuleStep::Operand(a)
        } else if const_all(ts, a as int, false) {
            RuleStep::Operand(b)
        } else if const_all(ts, b as int, true) || const_all(ts, a as int, true) {
            RuleStep::Constant
        } else {
            RuleStep::Keep
        },
        BvNode::Xor(a, b) => if ts[a as int] is Const && ts[b as int] is Const {
            RuleStep::Constant
        } else if const_all(ts, b as int, false) {
            RuleStep::Operand(a)
        } else if const_all(ts, a as int, false) {
            RuleStep::Operand(b)
        } else {
            RuleStep::Keep
        },
        BvNode::Shl(a, b) => if ts[a as int] is Const && ts[b as int] is Const {
            RuleStep::Constant
        } else if const_all(ts, b as int, false) {
            RuleStep::Operand(a)
        } else {
            RuleStep::Keep
        },
        BvNode::Extract(x, hi, lo) => match ts[x as int] {
            BvNode::Extract(y, _, l) => if hi + l < width(ts, y as int) && lo + l <= hi + l {
                RuleStep::Extract(y, (hi + l) as u32, (lo + l) as u32)
            } else {
                RuleStep::Keep
            },
            BvNode::Concat(h, low) => if hi < width(ts, low as int) {
                RuleStep::Extract(low, hi, lo)
            } else if lo >= width(ts, low as int) {
                RuleStep::Extract(h, (hi - width(ts, low as int)) as u32, (lo - width(ts, low as int)) as u32)
            } else {
                RuleStep::Keep
            },
            _ => RuleStep::Keep,
        },
        _ => RuleStep::Keep,
    }
}

/// `new` and `r` are what the rule at term `t` of `old` gives.
pub open spec fn step_taken(old: Seq<BvNode>, new: Seq<BvNode>, t: int, r: int) -> bool {
    match rule_step(old, t) {
        RuleStep::Keep => r == t && new == old,
        RuleStep::Operand(o) => r == o && new == old,
        RuleStep::Constant => r == old.len() && new.len() == old.len() + 1 && new[r] is Const
            && forall|i: int| 0 <= i < old.len() ==> #[trigger] new[i] == old[i],
        RuleStep::Extract(x, hi, lo) => r == old.len() && new == old.push(BvNode::Extract(x, hi, lo)),
    }
}

/// `!c` or `-c` for a constant operand `c`; the term itself otherwise.
fn fold_unary(ctx: &mut crate::bv::blast::word::BvTerms, t: usize) -> (r: usize)
    requires
        well_typed(old(ctx).nodes@),
        t < old(ctx).nodes@.len(),
        old(ctx).nodes@[t as int] is Not || old(ctx).nodes@[t as int] is Neg,
    ensures
        rewrites_to(old(ctx).nodes@, final(ctx).nodes@, t as int, r as int),
        step_taken(old(ctx).nodes@, final(ctx).nodes@, t as int, r as int),
{
    let ghost ts = ctx.nodes@;
    proof { lemma_typed(ts, t as int); }
    let (a, is_not) = match &ctx.nodes[t] {
        BvNode::Not(a) => (*a, true),
        BvNode::Neg(a) => (*a, false),
        _ => {
            proof { assert(false); }
            (0, true)
        },
    };
    proof { lemma_typed(ts, a as int); }
    match const_of(ctx, a) {
        Some(bits) => {
            let folded = if is_not { not_word(bits.as_slice()) } else { neg_bits(bits.as_slice()) };
            proof { assert(folded@.len() == width(ts, t as int)); }
            let r = push_const(ctx, folded);
            proof {
                assert forall|env: spec_fn(int) -> Seq<bool>| env_fits(ts, env) implies #[trigger] eval(ctx.nodes@, env, r as int) == eval(ts, env, t as int) by {
                    assert(eval(ts, env, a as int) == bits@);
                    if is_not {
                        assert(eval(ts, env, t as int) =~= not_bits(bits@));
                    }
                }
            }
            r
        },
        None => {
            proof { lemma_rewrites_refl(ts, t as int); }
            t
        },
    }
}


/// The seven binary operations that fold and simplify.
pub open spec fn is_folding_op(n: BvNode) -> bool {
    n is Add || n is Mul || n is Sub || n is And || n is Or || n is Xor || n is Shl
}

/// Both operands of term `t` constant: the folded constant.
fn fold_const_binary(ctx: &crate::bv::blast::word::BvTerms, t: usize, lb: &[bool], rb: &[bool]) -> (r: Vec<bool>)
    requires
        well_typed(ctx.nodes@),
        t < ctx.nodes@.len(),
        is_folding_op(ctx.nodes@[t as int]),
        forall|env: spec_fn(int) -> Seq<bool>| #[trigger] eval(ctx.nodes@, env, operands_of(ctx.nodes@[t as int])[0] as int) == lb@,
        forall|env: spec_fn(int) -> Seq<bool>| #[trigger] eval(ctx.nodes@, env, operands_of(ctx.nodes@[t as int])[1] as int) == rb@,
        lb@.len() == rb@.len(),
        lb@.len() == width(ctx.nodes@, t as int),
    ensures
        r@.len() == width(ctx.nodes@, t as int),
        forall|env: spec_fn(int) -> Seq<bool>| #[trigger] eval(ctx.nodes@, env, t as int) == r@,
{
    let ghost ts = ctx.nodes@;
    proof { lemma_typed(ts, t as int); }
    let r = match &ctx.nodes[t] {
        BvNode::Add(_, _) => add_bits(lb, rb, false),
        BvNode::Mul(_, _) => mul_bits(lb, rb),
        BvNode::Sub(_, _) => sub_bits(lb, rb),
        BvNode::And(_, _) => bitwise_bits(lb, rb, 0),
        BvNode::Or(_, _) => bitwise_bits(lb, rb, 1),
        BvNode::Xor(_, _) => bitwise_bits(lb, rb, 2),
        _ => shl_const(lb, rb),
    };
    proof {
        assert forall|env: spec_fn(int) -> Seq<bool>| #[trigger] eval(ts, env, t as int) == r@ by {
            let a = operands_of(ts[t as int])[0];
            let b = operands_of(ts[t as int])[1];
            assert(eval(ts, env, a as int) == lb@);
            assert(eval(ts, env, b as int) == rb@);
            match ts[t as int] {
                BvNode::Add(_, _) => {
                    assert(bits_val(lb@) + bits_val(rb@) + 0nat == bits_val(lb@) + bits_val(rb@));
                },
                BvNode::Sub(_, _) | BvNode::Mul(_, _) => {},
                BvNode::And(_, _) | BvNode::Or(_, _) | BvNode::Xor(_, _) => {
                    assert(eval(ts, env, t as int) =~= r@);
                },
                _ => {},
            }
        }
    }
    r
}


/// Term `t` stands for itself after the table grows by nothing; `r`
/// stands for `t` when it has its width and meaning.
proof fn lemma_stands_for(ts: Seq<BvNode>, t: int, r: int)
    requires
        well_typed(ts),
        0 <= t < ts.len(),
        0 <= r < ts.len(),
        width(ts, r) == width(ts, t),
        cost(ts, r) <= cost(ts, t),
        forall|env: spec_fn(int) -> Seq<bool>| env_fits(ts, env) ==> #[trigger] eval(ts, env, r) == eval(ts, env, t),
    ensures
        rewrites_to(ts, ts, t, r),
{
}

/// Whether an optional constant denotes 1: its first bit alone is set.
fn const_is_one(c: &Option<Vec<bool>>) -> (r: bool)
    ensures
        r == (c is Some && c->0@.len() >= 1 && c->0@[0]
            && forall|j: int| 1 <= j < c->0@.len() ==> !#[trigger] c->0@[j]),
{
    match c {
        Some(bits) => {
            if bits.len() == 0 || !bits[0] {
                return false;
            }
            let mut i: usize = 1;
            while i < bits.len()
                invariant
                    1 <= i <= bits@.len(),
                    c is Some && c->0@ == bits@,
                    forall|j: int| 1 <= j < i ==> !#[trigger] bits@[j],
                decreases bits@.len() - i,
            {
                if bits[i] {
                    proof { assert(c->0@[i as int]); }
                    return false;
                }
                i = i + 1;
            }
            true
        },
        None => false,
    }
}

/// Multiplying by 1 gives the other operand, either way round.
proof fn lemma_mul_one(x: Seq<bool>, o: Seq<bool>)
    requires
        o.len() == x.len(),
        o.len() >= 1,
        o[0],
        forall|j: int| 1 <= j < o.len() ==> !#[trigger] o[j],
    ensures
        nat_bits((bits_val(x) * bits_val(o)) % pow2(x.len()), x.len()) == x,
        nat_bits((bits_val(o) * bits_val(x)) % pow2(x.len()), x.len()) == x,
{
    lemma_bits_val_one(o);
    lemma_bits_val_bound(x);
    vstd::arithmetic::div_mod::lemma_small_mod(bits_val(x), pow2(x.len()));
    lemma_nat_bits_val(x);
}

/// Whether an optional constant has every bit `v`.
fn const_is(c: &Option<Vec<bool>>, v: bool) -> (r: bool)
    ensures
        r == (c is Some && forall|i: int| 0 <= i < c->0@.len() ==> #[trigger] c->0@[i] == v),
{
    match c {
        Some(bits) => all_bits_are(bits.as_slice(), v),
        None => false,
    }
}

/// Identities over a constant operand: `x + 0`, `x - 0`, `x - x`,
/// `x * 1`, `x * 0`, `x & ~0`, `x & 0`, `x | 0`, `x | ~0`, `x ^ 0` and
/// `x << 0`.
#[verifier::rlimit(40)]
fn apply_identity(
    ctx: &mut crate::bv::blast::word::BvTerms,
    t: usize,
    lhs: usize,
    rhs: usize,
    lc: Option<Vec<bool>>,
    rc: Option<Vec<bool>>,
) -> (r: usize)
    requires
        well_typed(old(ctx).nodes@),
        t < old(ctx).nodes@.len(),
        is_folding_op(old(ctx).nodes@[t as int]),
        operands_of(old(ctx).nodes@[t as int]) == seq![lhs, rhs],
        lc is Some ==> forall|env: spec_fn(int) -> Seq<bool>| #[trigger] eval(old(ctx).nodes@, env, lhs as int) == lc->0@,
        rc is Some ==> forall|env: spec_fn(int) -> Seq<bool>| #[trigger] eval(old(ctx).nodes@, env, rhs as int) == rc->0@,
        lc is Some ==> lc->0@.len() == width(old(ctx).nodes@, t as int),
        rc is Some ==> rc->0@.len() == width(old(ctx).nodes@, t as int),
        lc is Some <==> old(ctx).nodes@[lhs as int] is Const,
        rc is Some <==> old(ctx).nodes@[rhs as int] is Const,
        old(ctx).nodes@[lhs as int] matches BvNode::Const(bits) ==> lc->0@ == bits@,
        old(ctx).nodes@[rhs as int] matches BvNode::Const(bits) ==> rc->0@ == bits@,
        !(lc is Some && rc is Some),
    ensures
        rewrites_to(old(ctx).nodes@, final(ctx).nodes@, t as int, r as int),
        step_taken(old(ctx).nodes@, final(ctx).nodes@, t as int, r as int),
{
    let ghost ts = ctx.nodes@;
    proof {
        lemma_typed(ts, t as int);
        lemma_typed(ts, lhs as int);
        lemma_typed(ts, rhs as int);
        lemma_rewrites_refl(ts, t as int);
    }
    let w = term_width(ctx, t);
    let rz = const_is(&rc, false);
    let lz = const_is(&lc, false);
    let ro = const_is(&rc, true);
    let lo = const_is(&lc, true);
    let kind: u8 = match &ctx.nodes[t] {
        BvNode::Add(_, _) => 0,
        BvNode::Sub(_, _) => 1,
        BvNode::And(_, _) => 2,
        BvNode::Or(_, _) => 3,
        BvNode::Xor(_, _) => 4,
        BvNode::Mul(_, _) => 6,
        _ => 5,
    };
    proof {
        assert(width(ts, lhs as int) == width(ts, t as int));
        assert(width(ts, rhs as int) == width(ts, t as int));
        assert(cost(ts, lhs as int) <= cost(ts, t as int));
        assert(cost(ts, rhs as int) <= cost(ts, t as int));
    }
    if kind == 6 {
        let r1 = const_is_one(&rc);
        let l1 = const_is_one(&lc);
        if r1 {
            // x * 1
            proof {
                assert forall|env: spec_fn(int) -> Seq<bool>| env_fits(ts, env) implies #[trigger] eval(ts, env, lhs as int) == eval(ts, env, t as int) by {
                    lemma_eval_len(ts, env, lhs as int);
                    assert(eval(ts, env, rhs as int) == rc->0@);
                    lemma_mul_one(eval(ts, env, lhs as int), rc->0@);
                }
                lemma_stands_for(ts, t as int, lhs as int);
            }
            return lhs;
        }
        if l1 {
            // 1 * x
            proof {
                assert forall|env: spec_fn(int) -> Seq<bool>| env_fits(ts, env) implies #[trigger] eval(ts, env, rhs as int) == eval(ts, env, t as int) by {
                    lemma_eval_len(ts, env, rhs as int);
                    lemma_eval_len(ts, env, lhs as int);
                    assert(eval(ts, env, lhs as int) == lc->0@);
                    lemma_mul_one(eval(ts, env, rhs as int), lc->0@);
                }
                lemma_stands_for(ts, t as int, rhs as int);
            }
            return rhs;
        }
        if rz || lz {
            // x * 0, 0 * x
            let zeros = fill_bits(w as usize, false);
            let r = push_const(ctx, zeros);
            proof {
                assert forall|env: spec_fn(int) -> Seq<bool>| env_fits(ts, env) implies #[trigger] eval(ctx.nodes@, env, r as int) == eval(ts, env, t as int) by {
                    lemma_eval_len(ts, env, lhs as int);
                    lemma_eval_len(ts, env, rhs as int);
                    let ea = eval(ts, env, lhs as int);
                    let eb = eval(ts, env, rhs as int);
                    if rz {
                        assert(eb == rc->0@);
                        lemma_all_false(eb);
                    } else {
                        assert(ea == lc->0@);
                        lemma_all_false(ea);
                    }
                    let pa = bits_val(ea);
                    let pb = bits_val(eb);
                    assert(pa * pb == 0) by (nonlinear_arith)
                        requires
                            pa == 0 || pb == 0;
                    lemma_pow2_pos(w as nat);
                    assert(ea.len() == w);
                    assert(eval(ts, env, t as int) == nat_bits((pa * pb) % pow2(ea.len()), ea.len()));
                    assert((pa * pb) % pow2(ea.len()) == 0);
                    assert(eval(ts, env, t as int) =~= Seq::new(w as nat, |i: int| false)) by {
                        assert forall|i: int| 0 <= i < w implies !#[trigger] eval(ts, env, t as int)[i] by {
                            lemma_pow2_pos(i as nat);
                            assert(0nat / pow2(i as nat) == 0);
                        }
                    }
                }
            }
            return r;
        }
        return t;
    }
    if kind != 1 && kind != 2 && rz {
        // x + 0, x | 0, x ^ 0, x << 0
        proof {
            assert forall|env: spec_fn(int) -> Seq<bool>| env_fits(ts, env) implies #[trigger] eval(ts, env, lhs as int) == eval(ts, env, t as int) by {
                lemma_eval_len(ts, env, lhs as int);
                let x = eval(ts, env, lhs as int);
                let z = eval(ts, env, rhs as int);
                assert(z == rc->0@);
                if kind == 0 {
                    lemma_add_zero(x, z);
                } else if kind == 5 {
                    lemma_all_false(z);
                    assert(eval(ts, env, t as int) =~= x);
                } else {
                    assert(eval(ts, env, t as int) =~= x);
                }
            }
            lemma_stands_for(ts, t as int, lhs as int);
        }
        return lhs;
    }
    if (kind == 0 || kind == 3 || kind == 4) && lz {
        // 0 + x, 0 | x, 0 ^ x
        proof {
            assert forall|env: spec_fn(int) -> Seq<bool>| env_fits(ts, env) implies #[trigger] eval(ts, env, rhs as int) == eval(ts, env, t as int) by {
                lemma_eval_len(ts, env, rhs as int);
                lemma_eval_len(ts, env, lhs as int);
                let x = eval(ts, env, rhs as int);
                let z = eval(ts, env, lhs as int);
                assert(z == lc->0@);
                if kind == 0 {
                    lemma_add_zero(x, z);
                } else {
                    assert(eval(ts, env, t as int) =~= x);
                }
            }
            lemma_stands_for(ts, t as int, rhs as int);
        }
        return rhs;
    }
    if kind == 1 {
        if rz {
            proof {
                assert forall|env: spec_fn(int) -> Seq<bool>| env_fits(ts, env) implies #[trigger] eval(ts, env, lhs as int) == eval(ts, env, t as int) by {
                    lemma_eval_len(ts, env, lhs as int);
                    assert(eval(ts, env, rhs as int) == rc->0@);
                    lemma_sub_zero(eval(ts, env, lhs as int), eval(ts, env, rhs as int));
                }
                lemma_stands_for(ts, t as int, lhs as int);
            }
            return lhs;
        }
        if lhs == rhs {
            let zeros = fill_bits(w as usize, false);
            let r = push_const(ctx, zeros);
            proof {
                assert forall|env: spec_fn(int) -> Seq<bool>| env_fits(ts, env) implies #[trigger] eval(ctx.nodes@, env, r as int) == eval(ts, env, t as int) by {
                    lemma_eval_len(ts, env, lhs as int);
                    lemma_sub_self(eval(ts, env, lhs as int));
                }
            }
            return r;
        }
        return t;
    }
    if kind == 2 {
        if ro {
            proof {
                assert forall|env: spec_fn(int) -> Seq<bool>| env_fits(ts, env) implies #[trigger] eval(ts, env, lhs as int) == eval(ts, env, t as int) by {
                    lemma_eval_len(ts, env, lhs as int);
                    assert(eval(ts, env, rhs as int) == rc->0@);
                    assert(eval(ts, env, t as int) =~= eval(ts, env, lhs as int));
                }
                lemma_stands_for(ts, t as int, lhs as int);
            }
            return lhs;
        }
        if lo {
            proof {
                assert forall|env: spec_fn(int) -> Seq<bool>| env_fits(ts, env) implies #[trigger] eval(ts, env, rhs as int) == eval(ts, env, t as int) by {
                    lemma_eval_len(ts, env, rhs as int);
                    lemma_eval_len(ts, env, lhs as int);
                    assert(eval(ts, env, lhs as int) == lc->0@);
                    assert(eval(ts, env, t as int) =~= eval(ts, env, rhs as int));
                }
                lemma_stands_for(ts, t as int, rhs as int);
            }
            return rhs;
        }
        if rz || lz {
            let zeros = fill_bits(w as usize, false);
            let r = push_const(ctx, zeros);
            proof {
                assert forall|env: spec_fn(int) -> Seq<bool>| env_fits(ts, env) implies #[trigger] eval(ctx.nodes@, env, r as int) == eval(ts, env, t as int) by {
                    lemma_eval_len(ts, env, lhs as int);
                    lemma_eval_len(ts, env, rhs as int);
                    if rz {
                        assert(eval(ts, env, rhs as int) == rc->0@);
                    } else {
                        assert(eval(ts, env, lhs as int) == lc->0@);
                    }
                    assert(eval(ts, env, t as int) =~= Seq::new(w as nat, |i: int| false));
                }
            }
            return r;
        }
        return t;
    }
    if kind == 3 && (ro || lo) {
        let ones = fill_bits(w as usize, true);
        let r = push_const(ctx, ones);
        proof {
            assert forall|env: spec_fn(int) -> Seq<bool>| env_fits(ts, env) implies #[trigger] eval(ctx.nodes@, env, r as int) == eval(ts, env, t as int) by {
                lemma_eval_len(ts, env, lhs as int);
                lemma_eval_len(ts, env, rhs as int);
                if ro {
                    assert(eval(ts, env, rhs as int) == rc->0@);
                } else {
                    assert(eval(ts, env, lhs as int) == lc->0@);
                }
                assert(eval(ts, env, t as int) =~= Seq::new(w as nat, |i: int| true));
            }
        }
        return r;
    }
    t
}


/// A binary term: folded when both operands are constants, else
/// simplified by an identity where one applies.
fn fold_binary_or_identity(ctx: &mut crate::bv::blast::word::BvTerms, t: usize) -> (r: usize)
    requires
        well_typed(old(ctx).nodes@),
        t < old(ctx).nodes@.len(),
        is_folding_op(old(ctx).nodes@[t as int]),
    ensures
        rewrites_to(old(ctx).nodes@, final(ctx).nodes@, t as int, r as int),
        step_taken(old(ctx).nodes@, final(ctx).nodes@, t as int, r as int),
{
    let ghost ts = ctx.nodes@;
    proof { lemma_typed(ts, t as int); }
    let ops = operand_list(ctx, t);
    let lhs = ops[0];
    let rhs = ops[1];
    proof {
        assert(operands_of(ts[t as int]) =~= seq![lhs, rhs]);
        lemma_typed(ts, lhs as int);
        lemma_typed(ts, rhs as int);
    }
    let lc = const_of(ctx, lhs);
    let rc = const_of(ctx, rhs);
    if let (Some(lb), Some(rb)) = (&lc, &rc) {
        let folded = fold_const_binary(ctx, t, lb.as_slice(), rb.as_slice());
        let r = push_const(ctx, folded);
        proof {
            assert forall|env: spec_fn(int) -> Seq<bool>| env_fits(ts, env) implies #[trigger] eval(ctx.nodes@, env, r as int) == eval(ts, env, t as int) by {
                assert(eval(ts, env, t as int) == folded@);
            }
        }
        return r;
    }
    apply_identity(ctx, t, lhs, rhs, lc, rc)
}


/// `extract` over `extract` becomes one `extract`; `extract` over
/// `concat` becomes an `extract` of the part the range lies in, when it
/// lies in one.
#[verifier::rlimit(40)]
fn apply_extract_rules(ctx: &mut crate::bv::blast::word::BvTerms, t: usize) -> (r: usize)
    requires
        well_typed(old(ctx).nodes@),
        t < old(ctx).nodes@.len(),
        old(ctx).nodes@[t as int] is Extract,
    ensures
        rewrites_to(old(ctx).nodes@, final(ctx).nodes@, t as int, r as int),
        step_taken(old(ctx).nodes@, final(ctx).nodes@, t as int, r as int),
{
    let ghost ts = ctx.nodes@;
    proof {
        lemma_typed(ts, t as int);
        lemma_rewrites_refl(ts, t as int);
    }
    let (inner, hi, lo) = match &ctx.nodes[t] {
        BvNode::Extract(a, h, l) => (*a, *h, *l),
        _ => {
            proof { assert(false); }
            return t;
        },
    };
    proof { lemma_typed(ts, inner as int); }
    let (kind, x, y, k, l) = match &ctx.nodes[inner] {
        BvNode::Extract(a, kk, ll) => (0u8, *a, 0usize, *kk, *ll),
        BvNode::Concat(h, lp) => (1u8, *h, *lp, 0u32, 0u32),
        _ => (2u8, 0usize, 0usize, 0u32, 0u32),
    };
    if kind == 0 {
        // extract(hi, lo, extract(k, l, x)) = extract(hi + l, lo + l, x)
        proof { lemma_typed(ts, x as int); }
        let new_hi = hi + l;
        let new_lo = lo + l;
        let xw = term_width(ctx, x);
        if new_hi < xw && new_lo <= new_hi {
            proof {
                let n = BvNode::Extract(x, new_hi, new_lo);
                assert(table_grows(ts, ts.push(n)));
                lemma_grow(ts, ts.push(n), x as int);
            }
            let r = push_node(ctx, BvNode::Extract(x, new_hi, new_lo));
            proof {
                assert(no_new_vars(ts, ctx.nodes@));
                lemma_cost_grow(ts, ctx.nodes@, x as int);
                assert(cost(ts, t as int) >= cost(ts, inner as int));
                assert(cost(ts, inner as int) >= cost(ts, x as int));
                assert forall|env: spec_fn(int) -> Seq<bool>| env_fits(ts, env) implies #[trigger] eval(ctx.nodes@, env, r as int) == eval(ts, env, t as int) by {
                    lemma_grow(ts, ctx.nodes@, x as int);
                    lemma_eval_len(ts, env, x as int);
                    let ex = eval(ts, env, x as int);
                    assert(eval(ctx.nodes@, env, x as int) == ex);
                    assert(eval(ts, env, inner as int) == ex.subrange(l as int, k as int + 1));
                    assert(eval(ts, env, t as int) =~= ex.subrange(new_lo as int, new_hi as int + 1));
                }
            }
            return r;
        }
        return t;
    }
    if kind == 1 {
        // extract(hi, lo, concat(x, y)), `y` the low part
        proof {
            lemma_typed(ts, x as int);
            lemma_typed(ts, y as int);
        }
        let yw = term_width(ctx, y);
        if hi < yw {
            proof {
                let n = BvNode::Extract(y, hi, lo);
                assert(table_grows(ts, ts.push(n)));
                lemma_grow(ts, ts.push(n), y as int);
            }
            let r = push_node(ctx, BvNode::Extract(y, hi, lo));
            proof {
                assert(no_new_vars(ts, ctx.nodes@));
                lemma_cost_grow(ts, ctx.nodes@, y as int);
                assert(cost(ts, t as int) >= cost(ts, inner as int));
                assert(cost(ts, inner as int) >= cost(ts, y as int));
                assert forall|env: spec_fn(int) -> Seq<bool>| env_fits(ts, env) implies #[trigger] eval(ctx.nodes@, env, r as int) == eval(ts, env, t as int) by {
                    lemma_grow(ts, ctx.nodes@, y as int);
                    lemma_eval_len(ts, env, y as int);
                    lemma_eval_len(ts, env, x as int);
                    let ey = eval(ts, env, y as int);
                    let ex = eval(ts, env, x as int);
                    assert(eval(ctx.nodes@, env, y as int) == ey);
                    assert(eval(ts, env, inner as int) == ey + ex);
                    assert(eval(ts, env, t as int) =~= ey.subrange(lo as int, hi as int + 1));
                }
            }
            return r;
        } else if lo >= yw {
            proof {
                let n = BvNode::Extract(x, (hi - yw) as u32, (lo - yw) as u32);
                assert(table_grows(ts, ts.push(n)));
                lemma_grow(ts, ts.push(n), x as int);
            }
            let r = push_node(ctx, BvNode::Extract(x, hi - yw, lo - yw));
            proof {
                assert(no_new_vars(ts, ctx.nodes@));
                lemma_cost_grow(ts, ctx.nodes@, x as int);
                assert(cost(ts, t as int) >= cost(ts, inner as int));
                assert(cost(ts, inner as int) >= cost(ts, x as int));
                assert forall|env: spec_fn(int) -> Seq<bool>| env_fits(ts, env) implies #[trigger] eval(ctx.nodes@, env, r as int) == eval(ts, env, t as int) by {
                    lemma_grow(ts, ctx.nodes@, x as int);
                    lemma_eval_len(ts, env, y as int);
                    lemma_eval_len(ts, env, x as int);
                    let ey = eval(ts, env, y as int);
                    let ex = eval(ts, env, x as int);
                    assert(eval(ctx.nodes@, env, x as int) == ex);
                    assert(eval(ts, env, inner as int) == ey + ex);
                    assert(eval(ts, env, t as int) =~= ex.subrange(lo - yw, hi - yw + 1));
                }
            }
            return r;
        }
        return t;
    }
    t
}


/// The local rules for one term whose operands are already simplified.
fn apply_rules(ctx: &mut crate::bv::blast::word::BvTerms, t: usize) -> (r: usize)
    requires
        well_typed(old(ctx).nodes@),
        t < old(ctx).nodes@.len(),
    ensures
        rewrites_to(old(ctx).nodes@, final(ctx).nodes@, t as int, r as int),
        step_taken(old(ctx).nodes@, final(ctx).nodes@, t as int, r as int),
{
    let kind: u8 = match &ctx.nodes[t] {
        BvNode::Add(_, _) | BvNode::Mul(_, _) | BvNode::Sub(_, _) | BvNode::And(_, _) | BvNode::Or(_, _) | BvNode::Xor(_, _)
        | BvNode::Shl(_, _) => 0,
        BvNode::Not(_) | BvNode::Neg(_) => 1,
        BvNode::Extract(_, _, _) => 2,
        _ => 3,
    };
    if kind == 0 {
        fold_binary_or_identity(ctx, t)
    } else if kind == 1 {
        fold_unary(ctx, t)
    } else if kind == 2 {
        apply_extract_rules(ctx, t)
    } else {
        proof { lemma_rewrites_refl(ctx.nodes@, t as int); }
        t
    }
}

/// A term stands for itself in a table that grew.
proof fn lemma_rewrites_self_grow(old: Seq<BvNode>, new: Seq<BvNode>, t: int)
    requires
        well_typed(old),
        well_typed(new),
        table_grows(old, new),
        no_new_vars(old, new),
        0 <= t < old.len(),
    ensures
        rewrites_to(old, new, t, t),
{
    lemma_grow(old, new, t);
    lemma_cost_grow(old, new, t);
}

/// The hasher of `rustc_hash`'s maps.
#[verifier::external_type_specification]
#[verifier::external_body]
pub struct ExFxBuildHasher(rustc_hash::FxBuildHasher);

/// What a term was simplified to, by term index.
pub type Memo = FxHashMap<usize, usize>;

/// `FxHashMap::default()`: a map with no entry.
#[verifier::external_body]
fn fx_map_new() -> (m: Memo)
    ensures
        m@.dom() == Set::<usize>::empty(),
{
    FxHashMap::default()
}

/// `HashMap::get` on an Fx map: the value stored under `k`, if any.
#[verifier::external_body]
fn fx_map_get(m: &Memo, k: usize) -> (r: Option<usize>)
    ensures
        r == (if m@.contains_key(k) { Some(m@[k]) } else { None::<usize> }),
{
    m.get(&k).copied()
}

/// `HashMap::insert` on an Fx map: `k` maps to `v` afterwards, every other
/// entry as it was.
#[verifier::external_body]
fn fx_map_insert(m: &mut Memo, k: usize, v: usize)
    ensures
        final(m)@ == old(m)@.insert(k, v),
{
    m.insert(k, v);
}

/// Entries of the memo: each term with an entry is in the table, and the
/// simplified term stands for it; a constant or a variable is its own entry.
pub open spec fn memo_ok(ts: Seq<BvNode>, m: Map<usize, usize>) -> bool {
    forall|i: usize| #[trigger] m.contains_key(i) ==> (i as int) < ts.len() && rewrites_to(ts, ts, i as int, m[i] as int)
        && (is_leaf(ts, i as int) ==> m[i] == i) && is_normal(ts, m[i] as int)
        && (is_normal(ts, i as int) ==> m[i] == i)
}

/// Term `i` is a constant or a variable.
pub open spec fn is_leaf(ts: Seq<BvNode>, i: int) -> bool {
    ts[i] is Const || ts[i] is Var
}

/// Every operand of term `t` is a constant or a variable.
pub open spec fn operands_are_leaves(ts: Seq<BvNode>, t: int) -> bool {
    forall|i: int| 0 <= i < operands(ts[t]).len() ==> is_leaf(ts, #[trigger] operands(ts[t])[i] as int)
}

/// The memo stays right as the table grows.
proof fn lemma_memo_grow(ts: Seq<BvNode>, new: Seq<BvNode>, m: Map<usize, usize>)
    requires
        memo_ok(ts, m),
        well_typed(ts),
        well_typed(new),
        table_grows(ts, new),
        no_new_vars(ts, new),
    ensures
        memo_ok(new, m),
{
    assert forall|k: usize| #[trigger] m.contains_key(k) implies (k as int) < new.len() && rewrites_to(new, new, k as int, m[k] as int)
        && (is_leaf(new, k as int) ==> m[k] == k) && is_normal(new, m[k] as int)
        && (is_normal(new, k as int) ==> m[k] == k) by {
        let i = k as int;
        let r = m[k] as int;
        assert(new[i] == ts[i]);
        lemma_normal_grow(ts, new, i);
        lemma_normal_grow(ts, new, r);
        assert(rewrites_to(ts, ts, i, r));
        lemma_rewrites_grow(ts, ts, new, i, r);
        lemma_grow(ts, new, i);
        lemma_cost_grow(ts, new, i);
        assert forall|env: spec_fn(int) -> Seq<bool>| env_fits(new, env) implies #[trigger] eval(new, env, r) == eval(new, env, i) by {
            lemma_fits_grow(ts, new, env);
        }
    }
}

/// A rebuilt term has its source's operation over the new operands.
proof fn lemma_node_cost_rebuild(ts: Seq<BvNode>, u: int, src: BvNode, na: usize, nb: usize)
    requires
        0 <= u < ts.len(),
        operands_of(src).len() > 0,
        ts[u] == with_operands(src, na, nb),
    ensures
        operands(ts[u]) == (if operands_of(src).len() == 2 { seq![na, nb] } else { seq![na] }),
        forall|ts2: Seq<BvNode>, t: int| 0 <= t < ts2.len() && ts2[t] == src && width(ts2, t) == width(ts, u)
            ==> #[trigger] node_cost(ts2, t) == node_cost(ts, u),
{
    assert(operands(ts[u]) =~= (if operands_of(src).len() == 2 { seq![na, nb] } else { seq![na] }));
}

/// Rebuilding term `t` of `old` over the simplified operands, appended
/// to `cur`, gives a term that stands for `t`.
proof fn lemma_rebuild_stands(old: Seq<BvNode>, cur: Seq<BvNode>, t: int, n: BvNode, na: usize, nb: usize)
    requires
        well_typed(old),
        rewrites_to(old, cur, t, t),
        0 <= t < old.len(),
        operands_of(old[t]).len() > 0,
        n == with_operands(old[t], na, nb),
        rewrites_to(old, cur, operands_of(old[t])[0] as int, na as int),
        operands_of(old[t]).len() == 2 ==> rewrites_to(old, cur, operands_of(old[t])[1] as int, nb as int),
    ensures
        node_ok(cur.push(n), cur.len() as int),
        1 <= width(cur.push(n), cur.len() as int) <= MAX_WIDTH,
        rewrites_to(old, cur.push(n), t, cur.len() as int),
{
    let nxt = cur.push(n);
    let u = cur.len() as int;
    let a = operands_of(old[t])[0];
    let two = operands_of(old[t]).len() == 2;
    assert(table_grows(cur, nxt));
    lemma_typed(old, t);
    lemma_grow(old, cur, t);
    lemma_grow(cur, nxt, t);
    lemma_grow(cur, nxt, na as int);
    lemma_grow(old, cur, a as int);
    lemma_grow(cur, nxt, a as int);
    assert(no_new_vars(cur, nxt));
    assert forall|env: spec_fn(int) -> Seq<bool>| env_fits(nxt, env) implies #[trigger] eval(nxt, env, na as int) == eval(nxt, env, a as int) by {
        lemma_fits_grow(cur, nxt, env);
        lemma_fits_grow(old, cur, env);
        assert(eval(cur, env, na as int) == eval(old, env, a as int));
    }
    if two {
        let b = operands_of(old[t])[1];
        lemma_grow(cur, nxt, nb as int);
        lemma_grow(old, cur, b as int);
        lemma_grow(cur, nxt, b as int);
        assert forall|env: spec_fn(int) -> Seq<bool>| env_fits(nxt, env) implies #[trigger] eval(nxt, env, nb as int) == eval(nxt, env, b as int) by {
            lemma_fits_grow(cur, nxt, env);
            lemma_fits_grow(old, cur, env);
            assert(eval(cur, env, nb as int) == eval(old, env, b as int));
        }
    }
    lemma_rebuild(nxt, t, u, na, nb);
    lemma_push_typed(cur, n);
    lemma_cost_grow(old, cur, t);
    lemma_cost_grow(cur, nxt, t);
    lemma_cost_grow(cur, nxt, na as int);
    if two {
        lemma_cost_grow(cur, nxt, nb as int);
    }
    lemma_node_cost_rebuild(nxt, u, old[t], na, nb);
    assert(node_cost(nxt, u) == node_cost(old, t));
    assert(operands(nxt[u]) == (if two { seq![na, nb] } else { seq![na] }));
    assert(cost(nxt, u) <= cost(old, t));
    lemma_grows_trans(old, cur, nxt);
    assert forall|i: int| old.len() <= i < nxt.len() implies !(#[trigger] nxt[i] is Var) by {
        if i < cur.len() {
            assert(nxt[i] == cur[i]);
        }
    }
    assert forall|env: spec_fn(int) -> Seq<bool>| env_fits(old, env) implies #[trigger] eval(nxt, env, u) == eval(old, env, t) by {
        lemma_fits_grow(old, cur, env);
        lemma_fits_grow(cur, nxt, env);
        assert(eval(nxt, env, u) == eval(nxt, env, t));
    }
}


/// Term `t` is in normal form: no rule applies to it and its operands are
/// in normal form.
pub open spec fn is_normal(ts: Seq<BvNode>, t: int) -> bool
    decreases t,
{
    if t < 0 || t >= ts.len() {
        false
    } else {
        let ops = operands(ts[t]);
        &&& rule_step(ts, t) is Keep
        &&& (ops.len() >= 1 ==> ops[0] < t && is_normal(ts, ops[0] as int))
        &&& (ops.len() >= 2 ==> ops[1] < t && is_normal(ts, ops[1] as int))
    }
}

/// Every operand of term `t` is in normal form.
pub open spec fn operands_normal(ts: Seq<BvNode>, t: int) -> bool {
    forall|i: int| 0 <= i < operands(ts[t]).len() ==> is_normal(ts, #[trigger] operands(ts[t])[i] as int)
}

/// The rule that applies to a term does not change as the table grows.
proof fn lemma_rule_step_grow(old: Seq<BvNode>, new: Seq<BvNode>, t: int)
    requires
        well_typed(old),
        table_grows(old, new),
        0 <= t < old.len(),
    ensures
        rule_step(new, t) == rule_step(old, t),
{
    lemma_typed(old, t);
    assert(new[t] == old[t]);
    match old[t] {
        BvNode::Not(a) | BvNode::Neg(a) => {
            assert(new[a as int] == old[a as int]);
        },
        BvNode::Add(a, b) | BvNode::Mul(a, b) | BvNode::Sub(a, b) | BvNode::And(a, b) | BvNode::Or(a, b) | BvNode::Xor(a, b)
        | BvNode::Shl(a, b) => {
            assert(new[a as int] == old[a as int]);
            assert(new[b as int] == old[b as int]);
        },
        BvNode::Extract(x, _, _) => {
            assert(new[x as int] == old[x as int]);
            lemma_typed(old, x as int);
            match old[x as int] {
                BvNode::Extract(y, _, _) => {
                    lemma_grow(old, new, y as int);
                },
                BvNode::Concat(h, low) => {
                    lemma_grow(old, new, low as int);
                },
                _ => {},
            }
        },
        _ => {},
    }
}

/// Normal form does not change as the table grows.
proof fn lemma_normal_grow(old: Seq<BvNode>, new: Seq<BvNode>, t: int)
    requires
        well_typed(old),
        table_grows(old, new),
        0 <= t < old.len(),
    ensures
        is_normal(new, t) == is_normal(old, t),
    decreases t,
{
    lemma_rule_step_grow(old, new, t);
    assert(new[t] == old[t]);
    let ops = operands(old[t]);
    if ops.len() >= 1 && ops[0] < t {
        lemma_normal_grow(old, new, ops[0] as int);
    }
    if ops.len() >= 2 && ops[1] < t {
        lemma_normal_grow(old, new, ops[1] as int);
    }
}

/// A term whose operands are in normal form and to which no rule applies
/// is in normal form.
proof fn lemma_normal_intro(ts: Seq<BvNode>, t: int)
    requires
        well_typed(ts),
        0 <= t < ts.len(),
        operands_normal(ts, t),
        rule_step(ts, t) is Keep,
    ensures
        is_normal(ts, t),
{
    lemma_typed(ts, t);
    let ops = operands(ts[t]);
    if ops.len() >= 1 {
        assert(is_normal(ts, ops[0] as int));
    }
    if ops.len() >= 2 {
        assert(is_normal(ts, ops[1] as int));
    }
}

/// The index of the term an `extract` reads, or 0.
pub open spec fn extract_arg(ts: Seq<BvNode>, t: int) -> int {
    match ts[t] {
        BvNode::Extract(a, _, _) => a as int,
        _ => 0,
    }
}

/// After a rule other than the `extract` rules, the result is in normal
/// form.
proof fn lemma_step_normal(old: Seq<BvNode>, new: Seq<BvNode>, t: int, r: int)
    requires
        well_typed(old),
        well_typed(new),
        0 <= t < old.len(),
        operands_normal(old, t),
        step_taken(old, new, t, r),
        !(rule_step(old, t) is Extract),
    ensures
        is_normal(new, r),
{
    lemma_typed(old, t);
    match rule_step(old, t) {
        RuleStep::Keep => {
            lemma_normal_intro(old, t);
        },
        RuleStep::Operand(o) => {
            match old[t] {
                BvNode::Add(a, b) | BvNode::Mul(a, b) | BvNode::Sub(a, b) | BvNode::And(a, b) | BvNode::Or(a, b) | BvNode::Xor(a, b)
                | BvNode::Shl(a, b) => {
                    assert(operands(old[t])[0] == a);
                    assert(operands(old[t])[1] == b);
                    assert(is_normal(old, a as int));
                    assert(is_normal(old, b as int));
                },
                _ => {},
            }
        },
        RuleStep::Constant => {
            assert(rule_step(new, r) is Keep);
            assert(operands(new[r]).len() == 0);
        },
        RuleStep::Extract(_, _, _) => {},
    }
}

/// An `extract` rule gives an `extract` of a term in normal form that lies
/// deeper than the term the old `extract` read.
proof fn lemma_extract_step(ts: Seq<BvNode>, t: int)
    requires
        well_typed(ts),
        0 <= t < ts.len(),
        operands_normal(ts, t),
        rule_step(ts, t) is Extract,
    ensures
        ts[t] is Extract,
        0 <= rule_step(ts, t)->Extract_0 < extract_arg(ts, t),
        is_normal(ts, rule_step(ts, t)->Extract_0 as int),
{
    lemma_typed(ts, t);
    match ts[t] {
        BvNode::Extract(x, _, _) => {
            assert(operands(ts[t])[0] == x);
            assert(is_normal(ts, x as int));
            lemma_typed(ts, x as int);
            match ts[x as int] {
                BvNode::Extract(y, _, _) => {
                    assert(operands(ts[x as int])[0] == y);
                },
                BvNode::Concat(h, low) => {
                    assert(operands(ts[x as int])[0] == h);
                    assert(operands(ts[x as int])[1] == low);
                },
                _ => {},
            }
        },
        _ => {},
    }
}

/// Apply the rules at term `t`, whose operands are in normal form, until
/// none applies; the result is in normal form. Only the `extract` rules
/// can leave a term that another rule applies to, and each of them reads
/// a deeper term.
fn normalize_at(ctx: &mut crate::bv::blast::word::BvTerms, t: usize) -> (r: usize)
    requires
        well_typed(old(ctx).nodes@),
        t < old(ctx).nodes@.len(),
        operands_normal(old(ctx).nodes@, t as int),
    ensures
        rewrites_to(old(ctx).nodes@, final(ctx).nodes@, t as int, r as int),
        is_normal(final(ctx).nodes@, r as int),
        rule_step(old(ctx).nodes@, t as int) is Keep ==> r == t && final(ctx).nodes@ == old(ctx).nodes@,
        operands_are_leaves(old(ctx).nodes@, t as int) ==> step_taken(old(ctx).nodes@, final(ctx).nodes@, t as int, r as int),
{
    let ghost ts0 = ctx.nodes@;
    let n0 = ctx.nodes.len();
    let r1 = apply_rules(ctx, t);
    let fresh_extract = r1 >= n0 && matches!(ctx.nodes[r1], BvNode::Extract(_, _, _));
    if !fresh_extract {
        proof {
            lemma_typed(ts0, t as int);
            if rule_step(ts0, t as int) is Extract {
                assert(ctx.nodes@ == ts0.push(BvNode::Extract(rule_step(ts0, t as int)->Extract_0,
                    rule_step(ts0, t as int)->Extract_1, rule_step(ts0, t as int)->Extract_2)));
                assert(false);
            }
            lemma_step_normal(ts0, ctx.nodes@, t as int, r1 as int);
        }
        return r1;
    }
    proof {
        lemma_typed(ts0, t as int);
        if !(rule_step(ts0, t as int) is Extract) {
            match rule_step(ts0, t as int) {
                RuleStep::Keep => {},
                RuleStep::Operand(o) => {
                    match ts0[t as int] {
                        BvNode::Add(a, b) | BvNode::Mul(a, b) | BvNode::Sub(a, b) | BvNode::And(a, b) | BvNode::Or(a, b)
                        | BvNode::Xor(a, b) | BvNode::Shl(a, b) => {},
                        _ => {},
                    }
                },
                _ => {},
            }
            assert(false);
        }
        lemma_extract_step(ts0, t as int);
        let z = rule_step(ts0, t as int)->Extract_0;
        assert(operands_are_leaves(ts0, t as int) ==> false) by {
            if operands_are_leaves(ts0, t as int) {
                assert(operands(ts0[t as int])[0] == extract_arg(ts0, t as int));
                assert(is_leaf(ts0, extract_arg(ts0, t as int)));
            }
        }
        lemma_normal_grow(ts0, ctx.nodes@, z as int);
        assert(operands(ctx.nodes@[r1 as int]) =~= seq![z]);
        assert(operands_normal(ctx.nodes@, r1 as int));
    }
    let mut cur = r1;
    loop
        invariant
            ts0 == old(ctx).nodes@,
            well_typed(ts0),
            well_typed(ctx.nodes@),
            rewrites_to(ts0, ctx.nodes@, t as int, cur as int),
            cur < ctx.nodes@.len(),
            operands_normal(ctx.nodes@, cur as int),
            ctx.nodes@[cur as int] is Extract,
            !(rule_step(ts0, t as int) is Keep),
            !operands_are_leaves(ts0, t as int),
        decreases extract_arg(ctx.nodes@, cur as int),
    {
        let ghost c0 = ctx.nodes@;
        let m = ctx.nodes.len();
        let r2 = apply_rules(ctx, cur);
        proof { lemma_rewrites_trans(ts0, c0, ctx.nodes@, t as int, cur as int, r2 as int); }
        let again = r2 >= m && matches!(ctx.nodes[r2], BvNode::Extract(_, _, _));
        if !again {
            proof {
                lemma_typed(c0, cur as int);
                if rule_step(c0, cur as int) is Extract {
                    assert(ctx.nodes@ == c0.push(BvNode::Extract(rule_step(c0, cur as int)->Extract_0,
                        rule_step(c0, cur as int)->Extract_1, rule_step(c0, cur as int)->Extract_2)));
                    assert(false);
                }
                lemma_step_normal(c0, ctx.nodes@, cur as int, r2 as int);
            }
            return r2;
        }
        proof {
            lemma_typed(c0, cur as int);
            if !(rule_step(c0, cur as int) is Extract) {
                match rule_step(c0, cur as int) {
                    RuleStep::Operand(o) => {
                        match c0[cur as int] {
                            BvNode::Add(a, b) | BvNode::Mul(a, b) | BvNode::Sub(a, b) | BvNode::And(a, b) | BvNode::Or(a, b)
                            | BvNode::Xor(a, b) | BvNode::Shl(a, b) => {},
                            _ => {},
                        }
                    },
                    _ => {},
                }
                assert(false);
            }
            lemma_extract_step(c0, cur as int);
            let z = rule_step(c0, cur as int)->Extract_0;
            lemma_normal_grow(c0, ctx.nodes@, z as int);
            assert(operands(ctx.nodes@[r2 as int]) =~= seq![z]);
            assert(operands_normal(ctx.nodes@, r2 as int));
            assert(c0[cur as int] == ctx.nodes@[cur as int]);
            assert(extract_arg(ctx.nodes@, r2 as int) == z);
        }
        cur = r2;
    }
}

/// Simplify term `t` bottom-up, remembering each result in `memo`.
#[verifier::rlimit(60)]
#[verifier::spinoff_prover]
fn rewrite_inner(ctx: &mut crate::bv::blast::word::BvTerms, t: usize, memo: &mut Memo) -> (r: usize)
    requires
        well_typed(old(ctx).nodes@),
        t < old(ctx).nodes@.len(),
        memo_ok(old(ctx).nodes@, old(memo)@),
    ensures
        rewrites_to(old(ctx).nodes@, final(ctx).nodes@, t as int, r as int),
        memo_ok(final(ctx).nodes@, final(memo)@),
        is_leaf(old(ctx).nodes@, t as int) ==> r == t && final(ctx).nodes@ == old(ctx).nodes@,
        operands_are_leaves(old(ctx).nodes@, t as int) && !old(memo)@.contains_key(t)
            ==> step_taken(old(ctx).nodes@, final(ctx).nodes@, t as int, r as int),
        is_normal(final(ctx).nodes@, r as int),
        is_normal(old(ctx).nodes@, t as int) ==> r == t && final(ctx).nodes@ == old(ctx).nodes@,
    decreases t,
{
    let ghost ts0 = ctx.nodes@;
    if let Some(c) = fx_map_get(memo, t) {
        return c;
    }
    proof { lemma_typed(ts0, t as int); }
    let ops = operand_list(ctx, t);
    let result;
    if ops.len() == 0 {
        proof {
            lemma_rewrites_refl(ts0, t as int);
            assert(operands(ts0[t as int]) =~= ops@);
            assert(rule_step(ts0, t as int) is Keep);
            assert(is_normal(ts0, t as int));
        }
        result = t;
    } else {
        let a = ops[0];
        let na = rewrite_inner(ctx, a, memo);
        let ghost ts1 = ctx.nodes@;
        let mut b: usize = 0;
        let mut nb: usize = 0;
        if ops.len() == 2 {
            b = ops[1];
            nb = rewrite_inner(ctx, b, memo);
            proof {
                lemma_rewrites_grow(ts0, ts1, ctx.nodes@, a as int, na as int);
                lemma_rewrites_self_grow(ts0, ts1, b as int);
                lemma_rewrites_trans(ts0, ts1, ctx.nodes@, b as int, b as int, nb as int);
            }
        }
        let ghost cur = ctx.nodes@;
        let rebuilt = if na != a || (ops.len() == 2 && nb != b) {
            let n = rebuild(&ctx.nodes[t], na, nb);
            proof {
                lemma_rewrites_self_grow(ts0, cur, t as int);
                lemma_rebuild_stands(ts0, cur, t as int, n, na, nb);
            }
            push_node(ctx, n)
        } else {
            proof {
                lemma_rewrites_self_grow(ts0, cur, t as int);
            }
            t
        };
        let ghost mid = ctx.nodes@;
        proof {
            assert(operands(ts0[t as int]) =~= ops@);
            // the simplified operands are in normal form in the grown table
            if ops.len() == 2 {
                lemma_normal_grow(ts1, cur, na as int);
            }
            assert(table_grows(cur, mid));
            lemma_normal_grow(cur, mid, na as int);
            if ops.len() == 2 {
                lemma_normal_grow(cur, mid, nb as int);
            }
            if rebuilt == t {
                assert(operands(mid[t as int]) =~= ops@);
            } else {
                lemma_node_cost_rebuild(mid, rebuilt as int, ts0[t as int], na, nb);
            }
            assert(operands_normal(mid, rebuilt as int));
            if is_normal(ts0, t as int) {
                assert(na == a && ts1 == ts0);
                if ops.len() == 2 {
                    lemma_normal_grow(ts0, ts1, b as int);
                }
                assert(rebuilt == t && mid == ts0);
            }
        }
        let out = normalize_at(ctx, rebuilt);
        proof {
            lemma_rewrites_trans(ts0, mid, ctx.nodes@, t as int, rebuilt as int, out as int);
            assert(table_grows(cur, mid));
            lemma_grows_trans(cur, mid, ctx.nodes@);
            lemma_memo_grow(cur, ctx.nodes@, memo@);
        }
        result = out;
    }
    let ghost before = memo@;
    fx_map_insert(memo, t, result);
    proof {
        let fin = ctx.nodes@;
        lemma_grow(ts0, fin, t as int);
        lemma_cost_grow(ts0, fin, t as int);
        assert forall|env: spec_fn(int) -> Seq<bool>| env_fits(fin, env) implies #[trigger] eval(fin, env, result as int) == eval(fin, env, t as int) by {
            lemma_fits_grow(ts0, fin, env);
        }
        assert(rewrites_to(fin, fin, t as int, result as int));
        lemma_normal_grow(ts0, fin, t as int);
        assert forall|k: usize| #[trigger] memo@.contains_key(k) implies (k as int) < fin.len() && rewrites_to(fin, fin, k as int, memo@[k] as int)
            && (is_leaf(fin, k as int) ==> memo@[k] == k) && is_normal(fin, memo@[k] as int)
            && (is_normal(fin, k as int) ==> memo@[k] == k) by {
            if k != t {
                assert(before.contains_key(k));
                assert(memo@[k] == before[k]);
            }
        }
    }
    result
}

/// Simplify term `t` bottom-up: constant folding, identities such as
/// `x + 0 = x` and `x - x = 0`, and `extract` over `extract` or `concat`.
/// The result has `t`'s width and meaning under every value of the
/// variables, and costs no more to blast; the table only grows, and by no
/// variable. The result is in normal form: no rule applies to it or to any
/// term under it; a term already in normal form is its own result, so
/// simplifying twice gives what simplifying once gave. A constant or a
/// variable is its own result; a term over constants and variables is what
/// the rule that applies to it gives.
pub fn rewrite(ctx: &mut crate::bv::blast::word::BvTerms, t: usize) -> (r: usize)
    requires
        well_typed(old(ctx).nodes@),
        t < old(ctx).nodes@.len(),
    ensures
        well_typed(final(ctx).nodes@),
        table_grows(old(ctx).nodes@, final(ctx).nodes@),
        no_new_vars(old(ctx).nodes@, final(ctx).nodes@),
        r < final(ctx).nodes@.len(),
        width(final(ctx).nodes@, r as int) == width(old(ctx).nodes@, t as int),
        cost(final(ctx).nodes@, r as int) <= cost(old(ctx).nodes@, t as int),
        forall|env: spec_fn(int) -> Seq<bool>|
            env_fits(old(ctx).nodes@, env) ==> #[trigger] eval(final(ctx).nodes@, env, r as int) == eval(old(ctx).nodes@, env, t as int),
        is_leaf(old(ctx).nodes@, t as int) ==> r == t && final(ctx).nodes@ == old(ctx).nodes@,
        operands_are_leaves(old(ctx).nodes@, t as int) ==> step_taken(old(ctx).nodes@, final(ctx).nodes@, t as int, r as int),
        is_normal(final(ctx).nodes@, r as int),
        is_normal(old(ctx).nodes@, t as int) ==> r == t && final(ctx).nodes@ == old(ctx).nodes@,
{
    let mut memo = fx_map_new();
    rewrite_inner(ctx, t, &mut memo)
}


/// Simplifying the result of simplifying gives it back, and adds nothing
/// to the table. The premises are what `rewrite` ensures of the two calls:
/// the first result is in normal form, and a term in normal form is its
/// own result.
pub proof fn lemma_rewrite_idempotent(mid: Seq<BvNode>, r1: int, fin: Seq<BvNode>, r2: int)
    requires
        is_normal(mid, r1),
        is_normal(mid, r1) ==> r2 == r1 && fin == mid,
    ensures
        r2 == r1,
        fin == mid,
{
}

} // verus!
