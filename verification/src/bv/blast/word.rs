//! Blasting whole terms: each term of a table becomes a word of literals,
//! made once and remembered, so a variable keeps its bits wherever it is
//! used.
use crate::bv::blast::arith::{bvadd, bvmul, bvneg, bvsub};
use crate::bv::blast::bitwise::{bvand, bvnand, bvnor, bvnot, bvor, bvxnor, bvxor};
use crate::bv::blast::compare;
use crate::bv::blast::div::{
    abs_val, bvsdiv, bvsmod, bvsrem, bvudiv, bvurem, div_gates, neg_val, sdiv_gates, sdiv_val, smod_val, srem_val,
    udiv_val, urem_val,
};
use crate::bv::blast::shift::{bvashr, bvlshr, bvshl, rotate_left, rotate_right, shift_budget, shl_bit, shr_bit};
use crate::bv::blast::structural;
use crate::bv::blast::structural::{extract, repeat_seq, sign_extend, zero_extend};
use crate::bv::blast::{extends, lemma_extends_refl, lemma_extends_trans, true_lit, BitLit, Blaster, Cnf};
use crate::bv::rewrite::env_fits;
use crate::bv::semantics::{agree_below, lit_holds, lits_below, word_bits, word_sval, word_val, Assignment};
use crate::bv::terms::{
    abs_bits, bits_val, eval, eval_atom, lemma_bits_val_word, lemma_word_bits_nat, nat_bits, node_ok, repeat_bits,
    lemma_typed, sdiv_bits, smod_bits, srem_bits, sval_bits, well_typed, width, BvAtom, BvNode, MAX_WIDTH,
};
use vstd::arithmetic::power2::pow2;
use vstd::prelude::*;

verus! {

/// A table of bit-vector terms; a term's operands precede it.
pub struct BvTerms {
    pub nodes: Vec<BvNode>,
}

impl BvTerms {
    /// An empty table.
    pub fn new() -> (r: BvTerms)
        ensures
            r.nodes@.len() == 0,
    {
        BvTerms { nodes: Vec::new() }
    }

    /// Append a term and return its index.
    pub fn push(&mut self, n: BvNode) -> (t: usize)
        ensures
            final(self).nodes@ == old(self).nodes@.push(n),
            t == old(self).nodes@.len(),
    {
        let t = self.nodes.len();
        self.nodes.push(n);
        t
    }
}

/// The operands of a term.
pub open spec fn operands(n: BvNode) -> Seq<usize> {
    match n {
        BvNode::Const(_) | BvNode::Var(_) => Seq::empty(),
        BvNode::Not(a) | BvNode::Neg(a) | BvNode::Extract(a, _, _) | BvNode::ZeroExtend(a, _)
        | BvNode::SignExtend(a, _) | BvNode::RotateLeft(a, _) | BvNode::RotateRight(a, _)
        | BvNode::Repeat(a, _) => seq![a],
        BvNode::And(a, b) | BvNode::Or(a, b) | BvNode::Xor(a, b) | BvNode::Nand(a, b) | BvNode::Nor(a, b)
        | BvNode::Xnor(a, b) | BvNode::Add(a, b) | BvNode::Mul(a, b) | BvNode::Sub(a, b) | BvNode::Udiv(a, b) | BvNode::Urem(a, b)
        | BvNode::Sdiv(a, b) | BvNode::Srem(a, b) | BvNode::Smod(a, b) | BvNode::Shl(a, b) | BvNode::Lshr(a, b)
        | BvNode::Ashr(a, b) | BvNode::Concat(a, b) => seq![a, b],
    }
}

/// The variables blasting term `t` itself may add, its operands aside.
pub open spec fn node_cost(ts: Seq<BvNode>, t: int) -> nat {
    let n = width(ts, t);
    match ts[t] {
        BvNode::Var(w) => w as nat,
        BvNode::And(_, _) | BvNode::Or(_, _) | BvNode::Xor(_, _) | BvNode::Nand(_, _) | BvNode::Nor(_, _)
        | BvNode::Xnor(_, _) => n,
        BvNode::Neg(_) | BvNode::Add(_, _) | BvNode::Sub(_, _) => 5 * n,
        BvNode::Mul(_, _) => 6 * n * n,
        BvNode::Udiv(_, _) | BvNode::Urem(_, _) => div_gates(n),
        BvNode::Sdiv(_, _) | BvNode::Srem(_, _) | BvNode::Smod(_, _) => sdiv_gates(n),
        BvNode::Shl(_, _) | BvNode::Lshr(_, _) | BvNode::Ashr(_, _) => shift_budget(n),
        _ => 0,
    }
}

/// A bound on the variables blasting term `t` adds, counting each operand
/// as if it were blasted anew.
pub open spec fn cost(ts: Seq<BvNode>, t: int) -> nat
    decreases t,
{
    if t < 0 || t >= ts.len() {
        0
    } else {
        let ops = operands(ts[t]);
        node_cost(ts, t)
            + (if ops.len() >= 1 && ops[0] < t { cost(ts, ops[0] as int) } else { 0 })
            + (if ops.len() >= 2 && ops[1] < t { cost(ts, ops[1] as int) } else { 0 })
    }
}

/// The variables blasting a predicate may add, its operands aside.
pub open spec fn atom_cost(ts: Seq<BvNode>, p: BvAtom) -> nat {
    match p {
        BvAtom::Eq(a, b) | BvAtom::Distinct(a, b) | BvAtom::Ult(a, b) | BvAtom::Ule(a, b) | BvAtom::Ugt(a, b)
        | BvAtom::Uge(a, b) | BvAtom::Slt(a, b) | BvAtom::Sle(a, b) | BvAtom::Sgt(a, b) | BvAtom::Sge(a, b) =>
            5 * width(ts, a as int) + 4 + cost(ts, a as int) + cost(ts, b as int),
    }
}

/// The operands of a predicate.
pub open spec fn atom_operands(p: BvAtom) -> (usize, usize) {
    match p {
        BvAtom::Eq(a, b) | BvAtom::Distinct(a, b) | BvAtom::Ult(a, b) | BvAtom::Ule(a, b) | BvAtom::Ugt(a, b)
        | BvAtom::Uge(a, b) | BvAtom::Slt(a, b) | BvAtom::Sle(a, b) | BvAtom::Sgt(a, b) | BvAtom::Sge(a, b) => (a, b),
    }
}

/// A predicate over two terms of the table with equal widths.
pub open spec fn atom_ok(ts: Seq<BvNode>, p: BvAtom) -> bool {
    let (a, b) = atom_operands(p);
    a < ts.len() && b < ts.len() && width(ts, a as int) == width(ts, b as int)
}

/// Term `t` has a remembered word.
pub open spec fn cached(c: Seq<Option<Vec<BitLit>>>, t: int) -> bool {
    0 <= t < c.len() && c[t] is Some
}

/// The word remembered for term `t`.
pub open spec fn cached_bits(c: Seq<Option<Vec<BitLit>>>, t: int) -> Seq<BitLit> {
    match c[t] {
        Some(w) => w@,
        None => Seq::empty(),
    }
}

/// Every operand of term `t` has a remembered word.
pub open spec fn operands_cached(ts: Seq<BvNode>, c: Seq<Option<Vec<BitLit>>>, t: int) -> bool {
    forall|i: int| 0 <= i < operands(ts[t]).len() ==> cached(c, #[trigger] operands(ts[t])[i] as int)
}

/// The values of the variables under `m`: the bits of their remembered
/// words.
pub open spec fn env_of(c: Seq<Option<Vec<BitLit>>>, m: Assignment) -> spec_fn(int) -> Seq<bool> {
    |v: int| if cached(c, v) { word_bits(m, cached_bits(c, v)) } else { Seq::empty() }
}

/// `env` gives each variable of `ts` that has a remembered word the value
/// the word's bits have in `m`.
pub open spec fn vars_agree(ts: Seq<BvNode>, c: Seq<Option<Vec<BitLit>>>, m: Assignment, env: spec_fn(int) -> Seq<bool>) -> bool {
    forall|v: int| 0 <= v < ts.len() && ts[v] is Var && #[trigger] cached(c, v) ==> env(v) == word_bits(m, cached_bits(c, v))
}

/// Every value of the variables that fits their widths is the value of
/// their remembered words in some model: the clauses leave the variables
/// free.
pub open spec fn realizable(b: Blaster, c: Seq<Option<Vec<BitLit>>>, ts: Seq<BvNode>) -> bool {
    forall|env: spec_fn(int) -> Seq<bool>| #[trigger] env_fits(ts, env) ==>
        exists|m: Assignment| b.models(m) && #[trigger] vars_agree(ts, c, m, env)
}

/// The word of a constant: the always-true literal for a set bit, its
/// negation for a clear one.
pub open spec fn const_word(bits: Seq<bool>) -> Seq<BitLit> {
    Seq::new(bits.len(), |i: int| if bits[i] { true_lit() } else { true_lit().negate_spec() })
}

/// A word of fresh variables: `b1` is `b0` with the word's variables added
/// and no clause.
pub open spec fn fresh_word(b0: Blaster, b1: Blaster, w: Seq<BitLit>) -> bool {
    &&& b1.cnf() == b0.cnf()
    &&& b1.vars() == b0.vars() + w.len()
    &&& forall|i: int| 0 <= i < w.len() ==> #[trigger] w[i] == (BitLit { var: (b0.vars() + i) as u32, pos: true })
}

/// For a term that only moves bits about (`concat`, `extract`, the
/// extensions, the rotations, `repeat`), its word built from its operands'
/// remembered words; `None` for any other term.
pub open spec fn rearranged_word(ts: Seq<BvNode>, c: Seq<Option<Vec<BitLit>>>, t: int) -> Option<Seq<BitLit>> {
    match ts[t] {
        BvNode::Concat(h, l) => Some(cached_bits(c, l as int) + cached_bits(c, h as int)),
        BvNode::Extract(a, hi, lo) => Some(cached_bits(c, a as int).subrange(lo as int, hi as int + 1)),
        BvNode::ZeroExtend(a, k) => Some(cached_bits(c, a as int) + Seq::new(k as nat, |i: int| true_lit().negate_spec())),
        BvNode::SignExtend(a, k) => {
            let w = cached_bits(c, a as int);
            Some(w + Seq::new(k as nat, |i: int| w.last()))
        },
        BvNode::RotateLeft(a, k) => {
            let w = cached_bits(c, a as int);
            let n = w.len() as int;
            Some(Seq::new(w.len(), |i: int| w[(i + n - (k as int % n)) % n]))
        },
        BvNode::RotateRight(a, k) => {
            let w = cached_bits(c, a as int);
            let n = w.len() as int;
            Some(Seq::new(w.len(), |i: int| w[(i + (k as int % n)) % n]))
        },
        BvNode::Repeat(a, k) => Some(repeat_seq(cached_bits(c, a as int), k as nat)),
        _ => None,
    }
}

/// Every operand of term `t` is a constant or has a remembered word.
pub open spec fn operands_ready(ts: Seq<BvNode>, c: Seq<Option<Vec<BitLit>>>, t: int) -> bool {
    forall|i: int| 0 <= i < operands(ts[t]).len() ==>
        ts[#[trigger] operands(ts[t])[i] as int] is Const || cached(c, operands(ts[t])[i] as int)
}

/// Two assignments that agree below `n` give a word below `n` the same bits.
pub proof fn lemma_word_bits_agree(m1: Assignment, m2: Assignment, w: Seq<BitLit>, n: nat)
    requires
        lits_below(w, n),
        agree_below(m1, m2, n),
    ensures
        word_bits(m1, w) == word_bits(m2, w),
{
    assert forall|i: int| 0 <= i < w.len() implies #[trigger] word_bits(m1, w)[i] == word_bits(m2, w)[i] by {
        assert(w[i].var < n);
        assert(m1(w[i].var) == m2(w[i].var));
    }
    assert(word_bits(m1, w) =~= word_bits(m2, w));
}

/// The remembered words fit the blaster and the table, the operands of a
/// remembered term are remembered too, in every model each remembered
/// word carries its term's meaning, and the variables are left free.
pub open spec fn cache_ok(b: Blaster, c: Seq<Option<Vec<BitLit>>>, ts: Seq<BvNode>) -> bool {
    &&& b.wf()
    &&& forall|t: int| #[trigger] cached(c, t) ==> {
        &&& t < ts.len()
        &&& lits_below(cached_bits(c, t), b.vars())
        &&& cached_bits(c, t).len() == width(ts, t)
        &&& operands_cached(ts, c, t)
        &&& (ts[t] matches BvNode::Const(bits) ==> cached_bits(c, t) == const_word(bits@))
    }
    &&& forall|m: Assignment| #[trigger] b.models(m) ==> forall|t: int| #[trigger] cached(c, t) ==>
        word_bits(m, cached_bits(c, t)) == eval(ts, env_of(c, m), t)
    &&& realizable(b, c, ts)
}

/// Terms whose remembered operands are remembered read the same under two
/// variable values that agree on every remembered variable up to the term.
pub proof fn lemma_eval_agree(ts: Seq<BvNode>, c: Seq<Option<Vec<BitLit>>>, e1: spec_fn(int) -> Seq<bool>, e2: spec_fn(int) -> Seq<bool>, t: int)
    requires
        forall|v: int| #[trigger] cached(c, v) ==> v < ts.len() && operands_cached(ts, c, v),
        forall|v: int| #[trigger] cached(c, v) && ts[v] is Var && v <= t ==> e1(v) == e2(v),
        cached(c, t),
    ensures
        eval(ts, e1, t) == eval(ts, e2, t),
    decreases t,
{
    let ops = operands(ts[t]);
    if ops.len() >= 1 && ops[0] < t {
        assert(cached(c, ops[0] as int));
        lemma_eval_agree(ts, c, e1, e2, ops[0] as int);
    }
    if ops.len() >= 2 && ops[1] < t {
        assert(cached(c, ops[1] as int));
        lemma_eval_agree(ts, c, e1, e2, ops[1] as int);
    }
    if ts[t] is Var {
        assert(e1(t) == e2(t));
    }
}

/// Remembering the word of a term that is not a variable leaves the
/// variables as free as they were.
proof fn lemma_nonvar_free(b: Blaster, c: Seq<Option<Vec<BitLit>>>, ts: Seq<BvNode>, t: int, r: Vec<BitLit>)
    requires
        realizable(b, c, ts),
        0 <= t < c.len(),
        t < ts.len(),
        !(ts[t] is Var),
    ensures
        realizable(b, c.update(t, Some(r)), ts),
{
    let c2 = c.update(t, Some(r));
    assert forall|env: spec_fn(int) -> Seq<bool>| #[trigger] env_fits(ts, env) implies
        exists|m: Assignment| b.models(m) && #[trigger] vars_agree(ts, c2, m, env) by {
        let m = choose|m: Assignment| b.models(m) && #[trigger] vars_agree(ts, c, m, env);
        assert forall|v: int| 0 <= v < ts.len() && ts[v] is Var && #[trigger] cached(c2, v) implies
            env(v) == word_bits(m, cached_bits(c2, v)) by {
            assert(v != t);
            assert(c2[v] == c[v]);
            assert(cached(c, v));
        }
        assert(vars_agree(ts, c2, m, env));
    }
}

/// A variable's word of fresh variables can take any value of the
/// variable's width: the clauses do not speak of them.
proof fn lemma_var_free(b0: Blaster, b1: Blaster, c: Seq<Option<Vec<BitLit>>>, ts: Seq<BvNode>, t: int, r: Vec<BitLit>)
    requires
        cache_ok(b0, c, ts),
        fresh_word(b0, b1, r@),
        0 <= t < c.len(),
        t < ts.len(),
        ts[t] is Var,
        r@.len() == width(ts, t),
    ensures
        realizable(b1, c.update(t, Some(r)), ts),
{
    let c2 = c.update(t, Some(r));
    let base = b0.vars();
    b0.lemma_wf();
    assert forall|env: spec_fn(int) -> Seq<bool>| #[trigger] env_fits(ts, env) implies
        exists|m: Assignment| b1.models(m) && #[trigger] vars_agree(ts, c2, m, env) by {
        let m0 = choose|m: Assignment| b0.models(m) && #[trigger] vars_agree(ts, c, m, env);
        let e = env(t);
        let m1: Assignment = |x: u32| if base <= x && x < base + r@.len() { e[x - base] } else { m0(x) };
        assert(agree_below(m0, m1, base));
        crate::bv::semantics::lemma_cnf_agree(m0, m1, b0.cnf(), base);
        assert(b1.models(m1));
        assert(e.len() == r@.len());
        assert forall|v: int| 0 <= v < ts.len() && ts[v] is Var && #[trigger] cached(c2, v) implies
            env(v) == word_bits(m1, cached_bits(c2, v)) by {
            if v == t {
                assert forall|i: int| 0 <= i < e.len() implies #[trigger] word_bits(m1, r@)[i] == e[i] by {
                    assert(r@[i] == (BitLit { var: (base + i) as u32, pos: true }));
                }
                assert(word_bits(m1, r@) =~= e);
            } else {
                assert(c2[v] == c[v]);
                assert(cached(c, v));
                lemma_word_bits_agree(m0, m1, cached_bits(c, v), base);
            }
        }
        assert(vars_agree(ts, c2, m1, env));
    }
}

/// A remembered term keeps its meaning once a word is put in the place of
/// term `t`, when `t` comes after it or had no word.
proof fn lemma_operand(ts: Seq<BvNode>, b: Blaster, c: Seq<Option<Vec<BitLit>>>, t: int, r: Vec<BitLit>, a: int, m: Assignment)
    requires
        cache_ok(b, c, ts),
        0 <= t < c.len(),
        a < t || !cached(c, t),
        cached(c, a),
        b.models(m),
    ensures
        word_bits(m, cached_bits(c, a)) == eval(ts, env_of(c.update(t, Some(r)), m), a),
{
    let c2 = c.update(t, Some(r));
    assert forall|v: int| #[trigger] cached(c, v) && ts[v] is Var && v <= a implies env_of(c, m)(v) == env_of(c2, m)(v) by {
        assert(v != t);
        assert(c2[v] == c[v]);
    }
    lemma_eval_agree(ts, c, env_of(c, m), env_of(c2, m), a);
}

/// Remembering the word of a new term `t`, whose operands are remembered
/// and whose word carries its meaning, keeps the cache sound.
proof fn lemma_remember(ts: Seq<BvNode>, b: Blaster, c: Seq<Option<Vec<BitLit>>>, t: int, r: Vec<BitLit>)
    requires
        cache_ok(b, c, ts),
        0 <= t < c.len(),
        t < ts.len(),
        !cached(c, t),
        operands_cached(ts, c, t),
        lits_below(r@, b.vars()),
        r@.len() == width(ts, t),
        forall|m: Assignment| #[trigger] b.models(m) ==> word_bits(m, r@) == eval(ts, env_of(c.update(t, Some(r)), m), t),
        realizable(b, c.update(t, Some(r)), ts),
        ts[t] matches BvNode::Const(bits) ==> r@ == const_word(bits@),
    ensures
        cache_ok(b, c.update(t, Some(r)), ts),
{
    let c2 = c.update(t, Some(r));
    assert forall|v: int| #[trigger] cached(c2, v) implies {
        &&& v < ts.len()
        &&& lits_below(cached_bits(c2, v), b.vars())
        &&& cached_bits(c2, v).len() == width(ts, v)
        &&& operands_cached(ts, c2, v)
        &&& (ts[v] matches BvNode::Const(bits) ==> cached_bits(c2, v) == const_word(bits@))
    } by {
        if v != t {
            assert(cached(c, v));
            assert forall|i: int| 0 <= i < operands(ts[v]).len() implies cached(c2, #[trigger] operands(ts[v])[i] as int) by {
                assert(cached(c, operands(ts[v])[i] as int));
            }
        } else {
            assert forall|i: int| 0 <= i < operands(ts[v]).len() implies cached(c2, #[trigger] operands(ts[v])[i] as int) by {
                assert(cached(c, operands(ts[v])[i] as int));
            }
        }
    }
    assert forall|m: Assignment| #[trigger] b.models(m) implies forall|v: int| #[trigger] cached(c2, v) ==>
        word_bits(m, cached_bits(c2, v)) == eval(ts, env_of(c2, m), v) by {
        assert forall|v: int| #[trigger] cached(c2, v) implies word_bits(m, cached_bits(c2, v)) == eval(ts, env_of(c2, m), v) by {
            if v != t {
                lemma_operand(ts, b, c, t, r, v, m);
            }
        }
    }
}

/// A gadget that extends the blaster keeps the cache sound.
proof fn lemma_gadget(ts: Seq<BvNode>, b0: Blaster, b1: Blaster, c: Seq<Option<Vec<BitLit>>>)
    requires
        cache_ok(b0, c, ts),
        b1.wf(),
        extends(b0, b1),
    ensures
        cache_ok(b1, c, ts),
{
    crate::bv::blast::lemma_extends_models(b0, b1);
    assert forall|t: int| #[trigger] cached(c, t) implies lits_below(cached_bits(c, t), b1.vars()) by {}
    assert forall|m: Assignment| #[trigger] b1.models(m) implies forall|t: int| #[trigger] cached(c, t) ==>
        word_bits(m, cached_bits(c, t)) == eval(ts, env_of(c, m), t) by {
        assert(b0.models(m));
    }
    assert forall|env: spec_fn(int) -> Seq<bool>| #[trigger] env_fits(ts, env) implies
        exists|m: Assignment| b1.models(m) && #[trigger] vars_agree(ts, c, m, env) by {
        let m0 = choose|m: Assignment| b0.models(m) && #[trigger] vars_agree(ts, c, m, env);
        reveal(extends);
        assert(crate::bv::blast::extends_from(b0, m0));
        let m2 = choose|m2: Assignment| agree_below(m0, m2, b0.vars()) && #[trigger] crate::bv::blast::extends_from(b1, m2);
        assert forall|v: int| 0 <= v < ts.len() && ts[v] is Var && #[trigger] cached(c, v) implies
            env(v) == word_bits(m2, cached_bits(c, v)) by {
            lemma_word_bits_agree(m0, m2, cached_bits(c, v), b0.vars());
        }
        assert(vars_agree(ts, c, m2, env));
    }
}

/// A blaster together with the words it has made for the terms of one
/// table.
pub struct TermBlaster {
    blaster: Blaster,
    cache: Vec<Option<Vec<BitLit>>>,
}

impl TermBlaster {
    /// The blaster's gates and clauses.
    pub closed spec fn gates(&self) -> Blaster {
        self.blaster
    }

    /// The words remembered so far.
    pub closed spec fn words(&self) -> Seq<Option<Vec<BitLit>>> {
        self.cache@
    }

    /// The remembered words carry their terms' meanings in `ts`.
    pub open spec fn inv(&self, ts: Seq<BvNode>) -> bool {
        cache_ok(self.gates(), self.words(), ts)
    }

    /// A blaster that has made no words, for any table.
    pub fn new() -> (r: TermBlaster)
        ensures
            r.gates().wf(),
            r.gates().vars() == 1,
            r.words().len() == 0,
            forall|ts: Seq<BvNode>| r.inv(ts),
    {
        let r = TermBlaster { blaster: Blaster::new(), cache: Vec::new() };
        proof {
            assert forall|ts: Seq<BvNode>| r.inv(ts) by {
                assert forall|t: int| #[trigger] cached(r.cache@, t) implies false by {}
                assert forall|env: spec_fn(int) -> Seq<bool>| #[trigger] env_fits(ts, env) implies
                    exists|m: Assignment| r.blaster.models(m) && #[trigger] vars_agree(ts, r.cache@, m, env) by {
                    let m: Assignment = |x: u32| true;
                    reveal(crate::bv::semantics::cnf_holds);
                    assert(lit_holds(m, r.blaster.cnf()[0][0]));
                    assert(crate::bv::semantics::clause_holds(m, r.blaster.cnf()[0]));
                    assert(r.blaster.models(m));
                    assert(vars_agree(ts, r.cache@, m, env));
                }
            }
        }
        r
    }

    /// The variable high-water mark.
    pub fn num_vars(&self) -> (n: u32)
        requires
            self.gates().wf(),
        ensures
            n == self.gates().vars(),
    {
        self.blaster.num_vars()
    }

    /// The finished clause list.
    pub fn finish(self) -> (c: Cnf)
        requires
            self.gates().wf(),
        ensures
            c.num_vars == self.gates().vars(),
            c.clause_seqs() == self.gates().cnf(),
    {
        self.blaster.finish()
    }

    /// The clauses emitted since the last call.
    pub fn take_new_clauses(&mut self) -> (new: Vec<Vec<BitLit>>)
        requires
            old(self).gates().wf(),
        ensures
            final(self).gates().vars() == old(self).gates().vars(),
            final(self).gates().cnf() == old(self).gates().cnf(),
            final(self).gates().drained_count() == old(self).gates().cnf().len(),
            final(self).words() == old(self).words(),
            forall|ts: Seq<BvNode>| old(self).inv(ts) ==> final(self).inv(ts),
            new@.map_values(|c: Vec<BitLit>| c@) == old(self).gates().cnf().skip(old(self).gates().drained_count() as int),
    {
        let ghost b0 = self.blaster;
        let new = self.blaster.take_new_clauses();
        proof {
            assert forall|ts: Seq<BvNode>| old(self).inv(ts) implies self.inv(ts) by {
                assert forall|m: Assignment| #[trigger] self.blaster.models(m) implies b0.models(m) by {}
                assert forall|t: int| #[trigger] cached(self.cache@, t) implies lits_below(cached_bits(self.cache@, t), self.blaster.vars()) by {}
            }
        }
        new
    }
}

/// The words of two operands, made or recalled in turn.
proof fn lemma_two_operands_hold(ts: Seq<BvNode>, c: Seq<Option<Vec<BitLit>>>, t: int, a: usize, b: usize)
    requires
        0 <= t < ts.len(),
        operands(ts[t]) == seq![a, b],
        cached(c, a as int),
        cached(c, b as int),
    ensures
        operands_cached(ts, c, t),
{
    assert forall|i: int| 0 <= i < operands(ts[t]).len() implies cached(c, #[trigger] operands(ts[t])[i] as int) by {
        if i == 0 {} else {}
    }
}

proof fn lemma_one_operand_holds(ts: Seq<BvNode>, c: Seq<Option<Vec<BitLit>>>, t: int, a: usize)
    requires
        0 <= t < ts.len(),
        operands(ts[t]) == seq![a],
        cached(c, a as int),
    ensures
        operands_cached(ts, c, t),
{
    assert forall|i: int| 0 <= i < operands(ts[t]).len() implies cached(c, #[trigger] operands(ts[t])[i] as int) by {}
}

/// `k` copies of a word are `k` times as long.
proof fn lemma_repeat_len(w: Seq<BitLit>, k: nat)
    ensures
        repeat_seq(w, k).len() == w.len() * k,
    decreases k,
{
    if k > 0 {
        lemma_repeat_len(w, (k - 1) as nat);
        assert(repeat_seq(w, k) == repeat_seq(w, (k - 1) as nat) + w);
        assert(repeat_seq(w, k).len() == repeat_seq(w, (k - 1) as nat).len() + w.len());
        assert(w.len() * k == w.len() * ((k - 1) as nat) + w.len()) by (nonlinear_arith)
            requires k >= 1;
    } else {
        assert(repeat_seq(w, k).len() == 0);
        assert(w.len() * k == 0);
    }
}

/// Copies of a word speak only of the word's variables.
proof fn lemma_repeat_below(w: Seq<BitLit>, k: nat, n: nat)
    requires
        lits_below(w, n),
    ensures
        lits_below(repeat_seq(w, k), n),
    decreases k,
{
    if k > 0 {
        lemma_repeat_below(w, (k - 1) as nat, n);
        let p = repeat_seq(w, (k - 1) as nat);
        assert(repeat_seq(w, k) == p + w);
        assert forall|i: int| 0 <= i < (p + w).len() implies (#[trigger] (p + w)[i]).var < n by {
            if i < p.len() {
                assert((p + w)[i] == p[i]);
            } else {
                assert((p + w)[i] == w[i - p.len()]);
            }
        }
    }
}

/// The words of `k` copies of a word are `k` copies of its bits.
proof fn lemma_repeat_bits(m: Assignment, w: Seq<BitLit>, k: nat)
    ensures
        word_bits(m, repeat_seq(w, k)) == repeat_bits(word_bits(m, w), k),
    decreases k,
{
    if k > 0 {
        lemma_repeat_bits(m, w, (k - 1) as nat);
        assert(word_bits(m, repeat_seq(w, (k - 1) as nat) + w) =~= word_bits(m, repeat_seq(w, (k - 1) as nat)) + word_bits(m, w));
    }
}

/// The magnitude of a word, read from its bits.
proof fn lemma_abs(m: Assignment, x: Seq<BitLit>)
    requires
        x.len() >= 1,
    ensures
        abs_val(m, x) == abs_bits(word_bits(m, x)),
        word_bits(m, x).last() == lit_holds(m, x.last()),
        bits_val(word_bits(m, x)) == word_val(m, x),
{
    lemma_bits_val_word(m, x);
}

impl TermBlaster {
    /// Give term `t` a slot in the table of words, leaving every word and
    /// the gates as they were.
    fn make_room(&mut self, ctx: &BvTerms, t: usize)
        requires
            old(self).inv(ctx.nodes@),
        ensures
            final(self).inv(ctx.nodes@),
            final(self).blaster == old(self).blaster,
            final(self).words().len() == if (t as int) < old(self).words().len() { old(self).words().len() as int } else { t + 1 },
            forall|v: int| #[trigger] cached(final(self).words(), v) <==> cached(old(self).words(), v),
            forall|v: int| #[trigger] cached(final(self).words(), v) ==> cached_bits(final(self).words(), v) == cached_bits(old(self).words(), v),
            forall|m: Assignment| #[trigger] env_of(final(self).words(), m) == env_of(old(self).words(), m),
    {
        let ghost c0 = self.cache@;
        let ghost ts = ctx.nodes@;
        while self.cache.len() <= t
            invariant
                self.blaster == old(self).blaster,
                self.cache@.len() >= c0.len(),
                self.cache@.len() <= if (t as int) < c0.len() { c0.len() as int } else { t + 1 },
                forall|v: int| 0 <= v < c0.len() ==> #[trigger] self.cache@[v] == c0[v],
                forall|v: int| c0.len() <= v < self.cache@.len() ==> #[trigger] self.cache@[v] is None,
                c0 == old(self).cache@,
            decreases t + 1 - self.cache.len(),
        {
            self.cache.push(None);
        }
        proof {
            assert forall|v: int| #[trigger] cached(self.cache@, v) <==> cached(c0, v) by {
                if 0 <= v < c0.len() {
                    assert(self.cache@[v] == c0[v]);
                }
            }
            assert forall|v: int| #[trigger] cached(self.cache@, v) implies cached_bits(self.cache@, v) == cached_bits(c0, v) by {
                assert(self.cache@[v] == c0[v]);
            }
            assert forall|m: Assignment| #[trigger] env_of(self.cache@, m) == env_of(c0, m) by {
                assert(env_of(self.cache@, m) =~= env_of(c0, m));
            }
            assert forall|v: int| #[trigger] cached(self.cache@, v) implies operands_cached(ts, self.cache@, v) by {
                assert(operands_cached(ts, c0, v));
                assert forall|i: int| 0 <= i < operands(ts[v]).len() implies cached(self.cache@, #[trigger] operands(ts[v])[i] as int) by {
                    assert(cached(c0, operands(ts[v])[i] as int));
                }
            }
            assert forall|env: spec_fn(int) -> Seq<bool>| #[trigger] env_fits(ts, env) implies
                exists|m: Assignment| self.blaster.models(m) && #[trigger] vars_agree(ts, self.cache@, m, env) by {
                let m = choose|m: Assignment| self.blaster.models(m) && #[trigger] vars_agree(ts, c0, m, env);
                assert(vars_agree(ts, self.cache@, m, env));
            }
            assert(self.inv(ts));
        }
    }

    /// The word of term `t`, LSB first: made once and remembered, so a
    /// variable keeps its bits wherever it occurs. In every model, the
    /// word's bits are the term's meaning, its variables read from their
    /// words.
    pub fn blast_word(&mut self, ctx: &BvTerms, t: usize) -> (r: Vec<BitLit>)
        requires
            old(self).inv(ctx.nodes@),
            well_typed(ctx.nodes@),
            t < ctx.nodes@.len(),
            old(self).gates().vars() + cost(ctx.nodes@, t as int) <= u32::MAX,
        ensures
            final(self).inv(ctx.nodes@),
            extends(old(self).gates(), final(self).gates()),
            final(self).gates().drained_count() == old(self).gates().drained_count(),
            old(self).gates().vars() <= final(self).gates().vars() <= old(self).gates().vars() + cost(ctx.nodes@, t as int),
            final(self).words().len() == if (t as int) < old(self).words().len() { old(self).words().len() as int } else { t + 1 },
            forall|v: int| #[trigger] cached(old(self).words(), v) ==>
                cached(final(self).words(), v) && cached_bits(final(self).words(), v) == cached_bits(old(self).words(), v),
            forall|v: int| #[trigger] cached(final(self).words(), v) ==> cached(old(self).words(), v) || v <= t,
            cached(final(self).words(), t as int),
            cached_bits(final(self).words(), t as int) == r@,
            r@.len() == width(ctx.nodes@, t as int),
            lits_below(r@, final(self).gates().vars()),
            forall|m: Assignment| #[trigger] final(self).gates().models(m) ==>
                word_bits(m, r@) == eval(ctx.nodes@, env_of(final(self).words(), m), t as int),
            ctx.nodes@[t as int] matches BvNode::Const(bits) ==> r@ == const_word(bits@)
                && final(self).gates() == old(self).gates(),
            ctx.nodes@[t as int] is Var && !cached(old(self).words(), t as int)
                ==> fresh_word(old(self).gates(), final(self).gates(), r@),
            cached(old(self).words(), t as int) ==> final(self).gates() == old(self).gates()
                && final(self).words() == old(self).words(),
        decreases t, 2int,
    {
        let ghost ts = ctx.nodes@;
        if t < self.cache.len() {
            match &self.cache[t] {
                Some(w) => {
                    let r = vstd::slice::slice_to_vec(w.as_slice());
                    proof {
                        lemma_extends_refl(self.blaster);
                        assert(cached(self.cache@, t as int));
                    }
                    return r;
                },
                None => {},
            }
        }
        let ghost c0 = self.cache@;
        self.make_room(ctx, t);
        proof { assert(!cached(self.cache@, t as int)); }
        let ghost cg = self.cache@;
        let ghost gg = self.blaster;
        let r = blast_node(self, ctx, t);
        let out = vstd::slice::slice_to_vec(r.as_slice());
        proof {
            if ts[t as int] is Var {
                lemma_var_free(gg, self.blaster, cg, ts, t as int, r);
            } else {
                lemma_nonvar_free(self.blaster, self.cache@, ts, t as int, r);
            }
            lemma_remember(ts, self.blaster, self.cache@, t as int, r);
        }
        let ghost c1 = self.cache@;
        self.cache.set(t, Some(r));
        proof {
            assert(self.cache@ == c1.update(t as int, Some(r)));
            assert forall|v: int| #[trigger] cached(c0, v) implies
                cached(self.cache@, v) && cached_bits(self.cache@, v) == cached_bits(c0, v) by {
                assert(cached(cg, v));
                assert(cached(c1, v));
                assert(v != t);
            }
            assert forall|v: int| #[trigger] cached(self.cache@, v) implies cached(c0, v) || v <= t by {
                if v != t {
                    assert(cached(c1, v));
                    assert(cached(cg, v) || v < t);
                }
            }
        }
        out
    }
}


/// The word of term `t`, LSB first, made afresh from its operands' words
/// (which are made or recalled, and remembered); `t`'s own word is neither
/// looked up nor remembered. In every model its bits are the term's
/// meaning, the variables read from their remembered words and `t`, if it
/// is a variable, from these bits. A constant's word is the always-true
/// literal and its negation, with nothing added; a variable gets fresh
/// variables, with no clause added and no word remembered.
pub fn blast_bv_word(sink: &mut TermBlaster, ctx: &BvTerms, t: usize) -> (r: Vec<BitLit>)
    requires
        old(sink).inv(ctx.nodes@),
        well_typed(ctx.nodes@),
        t < ctx.nodes@.len(),
        old(sink).gates().vars() + cost(ctx.nodes@, t as int) <= u32::MAX,
    ensures
        final(sink).inv(ctx.nodes@),
        extends(old(sink).gates(), final(sink).gates()),
        final(sink).gates().drained_count() == old(sink).gates().drained_count(),
        old(sink).gates().vars() <= final(sink).gates().vars() <= old(sink).gates().vars() + cost(ctx.nodes@, t as int),
        final(sink).words().len() == if (t as int) < old(sink).words().len() { old(sink).words().len() as int } else { t + 1 },
        forall|v: int| #[trigger] cached(old(sink).words(), v) ==>
            cached(final(sink).words(), v) && cached_bits(final(sink).words(), v) == cached_bits(old(sink).words(), v),
        forall|v: int| #[trigger] cached(final(sink).words(), v) ==> cached(old(sink).words(), v) || v < t,
        cached(final(sink).words(), t as int) == cached(old(sink).words(), t as int),
        r@.len() == width(ctx.nodes@, t as int),
        lits_below(r@, final(sink).gates().vars()),
        forall|m: Assignment| #[trigger] final(sink).gates().models(m) ==>
            word_bits(m, r@) == eval(ctx.nodes@, env_of(final(sink).words().update(t as int, Some(r)), m), t as int),
        ctx.nodes@[t as int] matches BvNode::Const(bits) ==> r@ == const_word(bits@)
            && final(sink).gates() == old(sink).gates(),
        ctx.nodes@[t as int] is Var ==> fresh_word(old(sink).gates(), final(sink).gates(), r@)
            && forall|v: int| #[trigger] cached(final(sink).words(), v) == cached(old(sink).words(), v),
        rearranged_word(ctx.nodes@, final(sink).words(), t as int) matches Some(w) ==> r@ == w,
        rearranged_word(ctx.nodes@, final(sink).words(), t as int) is Some
            && operands_ready(ctx.nodes@, old(sink).words(), t as int) ==> final(sink).gates() == old(sink).gates(),
{
    let ghost c0 = old(sink).words();
    sink.make_room(ctx, t);
    let ghost c1 = sink.words();
    let r = blast_node(sink, ctx, t);
    proof {
        assert forall|v: int| #[trigger] cached(c0, v) implies
            cached(sink.words(), v) && cached_bits(sink.words(), v) == cached_bits(c0, v) by {
            assert(cached(c1, v));
            assert(cached_bits(c1, v) == cached_bits(c0, v));
        }
    }
    r
}

/// What blasting a term asks: the cache is sound, the table well typed,
/// `t` has a slot, and the variables it may add fit.
pub open spec fn word_pre(s: TermBlaster, ts: Seq<BvNode>, t: int) -> bool {
    &&& s.inv(ts)
    &&& well_typed(ts)
    &&& 0 <= t < ts.len()
    &&& t < s.words().len()
    &&& s.gates().vars() + cost(ts, t) <= u32::MAX
}

/// What blasting a term `t` gives: the blaster grows within the bound,
/// earlier words stay, new ones are for earlier terms only, `t`'s own
/// entry is as it was, its operands are remembered, and in every model
/// the word `r` carries `t`'s meaning once it is put in `t`'s place.
pub open spec fn word_post(o: TermBlaster, n: TermBlaster, ts: Seq<BvNode>, t: int, r: Vec<BitLit>) -> bool {
    &&& n.inv(ts)
    &&& extends(o.gates(), n.gates())
    &&& n.gates().drained_count() == o.gates().drained_count()
    &&& o.gates().vars() <= n.gates().vars() <= o.gates().vars() + cost(ts, t)
    &&& n.words().len() == o.words().len()
    &&& forall|v: int| #[trigger] cached(o.words(), v) ==>
        cached(n.words(), v) && cached_bits(n.words(), v) == cached_bits(o.words(), v)
    &&& forall|v: int| #[trigger] cached(n.words(), v) ==> cached(o.words(), v) || v < t
    &&& cached(n.words(), t) == cached(o.words(), t)
    &&& operands_cached(ts, n.words(), t)
    &&& r@.len() == width(ts, t)
    &&& lits_below(r@, n.gates().vars())
    &&& forall|m: Assignment| #[trigger] n.gates().models(m) ==>
        word_bits(m, r@) == eval(ts, env_of(n.words().update(t, Some(r)), m), t)
}
/// The word of a term, made from its operands' words (which it makes or
/// recalls); its own word is neither looked up nor remembered. For a
/// variable, fresh literals.
fn blast_node(sink: &mut TermBlaster, ctx: &BvTerms, t: usize) -> (r: Vec<BitLit>)
    requires
        old(sink).inv(ctx.nodes@),
        well_typed(ctx.nodes@),
        t < ctx.nodes@.len(),
        (t as int) < old(sink).words().len(),
        old(sink).gates().vars() + cost(ctx.nodes@, t as int) <= u32::MAX,
    ensures
        final(sink).inv(ctx.nodes@),
        extends(old(sink).gates(), final(sink).gates()),
        final(sink).gates().drained_count() == old(sink).gates().drained_count(),
        old(sink).gates().vars() <= final(sink).gates().vars() <= old(sink).gates().vars() + cost(ctx.nodes@, t as int),
        ctx.nodes@[t as int] is Var ==> fresh_word(old(sink).gates(), final(sink).gates(), r@)
            && final(sink).words() == old(sink).words(),
        ctx.nodes@[t as int] matches BvNode::Const(bits) ==> r@ == const_word(bits@)
            && final(sink).gates() == old(sink).gates(),
        final(sink).words().len() == old(sink).words().len(),
        rearranged_word(ctx.nodes@, final(sink).words(), t as int) matches Some(w) ==> r@ == w,
        rearranged_word(ctx.nodes@, final(sink).words(), t as int) is Some
            && operands_ready(ctx.nodes@, old(sink).words(), t as int) ==> final(sink).gates() == old(sink).gates(),
        forall|v: int| #[trigger] cached(old(sink).words(), v) ==>
            cached(final(sink).words(), v) && cached_bits(final(sink).words(), v) == cached_bits(old(sink).words(), v),
        forall|v: int| #[trigger] cached(final(sink).words(), v) ==> cached(old(sink).words(), v) || v < t,
        cached(final(sink).words(), t as int) == cached(old(sink).words(), t as int),
        operands_cached(ctx.nodes@, final(sink).words(), t as int),
        r@.len() == width(ctx.nodes@, t as int),
        lits_below(r@, final(sink).gates().vars()),
        forall|m: Assignment| #[trigger] final(sink).gates().models(m) ==>
            word_bits(m, r@) == eval(ctx.nodes@, env_of(final(sink).words().update(t as int, Some(r)), m), t as int),
    decreases t, 1int,
{
    match &ctx.nodes[t] {
        BvNode::Const(bits) => blast_const(sink, ctx, t, bits),
        BvNode::Var(w) => blast_var(sink, ctx, t, *w),
        BvNode::Not(a) => blast_not(sink, ctx, t, *a),
        BvNode::Neg(a) => blast_neg(sink, ctx, t, *a),
        BvNode::And(a, b) => blast_and(sink, ctx, t, *a, *b),
        BvNode::Or(a, b) => blast_or(sink, ctx, t, *a, *b),
        BvNode::Xor(a, b) => blast_xor(sink, ctx, t, *a, *b),
        BvNode::Nand(a, b) => blast_nand(sink, ctx, t, *a, *b),
        BvNode::Nor(a, b) => blast_nor(sink, ctx, t, *a, *b),
        BvNode::Xnor(a, b) => blast_xnor(sink, ctx, t, *a, *b),
        BvNode::Add(a, b) => blast_add(sink, ctx, t, *a, *b),
        BvNode::Mul(a, b) => blast_mul(sink, ctx, t, *a, *b),
        BvNode::Sub(a, b) => blast_sub(sink, ctx, t, *a, *b),
        BvNode::Udiv(a, b) => blast_udiv(sink, ctx, t, *a, *b),
        BvNode::Urem(a, b) => blast_urem(sink, ctx, t, *a, *b),
        BvNode::Sdiv(a, b) => blast_sdiv(sink, ctx, t, *a, *b),
        BvNode::Srem(a, b) => blast_srem(sink, ctx, t, *a, *b),
        BvNode::Smod(a, b) => blast_smod(sink, ctx, t, *a, *b),
        BvNode::Shl(a, b) => blast_shl(sink, ctx, t, *a, *b),
        BvNode::Lshr(a, b) => blast_lshr(sink, ctx, t, *a, *b),
        BvNode::Ashr(a, b) => blast_ashr(sink, ctx, t, *a, *b),
        BvNode::Concat(a, b) => blast_concat(sink, ctx, t, *a, *b),
        BvNode::Extract(a, hi, lo) => blast_extract(sink, ctx, t, *a, *hi, *lo),
        BvNode::ZeroExtend(a, k) => blast_zero_extend(sink, ctx, t, *a, *k),
        BvNode::SignExtend(a, k) => blast_sign_extend(sink, ctx, t, *a, *k),
        BvNode::RotateLeft(a, k) => blast_rotate_left(sink, ctx, t, *a, *k),
        BvNode::RotateRight(a, k) => blast_rotate_right(sink, ctx, t, *a, *k),
        BvNode::Repeat(a, k) => blast_repeat(sink, ctx, t, *a, *k),
    }
}

fn blast_const(sink: &mut TermBlaster, ctx: &BvTerms, t: usize, bits: &Vec<bool>) -> (r: Vec<BitLit>)
    requires
        word_pre(*old(sink), ctx.nodes@, t as int),
        ctx.nodes@[t as int] == BvNode::Const(*bits),
    ensures
        word_post(*old(sink), *final(sink), ctx.nodes@, t as int, r),
        r@ == const_word(bits@),
        final(sink).gates() == old(sink).gates(),
    decreases t, 0int,
{
    let ghost ts = ctx.nodes@;
    proof {
        lemma_typed(ts, t as int);
        sink.blaster.lemma_wf();
        lemma_extends_refl(sink.blaster);
    }
    let mut r: Vec<BitLit> = Vec::new();
    let mut i: usize = 0;
    while i < bits.len()
        invariant
            0 <= i <= bits@.len(),
            r@.len() == i,
            forall|j: int| 0 <= j < i ==> #[trigger] r@[j] == if bits@[j] { true_lit() } else { true_lit().negate_spec() },
        decreases bits@.len() - i,
    {
        if bits[i] {
            r.push(sink.blaster.one());
        } else {
            r.push(sink.blaster.zero());
        }
        i = i + 1;
    }
    proof {
        assert(operands_cached(ts, sink.cache@, t as int));
        assert forall|m: Assignment| #[trigger] sink.blaster.models(m) implies
            word_bits(m, r@) == eval(ts, env_of(sink.cache@.update(t as int, Some(r)), m), t as int) by {
            assert(m(0u32));
            assert(word_bits(m, r@) =~= bits@);
        }
        assert(r@ =~= const_word(bits@));
    }
    r
}

fn blast_var(sink: &mut TermBlaster, ctx: &BvTerms, t: usize, w: u32) -> (r: Vec<BitLit>)
    requires
        word_pre(*old(sink), ctx.nodes@, t as int),
        ctx.nodes@[t as int] == BvNode::Var(w),
    ensures
        word_post(*old(sink), *final(sink), ctx.nodes@, t as int, r),
        fresh_word(old(sink).gates(), final(sink).gates(), r@),
        final(sink).words() == old(sink).words(),
    decreases t, 0int,
{
    let ghost ts = ctx.nodes@;
    proof {
        lemma_typed(ts, t as int);
        sink.blaster.lemma_wf();
        lemma_extends_refl(sink.blaster);
    }
    let ghost g0 = sink.blaster;
    let mut r: Vec<BitLit> = Vec::new();
    let mut i: u32 = 0;
    while i < w
        invariant
            sink.blaster.wf(),
            0 <= i <= w,
            g0.vars() + w <= u32::MAX,
            sink.blaster.vars() == g0.vars() + i,
            sink.blaster.drained_count() == g0.drained_count(),
            extends(g0, sink.blaster),
            r@.len() == i,
            lits_below(r@, sink.blaster.vars()),
            sink.cache@ == old(sink).cache@,
            sink.blaster.cnf() == g0.cnf(),
            forall|j: int| 0 <= j < i ==> #[trigger] r@[j] == (BitLit { var: (g0.vars() + j) as u32, pos: true }),
        decreases w - i,
    {
        let ghost gi = sink.blaster;
        let l = sink.blaster.fresh();
        r.push(l);
        proof { lemma_extends_trans(g0, gi, sink.blaster); }
        i = i + 1;
    }
    proof {
        lemma_gadget(ts, g0, sink.blaster, sink.cache@);
        assert(operands_cached(ts, sink.cache@, t as int));
        assert forall|m: Assignment| #[trigger] sink.blaster.models(m) implies
            word_bits(m, r@) == eval(ts, env_of(sink.cache@.update(t as int, Some(r)), m), t as int) by {
            assert(cached(sink.cache@.update(t as int, Some(r)), t as int));
        }
    }
    r
}

fn blast_not(sink: &mut TermBlaster, ctx: &BvTerms, t: usize, a: usize) -> (r: Vec<BitLit>)
    requires
        word_pre(*old(sink), ctx.nodes@, t as int),
        ctx.nodes@[t as int] == BvNode::Not(a),
    ensures
        word_post(*old(sink), *final(sink), ctx.nodes@, t as int, r),
    decreases t, 0int,
{
    let ghost ts = ctx.nodes@;
    proof {
        lemma_typed(ts, t as int);
        sink.blaster.lemma_wf();
        lemma_extends_refl(sink.blaster);
    }
    proof { lemma_typed(ts, a as int); }
    let ghost g0 = sink.blaster;
    let ra = sink.blast_word(ctx, a);
    let ghost g1 = sink.blaster;
    let r = bvnot(&mut sink.blaster, ra.as_slice());
    proof {
        assert(sink.blaster == g1);
        lemma_one_operand_holds(ts, sink.cache@, t as int, a);
        assert forall|m: Assignment| #[trigger] sink.blaster.models(m) implies
            word_bits(m, r@) == eval(ts, env_of(sink.cache@.update(t as int, Some(r)), m), t as int) by {
            lemma_operand(ts, sink.blaster, sink.cache@, t as int, r, a as int, m);
            assert(word_bits(m, r@) =~= Seq::new(ra@.len(), |i: int| !word_bits(m, ra@)[i]));

        }
    }
    r
}

fn blast_neg(sink: &mut TermBlaster, ctx: &BvTerms, t: usize, a: usize) -> (r: Vec<BitLit>)
    requires
        word_pre(*old(sink), ctx.nodes@, t as int),
        ctx.nodes@[t as int] == BvNode::Neg(a),
    ensures
        word_post(*old(sink), *final(sink), ctx.nodes@, t as int, r),
    decreases t, 0int,
{
    let ghost ts = ctx.nodes@;
    proof {
        lemma_typed(ts, t as int);
        sink.blaster.lemma_wf();
        lemma_extends_refl(sink.blaster);
    }
    proof { lemma_typed(ts, a as int); }
    let ghost g0 = sink.blaster;
    let ra = sink.blast_word(ctx, a);
    let ghost g1 = sink.blaster;
    let r = bvneg(&mut sink.blaster, ra.as_slice());
    proof {
        lemma_gadget(ts, g1, sink.blaster, sink.cache@);
        lemma_extends_trans(old(sink).blaster, g1, sink.blaster);
        lemma_one_operand_holds(ts, sink.cache@, t as int, a);
        assert forall|m: Assignment| #[trigger] sink.blaster.models(m) implies
            word_bits(m, r@) == eval(ts, env_of(sink.cache@.update(t as int, Some(r)), m), t as int) by {
            lemma_operand(ts, sink.blaster, sink.cache@, t as int, r, a as int, m);
            lemma_bits_val_word(m, ra@);
            lemma_word_bits_nat(m, r@);

        }
    }
    r
}

fn blast_and(sink: &mut TermBlaster, ctx: &BvTerms, t: usize, a: usize, b: usize) -> (r: Vec<BitLit>)
    requires
        word_pre(*old(sink), ctx.nodes@, t as int),
        ctx.nodes@[t as int] == BvNode::And(a, b),
    ensures
        word_post(*old(sink), *final(sink), ctx.nodes@, t as int, r),
    decreases t, 0int,
{
    let ghost ts = ctx.nodes@;
    proof {
        lemma_typed(ts, t as int);
        sink.blaster.lemma_wf();
        lemma_extends_refl(sink.blaster);
    }
    proof { lemma_typed(ts, a as int); lemma_typed(ts, b as int); }
    let ghost g0 = sink.blaster;
    let ra = sink.blast_word(ctx, a);
    let ghost ga = sink.blaster;
    let rb = sink.blast_word(ctx, b);
    proof {
        lemma_extends_trans(g0, ga, sink.blaster);
        assert(cached(sink.cache@, a as int) && cached_bits(sink.cache@, a as int) == ra@);
    }
    let ghost g1 = sink.blaster;
    let r = bvand(&mut sink.blaster, ra.as_slice(), rb.as_slice());
    proof {
        lemma_gadget(ts, g1, sink.blaster, sink.cache@);
        lemma_extends_trans(old(sink).blaster, g1, sink.blaster);
        lemma_two_operands_hold(ts, sink.cache@, t as int, a, b);
        assert forall|m: Assignment| #[trigger] sink.blaster.models(m) implies
            word_bits(m, r@) == eval(ts, env_of(sink.cache@.update(t as int, Some(r)), m), t as int) by {
            lemma_operand(ts, sink.blaster, sink.cache@, t as int, r, a as int, m);
            lemma_operand(ts, sink.blaster, sink.cache@, t as int, r, b as int, m);
            let ea = word_bits(m, ra@);
            let eb = word_bits(m, rb@);
            assert(word_bits(m, r@) =~= Seq::new(ra@.len(), |i: int| ea[i] && eb[i]));

        }
    }
    r
}

fn blast_or(sink: &mut TermBlaster, ctx: &BvTerms, t: usize, a: usize, b: usize) -> (r: Vec<BitLit>)
    requires
        word_pre(*old(sink), ctx.nodes@, t as int),
        ctx.nodes@[t as int] == BvNode::Or(a, b),
    ensures
        word_post(*old(sink), *final(sink), ctx.nodes@, t as int, r),
    decreases t, 0int,
{
    let ghost ts = ctx.nodes@;
    proof {
        lemma_typed(ts, t as int);
        sink.blaster.lemma_wf();
        lemma_extends_refl(sink.blaster);
    }
    proof { lemma_typed(ts, a as int); lemma_typed(ts, b as int); }
    let ghost g0 = sink.blaster;
    let ra = sink.blast_word(ctx, a);
    let ghost ga = sink.blaster;
    let rb = sink.blast_word(ctx, b);
    proof {
        lemma_extends_trans(g0, ga, sink.blaster);
        assert(cached(sink.cache@, a as int) && cached_bits(sink.cache@, a as int) == ra@);
    }
    let ghost g1 = sink.blaster;
    let r = bvor(&mut sink.blaster, ra.as_slice(), rb.as_slice());
    proof {
        lemma_gadget(ts, g1, sink.blaster, sink.cache@);
        lemma_extends_trans(old(sink).blaster, g1, sink.blaster);
        lemma_two_operands_hold(ts, sink.cache@, t as int, a, b);
        assert forall|m: Assignment| #[trigger] sink.blaster.models(m) implies
            word_bits(m, r@) == eval(ts, env_of(sink.cache@.update(t as int, Some(r)), m), t as int) by {
            lemma_operand(ts, sink.blaster, sink.cache@, t as int, r, a as int, m);
            lemma_operand(ts, sink.blaster, sink.cache@, t as int, r, b as int, m);
            let ea = word_bits(m, ra@);
            let eb = word_bits(m, rb@);
            assert(word_bits(m, r@) =~= Seq::new(ra@.len(), |i: int| ea[i] || eb[i]));

        }
    }
    r
}

fn blast_xor(sink: &mut TermBlaster, ctx: &BvTerms, t: usize, a: usize, b: usize) -> (r: Vec<BitLit>)
    requires
        word_pre(*old(sink), ctx.nodes@, t as int),
        ctx.nodes@[t as int] == BvNode::Xor(a, b),
    ensures
        word_post(*old(sink), *final(sink), ctx.nodes@, t as int, r),
    decreases t, 0int,
{
    let ghost ts = ctx.nodes@;
    proof {
        lemma_typed(ts, t as int);
        sink.blaster.lemma_wf();
        lemma_extends_refl(sink.blaster);
    }
    proof { lemma_typed(ts, a as int); lemma_typed(ts, b as int); }
    let ghost g0 = sink.blaster;
    let ra = sink.blast_word(ctx, a);
    let ghost ga = sink.blaster;
    let rb = sink.blast_word(ctx, b);
    proof {
        lemma_extends_trans(g0, ga, sink.blaster);
        assert(cached(sink.cache@, a as int) && cached_bits(sink.cache@, a as int) == ra@);
    }
    let ghost g1 = sink.blaster;
    let r = bvxor(&mut sink.blaster, ra.as_slice(), rb.as_slice());
    proof {
        lemma_gadget(ts, g1, sink.blaster, sink.cache@);
        lemma_extends_trans(old(sink).blaster, g1, sink.blaster);
        lemma_two_operands_hold(ts, sink.cache@, t as int, a, b);
        assert forall|m: Assignment| #[trigger] sink.blaster.models(m) implies
            word_bits(m, r@) == eval(ts, env_of(sink.cache@.update(t as int, Some(r)), m), t as int) by {
            lemma_operand(ts, sink.blaster, sink.cache@, t as int, r, a as int, m);
            lemma_operand(ts, sink.blaster, sink.cache@, t as int, r, b as int, m);
            let ea = word_bits(m, ra@);
            let eb = word_bits(m, rb@);
            assert(word_bits(m, r@) =~= Seq::new(ra@.len(), |i: int| ea[i] != eb[i]));

        }
    }
    r
}

fn blast_nand(sink: &mut TermBlaster, ctx: &BvTerms, t: usize, a: usize, b: usize) -> (r: Vec<BitLit>)
    requires
        word_pre(*old(sink), ctx.nodes@, t as int),
        ctx.nodes@[t as int] == BvNode::Nand(a, b),
    ensures
        word_post(*old(sink), *final(sink), ctx.nodes@, t as int, r),
    decreases t, 0int,
{
    let ghost ts = ctx.nodes@;
    proof {
        lemma_typed(ts, t as int);
        sink.blaster.lemma_wf();
        lemma_extends_refl(sink.blaster);
    }
    proof { lemma_typed(ts, a as int); lemma_typed(ts, b as int); }
    let ghost g0 = sink.blaster;
    let ra = sink.blast_word(ctx, a);
    let ghost ga = sink.blaster;
    let rb = sink.blast_word(ctx, b);
    proof {
        lemma_extends_trans(g0, ga, sink.blaster);
        assert(cached(sink.cache@, a as int) && cached_bits(sink.cache@, a as int) == ra@);
    }
    let ghost g1 = sink.blaster;
    let r = bvnand(&mut sink.blaster, ra.as_slice(), rb.as_slice());
    proof {
        lemma_gadget(ts, g1, sink.blaster, sink.cache@);
        lemma_extends_trans(old(sink).blaster, g1, sink.blaster);
        lemma_two_operands_hold(ts, sink.cache@, t as int, a, b);
        assert forall|m: Assignment| #[trigger] sink.blaster.models(m) implies
            word_bits(m, r@) == eval(ts, env_of(sink.cache@.update(t as int, Some(r)), m), t as int) by {
            lemma_operand(ts, sink.blaster, sink.cache@, t as int, r, a as int, m);
            lemma_operand(ts, sink.blaster, sink.cache@, t as int, r, b as int, m);
            let ea = word_bits(m, ra@);
            let eb = word_bits(m, rb@);
            assert(word_bits(m, r@) =~= Seq::new(ra@.len(), |i: int| !(ea[i] && eb[i])));

        }
    }
    r
}

fn blast_nor(sink: &mut TermBlaster, ctx: &BvTerms, t: usize, a: usize, b: usize) -> (r: Vec<BitLit>)
    requires
        word_pre(*old(sink), ctx.nodes@, t as int),
        ctx.nodes@[t as int] == BvNode::Nor(a, b),
    ensures
        word_post(*old(sink), *final(sink), ctx.nodes@, t as int, r),
    decreases t, 0int,
{
    let ghost ts = ctx.nodes@;
    proof {
        lemma_typed(ts, t as int);
        sink.blaster.lemma_wf();
        lemma_extends_refl(sink.blaster);
    }
    proof { lemma_typed(ts, a as int); lemma_typed(ts, b as int); }
    let ghost g0 = sink.blaster;
    let ra = sink.blast_word(ctx, a);
    let ghost ga = sink.blaster;
    let rb = sink.blast_word(ctx, b);
    proof {
        lemma_extends_trans(g0, ga, sink.blaster);
        assert(cached(sink.cache@, a as int) && cached_bits(sink.cache@, a as int) == ra@);
    }
    let ghost g1 = sink.blaster;
    let r = bvnor(&mut sink.blaster, ra.as_slice(), rb.as_slice());
    proof {
        lemma_gadget(ts, g1, sink.blaster, sink.cache@);
        lemma_extends_trans(old(sink).blaster, g1, sink.blaster);
        lemma_two_operands_hold(ts, sink.cache@, t as int, a, b);
        assert forall|m: Assignment| #[trigger] sink.blaster.models(m) implies
            word_bits(m, r@) == eval(ts, env_of(sink.cache@.update(t as int, Some(r)), m), t as int) by {
            lemma_operand(ts, sink.blaster, sink.cache@, t as int, r, a as int, m);
            lemma_operand(ts, sink.blaster, sink.cache@, t as int, r, b as int, m);
            let ea = word_bits(m, ra@);
            let eb = word_bits(m, rb@);
            assert(word_bits(m, r@) =~= Seq::new(ra@.len(), |i: int| !(ea[i] || eb[i])));

        }
    }
    r
}

fn blast_xnor(sink: &mut TermBlaster, ctx: &BvTerms, t: usize, a: usize, b: usize) -> (r: Vec<BitLit>)
    requires
        word_pre(*old(sink), ctx.nodes@, t as int),
        ctx.nodes@[t as int] == BvNode::Xnor(a, b),
    ensures
        word_post(*old(sink), *final(sink), ctx.nodes@, t as int, r),
    decreases t, 0int,
{
    let ghost ts = ctx.nodes@;
    proof {
        lemma_typed(ts, t as int);
        sink.blaster.lemma_wf();
        lemma_extends_refl(sink.blaster);
    }
    proof { lemma_typed(ts, a as int); lemma_typed(ts, b as int); }
    let ghost g0 = sink.blaster;
    let ra = sink.blast_word(ctx, a);
    let ghost ga = sink.blaster;
    let rb = sink.blast_word(ctx, b);
    proof {
        lemma_extends_trans(g0, ga, sink.blaster);
        assert(cached(sink.cache@, a as int) && cached_bits(sink.cache@, a as int) == ra@);
    }
    let ghost g1 = sink.blaster;
    let r = bvxnor(&mut sink.blaster, ra.as_slice(), rb.as_slice());
    proof {
        lemma_gadget(ts, g1, sink.blaster, sink.cache@);
        lemma_extends_trans(old(sink).blaster, g1, sink.blaster);
        lemma_two_operands_hold(ts, sink.cache@, t as int, a, b);
        assert forall|m: Assignment| #[trigger] sink.blaster.models(m) implies
            word_bits(m, r@) == eval(ts, env_of(sink.cache@.update(t as int, Some(r)), m), t as int) by {
            lemma_operand(ts, sink.blaster, sink.cache@, t as int, r, a as int, m);
            lemma_operand(ts, sink.blaster, sink.cache@, t as int, r, b as int, m);
            let ea = word_bits(m, ra@);
            let eb = word_bits(m, rb@);
            assert(word_bits(m, r@) =~= Seq::new(ra@.len(), |i: int| ea[i] == eb[i]));

        }
    }
    r
}

fn blast_add(sink: &mut TermBlaster, ctx: &BvTerms, t: usize, a: usize, b: usize) -> (r: Vec<BitLit>)
    requires
        word_pre(*old(sink), ctx.nodes@, t as int),
        ctx.nodes@[t as int] == BvNode::Add(a, b),
    ensures
        word_post(*old(sink), *final(sink), ctx.nodes@, t as int, r),
    decreases t, 0int,
{
    let ghost ts = ctx.nodes@;
    proof {
        lemma_typed(ts, t as int);
        sink.blaster.lemma_wf();
        lemma_extends_refl(sink.blaster);
    }
    proof { lemma_typed(ts, a as int); lemma_typed(ts, b as int); }
    let ghost g0 = sink.blaster;
    let ra = sink.blast_word(ctx, a);
    let ghost ga = sink.blaster;
    let rb = sink.blast_word(ctx, b);
    proof {
        lemma_extends_trans(g0, ga, sink.blaster);
        assert(cached(sink.cache@, a as int) && cached_bits(sink.cache@, a as int) == ra@);
    }
    let ghost g1 = sink.blaster;
    let r = bvadd(&mut sink.blaster, ra.as_slice(), rb.as_slice());
    proof {
        lemma_gadget(ts, g1, sink.blaster, sink.cache@);
        lemma_extends_trans(old(sink).blaster, g1, sink.blaster);
        lemma_two_operands_hold(ts, sink.cache@, t as int, a, b);
        assert forall|m: Assignment| #[trigger] sink.blaster.models(m) implies
            word_bits(m, r@) == eval(ts, env_of(sink.cache@.update(t as int, Some(r)), m), t as int) by {
            lemma_operand(ts, sink.blaster, sink.cache@, t as int, r, a as int, m);
            lemma_operand(ts, sink.blaster, sink.cache@, t as int, r, b as int, m);
            lemma_bits_val_word(m, ra@);
            lemma_bits_val_word(m, rb@);
            lemma_word_bits_nat(m, r@);

        }
    }
    r
}

fn blast_mul(sink: &mut TermBlaster, ctx: &BvTerms, t: usize, a: usize, b: usize) -> (r: Vec<BitLit>)
    requires
        word_pre(*old(sink), ctx.nodes@, t as int),
        ctx.nodes@[t as int] == BvNode::Mul(a, b),
    ensures
        word_post(*old(sink), *final(sink), ctx.nodes@, t as int, r),
    decreases t, 0int,
{
    let ghost ts = ctx.nodes@;
    proof {
        lemma_typed(ts, t as int);
        sink.blaster.lemma_wf();
        lemma_extends_refl(sink.blaster);
    }
    proof { lemma_typed(ts, a as int); lemma_typed(ts, b as int); }
    let ghost g0 = sink.blaster;
    let ra = sink.blast_word(ctx, a);
    let ghost ga = sink.blaster;
    let rb = sink.blast_word(ctx, b);
    proof {
        lemma_extends_trans(g0, ga, sink.blaster);
        assert(cached(sink.cache@, a as int) && cached_bits(sink.cache@, a as int) == ra@);
    }
    let ghost g1 = sink.blaster;
    let r = bvmul(&mut sink.blaster, ra.as_slice(), rb.as_slice());
    proof {
        lemma_gadget(ts, g1, sink.blaster, sink.cache@);
        lemma_extends_trans(old(sink).blaster, g1, sink.blaster);
        lemma_two_operands_hold(ts, sink.cache@, t as int, a, b);
        assert forall|m: Assignment| #[trigger] sink.blaster.models(m) implies
            word_bits(m, r@) == eval(ts, env_of(sink.cache@.update(t as int, Some(r)), m), t as int) by {
            lemma_operand(ts, sink.blaster, sink.cache@, t as int, r, a as int, m);
            lemma_operand(ts, sink.blaster, sink.cache@, t as int, r, b as int, m);
            lemma_bits_val_word(m, ra@);
            lemma_bits_val_word(m, rb@);
            lemma_word_bits_nat(m, r@);

        }
    }
    r
}

fn blast_sub(sink: &mut TermBlaster, ctx: &BvTerms, t: usize, a: usize, b: usize) -> (r: Vec<BitLit>)
    requires
        word_pre(*old(sink), ctx.nodes@, t as int),
        ctx.nodes@[t as int] == BvNode::Sub(a, b),
    ensures
        word_post(*old(sink), *final(sink), ctx.nodes@, t as int, r),
    decreases t, 0int,
{
    let ghost ts = ctx.nodes@;
    proof {
        lemma_typed(ts, t as int);
        sink.blaster.lemma_wf();
        lemma_extends_refl(sink.blaster);
    }
    proof { lemma_typed(ts, a as int); lemma_typed(ts, b as int); }
    let ghost g0 = sink.blaster;
    let ra = sink.blast_word(ctx, a);
    let ghost ga = sink.blaster;
    let rb = sink.blast_word(ctx, b);
    proof {
        lemma_extends_trans(g0, ga, sink.blaster);
        assert(cached(sink.cache@, a as int) && cached_bits(sink.cache@, a as int) == ra@);
    }
    let ghost g1 = sink.blaster;
    let r = bvsub(&mut sink.blaster, ra.as_slice(), rb.as_slice());
    proof {
        lemma_gadget(ts, g1, sink.blaster, sink.cache@);
        lemma_extends_trans(old(sink).blaster, g1, sink.blaster);
        lemma_two_operands_hold(ts, sink.cache@, t as int, a, b);
        assert forall|m: Assignment| #[trigger] sink.blaster.models(m) implies
            word_bits(m, r@) == eval(ts, env_of(sink.cache@.update(t as int, Some(r)), m), t as int) by {
            lemma_operand(ts, sink.blaster, sink.cache@, t as int, r, a as int, m);
            lemma_operand(ts, sink.blaster, sink.cache@, t as int, r, b as int, m);
            lemma_bits_val_word(m, ra@);
            lemma_bits_val_word(m, rb@);
            lemma_word_bits_nat(m, r@);

        }
    }
    r
}

fn blast_udiv(sink: &mut TermBlaster, ctx: &BvTerms, t: usize, a: usize, b: usize) -> (r: Vec<BitLit>)
    requires
        word_pre(*old(sink), ctx.nodes@, t as int),
        ctx.nodes@[t as int] == BvNode::Udiv(a, b),
    ensures
        word_post(*old(sink), *final(sink), ctx.nodes@, t as int, r),
    decreases t, 0int,
{
    let ghost ts = ctx.nodes@;
    proof {
        lemma_typed(ts, t as int);
        sink.blaster.lemma_wf();
        lemma_extends_refl(sink.blaster);
    }
    proof { lemma_typed(ts, a as int); lemma_typed(ts, b as int); }
    let ghost g0 = sink.blaster;
    let ra = sink.blast_word(ctx, a);
    let ghost ga = sink.blaster;
    let rb = sink.blast_word(ctx, b);
    proof {
        lemma_extends_trans(g0, ga, sink.blaster);
        assert(cached(sink.cache@, a as int) && cached_bits(sink.cache@, a as int) == ra@);
    }
    let ghost g1 = sink.blaster;
    let r = bvudiv(&mut sink.blaster, ra.as_slice(), rb.as_slice());
    proof {
        lemma_gadget(ts, g1, sink.blaster, sink.cache@);
        lemma_extends_trans(old(sink).blaster, g1, sink.blaster);
        lemma_two_operands_hold(ts, sink.cache@, t as int, a, b);
        assert forall|m: Assignment| #[trigger] sink.blaster.models(m) implies
            word_bits(m, r@) == eval(ts, env_of(sink.cache@.update(t as int, Some(r)), m), t as int) by {
            lemma_operand(ts, sink.blaster, sink.cache@, t as int, r, a as int, m);
            lemma_operand(ts, sink.blaster, sink.cache@, t as int, r, b as int, m);
            lemma_bits_val_word(m, ra@);
            lemma_bits_val_word(m, rb@);
            lemma_word_bits_nat(m, r@);

        }
    }
    r
}

fn blast_urem(sink: &mut TermBlaster, ctx: &BvTerms, t: usize, a: usize, b: usize) -> (r: Vec<BitLit>)
    requires
        word_pre(*old(sink), ctx.nodes@, t as int),
        ctx.nodes@[t as int] == BvNode::Urem(a, b),
    ensures
        word_post(*old(sink), *final(sink), ctx.nodes@, t as int, r),
    decreases t, 0int,
{
    let ghost ts = ctx.nodes@;
    proof {
        lemma_typed(ts, t as int);
        sink.blaster.lemma_wf();
        lemma_extends_refl(sink.blaster);
    }
    proof { lemma_typed(ts, a as int); lemma_typed(ts, b as int); }
    let ghost g0 = sink.blaster;
    let ra = sink.blast_word(ctx, a);
    let ghost ga = sink.blaster;
    let rb = sink.blast_word(ctx, b);
    proof {
        lemma_extends_trans(g0, ga, sink.blaster);
        assert(cached(sink.cache@, a as int) && cached_bits(sink.cache@, a as int) == ra@);
    }
    let ghost g1 = sink.blaster;
    let r = bvurem(&mut sink.blaster, ra.as_slice(), rb.as_slice());
    proof {
        lemma_gadget(ts, g1, sink.blaster, sink.cache@);
        lemma_extends_trans(old(sink).blaster, g1, sink.blaster);
        lemma_two_operands_hold(ts, sink.cache@, t as int, a, b);
        assert forall|m: Assignment| #[trigger] sink.blaster.models(m) implies
            word_bits(m, r@) == eval(ts, env_of(sink.cache@.update(t as int, Some(r)), m), t as int) by {
            lemma_operand(ts, sink.blaster, sink.cache@, t as int, r, a as int, m);
            lemma_operand(ts, sink.blaster, sink.cache@, t as int, r, b as int, m);
            lemma_bits_val_word(m, ra@);
            lemma_bits_val_word(m, rb@);
            lemma_word_bits_nat(m, r@);

        }
    }
    r
}

fn blast_sdiv(sink: &mut TermBlaster, ctx: &BvTerms, t: usize, a: usize, b: usize) -> (r: Vec<BitLit>)
    requires
        word_pre(*old(sink), ctx.nodes@, t as int),
        ctx.nodes@[t as int] == BvNode::Sdiv(a, b),
    ensures
        word_post(*old(sink), *final(sink), ctx.nodes@, t as int, r),
    decreases t, 0int,
{
    let ghost ts = ctx.nodes@;
    proof {
        lemma_typed(ts, t as int);
        sink.blaster.lemma_wf();
        lemma_extends_refl(sink.blaster);
    }
    proof { lemma_typed(ts, a as int); lemma_typed(ts, b as int); }
    let ghost g0 = sink.blaster;
    let ra = sink.blast_word(ctx, a);
    let ghost ga = sink.blaster;
    let rb = sink.blast_word(ctx, b);
    proof {
        lemma_extends_trans(g0, ga, sink.blaster);
        assert(cached(sink.cache@, a as int) && cached_bits(sink.cache@, a as int) == ra@);
    }
    let ghost g1 = sink.blaster;
    let r = bvsdiv(&mut sink.blaster, ra.as_slice(), rb.as_slice());
    proof {
        lemma_gadget(ts, g1, sink.blaster, sink.cache@);
        lemma_extends_trans(old(sink).blaster, g1, sink.blaster);
        lemma_two_operands_hold(ts, sink.cache@, t as int, a, b);
        assert forall|m: Assignment| #[trigger] sink.blaster.models(m) implies
            word_bits(m, r@) == eval(ts, env_of(sink.cache@.update(t as int, Some(r)), m), t as int) by {
            lemma_operand(ts, sink.blaster, sink.cache@, t as int, r, a as int, m);
            lemma_operand(ts, sink.blaster, sink.cache@, t as int, r, b as int, m);
            lemma_abs(m, ra@);
            lemma_abs(m, rb@);
            lemma_word_bits_nat(m, r@);
            assert(sdiv_val(m, ra@, rb@) == sdiv_bits(word_bits(m, ra@), word_bits(m, rb@)));

        }
    }
    r
}

fn blast_srem(sink: &mut TermBlaster, ctx: &BvTerms, t: usize, a: usize, b: usize) -> (r: Vec<BitLit>)
    requires
        word_pre(*old(sink), ctx.nodes@, t as int),
        ctx.nodes@[t as int] == BvNode::Srem(a, b),
    ensures
        word_post(*old(sink), *final(sink), ctx.nodes@, t as int, r),
    decreases t, 0int,
{
    let ghost ts = ctx.nodes@;
    proof {
        lemma_typed(ts, t as int);
        sink.blaster.lemma_wf();
        lemma_extends_refl(sink.blaster);
    }
    proof { lemma_typed(ts, a as int); lemma_typed(ts, b as int); }
    let ghost g0 = sink.blaster;
    let ra = sink.blast_word(ctx, a);
    let ghost ga = sink.blaster;
    let rb = sink.blast_word(ctx, b);
    proof {
        lemma_extends_trans(g0, ga, sink.blaster);
        assert(cached(sink.cache@, a as int) && cached_bits(sink.cache@, a as int) == ra@);
    }
    let ghost g1 = sink.blaster;
    let r = bvsrem(&mut sink.blaster, ra.as_slice(), rb.as_slice());
    proof {
        lemma_gadget(ts, g1, sink.blaster, sink.cache@);
        lemma_extends_trans(old(sink).blaster, g1, sink.blaster);
        lemma_two_operands_hold(ts, sink.cache@, t as int, a, b);
        assert forall|m: Assignment| #[trigger] sink.blaster.models(m) implies
            word_bits(m, r@) == eval(ts, env_of(sink.cache@.update(t as int, Some(r)), m), t as int) by {
            lemma_operand(ts, sink.blaster, sink.cache@, t as int, r, a as int, m);
            lemma_operand(ts, sink.blaster, sink.cache@, t as int, r, b as int, m);
            lemma_abs(m, ra@);
            lemma_abs(m, rb@);
            lemma_word_bits_nat(m, r@);
            assert(srem_val(m, ra@, rb@) == srem_bits(word_bits(m, ra@), word_bits(m, rb@)));

        }
    }
    r
}

fn blast_smod(sink: &mut TermBlaster, ctx: &BvTerms, t: usize, a: usize, b: usize) -> (r: Vec<BitLit>)
    requires
        word_pre(*old(sink), ctx.nodes@, t as int),
        ctx.nodes@[t as int] == BvNode::Smod(a, b),
    ensures
        word_post(*old(sink), *final(sink), ctx.nodes@, t as int, r),
    decreases t, 0int,
{
    let ghost ts = ctx.nodes@;
    proof {
        lemma_typed(ts, t as int);
        sink.blaster.lemma_wf();
        lemma_extends_refl(sink.blaster);
    }
    proof { lemma_typed(ts, a as int); lemma_typed(ts, b as int); }
    let ghost g0 = sink.blaster;
    let ra = sink.blast_word(ctx, a);
    let ghost ga = sink.blaster;
    let rb = sink.blast_word(ctx, b);
    proof {
        lemma_extends_trans(g0, ga, sink.blaster);
        assert(cached(sink.cache@, a as int) && cached_bits(sink.cache@, a as int) == ra@);
    }
    let ghost g1 = sink.blaster;
    let r = bvsmod(&mut sink.blaster, ra.as_slice(), rb.as_slice());
    proof {
        lemma_gadget(ts, g1, sink.blaster, sink.cache@);
        lemma_extends_trans(old(sink).blaster, g1, sink.blaster);
        lemma_two_operands_hold(ts, sink.cache@, t as int, a, b);
        assert forall|m: Assignment| #[trigger] sink.blaster.models(m) implies
            word_bits(m, r@) == eval(ts, env_of(sink.cache@.update(t as int, Some(r)), m), t as int) by {
            lemma_operand(ts, sink.blaster, sink.cache@, t as int, r, a as int, m);
            lemma_operand(ts, sink.blaster, sink.cache@, t as int, r, b as int, m);
            lemma_abs(m, ra@);
            lemma_abs(m, rb@);
            lemma_word_bits_nat(m, r@);
            assert(smod_val(m, ra@, rb@) == smod_bits(word_bits(m, ra@), word_bits(m, rb@)));

        }
    }
    r
}

fn blast_shl(sink: &mut TermBlaster, ctx: &BvTerms, t: usize, a: usize, b: usize) -> (r: Vec<BitLit>)
    requires
        word_pre(*old(sink), ctx.nodes@, t as int),
        ctx.nodes@[t as int] == BvNode::Shl(a, b),
    ensures
        word_post(*old(sink), *final(sink), ctx.nodes@, t as int, r),
    decreases t, 0int,
{
    let ghost ts = ctx.nodes@;
    proof {
        lemma_typed(ts, t as int);
        sink.blaster.lemma_wf();
        lemma_extends_refl(sink.blaster);
    }
    proof { lemma_typed(ts, a as int); lemma_typed(ts, b as int); }
    let ghost g0 = sink.blaster;
    let ra = sink.blast_word(ctx, a);
    let ghost ga = sink.blaster;
    let rb = sink.blast_word(ctx, b);
    proof {
        lemma_extends_trans(g0, ga, sink.blaster);
        assert(cached(sink.cache@, a as int) && cached_bits(sink.cache@, a as int) == ra@);
    }
    let ghost g1 = sink.blaster;
    let r = bvshl(&mut sink.blaster, ra.as_slice(), rb.as_slice());
    proof {
        lemma_gadget(ts, g1, sink.blaster, sink.cache@);
        lemma_extends_trans(old(sink).blaster, g1, sink.blaster);
        lemma_two_operands_hold(ts, sink.cache@, t as int, a, b);
        assert forall|m: Assignment| #[trigger] sink.blaster.models(m) implies
            word_bits(m, r@) == eval(ts, env_of(sink.cache@.update(t as int, Some(r)), m), t as int) by {
            lemma_operand(ts, sink.blaster, sink.cache@, t as int, r, a as int, m);
            lemma_operand(ts, sink.blaster, sink.cache@, t as int, r, b as int, m);
            lemma_bits_val_word(m, rb@);
            let ea = word_bits(m, ra@);
            let k = word_val(m, rb@);
            assert(word_bits(m, r@) =~= Seq::new(ra@.len(), |j: int| if j >= k { ea[j - k] } else { false }));

        }
    }
    r
}

fn blast_lshr(sink: &mut TermBlaster, ctx: &BvTerms, t: usize, a: usize, b: usize) -> (r: Vec<BitLit>)
    requires
        word_pre(*old(sink), ctx.nodes@, t as int),
        ctx.nodes@[t as int] == BvNode::Lshr(a, b),
    ensures
        word_post(*old(sink), *final(sink), ctx.nodes@, t as int, r),
    decreases t, 0int,
{
    let ghost ts = ctx.nodes@;
    proof {
        lemma_typed(ts, t as int);
        sink.blaster.lemma_wf();
        lemma_extends_refl(sink.blaster);
    }
    proof { lemma_typed(ts, a as int); lemma_typed(ts, b as int); }
    let ghost g0 = sink.blaster;
    let ra = sink.blast_word(ctx, a);
    let ghost ga = sink.blaster;
    let rb = sink.blast_word(ctx, b);
    proof {
        lemma_extends_trans(g0, ga, sink.blaster);
        assert(cached(sink.cache@, a as int) && cached_bits(sink.cache@, a as int) == ra@);
    }
    let ghost g1 = sink.blaster;
    let r = bvlshr(&mut sink.blaster, ra.as_slice(), rb.as_slice());
    proof {
        lemma_gadget(ts, g1, sink.blaster, sink.cache@);
        lemma_extends_trans(old(sink).blaster, g1, sink.blaster);
        lemma_two_operands_hold(ts, sink.cache@, t as int, a, b);
        assert forall|m: Assignment| #[trigger] sink.blaster.models(m) implies
            word_bits(m, r@) == eval(ts, env_of(sink.cache@.update(t as int, Some(r)), m), t as int) by {
            lemma_operand(ts, sink.blaster, sink.cache@, t as int, r, a as int, m);
            lemma_operand(ts, sink.blaster, sink.cache@, t as int, r, b as int, m);
            lemma_bits_val_word(m, rb@);
            let ea = word_bits(m, ra@);
            let k = word_val(m, rb@);
            assert(word_bits(m, r@) =~= Seq::new(ra@.len(), |j: int| if j + k < ea.len() { ea[j + k] } else { false }));

        }
    }
    r
}

fn blast_ashr(sink: &mut TermBlaster, ctx: &BvTerms, t: usize, a: usize, b: usize) -> (r: Vec<BitLit>)
    requires
        word_pre(*old(sink), ctx.nodes@, t as int),
        ctx.nodes@[t as int] == BvNode::Ashr(a, b),
    ensures
        word_post(*old(sink), *final(sink), ctx.nodes@, t as int, r),
    decreases t, 0int,
{
    let ghost ts = ctx.nodes@;
    proof {
        lemma_typed(ts, t as int);
        sink.blaster.lemma_wf();
        lemma_extends_refl(sink.blaster);
    }
    proof { lemma_typed(ts, a as int); lemma_typed(ts, b as int); }
    let ghost g0 = sink.blaster;
    let ra = sink.blast_word(ctx, a);
    let ghost ga = sink.blaster;
    let rb = sink.blast_word(ctx, b);
    proof {
        lemma_extends_trans(g0, ga, sink.blaster);
        assert(cached(sink.cache@, a as int) && cached_bits(sink.cache@, a as int) == ra@);
    }
    let ghost g1 = sink.blaster;
    let r = bvashr(&mut sink.blaster, ra.as_slice(), rb.as_slice());
    proof {
        lemma_gadget(ts, g1, sink.blaster, sink.cache@);
        lemma_extends_trans(old(sink).blaster, g1, sink.blaster);
        lemma_two_operands_hold(ts, sink.cache@, t as int, a, b);
        assert forall|m: Assignment| #[trigger] sink.blaster.models(m) implies
            word_bits(m, r@) == eval(ts, env_of(sink.cache@.update(t as int, Some(r)), m), t as int) by {
            lemma_operand(ts, sink.blaster, sink.cache@, t as int, r, a as int, m);
            lemma_operand(ts, sink.blaster, sink.cache@, t as int, r, b as int, m);
            lemma_bits_val_word(m, rb@);
            let ea = word_bits(m, ra@);
            let k = word_val(m, rb@);
            assert(word_bits(m, r@) =~= Seq::new(ra@.len(), |j: int| if j + k < ea.len() { ea[j + k] } else { ea.last() }));

        }
    }
    r
}

fn blast_concat(sink: &mut TermBlaster, ctx: &BvTerms, t: usize, a: usize, b: usize) -> (r: Vec<BitLit>)
    requires
        word_pre(*old(sink), ctx.nodes@, t as int),
        ctx.nodes@[t as int] == BvNode::Concat(a, b),
    ensures
        word_post(*old(sink), *final(sink), ctx.nodes@, t as int, r),
        rearranged_word(ctx.nodes@, final(sink).words(), t as int) == Some(r@),
        operands_ready(ctx.nodes@, old(sink).words(), t as int) ==> final(sink).gates() == old(sink).gates(),
    decreases t, 0int,
{
    let ghost ts = ctx.nodes@;
    proof {
        lemma_typed(ts, t as int);
        sink.blaster.lemma_wf();
        lemma_extends_refl(sink.blaster);
    }
    proof { lemma_typed(ts, a as int); lemma_typed(ts, b as int); }
    let ghost g0 = sink.blaster;
    let ra = sink.blast_word(ctx, a);
    let ghost ga = sink.blaster;
    let rb = sink.blast_word(ctx, b);
    proof {
        lemma_extends_trans(g0, ga, sink.blaster);
        assert(cached(sink.cache@, a as int) && cached_bits(sink.cache@, a as int) == ra@);
    }
    let ghost g1 = sink.blaster;
    let r = structural::concat(ra.as_slice(), rb.as_slice());
    proof {
                        assert(sink.blaster == g1);
        lemma_two_operands_hold(ts, sink.cache@, t as int, a, b);
        assert forall|m: Assignment| #[trigger] sink.blaster.models(m) implies
            word_bits(m, r@) == eval(ts, env_of(sink.cache@.update(t as int, Some(r)), m), t as int) by {
            lemma_operand(ts, sink.blaster, sink.cache@, t as int, r, a as int, m);
            lemma_operand(ts, sink.blaster, sink.cache@, t as int, r, b as int, m);
            assert(word_bits(m, r@) =~= word_bits(m, rb@) + word_bits(m, ra@));

        }
    }
    r
}

fn blast_extract(sink: &mut TermBlaster, ctx: &BvTerms, t: usize, a: usize, hi: u32, lo: u32) -> (r: Vec<BitLit>)
    requires
        word_pre(*old(sink), ctx.nodes@, t as int),
        ctx.nodes@[t as int] == BvNode::Extract(a, hi, lo),
    ensures
        word_post(*old(sink), *final(sink), ctx.nodes@, t as int, r),
        rearranged_word(ctx.nodes@, final(sink).words(), t as int) == Some(r@),
        operands_ready(ctx.nodes@, old(sink).words(), t as int) ==> final(sink).gates() == old(sink).gates(),
    decreases t, 0int,
{
    let ghost ts = ctx.nodes@;
    proof {
        lemma_typed(ts, t as int);
        sink.blaster.lemma_wf();
        lemma_extends_refl(sink.blaster);
    }
    proof { lemma_typed(ts, a as int); }
    let ghost g0 = sink.blaster;
    let ra = sink.blast_word(ctx, a);
    let ghost g1 = sink.blaster;
    let r = extract(ra.as_slice(), hi, lo);
    proof {
        assert(sink.blaster == g1);
        lemma_one_operand_holds(ts, sink.cache@, t as int, a);
        assert forall|m: Assignment| #[trigger] sink.blaster.models(m) implies
            word_bits(m, r@) == eval(ts, env_of(sink.cache@.update(t as int, Some(r)), m), t as int) by {
            lemma_operand(ts, sink.blaster, sink.cache@, t as int, r, a as int, m);
            assert(word_bits(m, r@) =~= word_bits(m, ra@).subrange(lo as int, hi as int + 1));

        }
    }
    r
}

fn blast_zero_extend(sink: &mut TermBlaster, ctx: &BvTerms, t: usize, a: usize, k: u32) -> (r: Vec<BitLit>)
    requires
        word_pre(*old(sink), ctx.nodes@, t as int),
        ctx.nodes@[t as int] == BvNode::ZeroExtend(a, k),
    ensures
        word_post(*old(sink), *final(sink), ctx.nodes@, t as int, r),
        rearranged_word(ctx.nodes@, final(sink).words(), t as int) == Some(r@),
        operands_ready(ctx.nodes@, old(sink).words(), t as int) ==> final(sink).gates() == old(sink).gates(),
    decreases t, 0int,
{
    let ghost ts = ctx.nodes@;
    proof {
        lemma_typed(ts, t as int);
        sink.blaster.lemma_wf();
        lemma_extends_refl(sink.blaster);
    }
    proof { lemma_typed(ts, a as int); }
    let ghost g0 = sink.blaster;
    let ra = sink.blast_word(ctx, a);
    let ghost g1 = sink.blaster;
    let r = zero_extend(ra.as_slice(), k, &sink.blaster);
    proof {
        assert(sink.blaster == g1);
        lemma_one_operand_holds(ts, sink.cache@, t as int, a);
        assert forall|m: Assignment| #[trigger] sink.blaster.models(m) implies
            word_bits(m, r@) == eval(ts, env_of(sink.cache@.update(t as int, Some(r)), m), t as int) by {
            lemma_operand(ts, sink.blaster, sink.cache@, t as int, r, a as int, m);
            sink.blaster.lemma_wf();
            assert(m(0u32));
            assert(word_bits(m, r@) =~= word_bits(m, ra@) + Seq::new(k as nat, |i: int| false));

        }
    }
    r
}

fn blast_sign_extend(sink: &mut TermBlaster, ctx: &BvTerms, t: usize, a: usize, k: u32) -> (r: Vec<BitLit>)
    requires
        word_pre(*old(sink), ctx.nodes@, t as int),
        ctx.nodes@[t as int] == BvNode::SignExtend(a, k),
    ensures
        word_post(*old(sink), *final(sink), ctx.nodes@, t as int, r),
        rearranged_word(ctx.nodes@, final(sink).words(), t as int) == Some(r@),
        operands_ready(ctx.nodes@, old(sink).words(), t as int) ==> final(sink).gates() == old(sink).gates(),
    decreases t, 0int,
{
    let ghost ts = ctx.nodes@;
    proof {
        lemma_typed(ts, t as int);
        sink.blaster.lemma_wf();
        lemma_extends_refl(sink.blaster);
    }
    proof { lemma_typed(ts, a as int); }
    let ghost g0 = sink.blaster;
    let ra = sink.blast_word(ctx, a);
    let ghost g1 = sink.blaster;
    let r = sign_extend(ra.as_slice(), k);
    proof {
        assert(sink.blaster == g1);
        lemma_one_operand_holds(ts, sink.cache@, t as int, a);
        assert forall|m: Assignment| #[trigger] sink.blaster.models(m) implies
            word_bits(m, r@) == eval(ts, env_of(sink.cache@.update(t as int, Some(r)), m), t as int) by {
            lemma_operand(ts, sink.blaster, sink.cache@, t as int, r, a as int, m);
            let ea = word_bits(m, ra@);
            assert(ea.last() == lit_holds(m, ra@.last()));
            assert(word_bits(m, r@) =~= ea + Seq::new(k as nat, |i: int| ea.last()));

        }
    }
    r
}

fn blast_rotate_left(sink: &mut TermBlaster, ctx: &BvTerms, t: usize, a: usize, k: u32) -> (r: Vec<BitLit>)
    requires
        word_pre(*old(sink), ctx.nodes@, t as int),
        ctx.nodes@[t as int] == BvNode::RotateLeft(a, k),
    ensures
        word_post(*old(sink), *final(sink), ctx.nodes@, t as int, r),
        rearranged_word(ctx.nodes@, final(sink).words(), t as int) == Some(r@),
        operands_ready(ctx.nodes@, old(sink).words(), t as int) ==> final(sink).gates() == old(sink).gates(),
    decreases t, 0int,
{
    let ghost ts = ctx.nodes@;
    proof {
        lemma_typed(ts, t as int);
        sink.blaster.lemma_wf();
        lemma_extends_refl(sink.blaster);
    }
    proof { lemma_typed(ts, a as int); }
    let ghost g0 = sink.blaster;
    let ra = sink.blast_word(ctx, a);
    let ghost g1 = sink.blaster;
    let r = rotate_left(ra.as_slice(), k);
    proof {
        assert(sink.blaster == g1);
        lemma_one_operand_holds(ts, sink.cache@, t as int, a);
        assert forall|m: Assignment| #[trigger] sink.blaster.models(m) implies
            word_bits(m, r@) == eval(ts, env_of(sink.cache@.update(t as int, Some(r)), m), t as int) by {
            lemma_operand(ts, sink.blaster, sink.cache@, t as int, r, a as int, m);
            let ea = word_bits(m, ra@);
            let n = ea.len() as int;
            assert(word_bits(m, r@) =~= Seq::new(ea.len(), |i: int| ea[(i + n - (k as int % n)) % n]));

        }
    }
    r
}

fn blast_rotate_right(sink: &mut TermBlaster, ctx: &BvTerms, t: usize, a: usize, k: u32) -> (r: Vec<BitLit>)
    requires
        word_pre(*old(sink), ctx.nodes@, t as int),
        ctx.nodes@[t as int] == BvNode::RotateRight(a, k),
    ensures
        word_post(*old(sink), *final(sink), ctx.nodes@, t as int, r),
        rearranged_word(ctx.nodes@, final(sink).words(), t as int) == Some(r@),
        operands_ready(ctx.nodes@, old(sink).words(), t as int) ==> final(sink).gates() == old(sink).gates(),
    decreases t, 0int,
{
    let ghost ts = ctx.nodes@;
    proof {
        lemma_typed(ts, t as int);
        sink.blaster.lemma_wf();
        lemma_extends_refl(sink.blaster);
    }
    proof { lemma_typed(ts, a as int); }
    let ghost g0 = sink.blaster;
    let ra = sink.blast_word(ctx, a);
    let ghost g1 = sink.blaster;
    let r = rotate_right(ra.as_slice(), k);
    proof {
        assert(sink.blaster == g1);
        lemma_one_operand_holds(ts, sink.cache@, t as int, a);
        assert forall|m: Assignment| #[trigger] sink.blaster.models(m) implies
            word_bits(m, r@) == eval(ts, env_of(sink.cache@.update(t as int, Some(r)), m), t as int) by {
            lemma_operand(ts, sink.blaster, sink.cache@, t as int, r, a as int, m);
            let ea = word_bits(m, ra@);
            let n = ea.len() as int;
            assert(word_bits(m, r@) =~= Seq::new(ea.len(), |i: int| ea[(i + (k as int % n)) % n]));

        }
    }
    r
}

fn blast_repeat(sink: &mut TermBlaster, ctx: &BvTerms, t: usize, a: usize, k: u32) -> (r: Vec<BitLit>)
    requires
        word_pre(*old(sink), ctx.nodes@, t as int),
        ctx.nodes@[t as int] == BvNode::Repeat(a, k),
    ensures
        word_post(*old(sink), *final(sink), ctx.nodes@, t as int, r),
        rearranged_word(ctx.nodes@, final(sink).words(), t as int) == Some(r@),
        operands_ready(ctx.nodes@, old(sink).words(), t as int) ==> final(sink).gates() == old(sink).gates(),
    decreases t, 0int,
{
    let ghost ts = ctx.nodes@;
    proof {
        lemma_typed(ts, t as int);
        sink.blaster.lemma_wf();
        lemma_extends_refl(sink.blaster);
    }
    proof { lemma_typed(ts, a as int); }
    let ghost g0 = sink.blaster;
    let ra = sink.blast_word(ctx, a);
    let ghost g1 = sink.blaster;
    proof {
        lemma_repeat_len(ra@, k as nat);
        lemma_repeat_below(ra@, k as nat, sink.blaster.vars());
    }
    let r = structural::repeat(ra.as_slice(), k);
    proof {
        assert(sink.blaster == g1);
        lemma_one_operand_holds(ts, sink.cache@, t as int, a);
        assert forall|m: Assignment| #[trigger] sink.blaster.models(m) implies
            word_bits(m, r@) == eval(ts, env_of(sink.cache@.update(t as int, Some(r)), m), t as int) by {
            lemma_operand(ts, sink.blaster, sink.cache@, t as int, r, a as int, m);
            lemma_repeat_bits(m, ra@, k as nat);

        }
    }
    r
}

/// Two words of one length denote one value exactly when their bits are
/// the same.
proof fn lemma_eq_bits(m: Assignment, x: Seq<BitLit>, y: Seq<BitLit>)
    requires
        x.len() == y.len(),
    ensures
        (word_val(m, x) == word_val(m, y)) == (word_bits(m, x) == word_bits(m, y)),
{
    lemma_word_bits_nat(m, x);
    lemma_word_bits_nat(m, y);
    lemma_bits_val_word(m, x);
    lemma_bits_val_word(m, y);
}

/// A word's signed value, read from its bits.
proof fn lemma_sval_bits(m: Assignment, x: Seq<BitLit>)
    requires
        x.len() >= 1,
    ensures
        word_sval(m, x) == sval_bits(word_bits(m, x)),
{
    lemma_bits_val_word(m, x);
    assert(word_bits(m, x).last() == lit_holds(m, x.last()));
    assert(word_bits(m, x).len() == x.len());
    let p = pow2(x.len());
    let c = crate::bv::semantics::bit_of(m, x.last());
    if lit_holds(m, x.last()) {
        assert(c == 1);
        assert(p * c == p) by (nonlinear_arith) requires c == 1;
    } else {
        assert(c == 0);
        assert(p * c == 0) by (nonlinear_arith) requires c == 0;
    }
}

/// One literal for a predicate over two terms, from their words (made or
/// recalled); in every model it holds exactly when the predicate does, the
/// variables read from their words.
pub fn blast_bv_atom(sink: &mut TermBlaster, ctx: &BvTerms, p: BvAtom) -> (r: BitLit)
        requires
            old(sink).inv(ctx.nodes@),
            well_typed(ctx.nodes@),
            atom_ok(ctx.nodes@, p),
            old(sink).gates().vars() + atom_cost(ctx.nodes@, p) <= u32::MAX,
        ensures
            final(sink).inv(ctx.nodes@),
            extends(old(sink).gates(), final(sink).gates()),
            final(sink).gates().drained_count() == old(sink).gates().drained_count(),
            old(sink).gates().vars() <= final(sink).gates().vars() <= old(sink).gates().vars() + atom_cost(ctx.nodes@, p),
            forall|v: int| #[trigger] cached(old(sink).words(), v) ==>
                cached(final(sink).words(), v) && cached_bits(final(sink).words(), v) == cached_bits(old(sink).words(), v),
            r.var < final(sink).gates().vars(),
            cached(final(sink).words(), atom_operands(p).0 as int),
            cached(final(sink).words(), atom_operands(p).1 as int),
            forall|m: Assignment| #[trigger] final(sink).gates().models(m) ==>
                lit_holds(m, r) == eval_atom(ctx.nodes@, env_of(final(sink).words(), m), p),
    {
        let ghost ts = ctx.nodes@;
        let (a, b) = match p {
            BvAtom::Eq(a, b) | BvAtom::Distinct(a, b) | BvAtom::Ult(a, b) | BvAtom::Ule(a, b) | BvAtom::Ugt(a, b)
            | BvAtom::Uge(a, b) | BvAtom::Slt(a, b) | BvAtom::Sle(a, b) | BvAtom::Sgt(a, b) | BvAtom::Sge(a, b) => (a, b),
        };
        proof {
            lemma_typed(ts, a as int);
            lemma_typed(ts, b as int);
        }
        let ghost g0 = sink.blaster;
        let ra = sink.blast_word(ctx, a);
        let ghost ga = sink.blaster;
        let ghost ca = sink.cache@;
        let rb = sink.blast_word(ctx, b);
        proof {
            lemma_extends_trans(g0, ga, sink.blaster);
            assert(cached(sink.cache@, a as int) && cached_bits(sink.cache@, a as int) == ra@);
            sink.blaster.lemma_wf();
        }
        let ghost g1 = sink.blaster;
        let r = match p {
            BvAtom::Eq(_, _) => compare::eq(&mut sink.blaster, ra.as_slice(), rb.as_slice()),
            BvAtom::Distinct(_, _) => {
                let e = compare::eq(&mut sink.blaster, ra.as_slice(), rb.as_slice());
                sink.blaster.not1(e)
            },
            BvAtom::Ult(_, _) => compare::ult(&mut sink.blaster, ra.as_slice(), rb.as_slice()),
            BvAtom::Ule(_, _) => compare::ule(&mut sink.blaster, ra.as_slice(), rb.as_slice()),
            BvAtom::Ugt(_, _) => compare::ugt(&mut sink.blaster, ra.as_slice(), rb.as_slice()),
            BvAtom::Uge(_, _) => compare::uge(&mut sink.blaster, ra.as_slice(), rb.as_slice()),
            BvAtom::Slt(_, _) => compare::slt(&mut sink.blaster, ra.as_slice(), rb.as_slice()),
            BvAtom::Sle(_, _) => compare::sle(&mut sink.blaster, ra.as_slice(), rb.as_slice()),
            BvAtom::Sgt(_, _) => compare::sgt(&mut sink.blaster, ra.as_slice(), rb.as_slice()),
            BvAtom::Sge(_, _) => compare::sge(&mut sink.blaster, ra.as_slice(), rb.as_slice()),
        };
        proof {
            lemma_gadget(ts, g1, sink.blaster, sink.cache@);
            lemma_extends_trans(g0, g1, sink.blaster);
            assert forall|m: Assignment| #[trigger] sink.blaster.models(m) implies
                lit_holds(m, r) == eval_atom(ts, env_of(sink.cache@, m), p) by {
                assert(cached(sink.cache@, b as int));
                lemma_eq_bits(m, ra@, rb@);
                lemma_bits_val_word(m, ra@);
                lemma_bits_val_word(m, rb@);
                lemma_sval_bits(m, ra@);
                lemma_sval_bits(m, rb@);
            }
        }
        r
    }


impl TermBlaster {
    /// One literal for a predicate over two terms; in every model it holds
    /// exactly when the predicate does, the variables read from their
    /// words.
    pub fn blast_atom(&mut self, ctx: &BvTerms, p: BvAtom) -> (r: BitLit)
        requires
            old(self).inv(ctx.nodes@),
            well_typed(ctx.nodes@),
            atom_ok(ctx.nodes@, p),
            old(self).gates().vars() + atom_cost(ctx.nodes@, p) <= u32::MAX,
        ensures
            final(self).inv(ctx.nodes@),
            extends(old(self).gates(), final(self).gates()),
            final(self).gates().drained_count() == old(self).gates().drained_count(),
            old(self).gates().vars() <= final(self).gates().vars() <= old(self).gates().vars() + atom_cost(ctx.nodes@, p),
            forall|v: int| #[trigger] cached(old(self).words(), v) ==>
                cached(final(self).words(), v) && cached_bits(final(self).words(), v) == cached_bits(old(self).words(), v),
            r.var < final(self).gates().vars(),
            cached(final(self).words(), atom_operands(p).0 as int),
            cached(final(self).words(), atom_operands(p).1 as int),
            forall|m: Assignment| #[trigger] final(self).gates().models(m) ==>
                lit_holds(m, r) == eval_atom(ctx.nodes@, env_of(final(self).words(), m), p),
    {
        blast_bv_atom(self, ctx, p)
    }

    /// The words of the variables among the remembered terms, by term
    /// index, in increasing order.
    pub fn exported_var_bits(&self, ctx: &BvTerms) -> (r: Vec<(usize, Vec<BitLit>)>)
        ensures
            forall|k: int| 0 <= k < r@.len() ==> {
                &&& cached(self.words(), (#[trigger] r@[k]).0 as int)
                &&& (r@[k].0 as int) < ctx.nodes@.len()
                &&& ctx.nodes@[r@[k].0 as int] is Var
                &&& r@[k].1@ == cached_bits(self.words(), r@[k].0 as int)
            },
            forall|k: int, j: int| 0 <= k < j < r@.len() ==> r@[k].0 < r@[j].0,
            forall|v: int| #[trigger] cached(self.words(), v) && v < ctx.nodes@.len() && ctx.nodes@[v] is Var ==>
                exists|k: int| 0 <= k < r@.len() && r@[k].0 == v,
    {
        let mut r: Vec<(usize, Vec<BitLit>)> = Vec::new();
        let mut i: usize = 0;
        while i < self.cache.len()
            invariant
                0 <= i <= self.cache@.len(),
                forall|k: int| 0 <= k < r@.len() ==> {
                    &&& cached(self.cache@, (#[trigger] r@[k]).0 as int)
                    &&& (r@[k].0 as int) < ctx.nodes@.len()
                    &&& ctx.nodes@[r@[k].0 as int] is Var
                    &&& r@[k].1@ == cached_bits(self.cache@, r@[k].0 as int)
                    &&& r@[k].0 < i
                },
                forall|k: int, j: int| 0 <= k < j < r@.len() ==> r@[k].0 < r@[j].0,
                forall|v: int| #[trigger] cached(self.cache@, v) && v < i && v < ctx.nodes@.len() && ctx.nodes@[v] is Var ==>
                    exists|k: int| 0 <= k < r@.len() && r@[k].0 == v,
            decreases self.cache@.len() - i,
        {
            if i < ctx.nodes.len() {
                match (&self.cache[i], &ctx.nodes[i]) {
                    (Some(w), BvNode::Var(_)) => {
                        let ghost r0 = r@;
                        r.push((i, vstd::slice::slice_to_vec(w.as_slice())));
                        proof {
                            assert forall|v: int| #[trigger] cached(self.cache@, v) && v < i + 1 && v < ctx.nodes@.len() && ctx.nodes@[v] is Var implies
                                exists|k: int| 0 <= k < r@.len() && r@[k].0 == v by {
                                if v == i {
                                    assert(r@[r0.len() as int].0 == v);
                                } else {
                                    let k = choose|k: int| 0 <= k < r0.len() && r0[k].0 == v;
                                    assert(r@[k] == r0[k]);
                                }
                            }
                        }
                    },
                    _ => {},
                }
            }
            i = i + 1;
        }
        r
    }
}

} // verus!
