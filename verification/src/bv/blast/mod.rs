//! Boolean encodings of bit-vector operations: literals, clauses and gates.
pub mod arith;
pub mod bitwise;
pub mod compare;
pub mod div;
pub mod shift;
pub mod structural;
pub mod word;

use crate::bv::semantics::{agree_below, bit_of, clause_holds, clauses_below, cnf_holds, lit_holds, lits_below, Assignment};
use vstd::prelude::*;

verus! {

/// A literal over the blaster's private variables: `var` when `pos`, its
/// negation otherwise.
#[derive(Clone, Copy, PartialEq, Eq, Hash, Debug, Structural)]
pub struct BitLit {
    pub var: u32,
    pub pos: bool,
}

impl BitLit {
    /// The literal of opposite polarity over the same variable.
    pub fn negate(self) -> (r: BitLit)
        ensures
            r == (BitLit { var: self.var, pos: !self.pos }),
    {
        BitLit { var: self.var, pos: !self.pos }
    }
}

/// A finished clause list and the number of variables it may use.
pub struct Cnf {
    pub num_vars: u32,
    pub clauses: Vec<Vec<BitLit>>,
}

impl Cnf {
    /// The clauses as sequences of literals.
    pub open spec fn clause_seqs(&self) -> Seq<Seq<BitLit>> {
        self.clauses@.map_values(|c: Vec<BitLit>| c@)
    }
}

/// One floating-point to bit-vector conversion (`fp.to_ubv` / `fp.to_sbv`)
/// as lowered to literals, kept so that later conversions with the same
/// signature and equal arguments can be constrained to equal results: the
/// value SMT-LIB leaves unspecified is a function of its arguments.
pub struct FpToBvApp {
    /// `(signed, m, eb, sb)`: two conversions constrain each other exactly
    /// when their keys are equal.
    pub key: (bool, u32, u32, u32),
    /// The one-hot rounding-mode selectors.
    pub rm: [BitLit; 5],
    /// The operand's literals.
    pub operand: Vec<BitLit>,
    /// The result's literals.
    pub result: Vec<BitLit>,
}

/// The always-true literal (variable 0, which every blaster pins true).
pub open spec fn true_lit() -> BitLit {
    BitLit { var: 0, pos: true }
}

/// Gate and clause factory over a private variable namespace. Variable 0 is
/// pinned true by the blaster's first clause.
pub struct Blaster {
    next_var: u32,
    clauses: Vec<Vec<BitLit>>,
    drained: usize,
}

/// `m` with variable `v` set to `b`.
pub open spec fn set_var(m: Assignment, v: u32, b: bool) -> Assignment {
    |x: u32| if x == v { b } else { m(x) }
}

/// Every assignment that satisfies `old` extends, without changing any
/// variable `old` could use, to one that satisfies `new`; and `new` keeps
/// every clause of `old`.
#[verifier::opaque]
pub open spec fn extends(old: Blaster, new: Blaster) -> bool {
    &&& old.cnf().is_prefix_of(new.cnf())
    &&& old.vars() <= new.vars()
    &&& forall|m: Assignment| #[trigger] extends_from(old, m) ==> exists|m2: Assignment|
        agree_below(m, m2, old.vars()) && #[trigger] extends_from(new, m2)
}

/// `m` is a model of `b`, as the extension property quantifies over it.
pub open spec fn extends_from(b: Blaster, m: Assignment) -> bool {
    b.models(m)
}

impl Blaster {
    /// The variable high-water mark: every variable in use is below it.
    pub closed spec fn vars(&self) -> nat {
        self.next_var as nat
    }

    /// The clauses emitted so far.
    pub closed spec fn cnf(&self) -> Seq<Seq<BitLit>> {
        self.clauses@.map_values(|c: Vec<BitLit>| c@)
    }

    /// How many clauses `take_new_clauses` has already handed out.
    pub closed spec fn drained_count(&self) -> nat {
        self.drained as nat
    }

    /// `m` satisfies every clause emitted so far.
    pub open spec fn models(&self, m: Assignment) -> bool {
        cnf_holds(m, self.cnf())
    }

    /// Internal consistency: variable 0 is pinned true by the first clause,
    /// every clause speaks of variables below the high-water mark, and the
    /// drain mark is within the clause list.
    pub closed spec fn wf(&self) -> bool {
        &&& 1 <= self.next_var
        &&& self.cnf().len() >= 1
        &&& self.cnf()[0] == seq![true_lit()]
        &&& clauses_below(self.cnf(), self.next_var as nat)
        &&& self.drained <= self.clauses@.len()
    }

    /// What well-formedness gives a caller.
    pub proof fn lemma_wf(&self)
        requires
            self.wf(),
        ensures
            1 <= self.vars(),
            self.vars() <= u32::MAX,
            clauses_below(self.cnf(), self.vars()),
            self.drained_count() <= self.cnf().len(),
            forall|m: Assignment| #[trigger] self.models(m) ==> m(0u32),
    {
        reveal(cnf_holds);
        assert forall|m: Assignment| #[trigger] self.models(m) implies m(0u32) by {
            assert(clause_holds(m, self.cnf()[0]));
            let i = choose|i: int| 0 <= i < self.cnf()[0].len() && lit_holds(m, #[trigger] self.cnf()[0][i]);
        }
    }

    /// A blaster with no gates, whose only clause pins variable 0 true.
    pub fn new() -> (b: Blaster)
        ensures
            b.wf(),
            b.vars() == 1,
            b.cnf() == seq![seq![true_lit()]],
            b.drained_count() == 0,
    {
        let mut b = Blaster { next_var: 1, clauses: Vec::new(), drained: 0 };
        let mut c: Vec<BitLit> = Vec::new();
        c.push(BitLit { var: 0, pos: true });
        b.clauses.push(c);
        assert(b.cnf() =~= seq![seq![true_lit()]]);
        b
    }

    /// The literal that is true in every model.
    pub fn one(&self) -> (l: BitLit)
        ensures
            l == true_lit(),
    {
        BitLit { var: 0, pos: true }
    }

    /// The literal that is false in every model.
    pub fn zero(&self) -> (l: BitLit)
        ensures
            l == true_lit().negate_spec(),
    {
        BitLit { var: 0, pos: false }
    }

    /// A new unconstrained variable, as a positive literal.
    pub fn fresh(&mut self) -> (l: BitLit)
        requires
            old(self).wf(),
            old(self).vars() < u32::MAX,
        ensures
            final(self).wf(),
            final(self).vars() == old(self).vars() + 1,
            final(self).cnf() == old(self).cnf(),
            final(self).drained_count() == old(self).drained_count(),
            l.var == old(self).vars(),
            l.pos,
            extends(*old(self), *final(self)),
    {
        let v = self.next_var;
        self.next_var = self.next_var + 1;
        proof {
            reveal(extends);
            assert(old(self).cnf() =~= self.cnf().subrange(0, old(self).cnf().len() as int));
            assert forall|m: Assignment| #[trigger] extends_from(*old(self), m) implies exists|m2: Assignment|
                agree_below(m, m2, old(self).vars()) && #[trigger] extends_from(*self, m2) by {
                assert(agree_below(m, m, old(self).vars()));
                assert(extends_from(*self, m));
            }
        }
        BitLit { var: v, pos: true }
    }

    /// Record one clause.
    pub fn add_clause(&mut self, lits: &[BitLit])
        requires
            old(self).wf(),
            lits_below(lits@, old(self).vars()),
        ensures
            final(self).wf(),
            final(self).vars() == old(self).vars(),
            final(self).cnf() == old(self).cnf().push(lits@),
            final(self).drained_count() == old(self).drained_count(),
            forall|m: Assignment| #[trigger] final(self).models(m) == (old(self).models(m) && clause_holds(m, lits@)),
    {
        let v = vstd::slice::slice_to_vec(lits);
        self.push_clause(v);
    }

    fn push_clause(&mut self, c: Vec<BitLit>)
        requires
            old(self).wf(),
            lits_below(c@, old(self).vars()),
        ensures
            final(self).wf(),
            final(self).vars() == old(self).vars(),
            final(self).cnf() == old(self).cnf().push(c@),
            final(self).drained_count() == old(self).drained_count(),
            forall|m: Assignment| #[trigger] final(self).models(m) == (old(self).models(m) && clause_holds(m, c@)),
    {
        let ghost old_cnf = self.cnf();
        self.clauses.push(c);
        proof {
            reveal(cnf_holds);
            assert(self.cnf() =~= old_cnf.push(c@));
            assert forall|j: int, i: int| 0 <= j < self.cnf().len() && 0 <= i < self.cnf()[j].len()
                implies (#[trigger] self.cnf()[j][i]).var < self.next_var as nat by {
                if j < old_cnf.len() {
                    assert(self.cnf()[j] == old_cnf[j]);
                }
            }
            assert forall|m: Assignment| #[trigger] self.models(m) == (old(self).models(m) && clause_holds(m, c@)) by {
                if self.models(m) {
                    assert forall|j: int| 0 <= j < old_cnf.len() implies clause_holds(m, #[trigger] old_cnf[j]) by {
                        assert(self.cnf()[j] == old_cnf[j]);
                    }
                    assert(self.cnf()[old_cnf.len() as int] == c@);
                }
                if old(self).models(m) && clause_holds(m, c@) {
                    assert forall|j: int| 0 <= j < self.cnf().len() implies clause_holds(m, #[trigger] self.cnf()[j]) by {
                        if j < old_cnf.len() {
                            assert(self.cnf()[j] == old_cnf[j]);
                        }
                    }
                }
            }
        }
    }


    /// Record the clause `a ∨ b`.
    fn add2(&mut self, a: BitLit, b: BitLit)
        requires
            old(self).wf(),
            a.var < old(self).vars(),
            b.var < old(self).vars(),
        ensures
            final(self).wf(),
            final(self).vars() == old(self).vars(),
            final(self).drained_count() == old(self).drained_count(),
            final(self).cnf() == old(self).cnf().push(seq![a, b]),
            forall|m: Assignment| #[trigger] final(self).models(m)
                == (old(self).models(m) && (lit_holds(m, a) || lit_holds(m, b))),
    {
        let mut c: Vec<BitLit> = Vec::new();
        c.push(a);
        c.push(b);
        proof {
            assert(c@ =~= seq![a, b]);
            assert forall|m: Assignment| clause_holds(m, c@) == (lit_holds(m, a) || lit_holds(m, b)) by {
                if lit_holds(m, a) { assert(lit_holds(m, c@[0])); }
                if lit_holds(m, b) { assert(lit_holds(m, c@[1])); }
            }
        }
        self.push_clause(c);
    }

    /// Record the clause `a ∨ b ∨ d`.
    fn add3(&mut self, a: BitLit, b: BitLit, d: BitLit)
        requires
            old(self).wf(),
            a.var < old(self).vars(),
            b.var < old(self).vars(),
            d.var < old(self).vars(),
        ensures
            final(self).wf(),
            final(self).vars() == old(self).vars(),
            final(self).drained_count() == old(self).drained_count(),
            final(self).cnf() == old(self).cnf().push(seq![a, b, d]),
            forall|m: Assignment| #[trigger] final(self).models(m)
                == (old(self).models(m) && (lit_holds(m, a) || lit_holds(m, b) || lit_holds(m, d))),
    {
        let mut c: Vec<BitLit> = Vec::new();
        c.push(a);
        c.push(b);
        c.push(d);
        proof {
            assert(c@ =~= seq![a, b, d]);
            assert forall|m: Assignment| clause_holds(m, c@) == (lit_holds(m, a) || lit_holds(m, b) || lit_holds(m, d)) by {
                if lit_holds(m, a) { assert(lit_holds(m, c@[0])); }
                if lit_holds(m, b) { assert(lit_holds(m, c@[1])); }
                if lit_holds(m, d) { assert(lit_holds(m, c@[2])); }
            }
        }
        self.push_clause(c);
    }

    /// A fresh output `o` with `o ↔ (a ∧ b)`.
    pub fn and2(&mut self, a: BitLit, b: BitLit) -> (o: BitLit)
        requires
            old(self).wf(),
            a.var < old(self).vars(),
            b.var < old(self).vars(),
            old(self).vars() < u32::MAX,
        ensures
            final(self).wf(),
            final(self).vars() == old(self).vars() + 1,
            final(self).drained_count() == old(self).drained_count(),
            o.var == old(self).vars(),
            o.pos,
            extends(*old(self), *final(self)),
            forall|m: Assignment| #[trigger] final(self).models(m)
                ==> lit_holds(m, o) == (lit_holds(m, a) && lit_holds(m, b)),
    {
        let ghost b0 = *self;
        let o = self.fresh();
        let ghost b1 = *self;
        self.add2(o.negate(), a);
        self.add2(o.negate(), b);
        self.add3(o, a.negate(), b.negate());
        proof {
            let f = |m: Assignment| lit_holds(m, a) && lit_holds(m, b);
            let g = |m: Assignment| lit_holds(m, o) == (lit_holds(m, a) && lit_holds(m, b));
            assert forall|m: Assignment| #[trigger] self.models(m) == (b1.models(m) && g(m)) by {}
            lemma_gate_extends(b0, b1, *self, o.var, f, g);
        }
        o
    }

    /// A fresh output `o` with `o ↔ (a ∨ b)`.
    pub fn or2(&mut self, a: BitLit, b: BitLit) -> (o: BitLit)
        requires
            old(self).wf(),
            a.var < old(self).vars(),
            b.var < old(self).vars(),
            old(self).vars() < u32::MAX,
        ensures
            final(self).wf(),
            final(self).vars() == old(self).vars() + 1,
            final(self).drained_count() == old(self).drained_count(),
            o.var == old(self).vars(),
            o.pos,
            extends(*old(self), *final(self)),
            forall|m: Assignment| #[trigger] final(self).models(m)
                ==> lit_holds(m, o) == (lit_holds(m, a) || lit_holds(m, b)),
    {
        let ghost b0 = *self;
        let o = self.fresh();
        let ghost b1 = *self;
        self.add2(o, a.negate());
        self.add2(o, b.negate());
        self.add3(o.negate(), a, b);
        proof {
            let f = |m: Assignment| lit_holds(m, a) || lit_holds(m, b);
            let g = |m: Assignment| lit_holds(m, o) == (lit_holds(m, a) || lit_holds(m, b));
            assert forall|m: Assignment| #[trigger] self.models(m) == (b1.models(m) && g(m)) by {}
            lemma_gate_extends(b0, b1, *self, o.var, f, g);
        }
        o
    }

    /// A fresh output `o` with `o ↔ (a ⊕ b)`.
    pub fn xor2(&mut self, a: BitLit, b: BitLit) -> (o: BitLit)
        requires
            old(self).wf(),
            a.var < old(self).vars(),
            b.var < old(self).vars(),
            old(self).vars() < u32::MAX,
        ensures
            final(self).wf(),
            final(self).vars() == old(self).vars() + 1,
            final(self).drained_count() == old(self).drained_count(),
            o.var == old(self).vars(),
            o.pos,
            extends(*old(self), *final(self)),
            forall|m: Assignment| #[trigger] final(self).models(m)
                ==> lit_holds(m, o) == (lit_holds(m, a) != lit_holds(m, b)),
    {
        let ghost b0 = *self;
        let o = self.fresh();
        let ghost b1 = *self;
        self.add3(o.negate(), a, b);
        self.add3(o.negate(), a.negate(), b.negate());
        self.add3(o, a.negate(), b);
        self.add3(o, a, b.negate());
        proof {
            let f = |m: Assignment| lit_holds(m, a) != lit_holds(m, b);
            let g = |m: Assignment| lit_holds(m, o) == (lit_holds(m, a) != lit_holds(m, b));
            assert forall|m: Assignment| #[trigger] self.models(m) == (b1.models(m) && g(m)) by {}
            lemma_gate_extends(b0, b1, *self, o.var, f, g);
        }
        o
    }

    /// A fresh output `o` with `o ↔ (sel ? a : b)`.
    pub fn mux2(&mut self, sel: BitLit, a: BitLit, b: BitLit) -> (o: BitLit)
        requires
            old(self).wf(),
            sel.var < old(self).vars(),
            a.var < old(self).vars(),
            b.var < old(self).vars(),
            old(self).vars() < u32::MAX,
        ensures
            final(self).wf(),
            final(self).vars() == old(self).vars() + 1,
            final(self).drained_count() == old(self).drained_count(),
            o.var == old(self).vars(),
            o.pos,
            extends(*old(self), *final(self)),
            forall|m: Assignment| #[trigger] final(self).models(m)
                ==> lit_holds(m, o) == (if lit_holds(m, sel) { lit_holds(m, a) } else { lit_holds(m, b) }),
    {
        let ghost b0 = *self;
        let o = self.fresh();
        let ghost b1 = *self;
        self.add3(sel.negate(), o.negate(), a);
        self.add3(sel.negate(), o, a.negate());
        self.add3(sel, o.negate(), b);
        self.add3(sel, o, b.negate());
        proof {
            let f = |m: Assignment| if lit_holds(m, sel) { lit_holds(m, a) } else { lit_holds(m, b) };
            let g = |m: Assignment| lit_holds(m, o) == (if lit_holds(m, sel) { lit_holds(m, a) } else { lit_holds(m, b) });
            assert forall|m: Assignment| #[trigger] self.models(m) == (b1.models(m) && g(m)) by {}
            lemma_gate_extends(b0, b1, *self, o.var, f, g);
        }
        o
    }


    /// A full adder: `sum = a ⊕ b ⊕ cin`, `cout = majority(a, b, cin)`.
    pub fn full_adder(&mut self, a: BitLit, b: BitLit, cin: BitLit) -> (r: (BitLit, BitLit))
        requires
            old(self).wf(),
            a.var < old(self).vars(),
            b.var < old(self).vars(),
            cin.var < old(self).vars(),
            old(self).vars() + 5 <= u32::MAX,
        ensures
            final(self).wf(),
            final(self).vars() == old(self).vars() + 5,
            final(self).drained_count() == old(self).drained_count(),
            r.0.var < final(self).vars(),
            r.1.var < final(self).vars(),
            extends(*old(self), *final(self)),
            forall|m: Assignment| #[trigger] final(self).models(m) ==> {
                &&& lit_holds(m, r.0) == ((lit_holds(m, a) != lit_holds(m, b)) != lit_holds(m, cin))
                &&& lit_holds(m, r.1) == ((lit_holds(m, a) && lit_holds(m, b)) || (lit_holds(m, a) != lit_holds(m, b)) && lit_holds(m, cin))
                &&& bit_of(m, r.0) + 2 * bit_of(m, r.1) == bit_of(m, a) + bit_of(m, b) + bit_of(m, cin)
            },
    {
        let ghost b0 = *self;
        let axb = self.xor2(a, b);
        let ghost b1 = *self;
        let sum = self.xor2(axb, cin);
        let ghost b2 = *self;
        let t1 = self.and2(a, b);
        let ghost b3 = *self;
        let t2 = self.and2(axb, cin);
        let ghost b4 = *self;
        let cout = self.or2(t1, t2);
        proof {
            lemma_extends_trans(b0, b1, b2);
            lemma_extends_trans(b0, b2, b3);
            lemma_extends_trans(b0, b3, b4);
            lemma_extends_trans(b0, b4, *self);
            lemma_extends_models(b1, b2);
            lemma_extends_models(b2, b3);
            lemma_extends_models(b3, b4);
            lemma_extends_models(b4, *self);
        }
        (sum, cout)
    }

    /// Hand over the clause list and the variable count.
    pub fn finish(self) -> (c: Cnf)
        requires
            self.wf(),
        ensures
            c.num_vars == self.vars(),
            c.clause_seqs() == self.cnf(),
    {
        Cnf { num_vars: self.next_var, clauses: self.clauses }
    }

    /// Current variable high-water mark (equals `finish().num_vars`).
    pub fn num_vars(&self) -> (n: u32)
        ensures
            n == self.vars(),
    {
        self.next_var
    }

    /// The clauses emitted since the last call; the blaster stays usable.
    pub fn take_new_clauses(&mut self) -> (new: Vec<Vec<BitLit>>)
        requires
            old(self).wf(),
        ensures
            final(self).wf(),
            final(self).vars() == old(self).vars(),
            final(self).cnf() == old(self).cnf(),
            final(self).drained_count() == old(self).cnf().len(),
            new@.map_values(|c: Vec<BitLit>| c@) == old(self).cnf().skip(old(self).drained_count() as int),
    {
        let mut out: Vec<Vec<BitLit>> = Vec::new();
        let mut i = self.drained;
        let n = self.clauses.len();
        while i < n
            invariant
                self.wf(),
                self.drained <= i <= n,
                n == self.clauses@.len(),
                out@.map_values(|c: Vec<BitLit>| c@) == self.cnf().subrange(self.drained as int, i as int),
            decreases n - i,
        {
            let c = vstd::slice::slice_to_vec(self.clauses[i].as_slice());
            let ghost prev = out@;
            out.push(c);
            proof {
                assert(out@.map_values(|c: Vec<BitLit>| c@) =~= prev.map_values(|c: Vec<BitLit>| c@).push(c@));
                assert(self.cnf()[i as int] == self.clauses@[i as int]@);
                assert(out@.map_values(|c: Vec<BitLit>| c@) =~= self.cnf().subrange(self.drained as int, i + 1));
            }
            i = i + 1;
        }
        self.drained = n;
        proof {
            assert(out@.map_values(|c: Vec<BitLit>| c@) =~= old(self).cnf().skip(old(self).drained_count() as int));
        }
        out
    }

    /// The negation of `a` (no clauses, no variables).
    pub fn not1(&self, a: BitLit) -> (r: BitLit)
        ensures
            r == a.negate_spec(),
    {
        a.negate()
    }
}


/// What extension gives: the older clauses are kept, the high-water mark
/// does not go down, and every later model is an earlier model.
pub proof fn lemma_extends_models(b0: Blaster, b1: Blaster)
    requires
        extends(b0, b1),
    ensures
        b0.cnf().is_prefix_of(b1.cnf()),
        b0.vars() <= b1.vars(),
        forall|m: Assignment| #[trigger] b1.models(m) ==> b0.models(m),
{
    reveal(extends);
    assert forall|m: Assignment| #[trigger] b1.models(m) implies b0.models(m) by {
        crate::bv::semantics::lemma_cnf_prefix(m, b0.cnf(), b1.cnf());
    }
}

proof fn lemma_prefix_trans(a: Seq<Seq<BitLit>>, b: Seq<Seq<BitLit>>, c: Seq<Seq<BitLit>>)
    requires
        a.is_prefix_of(b),
        b.is_prefix_of(c),
    ensures
        a.is_prefix_of(c),
{
    assert forall|i: int| 0 <= i < a.len() implies a[i] == c[i] by {
        assert(a[i] == b[i]);
    }
    assert(a =~= c.subrange(0, a.len() as int));
}

/// Extension is transitive, and every model of the later blaster is a model
/// of the earlier ones.
pub proof fn lemma_extends_trans(b0: Blaster, b1: Blaster, b2: Blaster)
    requires
        extends(b0, b1),
        extends(b1, b2),
    ensures
        extends(b0, b2),
        forall|m: Assignment| #[trigger] b2.models(m) ==> b1.models(m),
        forall|m: Assignment| #[trigger] b2.models(m) ==> b0.models(m),
{
    lemma_extends_models(b0, b1);
    lemma_extends_models(b1, b2);
    lemma_prefix_trans(b0.cnf(), b1.cnf(), b2.cnf());
    reveal(extends);
    assert forall|m: Assignment| #[trigger] extends_from(b0, m) implies exists|m2: Assignment|
        agree_below(m, m2, b0.vars()) && #[trigger] extends_from(b2, m2) by {
        let m1 = choose|m1: Assignment| agree_below(m, m1, b0.vars()) && #[trigger] extends_from(b1, m1);
        let m2 = choose|m2: Assignment| agree_below(m1, m2, b1.vars()) && #[trigger] extends_from(b2, m2);
        assert forall|v: u32| (v as nat) < b0.vars() implies #[trigger] m(v) == m2(v) by {
            assert(m(v) == m1(v));
            assert(m1(v) == m2(v));
        }
        assert(agree_below(m, m2, b0.vars()));
    }
}

/// Every blaster extends itself.
pub proof fn lemma_extends_refl(b: Blaster)
    ensures
        extends(b, b),
{
    reveal(extends);
    assert(b.cnf() =~= b.cnf().subrange(0, b.cnf().len() as int));
    assert forall|m: Assignment| #[trigger] extends_from(b, m) implies exists|m2: Assignment|
        agree_below(m, m2, b.vars()) && #[trigger] extends_from(b, m2) by {
        assert(agree_below(m, m, b.vars()));
        assert(extends_from(b, m));
    }
}

/// A gadget that adds one fresh variable `v` and clauses `g` that some
/// function `f` of the older variables satisfies when assigned to `v`
/// extends every model of the older clauses.
pub proof fn lemma_gate_extends(
    b0: Blaster,
    b1: Blaster,
    b2: Blaster,
    v: u32,
    f: spec_fn(Assignment) -> bool,
    g: spec_fn(Assignment) -> bool,
)
    requires
        b0.wf(),
        b1.wf(),
        b2.wf(),
        b1.cnf() == b0.cnf(),
        b1.vars() == b0.vars() + 1,
        b2.vars() == b1.vars(),
        v == b0.vars(),
        b1.cnf().is_prefix_of(b2.cnf()),
        forall|m: Assignment| #[trigger] b2.models(m) == (b1.models(m) && g(m)),
        forall|m: Assignment| g(set_var(m, v, #[trigger] f(m))),
    ensures
        extends(b0, b2),
{
    b0.lemma_wf();
    reveal(extends);
    assert(b0.cnf() =~= b1.cnf().subrange(0, b0.cnf().len() as int));
    lemma_prefix_trans(b0.cnf(), b1.cnf(), b2.cnf());
    assert forall|m: Assignment| #[trigger] extends_from(b0, m) implies exists|m2: Assignment|
        agree_below(m, m2, b0.vars()) && #[trigger] extends_from(b2, m2) by {
        let m2 = set_var(m, v, f(m));
        assert(agree_below(m, m2, b0.vars()));
        crate::bv::semantics::lemma_cnf_agree(m, m2, b0.cnf(), b0.vars());
        assert(b1.models(m2));
        assert(g(m2));
        assert(b2.models(m2));
        assert(extends_from(b2, m2));
    }
}

impl BitLit {
    /// The literal of opposite polarity over the same variable.
    pub open spec fn negate_spec(self) -> BitLit {
        BitLit { var: self.var, pos: !self.pos }
    }
}

} // verus!
