//! Lowering a set of bit-vector predicates to one CNF: each predicate is
//! simplified, blasted through one shared blaster, and given a literal that
//! holds in a model exactly when the predicate does.
use crate::bv::blast::word::{
    atom_cost, atom_ok, atom_operands, blast_bv_atom, cached, cached_bits, cost, env_of,
    lemma_eval_agree, operands_cached, vars_agree, BvTerms, TermBlaster,
};
use crate::bv::blast::{extends, BitLit, Blaster, Cnf};
use crate::bv::rewrite::{env_fits, lemma_cost_grow, lemma_fits_grow, lemma_grow, no_new_vars, rewrite, table_grows};
use crate::bv::semantics::{cnf_holds, lit_holds, word_bits, Assignment};
use crate::bv::terms::{eval, eval_atom, well_typed, width, BvAtom, BvNode};
use vstd::prelude::*;

verus! {

/// What lowering hands a solver.
pub struct Lowered {
    /// The clauses over the blaster's variables.
    pub cnf: Cnf,
    /// The literal of each input predicate, in input order.
    pub atom_lit: Vec<BitLit>,
    /// The bits of each blasted variable, by term index, ascending.
    pub var_bits: Vec<(usize, Vec<BitLit>)>,
}

/// The predicate `p` over new operands.
pub open spec fn atom_with(p: BvAtom, a: usize, b: usize) -> BvAtom {
    match p {
        BvAtom::Eq(_, _) => BvAtom::Eq(a, b),
        BvAtom::Distinct(_, _) => BvAtom::Distinct(a, b),
        BvAtom::Ult(_, _) => BvAtom::Ult(a, b),
        BvAtom::Ule(_, _) => BvAtom::Ule(a, b),
        BvAtom::Ugt(_, _) => BvAtom::Ugt(a, b),
        BvAtom::Uge(_, _) => BvAtom::Uge(a, b),
        BvAtom::Slt(_, _) => BvAtom::Slt(a, b),
        BvAtom::Sle(_, _) => BvAtom::Sle(a, b),
        BvAtom::Sgt(_, _) => BvAtom::Sgt(a, b),
        BvAtom::Sge(_, _) => BvAtom::Sge(a, b),
    }
}

/// The predicate `p` over new operands.
fn rebuild_atom(p: BvAtom, a: usize, b: usize) -> (r: BvAtom)
    ensures
        r == atom_with(p, a, b),
{
    match p {
        BvAtom::Eq(_, _) => BvAtom::Eq(a, b),
        BvAtom::Distinct(_, _) => BvAtom::Distinct(a, b),
        BvAtom::Ult(_, _) => BvAtom::Ult(a, b),
        BvAtom::Ule(_, _) => BvAtom::Ule(a, b),
        BvAtom::Ugt(_, _) => BvAtom::Ugt(a, b),
        BvAtom::Uge(_, _) => BvAtom::Uge(a, b),
        BvAtom::Slt(_, _) => BvAtom::Slt(a, b),
        BvAtom::Sle(_, _) => BvAtom::Sle(a, b),
        BvAtom::Sgt(_, _) => BvAtom::Sgt(a, b),
        BvAtom::Sge(_, _) => BvAtom::Sge(a, b),
    }
}

/// The cost of blasting every predicate of `ps`.
pub open spec fn atoms_cost(ts: Seq<BvNode>, ps: Seq<BvAtom>) -> nat
    decreases ps.len(),
{
    if ps.len() == 0 {
        0
    } else {
        atoms_cost(ts, ps.drop_last()) + atom_cost(ts, ps.last())
    }
}

/// `env` gives each listed variable the value its bits have in `m`.
pub open spec fn env_agrees(vb: Seq<(usize, Vec<BitLit>)>, m: Assignment, env: spec_fn(int) -> Seq<bool>) -> bool {
    forall|k: int| 0 <= k < vb.len() ==> env((#[trigger] vb[k]).0 as int) == word_bits(m, vb[k].1@)
}

/// The remembered words keep their meanings when the table grows.
proof fn lemma_inv_grow(s: TermBlaster, old: Seq<BvNode>, new: Seq<BvNode>)
    requires
        s.inv(old),
        table_grows(old, new),
        no_new_vars(old, new),
    ensures
        s.inv(new),
{
    let c = s.words();
    assert forall|t: int| #[trigger] cached(c, t) implies t < new.len() && cached_bits(c, t).len() == width(new, t)
        && operands_cached(new, c, t) by {
        lemma_grow(old, new, t);
        assert(new[t] == old[t]);
    }
    assert forall|m: Assignment| #[trigger] s.gates().models(m) implies forall|t: int| #[trigger] cached(c, t) ==>
        word_bits(m, cached_bits(c, t)) == eval(new, env_of(c, m), t) by {
        assert forall|t: int| #[trigger] cached(c, t) implies word_bits(m, cached_bits(c, t)) == eval(new, env_of(c, m), t) by {
            lemma_grow(old, new, t);
        }
    }
    assert forall|env: spec_fn(int) -> Seq<bool>| #[trigger] env_fits(new, env) implies
        exists|m: Assignment| s.gates().models(m) && #[trigger] vars_agree(new, c, m, env) by {
        lemma_fits_grow(old, new, env);
        assert(env_fits(old, env));
        let m = choose|m: Assignment| s.gates().models(m) && #[trigger] vars_agree(old, c, m, env);
        assert forall|v: int| 0 <= v < new.len() && new[v] is Var && #[trigger] cached(c, v) implies
            env(v) == word_bits(m, cached_bits(c, v)) by {
            assert(v < old.len());
            assert(new[v] == old[v]);
        }
        assert(vars_agree(new, c, m, env));
    }
}

/// A model of a blaster is a model of every blaster it extends.
proof fn lemma_models_extend(old: Blaster, new: Blaster, m: Assignment)
    requires
        extends(old, new),
        new.models(m),
    ensures
        old.models(m),
{
    reveal(extends);
    reveal(cnf_holds);
    let oc = old.cnf();
    let nc = new.cnf();
    assert(oc.is_prefix_of(nc));
    assert forall|j: int| 0 <= j < oc.len() implies crate::bv::semantics::clause_holds(m, #[trigger] oc[j]) by {
        assert(oc[j] == nc.subrange(0, oc.len() as int)[j]);
        assert(cnf_holds(m, nc));
        assert(j < nc.len());
        assert(crate::bv::semantics::clause_holds(m, nc[j]));
    }
}


/// The operands of a predicate.
fn atom_parts(p: BvAtom) -> (r: (usize, usize))
    ensures
        r == atom_operands(p),
{
    match p {
        BvAtom::Eq(a, b) | BvAtom::Distinct(a, b) | BvAtom::Ult(a, b) | BvAtom::Ule(a, b) | BvAtom::Ugt(a, b)
        | BvAtom::Uge(a, b) | BvAtom::Slt(a, b) | BvAtom::Sle(a, b) | BvAtom::Sgt(a, b) | BvAtom::Sge(a, b) => (a, b),
    }
}

/// A predicate over operands with the meanings of `p`'s has `p`'s truth.
proof fn lemma_atom_same(ts1: Seq<BvNode>, ts2: Seq<BvNode>, env: spec_fn(int) -> Seq<bool>, p: BvAtom, na: usize, nb: usize)
    requires
        eval(ts2, env, na as int) == eval(ts1, env, atom_operands(p).0 as int),
        eval(ts2, env, nb as int) == eval(ts1, env, atom_operands(p).1 as int),
    ensures
        eval_atom(ts2, env, atom_with(p, na, nb)) == eval_atom(ts1, env, p),
{
}

/// A prefix of the predicates costs no more than all of them.
proof fn lemma_atoms_cost_prefix(ts: Seq<BvNode>, ps: Seq<BvAtom>, i: int)
    requires
        0 <= i <= ps.len(),
    ensures
        atoms_cost(ts, ps.take(i)) <= atoms_cost(ts, ps),
        i < ps.len() ==> atoms_cost(ts, ps.take(i + 1)) == atoms_cost(ts, ps.take(i)) + atom_cost(ts, ps[i]),
    decreases ps.len() - i,
{
    if i < ps.len() {
        assert(ps.take(i + 1).drop_last() =~= ps.take(i));
        lemma_atoms_cost_prefix(ts, ps, i + 1);
    } else {
        assert(ps.take(i) =~= ps);
    }
}

/// The index of the first entry for predicate `q`; `None` when no entry
/// is for `q`.
fn find_atom(seen: &Vec<(BvAtom, BitLit)>, q: BvAtom) -> (r: Option<usize>)
    ensures
        match r {
            Some(j) => j < seen@.len() && seen@[j as int].0 == q
                && forall|i: int| 0 <= i < j ==> (#[trigger] seen@[i]).0 != q,
            None => forall|i: int| 0 <= i < seen@.len() ==> (#[trigger] seen@[i]).0 != q,
        },
{
    let mut k: usize = 0;
    while k < seen.len()
        invariant
            0 <= k <= seen@.len(),
            forall|i: int| 0 <= i < k ==> (#[trigger] seen@[i]).0 != q,
        decreases seen@.len() - k,
    {
        if seen[k].0 == q {
            return Some(k);
        }
        k = k + 1;
    }
    None
}


/// What each literal already made means: in every model, under values of
/// the variables that fit `ts0` and agree with the remembered words, the
/// literal holds exactly when its predicate does.
pub open spec fn lits_mean(ts0: Seq<BvNode>, ts: Seq<BvNode>, s: TermBlaster, seen: Seq<(BvAtom, BitLit)>) -> bool {
    forall|m: Assignment, env: spec_fn(int) -> Seq<bool>|
        s.gates().models(m) && env_fits(ts0, env) && #[trigger] vars_agree(ts0, s.words(), m, env) ==>
            forall|k: int| 0 <= k < seen.len() ==> lit_holds(m, (#[trigger] seen[k]).1) == eval_atom(ts, env, seen[k].0)
}

/// The literals of the input predicates handled so far.
pub open spec fn inputs_mean(ts0: Seq<BvNode>, s: TermBlaster, lits: Seq<BitLit>, ps: Seq<BvAtom>) -> bool {
    forall|m: Assignment, env: spec_fn(int) -> Seq<bool>|
        s.gates().models(m) && env_fits(ts0, env) && #[trigger] vars_agree(ts0, s.words(), m, env) ==>
            forall|j: int| 0 <= j < lits.len() ==> lit_holds(m, #[trigger] lits[j]) == eval_atom(ts0, env, ps[j])
}

/// Simplify each predicate, blast it through one shared blaster (one that
/// simplifies to a predicate already blasted reuses its literal), and hand
/// back the clauses, each predicate's literal, and the bits of every
/// blasted variable. In every model of the clauses, under any value of the
/// variables that fits and gives each listed variable its bits, each
/// literal holds exactly when its predicate does; and every value of the
/// variables that fits is so given by some model.
#[verifier::rlimit(60)]
pub fn lower(ctx: &mut BvTerms, bv_atoms: &[BvAtom]) -> (r: Lowered)
    requires
        well_typed(old(ctx).nodes@),
        forall|i: int| 0 <= i < bv_atoms@.len() ==> atom_ok(old(ctx).nodes@, #[trigger] bv_atoms@[i]),
        atoms_cost(old(ctx).nodes@, bv_atoms@) < u32::MAX,
    ensures
        well_typed(final(ctx).nodes@),
        table_grows(old(ctx).nodes@, final(ctx).nodes@),
        no_new_vars(old(ctx).nodes@, final(ctx).nodes@),
        r.atom_lit@.len() == bv_atoms@.len(),
        forall|k: int| 0 <= k < r.var_bits@.len() ==> {
            &&& ((#[trigger] r.var_bits@[k]).0 as int) < old(ctx).nodes@.len()
            &&& old(ctx).nodes@[r.var_bits@[k].0 as int] is Var
            &&& r.var_bits@[k].1@.len() == width(old(ctx).nodes@, r.var_bits@[k].0 as int)
        },
        forall|k: int, j: int| 0 <= k < j < r.var_bits@.len() ==> r.var_bits@[k].0 < r.var_bits@[j].0,
        forall|m: Assignment, env: spec_fn(int) -> Seq<bool>|
            cnf_holds(m, r.cnf.clause_seqs()) && env_fits(old(ctx).nodes@, env) && #[trigger] env_agrees(r.var_bits@, m, env) ==>
                forall|i: int| 0 <= i < bv_atoms@.len() ==>
                    lit_holds(m, #[trigger] r.atom_lit@[i]) == eval_atom(old(ctx).nodes@, env, bv_atoms@[i]),
        forall|env: spec_fn(int) -> Seq<bool>| #[trigger] env_fits(old(ctx).nodes@, env) ==>
            exists|m: Assignment| cnf_holds(m, r.cnf.clause_seqs()) && #[trigger] env_agrees(r.var_bits@, m, env),
{
    let ghost ts0 = ctx.nodes@;
    let mut sink = TermBlaster::new();
    let mut atom_lit: Vec<BitLit> = Vec::new();
    let mut seen: Vec<(BvAtom, BitLit)> = Vec::new();
    let mut i: usize = 0;
    proof {
        assert(ts0.take(0) =~= Seq::<BvNode>::empty());
        assert(table_grows(ts0, ts0));
    }
    while i < bv_atoms.len()
        invariant
            0 <= i <= bv_atoms@.len(),
            well_typed(ts0),
            well_typed(ctx.nodes@),
            table_grows(ts0, ctx.nodes@),
            no_new_vars(ts0, ctx.nodes@),
            forall|j: int| 0 <= j < bv_atoms@.len() ==> atom_ok(ts0, #[trigger] bv_atoms@[j]),
            atoms_cost(ts0, bv_atoms@) < u32::MAX,
            sink.inv(ctx.nodes@),
            sink.gates().vars() <= 1 + atoms_cost(ts0, bv_atoms@.take(i as int)),
            atom_lit@.len() == i,
            forall|k: int| 0 <= k < seen@.len() ==> atom_ok(ctx.nodes@, (#[trigger] seen@[k]).0),
            lits_mean(ts0, ctx.nodes@, sink, seen@),
            inputs_mean(ts0, sink, atom_lit@, bv_atoms@),
        decreases bv_atoms@.len() - i,
    {
        let p = bv_atoms[i];
        let (a, b) = atom_parts(p);
        let ghost c0 = ctx.nodes@;
        let ghost s0 = sink;
        proof {
            assert(atom_ok(ts0, p));
            lemma_grow(ts0, c0, a as int);
            lemma_grow(ts0, c0, b as int);
            lemma_cost_grow(ts0, c0, a as int);
            lemma_cost_grow(ts0, c0, b as int);
        }
        let na = rewrite(ctx, a);
        let ghost c1 = ctx.nodes@;
        proof {
            lemma_grow(ts0, c1, b as int);
            lemma_cost_grow(ts0, c1, b as int);
            lemma_grow(c0, c1, b as int);
        }
        let nb = rewrite(ctx, b);
        let ghost c2 = ctx.nodes@;
        let q = rebuild_atom(p, na, nb);
        proof {
            lemma_grow(c1, c2, na as int);
            lemma_cost_grow(c1, c2, na as int);
            assert(table_grows(c0, c2)) by {
                assert forall|x: int| 0 <= x < c0.len() implies #[trigger] c2[x] == c0[x] by {
                    assert(c2[x] == c1[x]);
                }
            }
            assert(table_grows(ts0, c2)) by {
                assert forall|x: int| 0 <= x < ts0.len() implies #[trigger] c2[x] == ts0[x] by {
                    assert(c2[x] == c0[x]);
                }
            }
            assert(no_new_vars(ts0, c2)) by {
                assert forall|x: int| ts0.len() <= x < c2.len() implies !(#[trigger] c2[x] is Var) by {
                    if x < c0.len() {
                        assert(c2[x] == c0[x]);
                    } else if x < c1.len() {
                        assert(c2[x] == c1[x]);
                    }
                }
            }
            lemma_inv_grow(sink, c0, c2);
            assert(atom_operands(q) == (na, nb));
            assert(atom_ok(c2, q));
            assert(atom_cost(c2, q) <= atom_cost(ts0, p));
            lemma_atoms_cost_prefix(ts0, bv_atoms@, i as int);
            lemma_atoms_cost_prefix(ts0, bv_atoms@, i + 1);
            // the truth of `q` in the grown table is that of `p`
            assert forall|env: spec_fn(int) -> Seq<bool>| env_fits(ts0, env) implies
                #[trigger] eval_atom(c2, env, q) == eval_atom(ts0, env, p) by {
                lemma_fits_grow(ts0, c0, env);
                lemma_fits_grow(ts0, c1, env);
                assert(eval(c1, env, na as int) == eval(c0, env, a as int));
                assert(eval(c2, env, nb as int) == eval(c1, env, b as int));
                lemma_atom_same(ts0, c2, env, p, na, nb);
            }
            // earlier entries keep their meanings in the grown table
            assert forall|k: int| 0 <= k < seen@.len() implies atom_ok(c2, (#[trigger] seen@[k]).0)
                && forall|env: spec_fn(int) -> Seq<bool>| #[trigger] eval_atom(c2, env, seen@[k].0) == eval_atom(c0, env, seen@[k].0) by {
                let (x, y) = atom_operands(seen@[k].0);
                lemma_grow(c0, c2, x as int);
                lemma_grow(c0, c2, y as int);
                assert forall|env: spec_fn(int) -> Seq<bool>| #[trigger] eval_atom(c2, env, seen@[k].0) == eval_atom(c0, env, seen@[k].0) by {
                    lemma_atom_same(c0, c2, env, seen@[k].0, x, y);
                    assert(atom_with(seen@[k].0, x, y) == seen@[k].0);
                }
            }
            assert(lits_mean(ts0, c2, sink, seen@));
        }
        let lit = match find_atom(&seen, q) {
            Some(j) => {
                let l = seen[j].1;
                proof {
                    assert forall|m: Assignment, env: spec_fn(int) -> Seq<bool>|
                        sink.gates().models(m) && env_fits(ts0, env) && #[trigger] vars_agree(ts0, sink.words(), m, env) implies
                            lit_holds(m, l) == eval_atom(ts0, env, p) by {
                        assert(lit_holds(m, seen@[j as int].1) == eval_atom(c2, env, seen@[j as int].0));
                    }
                }
                l
            },
            None => {
                let l = blast_bv_atom(&mut sink, ctx, q);
                proof {
                    let s1 = sink;
                    assert forall|m: Assignment, env: spec_fn(int) -> Seq<bool>|
                        s1.gates().models(m) && env_fits(ts0, env) && #[trigger] vars_agree(ts0, s1.words(), m, env) implies
                            vars_agree(ts0, s0.words(), m, env) && s0.gates().models(m) && lit_holds(m, l) == eval_atom(ts0, env, p) by {
                        lemma_models_extend(s0.gates(), s1.gates(), m);
                        let w1 = s1.words();
                        assert forall|v: int| 0 <= v < ts0.len() && ts0[v] is Var && #[trigger] cached(s0.words(), v)
                            implies env(v) == word_bits(m, cached_bits(s0.words(), v)) by {
                            assert(cached(w1, v));
                        }
                        assert forall|v: int| #[trigger] cached(w1, v) && c2[v] is Var implies env_of(w1, m)(v) == env(v) by {
                            assert(v < c2.len());
                            assert(v < ts0.len());
                            assert(c2[v] == ts0[v]);
                        }
                        lemma_eval_agree(c2, w1, env_of(w1, m), env, na as int);
                        lemma_eval_agree(c2, w1, env_of(w1, m), env, nb as int);
                        lemma_atom_same(c2, c2, env, q, na, nb);
                        assert(atom_with(q, na, nb) == q);
                    }
                }
                seen.push((q, l));
                l
            },
        };
        atom_lit.push(lit);
        i = i + 1;
        proof {
            assert(lits_mean(ts0, ctx.nodes@, sink, seen@));
            assert(inputs_mean(ts0, sink, atom_lit@, bv_atoms@));
        }
    }
    let var_bits = sink.exported_var_bits(ctx);
    let ghost words = sink.words();
    let ghost fin = ctx.nodes@;
    let ghost gates = sink.gates();
    let cnf = sink.finish();
    proof {
        assert forall|k: int| 0 <= k < var_bits@.len() implies {
            &&& ((#[trigger] var_bits@[k]).0 as int) < ts0.len()
            &&& ts0[var_bits@[k].0 as int] is Var
            &&& var_bits@[k].1@.len() == width(ts0, var_bits@[k].0 as int)
        } by {
            let v = var_bits@[k].0 as int;
            assert(v < ts0.len());
            assert(fin[v] == ts0[v]);
            lemma_grow(ts0, fin, v);
        }
        assert forall|m: Assignment, env: spec_fn(int) -> Seq<bool>|
            cnf_holds(m, cnf.clause_seqs()) && env_fits(ts0, env) && #[trigger] env_agrees(var_bits@, m, env) implies
                forall|i: int| 0 <= i < bv_atoms@.len() ==> lit_holds(m, #[trigger] atom_lit@[i]) == eval_atom(ts0, env, bv_atoms@[i]) by {
            assert(gates.models(m));
            assert forall|v: int| 0 <= v < ts0.len() && ts0[v] is Var && #[trigger] cached(words, v)
                implies env(v) == word_bits(m, cached_bits(words, v)) by {
                assert(fin[v] == ts0[v]);
                let k = choose|k: int| 0 <= k < var_bits@.len() && var_bits@[k].0 == v;
                assert(env(var_bits@[k].0 as int) == word_bits(m, var_bits@[k].1@));
            }
            assert(vars_agree(ts0, words, m, env));
        }
        assert forall|env: spec_fn(int) -> Seq<bool>| #[trigger] env_fits(ts0, env) implies
            exists|m: Assignment| cnf_holds(m, cnf.clause_seqs()) && #[trigger] env_agrees(var_bits@, m, env) by {
            lemma_fits_grow(ts0, fin, env);
            assert(env_fits(fin, env));
            let m = choose|m: Assignment| gates.models(m) && #[trigger] vars_agree(fin, words, m, env);
            assert forall|k: int| 0 <= k < var_bits@.len() implies
                env((#[trigger] var_bits@[k]).0 as int) == word_bits(m, var_bits@[k].1@) by {
                let v = var_bits@[k].0 as int;
                assert(cached(words, v));
            }
            assert(env_agrees(var_bits@, m, env));
        }
    }
    Lowered { cnf, atom_lit, var_bits }
}

} // verus!
