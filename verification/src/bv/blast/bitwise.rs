//! Bitwise gadgets: one gate per bit position.
use crate::bv::blast::{extends, lemma_extends_refl, lemma_extends_trans, BitLit, Blaster};
use crate::bv::semantics::{lit_holds, lits_below, Assignment};
use vstd::prelude::*;

verus! {

/// The two-input gates a bitwise gadget applies position by position.
#[derive(Clone, Copy, PartialEq, Eq, Debug, Structural)]
enum Gate2 {
    And,
    Or,
    Xor,
}

/// What a two-input gate computes.
spec fn gate_fn(g: Gate2, p: bool, q: bool) -> bool {
    match g {
        Gate2::And => p && q,
        Gate2::Or => p || q,
        Gate2::Xor => p != q,
    }
}

fn zip_map(b: &mut Blaster, x: &[BitLit], y: &[BitLit], g: Gate2) -> (r: Vec<BitLit>)
    requires
        old(b).wf(),
        x@.len() == y@.len(),
        lits_below(x@, old(b).vars()),
        lits_below(y@, old(b).vars()),
        old(b).vars() + x@.len() <= u32::MAX,
    ensures
        final(b).wf(),
        final(b).vars() == old(b).vars() + x@.len(),
        final(b).drained_count() == old(b).drained_count(),
        extends(*old(b), *final(b)),
        r@.len() == x@.len(),
        lits_below(r@, final(b).vars()),
        forall|m: Assignment| #[trigger] final(b).models(m) ==> forall|i: int| 0 <= i < r@.len()
            ==> lit_holds(m, #[trigger] r@[i]) == gate_fn(g, lit_holds(m, x@[i]), lit_holds(m, y@[i])),
{
    let ghost b0 = *b;
    let mut r: Vec<BitLit> = Vec::new();
    let n = x.len();
    let mut i: usize = 0;
    proof { lemma_extends_refl(b0); }
    while i < n
        invariant
            b.wf(),
            0 <= i <= n,
            n == x@.len(),
            x@.len() == y@.len(),
            lits_below(x@, b0.vars()),
            lits_below(y@, b0.vars()),
            b0.vars() + n <= u32::MAX,
            b.vars() == b0.vars() + i,
            b.drained_count() == b0.drained_count(),
            extends(b0, *b),
            r@.len() == i,
            lits_below(r@, b.vars()),
            forall|m: Assignment| #[trigger] b.models(m) ==> forall|k: int| 0 <= k < r@.len()
                ==> lit_holds(m, #[trigger] r@[k]) == gate_fn(g, lit_holds(m, x@[k]), lit_holds(m, y@[k])),
        decreases n - i,
    {
        let ghost bi = *b;
        let ghost ri = r@;
        assert(x@[i as int].var < b0.vars() && y@[i as int].var < b0.vars());
        let o = match g {
            Gate2::And => b.and2(x[i], y[i]),
            Gate2::Or => b.or2(x[i], y[i]),
            Gate2::Xor => b.xor2(x[i], y[i]),
        };
        r.push(o);
        proof {
            lemma_extends_trans(b0, bi, *b);
            assert forall|m: Assignment| #[trigger] b.models(m) implies forall|k: int| 0 <= k < r@.len()
                ==> lit_holds(m, #[trigger] r@[k]) == gate_fn(g, lit_holds(m, x@[k]), lit_holds(m, y@[k])) by {
                assert(bi.models(m));
                assert forall|k: int| 0 <= k < r@.len() implies lit_holds(m, #[trigger] r@[k]) == gate_fn(g, lit_holds(m, x@[k]), lit_holds(m, y@[k])) by {
                    if k < i {
                        assert(r@[k] == ri[k]);
                    }
                }
            }
        }
        i = i + 1;
    }
    r
}

/// Bitwise conjunction.
pub fn bvand(b: &mut Blaster, x: &[BitLit], y: &[BitLit]) -> (r: Vec<BitLit>)
    requires
        old(b).wf(),
        x@.len() == y@.len(),
        lits_below(x@, old(b).vars()),
        lits_below(y@, old(b).vars()),
        old(b).vars() + x@.len() <= u32::MAX,
    ensures
        final(b).wf(),
        final(b).vars() == old(b).vars() + x@.len(),
        final(b).drained_count() == old(b).drained_count(),
        extends(*old(b), *final(b)),
        r@.len() == x@.len(),
        lits_below(r@, final(b).vars()),
        forall|m: Assignment| #[trigger] final(b).models(m) ==> forall|i: int| 0 <= i < r@.len()
            ==> lit_holds(m, #[trigger] r@[i]) == (lit_holds(m, x@[i]) && lit_holds(m, y@[i])),
{
    zip_map(b, x, y, Gate2::And)
}

/// Bitwise disjunction.
pub fn bvor(b: &mut Blaster, x: &[BitLit], y: &[BitLit]) -> (r: Vec<BitLit>)
    requires
        old(b).wf(),
        x@.len() == y@.len(),
        lits_below(x@, old(b).vars()),
        lits_below(y@, old(b).vars()),
        old(b).vars() + x@.len() <= u32::MAX,
    ensures
        final(b).wf(),
        final(b).vars() == old(b).vars() + x@.len(),
        final(b).drained_count() == old(b).drained_count(),
        extends(*old(b), *final(b)),
        r@.len() == x@.len(),
        lits_below(r@, final(b).vars()),
        forall|m: Assignment| #[trigger] final(b).models(m) ==> forall|i: int| 0 <= i < r@.len()
            ==> lit_holds(m, #[trigger] r@[i]) == (lit_holds(m, x@[i]) || lit_holds(m, y@[i])),
{
    zip_map(b, x, y, Gate2::Or)
}

/// Bitwise exclusive or.
pub fn bvxor(b: &mut Blaster, x: &[BitLit], y: &[BitLit]) -> (r: Vec<BitLit>)
    requires
        old(b).wf(),
        x@.len() == y@.len(),
        lits_below(x@, old(b).vars()),
        lits_below(y@, old(b).vars()),
        old(b).vars() + x@.len() <= u32::MAX,
    ensures
        final(b).wf(),
        final(b).vars() == old(b).vars() + x@.len(),
        final(b).drained_count() == old(b).drained_count(),
        extends(*old(b), *final(b)),
        r@.len() == x@.len(),
        lits_below(r@, final(b).vars()),
        forall|m: Assignment| #[trigger] final(b).models(m) ==> forall|i: int| 0 <= i < r@.len()
            ==> lit_holds(m, #[trigger] r@[i]) == (lit_holds(m, x@[i]) != lit_holds(m, y@[i])),
{
    zip_map(b, x, y, Gate2::Xor)
}

/// Bitwise complement: each literal negated, no clauses and no variables.
pub fn bvnot(b: &mut Blaster, x: &[BitLit]) -> (r: Vec<BitLit>)
    ensures
        *final(b) == *old(b),
        r@.len() == x@.len(),
        forall|i: int| 0 <= i < r@.len() ==> #[trigger] r@[i] == x@[i].negate_spec(),
{
    let mut r: Vec<BitLit> = Vec::new();
    let mut i: usize = 0;
    while i < x.len()
        invariant
            0 <= i <= x@.len(),
            r@.len() == i,
            forall|k: int| 0 <= k < i ==> #[trigger] r@[k] == x@[k].negate_spec(),
        decreases x@.len() - i,
    {
        r.push(b.not1(x[i]));
        i = i + 1;
    }
    r
}

/// Bitwise complement of the conjunction.
pub fn bvnand(b: &mut Blaster, x: &[BitLit], y: &[BitLit]) -> (r: Vec<BitLit>)
    requires
        old(b).wf(),
        x@.len() == y@.len(),
        lits_below(x@, old(b).vars()),
        lits_below(y@, old(b).vars()),
        old(b).vars() + x@.len() <= u32::MAX,
    ensures
        final(b).wf(),
        final(b).vars() == old(b).vars() + x@.len(),
        final(b).drained_count() == old(b).drained_count(),
        extends(*old(b), *final(b)),
        r@.len() == x@.len(),
        lits_below(r@, final(b).vars()),
        forall|m: Assignment| #[trigger] final(b).models(m) ==> forall|i: int| 0 <= i < r@.len()
            ==> lit_holds(m, #[trigger] r@[i]) == !(lit_holds(m, x@[i]) && lit_holds(m, y@[i])),
{
    let t = bvand(b, x, y);
    let r = bvnot(b, t.as_slice());
    proof {
        assert forall|m: Assignment| #[trigger] b.models(m) implies forall|i: int| 0 <= i < r@.len()
            ==> lit_holds(m, #[trigger] r@[i]) == !(lit_holds(m, x@[i]) && lit_holds(m, y@[i])) by {
            assert forall|i: int| 0 <= i < r@.len() implies lit_holds(m, #[trigger] r@[i]) == !(lit_holds(m, x@[i]) && lit_holds(m, y@[i])) by {
                assert(r@[i] == t@[i].negate_spec());
                assert(lit_holds(m, t@[i]) == (lit_holds(m, x@[i]) && lit_holds(m, y@[i])));
            }
        }
    }
    r
}

/// Bitwise complement of the disjunction.
pub fn bvnor(b: &mut Blaster, x: &[BitLit], y: &[BitLit]) -> (r: Vec<BitLit>)
    requires
        old(b).wf(),
        x@.len() == y@.len(),
        lits_below(x@, old(b).vars()),
        lits_below(y@, old(b).vars()),
        old(b).vars() + x@.len() <= u32::MAX,
    ensures
        final(b).wf(),
        final(b).vars() == old(b).vars() + x@.len(),
        final(b).drained_count() == old(b).drained_count(),
        extends(*old(b), *final(b)),
        r@.len() == x@.len(),
        lits_below(r@, final(b).vars()),
        forall|m: Assignment| #[trigger] final(b).models(m) ==> forall|i: int| 0 <= i < r@.len()
            ==> lit_holds(m, #[trigger] r@[i]) == !(lit_holds(m, x@[i]) || lit_holds(m, y@[i])),
{
    let t = bvor(b, x, y);
    let r = bvnot(b, t.as_slice());
    proof {
        assert forall|m: Assignment| #[trigger] b.models(m) implies forall|i: int| 0 <= i < r@.len()
            ==> lit_holds(m, #[trigger] r@[i]) == !(lit_holds(m, x@[i]) || lit_holds(m, y@[i])) by {
            assert forall|i: int| 0 <= i < r@.len() implies lit_holds(m, #[trigger] r@[i]) == !(lit_holds(m, x@[i]) || lit_holds(m, y@[i])) by {
                assert(r@[i] == t@[i].negate_spec());
                assert(lit_holds(m, t@[i]) == (lit_holds(m, x@[i]) || lit_holds(m, y@[i])));
            }
        }
    }
    r
}

/// Bitwise complement of the exclusive or.
pub fn bvxnor(b: &mut Blaster, x: &[BitLit], y: &[BitLit]) -> (r: Vec<BitLit>)
    requires
        old(b).wf(),
        x@.len() == y@.len(),
        lits_below(x@, old(b).vars()),
        lits_below(y@, old(b).vars()),
        old(b).vars() + x@.len() <= u32::MAX,
    ensures
        final(b).wf(),
        final(b).vars() == old(b).vars() + x@.len(),
        final(b).drained_count() == old(b).drained_count(),
        extends(*old(b), *final(b)),
        r@.len() == x@.len(),
        lits_below(r@, final(b).vars()),
        forall|m: Assignment| #[trigger] final(b).models(m) ==> forall|i: int| 0 <= i < r@.len()
            ==> lit_holds(m, #[trigger] r@[i]) == (lit_holds(m, x@[i]) == lit_holds(m, y@[i])),
{
    let t = bvxor(b, x, y);
    let r = bvnot(b, t.as_slice());
    proof {
        assert forall|m: Assignment| #[trigger] b.models(m) implies forall|i: int| 0 <= i < r@.len()
            ==> lit_holds(m, #[trigger] r@[i]) == (lit_holds(m, x@[i]) == lit_holds(m, y@[i])) by {
            assert forall|i: int| 0 <= i < r@.len() implies lit_holds(m, #[trigger] r@[i]) == (lit_holds(m, x@[i]) == lit_holds(m, y@[i])) by {
                assert(r@[i] == t@[i].negate_spec());
                assert(lit_holds(m, t@[i]) == (lit_holds(m, x@[i]) != lit_holds(m, y@[i])));
            }
        }
    }
    r
}

} // verus!
