//! What a CNF means: truth of literals, clauses and clause lists under an
//! assignment of Booleans to variables, and the number a list of literals
//! denotes (least significant bit first).
use crate::bv::blast::BitLit;
use vstd::arithmetic::mul::lemma_mul_is_distributive_add;
use vstd::arithmetic::power2::*;
use vstd::prelude::*;

verus! {

/// An assignment of a truth value to every variable.
pub type Assignment = spec_fn(u32) -> bool;

/// Truth of a literal under `m`.
pub open spec fn lit_holds(m: Assignment, l: BitLit) -> bool {
    m(l.var) == l.pos
}

/// 1 when the literal is true under `m`, else 0.
pub open spec fn bit_of(m: Assignment, l: BitLit) -> nat {
    if lit_holds(m, l) { 1 } else { 0 }
}

/// A clause is true when one of its literals is.
pub open spec fn clause_holds(m: Assignment, c: Seq<BitLit>) -> bool {
    exists|i: int| 0 <= i < c.len() && lit_holds(m, #[trigger] c[i])
}

/// A clause list is true when each of its clauses is.
#[verifier::opaque]
pub open spec fn cnf_holds(m: Assignment, cs: Seq<Seq<BitLit>>) -> bool {
    forall|j: int| 0 <= j < cs.len() ==> clause_holds(m, #[trigger] cs[j])
}

/// Every literal of every clause names a variable below `n`.
pub open spec fn clauses_below(cs: Seq<Seq<BitLit>>, n: nat) -> bool {
    forall|j: int, i: int| 0 <= j < cs.len() && 0 <= i < cs[j].len() ==> (#[trigger] cs[j][i]).var < n
}

/// Every literal of `w` names a variable below `n`.
pub open spec fn lits_below(w: Seq<BitLit>, n: nat) -> bool {
    forall|i: int| 0 <= i < w.len() ==> (#[trigger] w[i]).var < n
}

/// `m1` and `m2` agree on every variable below `n`.
pub open spec fn agree_below(m1: Assignment, m2: Assignment, n: nat) -> bool {
    forall|v: u32| #![trigger m1(v), m2(v)] (v as nat) < n ==> m1(v) == m2(v)
}

/// The unsigned number denoted by `w` under `m`, `w[0]` least significant.
pub open spec fn word_val(m: Assignment, w: Seq<BitLit>) -> nat
    decreases w.len(),
{
    if w.len() == 0 {
        0
    } else {
        word_val(m, w.drop_last()) + (if lit_holds(m, w.last()) { pow2((w.len() - 1) as nat) } else { 0 })
    }
}

/// The two's-complement signed number denoted by a non-empty `w`.
pub open spec fn word_sval(m: Assignment, w: Seq<BitLit>) -> int {
    word_val(m, w) - pow2(w.len()) * bit_of(m, w.last())
}

/// The bits of `w` under `m`, as Booleans.
pub open spec fn word_bits(m: Assignment, w: Seq<BitLit>) -> Seq<bool> {
    w.map_values(|l: BitLit| lit_holds(m, l))
}

/// A clause list that speaks only of variables below `n` keeps its truth
/// value under any assignment that agrees below `n`.
pub proof fn lemma_cnf_agree(m1: Assignment, m2: Assignment, cs: Seq<Seq<BitLit>>, n: nat)
    requires
        clauses_below(cs, n),
        agree_below(m1, m2, n),
    ensures
        cnf_holds(m1, cs) == cnf_holds(m2, cs),
{
    reveal(cnf_holds);
    assert forall|j: int| 0 <= j < cs.len() implies clause_holds(m1, #[trigger] cs[j]) == clause_holds(m2, cs[j]) by {
        if clause_holds(m1, cs[j]) {
            let i = choose|i: int| 0 <= i < cs[j].len() && lit_holds(m1, #[trigger] cs[j][i]);
            assert(cs[j][i].var < n);
            assert(m1(cs[j][i].var) == m2(cs[j][i].var));
            assert(lit_holds(m2, cs[j][i]));
        }
        if clause_holds(m2, cs[j]) {
            let i = choose|i: int| 0 <= i < cs[j].len() && lit_holds(m2, #[trigger] cs[j][i]);
            assert(cs[j][i].var < n);
            assert(m1(cs[j][i].var) == m2(cs[j][i].var));
            assert(lit_holds(m1, cs[j][i]));
        }
    }
}

/// A prefix of a true clause list is true.
pub proof fn lemma_cnf_prefix(m: Assignment, small: Seq<Seq<BitLit>>, big: Seq<Seq<BitLit>>)
    requires
        small.is_prefix_of(big),
        cnf_holds(m, big),
    ensures
        cnf_holds(m, small),
{
    reveal(cnf_holds);
    assert forall|j: int| 0 <= j < small.len() implies clause_holds(m, #[trigger] small[j]) by {
        assert(small[j] == big[j]);
    }
}

/// Word values depend only on the truth of the word's literals.
pub proof fn lemma_word_val_agree(m1: Assignment, m2: Assignment, w: Seq<BitLit>, n: nat)
    requires
        lits_below(w, n),
        agree_below(m1, m2, n),
    ensures
        word_val(m1, w) == word_val(m2, w),
    decreases w.len(),
{
    if w.len() > 0 {
        lemma_word_val_agree(m1, m2, w.drop_last(), n);
        assert(w.last().var < n);
        assert(m1(w.last().var) == m2(w.last().var));
    }
}

/// A word is below `2^len`.
pub proof fn lemma_word_val_bound(m: Assignment, w: Seq<BitLit>)
    ensures
        word_val(m, w) < pow2(w.len()),
    decreases w.len(),
{
    if w.len() == 0 {
        lemma_pow2_pos(0);
        assert(pow2(0) == 1) by { lemma2_to64(); }
    } else {
        lemma_word_val_bound(m, w.drop_last());
        lemma_pow2_unfold(w.len());
    }
}

/// The value of a concatenation, low part first.
pub proof fn lemma_word_val_concat(m: Assignment, lo: Seq<BitLit>, hi: Seq<BitLit>)
    ensures
        word_val(m, lo + hi) == word_val(m, lo) + pow2(lo.len()) * word_val(m, hi),
    decreases hi.len(),
{
    if hi.len() == 0 {
        assert(lo + hi =~= lo);
        assert(word_val(m, hi) == 0);
    } else {
        let w = lo + hi;
        let k = (hi.len() - 1) as nat;
        assert(w.drop_last() =~= lo + hi.drop_last());
        lemma_word_val_concat(m, lo, hi.drop_last());
        assert(w.last() == hi.last());
        assert((w.len() - 1) as nat == lo.len() + k);
        lemma_pow2_adds(lo.len(), k);
        let p = pow2(lo.len());
        let q = pow2(k);
        let hv = word_val(m, hi.drop_last());
        if lit_holds(m, hi.last()) {
            assert(word_val(m, w) == word_val(m, lo) + p * hv + p * q);
            assert(word_val(m, hi) == hv + q);
            lemma_mul_is_distributive_add(p as int, hv as int, q as int);
            assert(p * word_val(m, hi) == p * hv + p * q);
        } else {
            assert(word_val(m, w) == word_val(m, lo) + p * hv);
            assert(word_val(m, hi) == hv);
        }
        assert(word_val(m, lo + hi) == word_val(m, w));
    }
}

/// The value of a word whose first literal is split off.
pub proof fn lemma_word_val_first(m: Assignment, w: Seq<BitLit>)
    requires
        w.len() > 0,
    ensures
        word_val(m, w) == bit_of(m, w[0]) + 2 * word_val(m, w.drop_first()),
{
    lemma_word_val_concat(m, w.take(1), w.drop_first());
    assert(w.take(1) + w.drop_first() =~= w);
    assert(pow2(0) == 1 && pow2(1) == 2) by { lemma2_to64(); }
    assert(word_val(m, Seq::<BitLit>::empty()) == 0);
    assert(w.take(1).drop_last() =~= Seq::<BitLit>::empty());
    assert(w.take(1).last() == w[0]);
    assert(word_val(m, w.take(1)) == bit_of(m, w[0]));
}

/// Two words of one length with equal bit values denote equal numbers, and
/// conversely.
pub proof fn lemma_word_val_bits(m: Assignment, a: Seq<BitLit>, b: Seq<BitLit>)
    requires
        a.len() == b.len(),
    ensures
        (word_val(m, a) == word_val(m, b)) == (forall|i: int| 0 <= i < a.len() ==> lit_holds(m, #[trigger] a[i]) == lit_holds(m, b[i])),
    decreases a.len(),
{
    if a.len() > 0 {
        lemma_word_val_bits(m, a.drop_last(), b.drop_last());
        lemma_word_val_bound(m, a.drop_last());
        lemma_word_val_bound(m, b.drop_last());
        let k = (a.len() - 1) as nat;
        if forall|i: int| 0 <= i < a.len() ==> lit_holds(m, #[trigger] a[i]) == lit_holds(m, b[i]) {
            assert forall|i: int| 0 <= i < a.drop_last().len() implies lit_holds(m, #[trigger] a.drop_last()[i]) == lit_holds(m, b.drop_last()[i]) by {
                assert(a.drop_last()[i] == a[i]);
                assert(b.drop_last()[i] == b[i]);
            }
            assert(lit_holds(m, a[a.len() - 1]) == lit_holds(m, b[b.len() - 1]));
        }
        if word_val(m, a) == word_val(m, b) {
            // The top bits agree: otherwise one value is at least 2^k above the other.
            let av = word_val(m, a.drop_last());
            let bv = word_val(m, b.drop_last());
            if lit_holds(m, a.last()) != lit_holds(m, b.last()) {
                assert(false);
            }
            assert(av == bv);
            assert forall|i: int| 0 <= i < a.len() implies lit_holds(m, #[trigger] a[i]) == lit_holds(m, b[i]) by {
                if i < a.len() - 1 {
                    assert(a.drop_last()[i] == a[i]);
                    assert(b.drop_last()[i] == b[i]);
                }
            }
        }
    }
}

/// The bitwise complement of a word denotes `2^n - 1` minus the word.
pub proof fn lemma_word_val_not(m: Assignment, y: Seq<BitLit>, ny: Seq<BitLit>)
    requires
        ny.len() == y.len(),
        forall|i: int| 0 <= i < y.len() ==> lit_holds(m, #[trigger] ny[i]) == !lit_holds(m, y[i]),
    ensures
        word_val(m, ny) + word_val(m, y) + 1 == pow2(y.len()),
    decreases y.len(),
{
    if y.len() == 0 {
        assert(pow2(0) == 1) by { lemma2_to64(); }
    } else {
        let k = (y.len() - 1) as nat;
        assert forall|i: int| 0 <= i < y.drop_last().len() implies lit_holds(m, #[trigger] ny.drop_last()[i]) == !lit_holds(m, y.drop_last()[i]) by {
            assert(ny.drop_last()[i] == ny[i]);
            assert(y.drop_last()[i] == y[i]);
        }
        lemma_word_val_not(m, y.drop_last(), ny.drop_last());
        assert(lit_holds(m, ny[y.len() - 1]) == !lit_holds(m, y[y.len() - 1]));
        lemma_pow2_unfold(y.len());
    }
}

/// Appending a literal adds its weight.
pub proof fn lemma_word_val_push(m: Assignment, w: Seq<BitLit>, l: BitLit)
    ensures
        word_val(m, w.push(l)) == word_val(m, w) + (if lit_holds(m, l) { pow2(w.len()) } else { 0 }),
{
    assert(w.push(l).drop_last() =~= w);
}

/// A word denotes 0 exactly when none of its literals is true.
pub proof fn lemma_word_val_zero(m: Assignment, w: Seq<BitLit>)
    ensures
        (word_val(m, w) == 0) == (forall|i: int| 0 <= i < w.len() ==> !lit_holds(m, #[trigger] w[i])),
    decreases w.len(),
{
    if w.len() > 0 {
        lemma_word_val_zero(m, w.drop_last());
        lemma_pow2_pos((w.len() - 1) as nat);
        if forall|i: int| 0 <= i < w.len() ==> !lit_holds(m, #[trigger] w[i]) {
            assert forall|i: int| 0 <= i < w.drop_last().len() implies !lit_holds(m, #[trigger] w.drop_last()[i]) by {
                assert(w.drop_last()[i] == w[i]);
            }
            assert(!lit_holds(m, w[w.len() - 1]));
        }
        if word_val(m, w) == 0 {
            assert forall|i: int| 0 <= i < w.len() implies !lit_holds(m, #[trigger] w[i]) by {
                if i < w.len() - 1 {
                    assert(w.drop_last()[i] == w[i]);
                }
            }
        }
    }
}

/// The value of a word split at `k`.
pub proof fn lemma_word_val_split(m: Assignment, w: Seq<BitLit>, k: int)
    requires
        0 <= k <= w.len(),
    ensures
        word_val(m, w) == word_val(m, w.take(k)) + pow2(k as nat) * word_val(m, w.skip(k)),
{
    assert(w.take(k) + w.skip(k) =~= w);
    lemma_word_val_concat(m, w.take(k), w.skip(k));
}

/// The value of a prefix one literal longer.
pub proof fn lemma_word_val_take_succ(m: Assignment, w: Seq<BitLit>, k: int)
    requires
        0 <= k < w.len(),
    ensures
        word_val(m, w.take(k + 1)) == word_val(m, w.take(k)) + (if lit_holds(m, w[k]) { pow2(k as nat) } else { 0 }),
{
    assert(w.take(k + 1) =~= w.take(k).push(w[k]));
    lemma_word_val_push(m, w.take(k), w[k]);
}

} // verus!
