//! Structural gadgets: pure rearrangements of literals that add no clauses.
use crate::bv::blast::{true_lit, BitLit, Blaster};
use crate::bv::semantics::{lemma_word_val_concat, word_val, Assignment};
use vstd::arithmetic::power2::pow2;
use vstd::prelude::*;

verus! {

/// `s` repeated `k` times.
pub open spec fn repeat_seq(s: Seq<BitLit>, k: nat) -> Seq<BitLit>
    decreases k,
{
    if k == 0 {
        Seq::empty()
    } else {
        repeat_seq(s, (k - 1) as nat) + s
    }
}

fn push_all(v: &mut Vec<BitLit>, a: &[BitLit])
    ensures
        final(v)@ == old(v)@ + a@,
{
    let mut i: usize = 0;
    let ghost v0 = v@;
    while i < a.len()
        invariant
            0 <= i <= a@.len(),
            v@ == v0 + a@.take(i as int),
        decreases a@.len() - i,
    {
        v.push(a[i]);
        proof { assert(a@.take(i + 1) =~= a@.take(i as int).push(a@[i as int])); }
        i = i + 1;
    }
    proof { assert(a@.take(a@.len() as int) =~= a@); }
}

/// SMT-LIB `concat(hi, lo)`: `lo` supplies the low bits, `hi` the high ones.
pub fn concat(hi: &[BitLit], lo: &[BitLit]) -> (r: Vec<BitLit>)
    ensures
        r@ == lo@ + hi@,
        forall|m: Assignment| word_val(m, #[trigger] r@) == word_val(m, lo@) + pow2(lo@.len()) * word_val(m, hi@),
{
    let mut v: Vec<BitLit> = Vec::new();
    push_all(&mut v, lo);
    push_all(&mut v, hi);
    proof {
        assert(v@ =~= lo@ + hi@);
        assert forall|m: Assignment| word_val(m, #[trigger] v@) == word_val(m, lo@) + pow2(lo@.len()) * word_val(m, hi@) by {
            lemma_word_val_concat(m, lo@, hi@);
        }
    }
    v
}

/// Bits `lo..=hi` of `a`.
pub fn extract(a: &[BitLit], hi: u32, lo: u32) -> (r: Vec<BitLit>)
    requires
        lo <= hi,
        hi < a@.len(),
    ensures
        r@ == a@.subrange(lo as int, hi as int + 1),
{
    let mut v: Vec<BitLit> = Vec::new();
    let mut i: usize = lo as usize;
    while i <= hi as usize
        invariant
            lo as int <= i <= hi as int + 1,
            hi < a@.len(),
            v@ == a@.subrange(lo as int, i as int),
        decreases hi as int + 1 - i,
    {
        v.push(a[i]);
        proof { assert(v@ =~= a@.subrange(lo as int, i + 1)); }
        i = i + 1;
    }
    v
}

/// `a` followed by `k` copies of the false literal.
pub fn zero_extend(a: &[BitLit], k: u32, b: &Blaster) -> (r: Vec<BitLit>)
    requires
        a@.len() + k <= usize::MAX,
    ensures
        r@ == a@ + Seq::new(k as nat, |i: int| true_lit().negate_spec()),
{
    let mut v: Vec<BitLit> = Vec::new();
    push_all(&mut v, a);
    let z = b.zero();
    let mut i: u32 = 0;
    while i < k
        invariant
            0 <= i <= k,
            z == true_lit().negate_spec(),
            v@ == a@ + Seq::new(i as nat, |j: int| true_lit().negate_spec()),
        decreases k - i,
    {
        v.push(z);
        proof { assert(v@ =~= a@ + Seq::new((i + 1) as nat, |j: int| true_lit().negate_spec())); }
        i = i + 1;
    }
    v
}

/// `a` followed by `k` copies of its top literal.
pub fn sign_extend(a: &[BitLit], k: u32) -> (r: Vec<BitLit>)
    requires
        a@.len() >= 1,
        a@.len() + k <= usize::MAX,
    ensures
        r@ == a@ + Seq::new(k as nat, |i: int| a@.last()),
{
    let msb = a[a.len() - 1];
    let mut v: Vec<BitLit> = Vec::new();
    push_all(&mut v, a);
    let mut i: u32 = 0;
    while i < k
        invariant
            0 <= i <= k,
            msb == a@.last(),
            v@ == a@ + Seq::new(i as nat, |j: int| a@.last()),
        decreases k - i,
    {
        v.push(msb);
        proof { assert(v@ =~= a@ + Seq::new((i + 1) as nat, |j: int| a@.last())); }
        i = i + 1;
    }
    v
}

/// `a` repeated `k` times, the first copy lowest.
pub fn repeat(a: &[BitLit], k: u32) -> (r: Vec<BitLit>)
    requires
        a@.len() * k <= usize::MAX,
    ensures
        r@ == repeat_seq(a@, k as nat),
{
    let mut v: Vec<BitLit> = Vec::new();
    let mut i: u32 = 0;
    while i < k
        invariant
            0 <= i <= k,
            a@.len() * k <= usize::MAX,
            v@ == repeat_seq(a@, i as nat),
        decreases k - i,
    {
        push_all(&mut v, a);
        i = i + 1;
    }
    v
}

} // verus!
