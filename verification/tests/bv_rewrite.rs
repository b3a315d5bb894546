use shinri::bv::blast::word::{BvTerms, TermBlaster};
use shinri::bv::blast::{BitLit, Cnf};
use shinri::bv::rewrite::rewrite;
use shinri::bv::terms::{BvAtom, BvNode};

fn lit_value(assign: &[Option<bool>], l: BitLit) -> Option<bool> {
    assign[l.var as usize].map(|v| if l.pos { v } else { !v })
}

/// Unit propagation to a fixpoint; false on a conflict.
fn propagate(clauses: &[Vec<BitLit>], assign: &mut Vec<Option<bool>>) -> bool {
    loop {
        let mut changed = false;
        for c in clauses {
            let mut satisfied = false;
            let mut open: Option<BitLit> = None;
            let mut n_open = 0;
            for &l in c {
                match lit_value(assign, l) {
                    Some(true) => {
                        satisfied = true;
                        break;
                    }
                    Some(false) => {}
                    None => {
                        n_open += 1;
                        open = Some(l);
                    }
                }
            }
            if satisfied {
                continue;
            }
            if n_open == 0 {
                return false;
            }
            if n_open == 1 {
                let l = open.unwrap();
                assign[l.var as usize] = Some(l.pos);
                changed = true;
            }
        }
        if !changed {
            return true;
        }
    }
}

/// A small DPLL search; the satisfying assignment, if any.
fn dpll(clauses: &[Vec<BitLit>], mut assign: Vec<Option<bool>>) -> Option<Vec<Option<bool>>> {
    if !propagate(clauses, &mut assign) {
        return None;
    }
    let mut pick: Option<u32> = None;
    'outer: for c in clauses {
        if c.iter().any(|&l| lit_value(&assign, l) == Some(true)) {
            continue;
        }
        for &l in c {
            if assign[l.var as usize].is_none() {
                pick = Some(l.var);
                break 'outer;
            }
        }
    }
    match pick {
        None => Some(assign),
        Some(v) => {
            for val in [true, false] {
                let mut a = assign.clone();
                a[v as usize] = Some(val);
                if let Some(done) = dpll(clauses, a) {
                    return Some(done);
                }
            }
            None
        }
    }
}

fn solve_cnf(cnf: &Cnf) -> Vec<bool> {
    let assign = vec![None; cnf.num_vars as usize];
    let model = dpll(&cnf.clauses, assign).expect("expected SAT but got UNSAT");
    model.into_iter().map(|v| v.unwrap_or(false)).collect()
}

fn pack_bits(model: &[bool], bits: &[BitLit]) -> u64 {
    let mut out: u64 = 0;
    for (i, bl) in bits.iter().enumerate() {
        let raw = model[bl.var as usize];
        let bit_val = if bl.pos { raw } else { !raw };
        if bit_val {
            out |= 1u64 << i;
        }
    }
    out
}

fn is_unsat(cnf: &Cnf) -> bool {
    let assign = vec![None; cnf.num_vars as usize];
    dpll(&cnf.clauses, assign).is_none()
}

/// A constant term of width `w` holding the low bits of `v`.
fn bv_const(v: u64, w: u32) -> BvNode {
    BvNode::Const((0..w).map(|i| (v >> i) & 1 == 1).collect())
}

/// The value of term `t` when it is a constant.
fn const_value(ctx: &BvTerms, t: usize) -> Option<u64> {
    match &ctx.nodes[t] {
        BvNode::Const(bits) => {
            Some(bits.iter().enumerate().fold(0u64, |acc, (i, &b)| if b { acc | (1u64 << i) } else { acc }))
        }
        _ => None,
    }
}

/// Blast term `t` alone and read its value from a model.
fn solve_term(ctx: &BvTerms, t: usize) -> u64 {
    let mut tb = TermBlaster::new();
    let bits = tb.blast_word(ctx, t);
    let cnf = tb.finish();
    let model = solve_cnf(&cnf);
    pack_bits(&model, &bits)
}

/// Terms `t` and `u` can never differ.
fn assert_equivalent(ctx: &BvTerms, t: usize, u: usize) {
    let mut tb = TermBlaster::new();
    let differ = tb.blast_atom(ctx, BvAtom::Distinct(t, u));
    let mut cnf = tb.finish();
    cnf.clauses.push(vec![differ]);
    assert!(is_unsat(&cnf), "miter is SAT: the rewrite changed the meaning");
}

/// Rewrite `op(x, c)` for an 8-bit variable `x` and constant `c`.
fn var_op_const(op: fn(usize, usize) -> BvNode, c: u64) -> (BvTerms, usize, usize, usize) {
    let mut ctx = BvTerms::new();
    let x = ctx.push(BvNode::Var(8));
    let k = ctx.push(bv_const(c, 8));
    let t = ctx.push(op(x, k));
    let r = rewrite(&mut ctx, t);
    (ctx, x, t, r)
}

/// Rewrite `op(a, b)` over two 8-bit constants.
fn const_op_const(op: fn(usize, usize) -> BvNode, a: u64, b: u64) -> (BvTerms, usize, usize) {
    let mut ctx = BvTerms::new();
    let ka = ctx.push(bv_const(a, 8));
    let kb = ctx.push(bv_const(b, 8));
    let t = ctx.push(op(ka, kb));
    let r = rewrite(&mut ctx, t);
    (ctx, t, r)
}

#[test]
fn folds_constants_and_identities() {
    let (ctx, _t, r) = const_op_const(BvNode::Add, 20, 22);
    assert_eq!(const_value(&ctx, r), Some(42), "20 + 22 should fold to 42");

    let (_ctx, x, _t, r) = var_op_const(BvNode::Add, 0);
    assert_eq!(r, x, "x + 0 should simplify to x");
}

#[test]
fn const_fold_wrap_around() {
    let (ctx, _t, r) = const_op_const(BvNode::Add, 200, 100);
    assert_eq!(const_value(&ctx, r), Some(44));
}

#[test]
fn identity_sub_zero() {
    let (_ctx, x, _t, r) = var_op_const(BvNode::Sub, 0);
    assert_eq!(r, x, "x - 0 should be x");
}

#[test]
fn identity_sub_self() {
    let mut ctx = BvTerms::new();
    let x = ctx.push(BvNode::Var(8));
    let t = ctx.push(BvNode::Sub(x, x));
    let r = rewrite(&mut ctx, t);
    assert_eq!(const_value(&ctx, r), Some(0), "x - x should be 0");
}

#[test]
fn identity_and_all_ones() {
    let (_ctx, x, _t, r) = var_op_const(BvNode::And, 0xFF);
    assert_eq!(r, x, "x & 0xFF should be x");
}

#[test]
fn identity_and_zero() {
    let (ctx, _x, _t, r) = var_op_const(BvNode::And, 0);
    assert_eq!(const_value(&ctx, r), Some(0), "x & 0 should be 0");
}

#[test]
fn identity_or_zero() {
    let (_ctx, x, _t, r) = var_op_const(BvNode::Or, 0);
    assert_eq!(r, x, "x | 0 should be x");
}

#[test]
fn identity_or_all_ones() {
    let (ctx, _x, _t, r) = var_op_const(BvNode::Or, 0xFF);
    assert_eq!(const_value(&ctx, r), Some(0xFF), "x | 0xFF should be 0xFF");
}

#[test]
fn identity_xor_zero() {
    let (_ctx, x, _t, r) = var_op_const(BvNode::Xor, 0);
    assert_eq!(r, x, "x ^ 0 should be x");
}

#[test]
fn identity_shl_zero() {
    let (_ctx, x, _t, r) = var_op_const(BvNode::Shl, 0);
    assert_eq!(r, x, "x << 0 should be x");
}

#[test]
fn idempotent() {
    let mut ctx = BvTerms::new();
    let a = ctx.push(bv_const(10, 8));
    let b = ctx.push(bv_const(5, 8));
    let add = ctx.push(BvNode::Add(a, b));
    let r1 = rewrite(&mut ctx, add);
    let r2 = rewrite(&mut ctx, r1);
    assert_eq!(r1, r2, "rewrite(rewrite(t)) == rewrite(t)");

    let x = ctx.push(BvNode::Var(8));
    let zero = ctx.push(bv_const(0, 8));
    let add0 = ctx.push(BvNode::Add(x, zero));
    let r3 = rewrite(&mut ctx, add0);
    let r4 = rewrite(&mut ctx, r3);
    assert_eq!(r3, r4, "rewrite(rewrite(x+0)) == rewrite(x+0)");

    let r5 = rewrite(&mut ctx, x);
    assert_eq!(r5, x, "rewrite(x) == x for a variable");
    let r6 = rewrite(&mut ctx, r5);
    assert_eq!(r5, r6, "rewrite(rewrite(x)) == x");
}

fn check_const_fold(op: fn(usize, usize) -> BvNode, a: u64, b: u64) {
    let (ctx, t, r) = const_op_const(op, a, b);
    assert_eq!(solve_term(&ctx, t), solve_term(&ctx, r), "miter: const fold of {a} and {b}");
}

#[test]
fn miter_const_fold_bvadd() {
    check_const_fold(BvNode::Add, 200, 100);
}

#[test]
fn miter_const_fold_bvsub() {
    check_const_fold(BvNode::Sub, 5, 9);
}

#[test]
fn miter_const_fold_bvand() {
    check_const_fold(BvNode::And, 0b10110101, 0b11001100);
}

#[test]
fn miter_const_fold_bvor() {
    check_const_fold(BvNode::Or, 0b10110101, 0b01001100);
}

#[test]
fn miter_const_fold_bvxor() {
    check_const_fold(BvNode::Xor, 0b10110101, 0b01001100);
}

#[test]
fn miter_const_fold_bvnot() {
    let mut ctx = BvTerms::new();
    let a = ctx.push(bv_const(0b10110101, 8));
    let not = ctx.push(BvNode::Not(a));
    let rw = rewrite(&mut ctx, not);
    assert_eq!(solve_term(&ctx, not), solve_term(&ctx, rw), "miter: const fold bvnot");
}

#[test]
fn miter_const_fold_bvneg() {
    for v in [0u64, 1, 128, 255] {
        let mut ctx = BvTerms::new();
        let a = ctx.push(bv_const(v, 8));
        let neg = ctx.push(BvNode::Neg(a));
        let rw = rewrite(&mut ctx, neg);
        assert_eq!(solve_term(&ctx, neg), solve_term(&ctx, rw), "miter: const fold bvneg({v})");
    }
}

#[test]
fn miter_const_fold_bvshl() {
    for (x, sh) in [(0b10110101u64, 2u64), (0xFF, 0), (0x80, 7), (0x01, 8)] {
        let (ctx, t, r) = const_op_const(BvNode::Shl, x, sh);
        assert_eq!(solve_term(&ctx, t), solve_term(&ctx, r), "miter: const fold bvshl x={x:#x} sh={sh}");
    }
}

fn check_identity_miter(op: fn(usize, usize) -> BvNode, c: u64) {
    let (ctx, _x, t, r) = var_op_const(op, c);
    assert_equivalent(&ctx, t, r);
}

#[test]
fn miter_identity_bvadd_zero() {
    check_identity_miter(BvNode::Add, 0);
}

#[test]
fn miter_identity_bvsub_zero() {
    check_identity_miter(BvNode::Sub, 0);
}

#[test]
fn miter_identity_bvsub_self() {
    let mut ctx = BvTerms::new();
    let x = ctx.push(BvNode::Var(8));
    let t = ctx.push(BvNode::Sub(x, x));
    let rw = rewrite(&mut ctx, t);
    assert_equivalent(&ctx, t, rw);
}

#[test]
fn miter_identity_bvand_all_ones() {
    check_identity_miter(BvNode::And, 0xFF);
}

#[test]
fn miter_identity_bvand_zero() {
    check_identity_miter(BvNode::And, 0);
}

#[test]
fn miter_identity_bvor_zero() {
    check_identity_miter(BvNode::Or, 0);
}

#[test]
fn miter_identity_bvor_all_ones() {
    check_identity_miter(BvNode::Or, 0xFF);
}

#[test]
fn miter_identity_bvxor_zero() {
    check_identity_miter(BvNode::Xor, 0);
}

#[test]
fn miter_identity_bvshl_zero() {
    check_identity_miter(BvNode::Shl, 0);
}

#[test]
fn miter_structural_extract_of_extract() {
    let mut ctx = BvTerms::new();
    let x = ctx.push(BvNode::Var(8));
    let inner = ctx.push(BvNode::Extract(x, 7, 1));
    let outer = ctx.push(BvNode::Extract(inner, 5, 2));
    let rw = rewrite(&mut ctx, outer);
    assert_equivalent(&ctx, outer, rw);
}

#[test]
fn miter_structural_extract_entirely_in_lo() {
    let mut ctx = BvTerms::new();
    let hi = ctx.push(BvNode::Var(4));
    let lo = ctx.push(BvNode::Var(4));
    let cat = ctx.push(BvNode::Concat(hi, lo));
    let ext = ctx.push(BvNode::Extract(cat, 2, 1));
    let rw = rewrite(&mut ctx, ext);
    assert_equivalent(&ctx, ext, rw);
}

#[test]
fn miter_structural_extract_entirely_in_hi() {
    let mut ctx = BvTerms::new();
    let hi = ctx.push(BvNode::Var(4));
    let lo = ctx.push(BvNode::Var(4));
    let cat = ctx.push(BvNode::Concat(hi, lo));
    let ext = ctx.push(BvNode::Extract(cat, 6, 5));
    let rw = rewrite(&mut ctx, ext);
    assert_equivalent(&ctx, ext, rw);
}

// The shapes each rule produces.

#[test]
fn extract_of_extract_becomes_one_extract() {
    let mut ctx = BvTerms::new();
    let x = ctx.push(BvNode::Var(8));
    let inner = ctx.push(BvNode::Extract(x, 7, 1));
    let outer = ctx.push(BvNode::Extract(inner, 5, 2));
    let rw = rewrite(&mut ctx, outer);
    assert!(matches!(ctx.nodes[rw], BvNode::Extract(a, 6, 3) if a == x));
}

#[test]
fn extract_inside_concat_parts() {
    let mut ctx = BvTerms::new();
    let hi = ctx.push(BvNode::Var(4));
    let lo = ctx.push(BvNode::Var(4));
    let cat = ctx.push(BvNode::Concat(hi, lo));
    let in_lo = ctx.push(BvNode::Extract(cat, 2, 1));
    let in_hi = ctx.push(BvNode::Extract(cat, 6, 5));
    let across = ctx.push(BvNode::Extract(cat, 5, 2));
    let r_lo = rewrite(&mut ctx, in_lo);
    let r_hi = rewrite(&mut ctx, in_hi);
    let r_across = rewrite(&mut ctx, across);
    assert!(matches!(ctx.nodes[r_lo], BvNode::Extract(a, 2, 1) if a == lo));
    assert!(matches!(ctx.nodes[r_hi], BvNode::Extract(a, 2, 1) if a == hi));
    assert_eq!(r_across, across, "a range across both parts is left alone");
}

#[test]
fn folding_reaches_through_nested_terms() {
    // ((3 + 4) << 1) & x: the constant part folds to 14, and x & 14 stays.
    let mut ctx = BvTerms::new();
    let x = ctx.push(BvNode::Var(8));
    let three = ctx.push(bv_const(3, 8));
    let four = ctx.push(bv_const(4, 8));
    let one = ctx.push(bv_const(1, 8));
    let sum = ctx.push(BvNode::Add(three, four));
    let sh = ctx.push(BvNode::Shl(sum, one));
    let t = ctx.push(BvNode::And(sh, x));
    let r = rewrite(&mut ctx, t);
    match ctx.nodes[r] {
        BvNode::And(a, b) => {
            assert_eq!(const_value(&ctx, a), Some(14));
            assert_eq!(b, x);
        }
        _ => panic!("expected an and over the folded constant"),
    }
    assert_equivalent(&ctx, t, r);
}

#[test]
fn fold_sub_and_neg_wrap() {
    let (ctx, _t, r) = const_op_const(BvNode::Sub, 5, 9);
    assert_eq!(const_value(&ctx, r), Some(252));
    let mut ctx = BvTerms::new();
    let a = ctx.push(bv_const(1, 8));
    let neg = ctx.push(BvNode::Neg(a));
    let r = rewrite(&mut ctx, neg);
    assert_eq!(const_value(&ctx, r), Some(255));
    let not = ctx.push(BvNode::Not(a));
    let r = rewrite(&mut ctx, not);
    assert_eq!(const_value(&ctx, r), Some(254));
}

#[test]
fn fold_shl_past_width_is_zero() {
    let (ctx, _t, r) = const_op_const(BvNode::Shl, 0x01, 8);
    assert_eq!(const_value(&ctx, r), Some(0));
    let (ctx, _t, r) = const_op_const(BvNode::Shl, 0x81, 1);
    assert_eq!(const_value(&ctx, r), Some(0x02));
}

#[test]
fn unhandled_operations_are_left_alone() {
    let (ctx, t, r) = const_op_const(BvNode::Udiv, 9, 3);
    assert_eq!(r, t, "division is left to the blaster");
    assert!(const_value(&ctx, r).is_none());
    let (_ctx, _x, t, r) = var_op_const(BvNode::Add, 1);
    assert_eq!(r, t, "x + 1 is left alone");
}

#[test]
fn extract_chains_simplify_to_a_fixpoint() {
    // extract[1:0](extract[5:2](concat(h, l))): merging the two extracts
    // gives extract[3:2](concat(h, l)), whose range lies inside `l`; the
    // pass keeps applying rules until none applies, so a second pass
    // changes nothing.
    let mut ctx = BvTerms::new();
    let h = ctx.push(BvNode::Var(4));
    let l = ctx.push(BvNode::Var(4));
    let cat = ctx.push(BvNode::Concat(h, l));
    let inner = ctx.push(BvNode::Extract(cat, 5, 2));
    let outer = ctx.push(BvNode::Extract(inner, 1, 0));
    let r1 = rewrite(&mut ctx, outer);
    assert!(matches!(ctx.nodes[r1], BvNode::Extract(a, 3, 2) if a == l));
    let len = ctx.nodes.len();
    let r2 = rewrite(&mut ctx, r1);
    assert_eq!(r2, r1);
    assert_eq!(ctx.nodes.len(), len, "the second pass adds nothing");
    assert_equivalent(&ctx, outer, r1);
}

#[test]
fn shared_subterms_are_simplified_once() {
    // (3 + 4) ^ (3 + 4) over one shared sum: the sum folds once to 7, the
    // xor is rebuilt over it once, and then folds to 0.
    let mut ctx = BvTerms::new();
    let three = ctx.push(bv_const(3, 8));
    let four = ctx.push(bv_const(4, 8));
    let sum = ctx.push(BvNode::Add(three, four));
    let t = ctx.push(BvNode::Xor(sum, sum));
    let before = ctx.nodes.len();
    let r = rewrite(&mut ctx, t);
    assert_eq!(const_value(&ctx, r), Some(0));
    assert_eq!(ctx.nodes.len(), before + 3, "one folded sum, one rebuilt xor, one folded xor");
    match ctx.nodes[before + 1] {
        BvNode::Xor(a, b) => {
            assert_eq!(a, b, "both operands are the one simplified sum");
            assert_eq!(const_value(&ctx, a), Some(7));
        }
        _ => panic!("expected the rebuilt xor"),
    }
}

#[test]
fn deep_terms_are_idempotent() {
    let mut ctx = BvTerms::new();
    let x = ctx.push(BvNode::Var(8));
    let three = ctx.push(bv_const(3, 8));
    let zero = ctx.push(bv_const(0, 8));
    let xz = ctx.push(BvNode::Add(x, zero));
    let sum = ctx.push(BvNode::Add(xz, three));
    let e = ctx.push(BvNode::Extract(sum, 6, 1));
    let t = ctx.push(BvNode::Extract(e, 3, 0));
    let r1 = rewrite(&mut ctx, t);
    let len = ctx.nodes.len();
    let r2 = rewrite(&mut ctx, r1);
    assert_eq!(r1, r2);
    assert_eq!(ctx.nodes.len(), len);
    assert!(matches!(ctx.nodes[r1], BvNode::Extract(_, 4, 1)));
    assert_equivalent(&ctx, t, r1);
}

#[test]
fn identity_mul_one() {
    let (_ctx, x, _t, r) = var_op_const(BvNode::Mul, 1);
    assert_eq!(r, x, "x * 1 should be x");
}

#[test]
fn identity_mul_zero() {
    let (ctx, _x, _t, r) = var_op_const(BvNode::Mul, 0);
    assert_eq!(const_value(&ctx, r), Some(0), "x * 0 should be 0");
}

#[test]
fn one_times_x_is_x() {
    let mut ctx = BvTerms::new();
    let x = ctx.push(BvNode::Var(8));
    let k = ctx.push(bv_const(1, 8));
    let t = ctx.push(BvNode::Mul(k, x));
    assert_eq!(rewrite(&mut ctx, t), x);
}

#[test]
fn products_of_constants_fold_modulo_the_width() {
    let (ctx, _t, r) = const_op_const(BvNode::Mul, 13, 20);
    assert_eq!(const_value(&ctx, r), Some(4), "13 * 20 = 260 = 4 mod 256");
    let (ctx, _t, r) = const_op_const(BvNode::Mul, 255, 255);
    assert_eq!(const_value(&ctx, r), Some(1));
}

#[test]
fn miter_const_fold_bvmul() {
    check_const_fold(BvNode::Mul, 13, 20);
}

#[test]
fn miter_identity_bvmul_one() {
    check_identity_miter(BvNode::Mul, 1);
}

#[test]
fn miter_identity_bvmul_zero() {
    check_identity_miter(BvNode::Mul, 0);
}

#[test]
fn blasted_products_are_products() {
    for (a, b) in [(13u64, 20u64), (255, 255), (0, 77), (3, 85)] {
        let mut ctx = BvTerms::new();
        let ka = ctx.push(bv_const(a, 8));
        let kb = ctx.push(bv_const(b, 8));
        let t = ctx.push(BvNode::Mul(ka, kb));
        assert_eq!(solve_term(&ctx, t), (a * b) & 0xFF);
    }
}
