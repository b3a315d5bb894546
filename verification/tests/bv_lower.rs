use shinri::bv::blast::word::BvTerms;
use shinri::bv::blast::{BitLit, Cnf};
use shinri::bv::lower::lower;
use shinri::bv::terms::{BvAtom, BvNode};

fn lit_value(assign: &[Option<bool>], l: BitLit) -> Option<bool> {
    assign[l.var as usize].map(|v| if l.pos { v } else { !v })
}

/// Unit propagation to a fixpoint; false on a conflict.
fn propagate(clauses: &[Vec<BitLit>], assign: &mut Vec<Option<bool>>) -> bool {
    loop {
        let mut changed = false;
        for c in clauses {
            let mut satisfied = false;
            let mut open: Option<BitLit> = None;
            let mut n_open = 0;
            for &l in c {
                match lit_value(assign, l) {
                    Some(true) => {
                        satisfied = true;
                        break;
                    }
                    Some(false) => {}
                    None => {
                        n_open += 1;
                        open = Some(l);
                    }
                }
            }
            if satisfied {
                continue;
            }
            if n_open == 0 {
                return false;
            }
            if n_open == 1 {
                let l = open.unwrap();
                assign[l.var as usize] = Some(l.pos);
                changed = true;
            }
        }
        if !changed {
            return true;
        }
    }
}

/// A small DPLL search; the satisfying assignment, if any.
fn dpll(clauses: &[Vec<BitLit>], mut assign: Vec<Option<bool>>) -> Option<Vec<Option<bool>>> {
    if !propagate(clauses, &mut assign) {
        return None;
    }
    let mut pick: Option<u32> = None;
    'outer: for c in clauses {
        if c.iter().any(|&l| lit_value(&assign, l) == Some(true)) {
            continue;
        }
        for &l in c {
            if assign[l.var as usize].is_none() {
                pick = Some(l.var);
                break 'outer;
            }
        }
    }
    match pick {
        None => Some(assign),
        Some(v) => {
            for val in [true, false] {
                let mut a = assign.clone();
                a[v as usize] = Some(val);
                if let Some(done) = dpll(clauses, a) {
                    return Some(done);
                }
            }
            None
        }
    }
}

fn solve_cnf(cnf: &Cnf) -> Vec<bool> {
    let assign = vec![None; cnf.num_vars as usize];
    let model = dpll(&cnf.clauses, assign).expect("expected SAT but got UNSAT");
    model.into_iter().map(|v| v.unwrap_or(false)).collect()
}

fn pack_bits(model: &[bool], bits: &[BitLit]) -> u64 {
    let mut out: u64 = 0;
    for (i, bl) in bits.iter().enumerate() {
        let raw = model[bl.var as usize];
        let bit_val = if bl.pos { raw } else { !raw };
        if bit_val {
            out |= 1u64 << i;
        }
    }
    out
}

/// A constant term of width `w` holding the low bits of `v`.
fn bv_const(v: u64, w: u32) -> BvNode {
    BvNode::Const((0..w).map(|i| (v >> i) & 1 == 1).collect())
}

fn lit_in(model: &[bool], l: BitLit) -> bool {
    if l.pos { model[l.var as usize] } else { !model[l.var as usize] }
}

/// The model's value of a variable, read from its bits.
fn var_value(model: &[bool], bits: &[BitLit]) -> u64 {
    pack_bits(model, bits)
}

/// Solve with variable `x`'s bits pinned to `v`.
fn solve_with_var(cnf: &Cnf, bits: &[BitLit], v: u64) -> Vec<bool> {
    let mut clauses = cnf.clauses.clone();
    for (i, b) in bits.iter().enumerate() {
        let want = (v >> i) & 1 == 1;
        clauses.push(vec![BitLit { var: b.var, pos: b.pos == want }]);
    }
    let pinned = Cnf { num_vars: cnf.num_vars, clauses };
    solve_cnf(&pinned)
}

#[test]
fn lower_produces_atom_lits_and_var_bits() {
    let mut ctx = BvTerms::new();
    let x = ctx.push(BvNode::Var(8));
    let c = ctx.push(bv_const(5, 8));
    let atom = BvAtom::Ult(x, c);
    let lo = lower(&mut ctx, &[atom]);
    assert_eq!(lo.atom_lit.len(), 1, "one literal for the one predicate");
    let xb = lo.var_bits.iter().find(|(v, _)| *v == x).expect("var_bits must contain the variable x");
    assert_eq!(xb.1.len(), 8, "x must have 8 bits");
    assert!(lo.cnf.num_vars >= 1, "CNF must have at least 1 variable");
}

#[test]
fn lower_atom_lit_keyed_by_original_not_rewritten() {
    let mut ctx = BvTerms::new();
    let x = ctx.push(BvNode::Var(8));
    let zero = ctx.push(bv_const(0, 8));
    let xplus0 = ctx.push(BvNode::Add(x, zero));
    let atom = BvAtom::Ult(xplus0, x);
    let lo = lower(&mut ctx, &[atom]);
    assert_eq!(lo.atom_lit.len(), 1);
    // (x + 0) < x is never true.
    let model = solve_cnf(&lo.cnf);
    assert!(!lit_in(&model, lo.atom_lit[0]));
}

#[test]
fn lower_const_atom_no_var_bits() {
    let mut ctx = BvTerms::new();
    let a = ctx.push(bv_const(3, 8));
    let b = ctx.push(bv_const(5, 8));
    let atom = BvAtom::Ult(a, b);
    let lo = lower(&mut ctx, &[atom]);
    assert_eq!(lo.atom_lit.len(), 1);
    assert!(lo.var_bits.is_empty(), "no BV variables -> var_bits must be empty");
    let model = solve_cnf(&lo.cnf);
    assert!(lit_in(&model, lo.atom_lit[0]), "bvult(3,5) must be true in any SAT model");
}

#[test]
fn lower_multiple_atoms_share_blaster() {
    let mut ctx = BvTerms::new();
    let x = ctx.push(BvNode::Var(8));
    let c1 = ctx.push(bv_const(3, 8));
    let c2 = ctx.push(bv_const(10, 8));
    let atom1 = BvAtom::Ult(x, c1);
    let atom2 = BvAtom::Ult(x, c2);
    let lo = lower(&mut ctx, &[atom1, atom2]);
    assert_eq!(lo.atom_lit.len(), 2);
    assert_eq!(lo.var_bits.len(), 1, "both predicates share the bits of x");
    assert_eq!(lo.var_bits[0].0, x);
    assert_eq!(lo.var_bits[0].1.len(), 8);
    assert_ne!(lo.atom_lit[0], lo.atom_lit[1]);
}

#[test]
fn converging_originals_share_one_atom_literal() {
    let mut ctx = BvTerms::new();
    let x = ctx.push(BvNode::Var(8));
    let zero = ctx.push(bv_const(0, 8));
    let seven = ctx.push(bv_const(7, 8));
    let x_plus_0 = ctx.push(BvNode::Add(x, zero));
    let lo = lower(&mut ctx, &[BvAtom::Ult(x, seven), BvAtom::Ult(x_plus_0, seven)]);
    assert_eq!(lo.atom_lit[0], lo.atom_lit[1], "converging predicates must share one literal");
}

#[test]
fn lower_literals_follow_the_variable() {
    let mut ctx = BvTerms::new();
    let x = ctx.push(BvNode::Var(8));
    let ten = ctx.push(bv_const(10, 8));
    let three = ctx.push(bv_const(3, 8));
    let sum = ctx.push(BvNode::Add(x, three));
    let atoms = [BvAtom::Ult(x, ten), BvAtom::Eq(sum, ten), BvAtom::Sge(x, three)];
    let lo = lower(&mut ctx, &atoms);
    let xb = &lo.var_bits.iter().find(|(v, _)| *v == x).unwrap().1;
    for v in [0u64, 7, 9, 10, 200] {
        let model = solve_with_var(&lo.cnf, xb, v);
        assert_eq!(var_value(&model, xb), v);
        assert_eq!(lit_in(&model, lo.atom_lit[0]), v < 10, "x < 10 at x = {v}");
        assert_eq!(lit_in(&model, lo.atom_lit[1]), (v + 3) % 256 == 10, "x + 3 = 10 at x = {v}");
        assert_eq!(lit_in(&model, lo.atom_lit[2]), (v as u8 as i8) >= 3, "x >=s 3 at x = {v}");
    }
}

#[test]
fn nullary_applications_emit_no_congruence_clauses() {
    let mut ctx = BvTerms::new();
    let x = ctx.push(BvNode::Var(8));
    let y = ctx.push(BvNode::Var(8));
    let lo = lower(&mut ctx, &[BvAtom::Eq(x, y)]);
    assert_eq!(lo.cnf.clauses.len(), 57, "the pure-variable encoding of an 8-bit equality");
}
