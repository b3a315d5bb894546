use shinri::bv::blast::arith::{bvadd, bvneg, bvsub};
use shinri::bv::blast::bitwise::{bvand, bvnand, bvnor, bvnot, bvor, bvxnor, bvxor};
use shinri::bv::blast::compare::{eq, sge, sgt, sle, slt, uge, ugt, ule, ult};
use shinri::bv::blast::div::{bvsdiv, bvsmod, bvsrem, bvudiv, bvurem, udivurem};
use shinri::bv::blast::shift::{bvashr, bvlshr, bvshl, rotate_left, rotate_right};
use shinri::bv::blast::structural;
use shinri::bv::blast::structural::{extract, sign_extend, zero_extend};
use shinri::bv::blast::word::{blast_bv_word, BvTerms, TermBlaster};
use shinri::bv::blast::{BitLit, Blaster, Cnf};
use shinri::bv::terms::{BvAtom, BvNode};

/// Allocate `width` fresh bits pinned to the bits of `val`, least
/// significant first.
fn pin_const(b: &mut Blaster, val: u64, width: u32) -> Vec<BitLit> {
    (0..width)
        .map(|i| {
            let bit = b.fresh();
            let lit = if ((val >> i) & 1) == 1 { bit } else { bit.negate() };
            b.add_clause(&[lit]);
            bit
        })
        .collect()
}

fn lit_value(assign: &[Option<bool>], l: BitLit) -> Option<bool> {
    assign[l.var as usize].map(|v| if l.pos { v } else { !v })
}

/// Unit propagation to a fixpoint; false on a conflict.
fn propagate(clauses: &[Vec<BitLit>], assign: &mut Vec<Option<bool>>) -> bool {
    loop {
        let mut changed = false;
        for c in clauses {
            let mut satisfied = false;
            let mut open: Option<BitLit> = None;
            let mut n_open = 0;
            for &l in c {
                match lit_value(assign, l) {
                    Some(true) => {
                        satisfied = true;
                        break;
                    }
                    Some(false) => {}
                    None => {
                        n_open += 1;
                        open = Some(l);
                    }
                }
            }
            if satisfied {
                continue;
            }
            if n_open == 0 {
                return false;
            }
            if n_open == 1 {
                let l = open.unwrap();
                assign[l.var as usize] = Some(l.pos);
                changed = true;
            }
        }
        if !changed {
            return true;
        }
    }
}

/// A small DPLL search; the satisfying assignment, if any.
fn dpll(clauses: &[Vec<BitLit>], mut assign: Vec<Option<bool>>) -> Option<Vec<Option<bool>>> {
    if !propagate(clauses, &mut assign) {
        return None;
    }
    let mut pick: Option<u32> = None;
    'outer: for c in clauses {
        if c.iter().any(|&l| lit_value(&assign, l) == Some(true)) {
            continue;
        }
        for &l in c {
            if assign[l.var as usize].is_none() {
                pick = Some(l.var);
                break 'outer;
            }
        }
    }
    match pick {
        None => Some(assign),
        Some(v) => {
            for val in [true, false] {
                let mut a = assign.clone();
                a[v as usize] = Some(val);
                if let Some(done) = dpll(clauses, a) {
                    return Some(done);
                }
            }
            None
        }
    }
}

fn solve_cnf(cnf: &Cnf) -> Vec<bool> {
    let assign = vec![None; cnf.num_vars as usize];
    let model = dpll(&cnf.clauses, assign).expect("expected SAT but got UNSAT");
    model.into_iter().map(|v| v.unwrap_or(false)).collect()
}

fn pack_bits(model: &[bool], bits: &[BitLit]) -> u64 {
    let mut out: u64 = 0;
    for (i, bl) in bits.iter().enumerate() {
        let raw = model[bl.var as usize];
        let bit_val = if bl.pos { raw } else { !raw };
        if bit_val {
            out |= 1u64 << i;
        }
    }
    out
}

/// Finish the blaster, solve, and read the word `bits` as a number.
fn solve_value(b: Blaster, bits: &[BitLit]) -> u64 {
    let cnf = b.finish();
    let model = solve_cnf(&cnf);
    pack_bits(&model, bits)
}

/// Like `solve_value`, reading two words from one model.
fn solve_value_pair(b: Blaster, a: &[BitLit], c: &[BitLit]) -> (u64, u64) {
    let cnf = b.finish();
    let model = solve_cnf(&cnf);
    (pack_bits(&model, a), pack_bits(&model, c))
}

/// Pin inputs with unit clauses after finishing, solve, and read outputs.
fn solve_with_inputs_and_read(blaster: Blaster, inputs: &[(BitLit, bool)], outputs: &[BitLit]) -> Vec<bool> {
    let mut cnf = blaster.finish();
    for &(bl, val) in inputs {
        let lit = if val { bl } else { bl.negate() };
        cnf.clauses.push(vec![lit]);
    }
    let model = solve_cnf(&cnf);
    outputs
        .iter()
        .map(|bl| {
            let v = model[bl.var as usize];
            if bl.pos { v } else { !v }
        })
        .collect()
}

fn vars(b: &mut Blaster, n: usize) -> Vec<BitLit> {
    (0..n).map(|_| b.fresh()).collect()
}



#[test]
fn bvadd_wraps_mod_2pow_w() {
    for (x, y) in [(0u64, 0u64), (1, 1), (255, 1), (200, 100), (123, 77)] {
        let mut b = Blaster::new();
        let xv = pin_const(&mut b, x, 8);
        let yv = pin_const(&mut b, y, 8);
        let r = bvadd(&mut b, &xv, &yv);
        assert_eq!(solve_value(b, &r), (x + y) & 0xFF, "x={x} y={y}");
    }
}

#[test]
fn bvsub_and_neg() {
    let mut b = Blaster::new();
    let xv = pin_const(&mut b, 5, 8);
    let yv = pin_const(&mut b, 9, 8);
    let r = bvsub(&mut b, &xv, &yv); // 5-9 = -4 = 252 mod 256
    assert_eq!(solve_value(b, &r), 252);
}



// --- bvand ---

#[test]
fn bvand_basic() {
    let mut b = Blaster::new();
    let x = pin_const(&mut b, 0b1100, 4);
    let y = pin_const(&mut b, 0b1010, 4);
    let r = bvand(&mut b, &x, &y);
    assert_eq!(solve_value(b, &r), 0b1000);
}

#[test]
fn bvand_exhaustive_4bit() {
    for xv in 0u64..16 {
        for yv in 0u64..16 {
            let mut b = Blaster::new();
            let x = pin_const(&mut b, xv, 4);
            let y = pin_const(&mut b, yv, 4);
            let r = bvand(&mut b, &x, &y);
            assert_eq!(solve_value(b, &r), xv & yv, "bvand({xv:#06b}, {yv:#06b})");
        }
    }
}

// --- bvor ---

#[test]
fn bvor_basic() {
    let mut b = Blaster::new();
    let x = pin_const(&mut b, 0b1100, 4);
    let y = pin_const(&mut b, 0b1010, 4);
    let r = bvor(&mut b, &x, &y);
    assert_eq!(solve_value(b, &r), 0b1110);
}

#[test]
fn bvor_exhaustive_4bit() {
    for xv in 0u64..16 {
        for yv in 0u64..16 {
            let mut b = Blaster::new();
            let x = pin_const(&mut b, xv, 4);
            let y = pin_const(&mut b, yv, 4);
            let r = bvor(&mut b, &x, &y);
            assert_eq!(solve_value(b, &r), xv | yv, "bvor({xv:#06b}, {yv:#06b})");
        }
    }
}

// --- bvxor ---

#[test]
fn bvxor_basic() {
    let mut b = Blaster::new();
    let x = pin_const(&mut b, 0b1100, 4);
    let y = pin_const(&mut b, 0b1010, 4);
    let r = bvxor(&mut b, &x, &y);
    assert_eq!(solve_value(b, &r), 0b0110);
}

#[test]
fn bvxor_exhaustive_4bit() {
    for xv in 0u64..16 {
        for yv in 0u64..16 {
            let mut b = Blaster::new();
            let x = pin_const(&mut b, xv, 4);
            let y = pin_const(&mut b, yv, 4);
            let r = bvxor(&mut b, &x, &y);
            assert_eq!(solve_value(b, &r), xv ^ yv, "bvxor({xv:#06b}, {yv:#06b})");
        }
    }
}

// --- bvnot ---

#[test]
fn bvnot_basic() {
    let mut b = Blaster::new();
    let x = pin_const(&mut b, 0b1010, 4);
    let r = bvnot(&mut b, &x);
    assert_eq!(solve_value(b, &r), 0b0101);
}

#[test]
fn bvnot_all_ones() {
    let mut b = Blaster::new();
    let x = pin_const(&mut b, 0b1111, 4);
    let r = bvnot(&mut b, &x);
    assert_eq!(solve_value(b, &r), 0b0000);
}

#[test]
fn bvnot_zero() {
    let mut b = Blaster::new();
    let x = pin_const(&mut b, 0b0000, 4);
    let r = bvnot(&mut b, &x);
    assert_eq!(solve_value(b, &r), 0b1111);
}

// --- bvnand ---

#[test]
fn bvnand_basic() {
    let mut b = Blaster::new();
    let x = pin_const(&mut b, 0b1100, 4);
    let y = pin_const(&mut b, 0b1010, 4);
    let r = bvnand(&mut b, &x, &y);
    // NOT (1100 AND 1010) = NOT 1000 = 0111
    assert_eq!(solve_value(b, &r), 0b0111);
}

#[test]
fn bvnand_spot_checks() {
    for (xv, yv) in [(0b0000u64, 0b1111u64), (0b1111, 0b1111), (0b1010, 0b0101)] {
        let mut b = Blaster::new();
        let x = pin_const(&mut b, xv, 4);
        let y = pin_const(&mut b, yv, 4);
        let r = bvnand(&mut b, &x, &y);
        let expected = (!(xv & yv)) & 0b1111;
        assert_eq!(solve_value(b, &r), expected, "bvnand({xv:#06b}, {yv:#06b})");
    }
}

// --- bvnor ---

#[test]
fn bvnor_basic() {
    let mut b = Blaster::new();
    let x = pin_const(&mut b, 0b1100, 4);
    let y = pin_const(&mut b, 0b1010, 4);
    let r = bvnor(&mut b, &x, &y);
    // NOT (1100 OR 1010) = NOT 1110 = 0001
    assert_eq!(solve_value(b, &r), 0b0001);
}

#[test]
fn bvnor_spot_checks() {
    for (xv, yv) in [(0b0000u64, 0b0000u64), (0b1111, 0b0000), (0b1010, 0b0101)] {
        let mut b = Blaster::new();
        let x = pin_const(&mut b, xv, 4);
        let y = pin_const(&mut b, yv, 4);
        let r = bvnor(&mut b, &x, &y);
        let expected = (!(xv | yv)) & 0b1111;
        assert_eq!(solve_value(b, &r), expected, "bvnor({xv:#06b}, {yv:#06b})");
    }
}

// --- bvxnor ---

#[test]
fn bvxnor_basic() {
    let mut b = Blaster::new();
    let x = pin_const(&mut b, 0b1100, 4);
    let y = pin_const(&mut b, 0b1010, 4);
    let r = bvxnor(&mut b, &x, &y);
    // NOT (1100 XOR 1010) = NOT 0110 = 1001
    assert_eq!(solve_value(b, &r), 0b1001);
}

#[test]
fn bvxnor_spot_checks() {
    for (xv, yv) in [(0b0000u64, 0b0000u64), (0b1111, 0b1111), (0b1010, 0b1010)] {
        let mut b = Blaster::new();
        let x = pin_const(&mut b, xv, 4);
        let y = pin_const(&mut b, yv, 4);
        let r = bvxnor(&mut b, &x, &y);
        let expected = (!(xv ^ yv)) & 0b1111;
        assert_eq!(solve_value(b, &r), expected, "bvxnor({xv:#06b}, {yv:#06b})");
    }
}



#[test]
fn unsigned_and_signed_compares() {
    // Test eq
    {
        let mut b = Blaster::new();
        let xv = pin_const(&mut b, 5, 8);
        let yv = pin_const(&mut b, 5, 8);
        let l = eq(&mut b, &xv, &yv);
        assert_eq!(solve_value(b, std::slice::from_ref(&l)), 1, "eq(5,5) should be 1");
    }
    {
        let mut b = Blaster::new();
        let xv = pin_const(&mut b, 5, 8);
        let yv = pin_const(&mut b, 6, 8);
        let l = eq(&mut b, &xv, &yv);
        assert_eq!(solve_value(b, std::slice::from_ref(&l)), 0, "eq(5,6) should be 0");
    }

    // Test unsigned comparators: ult, ule, ugt, uge
    let unsigned_cases = vec![(3, 5), (5, 3), (5, 5)];
    for &(x, y) in &unsigned_cases {
        // ult: x < y (unsigned)
        {
            let mut b = Blaster::new();
            let xv = pin_const(&mut b, x, 8);
            let yv = pin_const(&mut b, y, 8);
            let l = ult(&mut b, &xv, &yv);
            let expected = (x < y) as u64;
            let got = solve_value(b, std::slice::from_ref(&l));
            assert_eq!(got, expected, "ult({},{}) expected {} got {}", x, y, expected, got);
        }
        // ule: x <= y (unsigned)
        {
            let mut b = Blaster::new();
            let xv = pin_const(&mut b, x, 8);
            let yv = pin_const(&mut b, y, 8);
            let l = ule(&mut b, &xv, &yv);
            let expected = (x <= y) as u64;
            let got = solve_value(b, std::slice::from_ref(&l));
            assert_eq!(got, expected, "ule({},{}) expected {} got {}", x, y, expected, got);
        }
        // ugt: x > y (unsigned)
        {
            let mut b = Blaster::new();
            let xv = pin_const(&mut b, x, 8);
            let yv = pin_const(&mut b, y, 8);
            let l = ugt(&mut b, &xv, &yv);
            let expected = (x > y) as u64;
            let got = solve_value(b, std::slice::from_ref(&l));
            assert_eq!(got, expected, "ugt({},{}) expected {} got {}", x, y, expected, got);
        }
        // uge: x >= y (unsigned)
        {
            let mut b = Blaster::new();
            let xv = pin_const(&mut b, x, 8);
            let yv = pin_const(&mut b, y, 8);
            let l = uge(&mut b, &xv, &yv);
            let expected = (x >= y) as u64;
            let got = solve_value(b, std::slice::from_ref(&l));
            assert_eq!(got, expected, "uge({},{}) expected {} got {}", x, y, expected, got);
        }
    }

    // Test signed comparators: slt, sle, sgt, sge
    // Convert to signed 8-bit for comparison
    let as_i8 = |u: u64| u as i8;

    // Case 1: x=0x80 (=-128), y=0x01 (=1) — signed -128 < 1 but unsigned 128 > 1
    let signed_cases = vec![
        (0x80u64, 0x01u64),  // -128 vs 1
        (0xFEu64, 0xFFu64),  // -2 vs -1
        (0x03u64, 0x05u64),  // 3 vs 5
    ];

    for &(x, y) in &signed_cases {
        let xi = as_i8(x);
        let yi = as_i8(y);

        // slt: x < y (signed)
        {
            let mut b = Blaster::new();
            let xv = pin_const(&mut b, x, 8);
            let yv = pin_const(&mut b, y, 8);
            let l = slt(&mut b, &xv, &yv);
            let expected = (xi < yi) as u64;
            let got = solve_value(b, std::slice::from_ref(&l));
            assert_eq!(got, expected, "slt({:02x},{:02x}) = slt({},{}) expected {} got {}", x, y, xi, yi, expected, got);
        }
        // sle: x <= y (signed)
        {
            let mut b = Blaster::new();
            let xv = pin_const(&mut b, x, 8);
            let yv = pin_const(&mut b, y, 8);
            let l = sle(&mut b, &xv, &yv);
            let expected = (xi <= yi) as u64;
            let got = solve_value(b, std::slice::from_ref(&l));
            assert_eq!(got, expected, "sle({:02x},{:02x}) = sle({},{}) expected {} got {}", x, y, xi, yi, expected, got);
        }
        // sgt: x > y (signed)
        {
            let mut b = Blaster::new();
            let xv = pin_const(&mut b, x, 8);
            let yv = pin_const(&mut b, y, 8);
            let l = sgt(&mut b, &xv, &yv);
            let expected = (xi > yi) as u64;
            let got = solve_value(b, std::slice::from_ref(&l));
            assert_eq!(got, expected, "sgt({:02x},{:02x}) = sgt({},{}) expected {} got {}", x, y, xi, yi, expected, got);
        }
        // sge: x >= y (signed)
        {
            let mut b = Blaster::new();
            let xv = pin_const(&mut b, x, 8);
            let yv = pin_const(&mut b, y, 8);
            let l = sge(&mut b, &xv, &yv);
            let expected = (xi >= yi) as u64;
            let got = solve_value(b, std::slice::from_ref(&l));
            assert_eq!(got, expected, "sge({:02x},{:02x}) = sge({},{}) expected {} got {}", x, y, xi, yi, expected, got);
        }
    }
}



// -------------------------------------------------------------------------
// Unsigned division including zero-divisor cases
// -------------------------------------------------------------------------
#[test]
fn udiv_urem_including_zero_divisor() {
    let cases: &[(u64, u64)] = &[(17, 5), (255, 16), (0, 3), (7, 7), (10, 0), (255, 0)];
    for &(x, y) in cases {
        let (eq, er) = if y == 0 { (0xFF, x) } else { (x / y, x % y) };
        let mut b = Blaster::new();
        let xv = pin_const(&mut b, x, 8);
        let yv = pin_const(&mut b, y, 8);
        let (q, r) = udivurem(&mut b, &xv, &yv);
        let (gq, gr) = solve_value_pair(b, &q, &r);
        assert_eq!(gq, eq, "udiv x={x} y={y}: expected quot={eq} got {gq}");
        assert_eq!(gr, er, "urem x={x} y={y}: expected rem={er} got {gr}");
    }
}

// -------------------------------------------------------------------------
// Signed division (truncate toward zero)
// -------------------------------------------------------------------------
#[test]
fn sdiv_all_sign_combos() {
    // (x_i8, y_i8, expected_i8): native i8 `/` truncates toward zero
    let cases: &[(i8, i8, i8)] = &[
        (-7, 2, -3),
        (7, -2, -3),
        (-7, -2, 3),
        (7, 2, 3),
        (-128, 1, -128),
        (-1, -1, 1),
    ];
    for &(xi, yi, expected) in cases {
        assert_eq!(xi / yi, expected, "native sdiv reference mismatch");
        let mut b = Blaster::new();
        let xv = pin_const(&mut b, xi as u8 as u64, 8);
        let yv = pin_const(&mut b, yi as u8 as u64, 8);
        let d = bvsdiv(&mut b, &xv, &yv);
        let got = solve_value(b, &d) as u8 as i8;
        assert_eq!(got, expected, "bvsdiv({xi},{yi}): expected {expected} got {got}");
    }
}

// -------------------------------------------------------------------------
// Signed remainder (sign follows dividend)
// -------------------------------------------------------------------------
#[test]
fn srem_sign_follows_dividend() {
    let cases: &[(i8, i8, i8)] = &[
        (-7, 2, -1),
        (7, -2, 1),
        (-7, -2, -1),
        (7, 2, 1),
    ];
    for &(xi, yi, expected) in cases {
        assert_eq!(xi % yi, expected, "native srem reference mismatch");
        let mut b = Blaster::new();
        let xv = pin_const(&mut b, xi as u8 as u64, 8);
        let yv = pin_const(&mut b, yi as u8 as u64, 8);
        let r = bvsrem(&mut b, &xv, &yv);
        let got = solve_value(b, &r) as u8 as i8;
        assert_eq!(got, expected, "bvsrem({xi},{yi}): expected {expected} got {got}");
    }
}

// -------------------------------------------------------------------------
// Signed modulo (sign follows divisor) — SMT-LIB bvsmod
// Reference: u = unsigned_abs(x) % unsigned_abs(y);
//   if u==0 => 0
//   else (x<0, y<0):
//     (F,F) => u
//     (T,F) => y - u       (= y + bvneg(u) as i16)
//     (F,T) => u + y       (since y is negative)
//     (T,T) => -u
// -------------------------------------------------------------------------
fn smod_ref(xi: i8, yi: i8) -> i8 {
    let u = ((xi as i16).unsigned_abs() % (yi as i16).unsigned_abs()) as i16;
    if u == 0 {
        return 0;
    }
    let result = match (xi < 0, yi < 0) {
        (false, false) => u,
        (true, false) => (yi as i16) - u,
        (false, true) => u + (yi as i16),
        (true, true) => -u,
    };
    result as i8
}

#[test]
fn smod_sign_follows_divisor() {
    // Cross-check reference against known values first
    assert_eq!(smod_ref(-7, 2), 1,  "smod_ref(-7,2)");
    assert_eq!(smod_ref(7, -2), -1, "smod_ref(7,-2)");
    assert_eq!(smod_ref(-7, -2), -1, "smod_ref(-7,-2)");
    assert_eq!(smod_ref(7, 2), 1,   "smod_ref(7,2)");
    assert_eq!(smod_ref(4, 2), 0,   "smod_ref(4,2)");
    assert_eq!(smod_ref(-4, 2), 0,  "smod_ref(-4,2)");

    let cases: &[(i8, i8)] = &[
        (-7, 2),
        (7, -2),
        (-7, -2),
        (7, 2),
        (4, 2),
        (-4, 2),
    ];
    for &(xi, yi) in cases {
        let expected = smod_ref(xi, yi);
        let mut b = Blaster::new();
        let xv = pin_const(&mut b, xi as u8 as u64, 8);
        let yv = pin_const(&mut b, yi as u8 as u64, 8);
        let r = bvsmod(&mut b, &xv, &yv);
        let got = solve_value(b, &r) as u8 as i8;
        assert_eq!(got, expected, "bvsmod({xi},{yi}): expected {expected} got {got}");
    }
}

// -------------------------------------------------------------------------
// Signed div/rem/mod by zero — SMT-LIB compositional semantics confirmed against z3.
// Note: bvsdiv(neg, 0) = 1 (not all-ones); bvsrem/bvsmod(x, 0) = x.
// -------------------------------------------------------------------------
#[test]
fn signed_div_by_zero() {
    // 8-bit signed div-by-zero cases. Encode negatives as u8 two's-complement.
    // (-7 as u8 = 249 = 0xF9)
    let cases = vec![
        // (op, x_i8, expected_u8)
        ("bvsdiv", -7i8, 1u8),        // bvsdiv(-7, 0) = 1
        ("bvsdiv", 7i8, 255u8),       // bvsdiv(7, 0) = 255 (0xFF)
        ("bvsrem", -7i8, 249u8),      // bvsrem(-7, 0) = -7 = 249
        ("bvsrem", 7i8, 7u8),         // bvsrem(7, 0) = 7
        ("bvsmod", -7i8, 249u8),      // bvsmod(-7, 0) = -7 = 249
        ("bvsmod", 7i8, 7u8),         // bvsmod(7, 0) = 7
    ];

    for (op, xi, expected) in cases {
        let mut b = Blaster::new();
        let xv = pin_const(&mut b, xi as u8 as u64, 8);
        let yv = pin_const(&mut b, 0u64, 8);

        let result = match op {
            "bvsdiv" => bvsdiv(&mut b, &xv, &yv),
            "bvsrem" => bvsrem(&mut b, &xv, &yv),
            "bvsmod" => bvsmod(&mut b, &xv, &yv),
            _ => panic!("unknown op: {}", op),
        };

        let got = solve_value(b, &result) as u8;
        assert_eq!(
            got, expected,
            "{op}({xi}, 0): expected {expected} got {got}"
        );
    }
}



// ── bvshl ────────────────────────────────────────────────────────────────

#[test]
fn shifts_match_native() {
    let n = 8u32;
    for x in [0u64, 1, 0x80, 0xFF, 0x3C] {
        for sh in 0u64..=9 {
            // include sh >= width
            let mut b = Blaster::new();
            let xv = pin_const(&mut b, x, n);
            let yv = pin_const(&mut b, sh, n);
            let r = bvshl(&mut b, &xv, &yv);
            let expect = if sh >= 8 { 0 } else { (x << sh) & 0xFF };
            assert_eq!(solve_value(b, &r), expect, "shl x={x:#x} sh={sh}");
        }
    }
}

#[test]
fn lshr_matches_native() {
    let n = 8u32;
    for x in [0u64, 1, 0x80, 0xFF, 0x3C] {
        for sh in 0u64..=9 {
            let mut b = Blaster::new();
            let xv = pin_const(&mut b, x, n);
            let yv = pin_const(&mut b, sh, n);
            let r = bvlshr(&mut b, &xv, &yv);
            let expect = if sh >= 8 { 0 } else { x >> sh };
            assert_eq!(solve_value(b, &r), expect, "lshr x={x:#x} sh={sh}");
        }
    }
}

#[test]
fn ashr_sign_fills() {
    let mut b = Blaster::new();
    let xv = pin_const(&mut b, 0x80, 8); // -128
    let yv = pin_const(&mut b, 3, 8);
    let r = bvashr(&mut b, &xv, &yv);
    assert_eq!(solve_value(b, &r), 0xF0); // arithmetic shift keeps sign
}

#[test]
fn ashr_matches_native() {
    let n = 8u32;
    // Test cases: (x, sh, expected)
    // Native ref: ((x as i8) >> min(sh, 7)) as u8, but for sh >= 8 use sign-fill
    let cases: &[(u64, u64)] = &[
        // positive values
        (0x7F, 3), // 0111_1111 >> 3 = 0x0F
        (0x7F, 8), // positive, sh>=8 => 0x00
        (0x3C, 2),
        // negative values (MSB=1)
        (0x80, 3), // -128 >> 3 = 0xF0
        (0xFF, 4), // -1 >> 4 = 0xFF (all sign)
        (0x80, 8), // sh>=8, negative => 0xFF
        (0x80, 9), // sh>=8, negative => 0xFF
        (0x7F, 9), // sh>=8, positive => 0x00
        (0x00, 5),
    ];
    for &(x, sh) in cases {
        let expected = if sh >= 8 {
            // sign-fill
            if (x >> 7) & 1 == 1 { 0xFF } else { 0x00 }
        } else {
            // arithmetic shift: treat x as i8
            let xsigned = x as u8 as i8;
            (xsigned >> sh) as u8 as u64
        };
        let mut b = Blaster::new();
        let xv = pin_const(&mut b, x, n);
        let yv = pin_const(&mut b, sh, n);
        let r = bvashr(&mut b, &xv, &yv);
        assert_eq!(solve_value(b, &r), expected, "ashr x={x:#x} sh={sh}");
    }
}

// ── rotate_left ──────────────────────────────────────────────────────────

#[test]
fn rotate_left_matches_native() {
    // rotate_left(x, k) = x.rotate_left(k) for u8
    for x in [0u8, 1, 0x80, 0xFF, 0x3C, 0xAB] {
        for k in [0u32, 1, 3, 7, 8, 11] {
            let expected = x.rotate_left(k) as u64;
            let mut b = Blaster::new();
            let xv = pin_const(&mut b, x as u64, 8);
            let r = rotate_left(&xv, k);
            assert_eq!(solve_value(b, &r), expected, "rotate_left x={x:#x} k={k}");
        }
    }
}

#[test]
fn rotate_right_matches_native() {
    for x in [0u8, 1, 0x80, 0xFF, 0x3C, 0xAB] {
        for k in [0u32, 1, 3, 7, 8, 11] {
            let expected = x.rotate_right(k) as u64;
            let mut b = Blaster::new();
            let xv = pin_const(&mut b, x as u64, 8);
            let r = rotate_right(&xv, k);
            assert_eq!(solve_value(b, &r), expected, "rotate_right x={x:#x} k={k}");
        }
    }
}

// ── edge cases ───────────────────────────────────────────────────────────

#[test]
fn rotate_k_eq_n_is_identity() {
    // k == n means k % n == 0, should be identity
    for x in [0u8, 1, 0x80, 0xFF, 0x3C] {
        let mut b = Blaster::new();
        let xv = pin_const(&mut b, x as u64, 8);
        let rl = rotate_left(&xv, 8);
        assert_eq!(solve_value(b, &rl), x as u64, "rotate_left(k=8) identity x={x:#x}");
    }
}

#[test]
fn shl_zero_is_identity() {
    for x in [0u64, 1, 0x80, 0xFF, 0x3C] {
        let mut b = Blaster::new();
        let xv = pin_const(&mut b, x, 8);
        let yv = pin_const(&mut b, 0, 8);
        let r = bvshl(&mut b, &xv, &yv);
        assert_eq!(solve_value(b, &r), x, "shl by 0 identity x={x:#x}");
    }
}

#[test]
fn lshr_zero_is_identity() {
    for x in [0u64, 1, 0x80, 0xFF, 0x3C] {
        let mut b = Blaster::new();
        let xv = pin_const(&mut b, x, 8);
        let yv = pin_const(&mut b, 0, 8);
        let r = bvlshr(&mut b, &xv, &yv);
        assert_eq!(solve_value(b, &r), x, "lshr by 0 identity x={x:#x}");
    }
}




#[test]
fn concat_orders_first_arg_high() {
    let mut b = Blaster::new();
    let hi = vars(&mut b, 2); // [h0,h1]
    let lo = vars(&mut b, 3); // [l0,l1,l2]
    let c = structural::concat(&hi, &lo); // width 5, LSB..MSB = l0,l1,l2,h0,h1
    assert_eq!(c.len(), 5);
    assert_eq!(c[0], lo[0]);
    assert_eq!(c[3], hi[0]);
}

#[test]
fn extract_slices_inclusive() {
    let mut b = Blaster::new();
    let a = vars(&mut b, 8);
    let e = extract(&a, 3, 1); // bits 1,2,3
    assert_eq!(e, vec![a[1], a[2], a[3]]);
}

#[test]
fn sign_extend_copies_msb() {
    let mut b = Blaster::new();
    let a = vars(&mut b, 4);
    let s = sign_extend(&a, 2);
    assert_eq!(s.len(), 6);
    assert_eq!(s[4], a[3]);
    assert_eq!(s[5], a[3]);
}

#[test]
fn zero_extend_pads_zero() {
    let mut b = Blaster::new();
    let a = vars(&mut b, 4);
    let z = zero_extend(&a, 2, &b);
    assert_eq!(z.len(), 6);
    assert_eq!(z[4], b.zero());
}

#[test]
fn const_bits_and_fresh_allocate_distinct_vars() {
    let mut b = Blaster::new();
    assert_eq!(b.one().var, 0);
    assert!(b.one().pos);
    assert_eq!(b.zero().var, 0);
    assert!(!b.zero().pos);
    let x = b.fresh();
    let y = b.fresh();
    assert_ne!(x.var, y.var);
    assert!(x.var >= 1 && y.var >= 1);
}

#[test]
fn full_adder_truth_table_structural() {
    // Structural check: full_adder returns two distinct signal lits.
    let mut b = Blaster::new();
    let a = b.fresh();
    let bb = b.fresh();
    let c = b.fresh();
    let (s, co) = b.full_adder(a, bb, c);
    assert_ne!(s.var, co.var);
}

/// Helper: build a fresh Blaster, pin 3 input vars, call full_adder,
/// solve and return (sum_bit, cout_bit).
fn check_full_adder(av: bool, bv: bool, cinv: bool) -> (bool, bool) {
    let mut bl = Blaster::new();
    let a = bl.fresh();
    let b = bl.fresh();
    let cin = bl.fresh();
    let (sum, cout) = bl.full_adder(a, b, cin);
    let results =
        solve_with_inputs_and_read(bl, &[(a, av), (b, bv), (cin, cinv)], &[sum, cout]);
    (results[0], results[1])
}

#[test]
fn full_adder_solve_all_8_combinations() {
    for av in [false, true] {
        for bv in [false, true] {
            for cinv in [false, true] {
                let total = (av as u32) + (bv as u32) + (cinv as u32);
                let expected_sum = (total & 1) == 1;
                let expected_cout = total >= 2;
                let (got_sum, got_cout) = check_full_adder(av, bv, cinv);
                assert_eq!(
                    got_sum, expected_sum,
                    "full_adder sum wrong for a={av} b={bv} cin={cinv}: expected {expected_sum} got {got_sum}"
                );
                assert_eq!(
                    got_cout, expected_cout,
                    "full_adder cout wrong for a={av} b={bv} cin={cinv}: expected {expected_cout} got {got_cout}"
                );
            }
        }
    }
}

#[test]
fn and2_solve_verify() {
    for (av, bv) in [(false, false), (false, true), (true, false), (true, true)] {
        let mut bl = Blaster::new();
        let a = bl.fresh();
        let b = bl.fresh();
        let o = bl.and2(a, b);
        let results = solve_with_inputs_and_read(bl, &[(a, av), (b, bv)], &[o]);
        let expected = av && bv;
        assert_eq!(
            results[0], expected,
            "and2 wrong for a={av} b={bv}: expected {expected} got {}",
            results[0]
        );
    }
}

#[test]
fn or2_solve_verify() {
    for (av, bv) in [(false, false), (false, true), (true, false), (true, true)] {
        let mut bl = Blaster::new();
        let a = bl.fresh();
        let b = bl.fresh();
        let o = bl.or2(a, b);
        let results = solve_with_inputs_and_read(bl, &[(a, av), (b, bv)], &[o]);
        let expected = av || bv;
        assert_eq!(
            results[0], expected,
            "or2 wrong for a={av} b={bv}: expected {expected} got {}",
            results[0]
        );
    }
}

#[test]
fn xor2_solve_verify() {
    for (av, bv) in [(false, false), (false, true), (true, false), (true, true)] {
        let mut bl = Blaster::new();
        let a = bl.fresh();
        let b = bl.fresh();
        let o = bl.xor2(a, b);
        let results = solve_with_inputs_and_read(bl, &[(a, av), (b, bv)], &[o]);
        let expected = av ^ bv;
        assert_eq!(
            results[0], expected,
            "xor2 wrong for a={av} b={bv}: expected {expected} got {}",
            results[0]
        );
    }
}

#[test]
fn incremental_drain_returns_only_new_clauses() {
    let mut b = Blaster::new();
    // new() pins var0=true via one unit clause; drain it as the "initial" batch.
    let initial = b.take_new_clauses();
    assert_eq!(initial.len(), 1, "initial batch is the var0 unit clause");
    let v0 = b.num_vars();

    let x = b.fresh();
    let y = b.fresh();
    let _ = b.and2(x, y); // adds clauses + 1 fresh var
    let batch1 = b.take_new_clauses();
    assert!(!batch1.is_empty(), "and2 must emit clauses");
    assert!(b.num_vars() > v0, "num_vars must grow");

    // A second drain with no new work is empty.
    let batch2 = b.take_new_clauses();
    assert!(batch2.is_empty(), "no new clauses since last drain");
}

#[test]
fn mux2_solve_verify() {
    // Check sel=false picks b, sel=true picks a for a few combos.
    for (selv, av, bv) in [
        (false, false, false),
        (false, false, true),
        (false, true, false),
        (false, true, true),
        (true, false, false),
        (true, false, true),
        (true, true, false),
        (true, true, true),
    ] {
        let mut bl = Blaster::new();
        let sel = bl.fresh();
        let a = bl.fresh();
        let b = bl.fresh();
        let o = bl.mux2(sel, a, b);
        let results = solve_with_inputs_and_read(bl, &[(sel, selv), (a, av), (b, bv)], &[o]);
        // mux2(sel, a, b) = sel ? a : b
        let expected = if selv { av } else { bv };
        assert_eq!(
            results[0], expected,
            "mux2 wrong for sel={selv} a={av} b={bv}: expected {expected} got {}",
            results[0]
        );
    }
}

fn trunc_div_i4(x: i8, y: i8) -> i8 {
    if y == 0 {
        if x < 0 { 1 } else { -1 }
    } else {
        (x as i32 / y as i32) as i8
    }
}

fn smod_i4(x: i8, y: i8) -> i8 {
    if y == 0 {
        return x;
    }
    let u = (x as i32).abs() % (y as i32).abs();
    if u == 0 {
        return 0;
    }
    (match (x < 0, y < 0) {
        (false, false) => u,
        (true, false) => y as i32 - u,
        (false, true) => u + y as i32,
        (true, true) => -u,
    }) as i8
}

fn sext4(v: u64) -> i8 {
    let v = (v & 0xF) as i8;
    if v >= 8 { v - 16 } else { v }
}

#[test]
fn unsigned_division_exhaustive_4bit() {
    for x in 0u64..16 {
        for y in 0u64..16 {
            let mut b = Blaster::new();
            let xv = pin_const(&mut b, x, 4);
            let yv = pin_const(&mut b, y, 4);
            let q = bvudiv(&mut b, &xv, &yv);
            let r = bvurem(&mut b, &xv, &yv);
            let (gq, gr) = solve_value_pair(b, &q, &r);
            let (eq_, er) = if y == 0 { (0xF, x) } else { (x / y, x % y) };
            assert_eq!((gq, gr), (eq_, er), "x={x} y={y}");
        }
    }
}

#[test]
fn signed_division_exhaustive_4bit() {
    for x in 0u64..16 {
        for y in 0u64..16 {
            let (xi, yi) = (sext4(x), sext4(y));
            let mut b = Blaster::new();
            let xv = pin_const(&mut b, x, 4);
            let yv = pin_const(&mut b, y, 4);
            let d = bvsdiv(&mut b, &xv, &yv);
            let got = solve_value(b, &d);
            let want = (trunc_div_i4(xi, yi) as u8 as u64) & 0xF;
            assert_eq!(got, want, "bvsdiv({xi},{yi})");

            let mut b = Blaster::new();
            let xv = pin_const(&mut b, x, 4);
            let yv = pin_const(&mut b, y, 4);
            let r = bvsrem(&mut b, &xv, &yv);
            let got = solve_value(b, &r);
            let want = if yi == 0 { x } else { ((xi as i32 % yi as i32) as u8 as u64) & 0xF };
            assert_eq!(got, want, "bvsrem({xi},{yi})");

            let mut b = Blaster::new();
            let xv = pin_const(&mut b, x, 4);
            let yv = pin_const(&mut b, y, 4);
            let r = bvsmod(&mut b, &xv, &yv);
            let got = solve_value(b, &r);
            let want = (smod_i4(xi, yi) as u8 as u64) & 0xF;
            assert_eq!(got, want, "bvsmod({xi},{yi})");
        }
    }
}

#[test]
fn quotient_and_remainder_from_one_divider() {
    let mut b = Blaster::new();
    let xv = pin_const(&mut b, 200, 8);
    let yv = pin_const(&mut b, 7, 8);
    let (q, r) = udivurem(&mut b, &xv, &yv);
    assert_eq!(solve_value_pair(b, &q, &r), (28, 4));
}

#[test]
fn negation_wraps() {
    for x in [0u64, 1, 5, 128, 255] {
        let mut b = Blaster::new();
        let xv = pin_const(&mut b, x, 8);
        let r = bvneg(&mut b, &xv);
        assert_eq!(solve_value(b, &r), (256 - x) & 0xFF, "x={x}");
    }
}

#[test]
fn repeat_copies_the_word() {
    let mut b = Blaster::new();
    let xv = pin_const(&mut b, 0b101, 3);
    let r = structural::repeat(&xv, 3);
    assert_eq!(r.len(), 9);
    assert_eq!(solve_value(b, &r), 0b101_101_101);
}

#[test]
fn concat_and_extract_values() {
    let mut b = Blaster::new();
    let hi = pin_const(&mut b, 0xA, 4);
    let lo = pin_const(&mut b, 0x5, 4);
    let c = structural::concat(&hi, &lo);
    let e = extract(&c, 5, 2);
    let (cv, ev) = solve_value_pair(b, &c, &e);
    assert_eq!(cv, 0xA5);
    assert_eq!(ev, (0xA5 >> 2) & 0xF);
}

#[test]
fn extends_keep_or_copy_sign() {
    let mut b = Blaster::new();
    let x = pin_const(&mut b, 0b1010, 4);
    let z = zero_extend(&x, 4, &b);
    let s = sign_extend(&x, 4);
    assert_eq!(solve_value_pair(b, &z, &s), (0x0A, 0xFA));
}

#[test]
fn nand_nor_xnor_complement_their_gates() {
    let mut b = Blaster::new();
    let x = pin_const(&mut b, 0b0110, 4);
    let y = pin_const(&mut b, 0b0011, 4);
    let a = bvnand(&mut b, &x, &y);
    let o = bvnor(&mut b, &x, &y);
    let (av, ov) = solve_value_pair(b, &a, &o);
    assert_eq!(av, !(0b0110u64 & 0b0011) & 0xF);
    assert_eq!(ov, !(0b0110u64 | 0b0011) & 0xF);
}


/// A constant term of width `w` holding `v`.
fn bv_const(v: u64, w: u32) -> BvNode {
    BvNode::Const((0..w).map(|i| (v >> i) & 1 == 1).collect())
}

fn solve_term_blaster(tb: TermBlaster, bits: &[BitLit]) -> u64 {
    let cnf = tb.finish();
    let model = solve_cnf(&cnf);
    pack_bits(&model, bits)
}

#[test]
fn blast_word_constant_values() {
    for v in [5u64, 200, 0] {
        let mut ctx = BvTerms::new();
        let c = ctx.push(bv_const(v, 8));
        let mut b = TermBlaster::new();
        let bits = b.blast_word(&ctx, c);
        assert_eq!(bits.len(), 8);
        assert_eq!(solve_term_blaster(b, &bits), v);
    }
}

#[test]
fn blast_word_bvadd_of_consts() {
    let mut ctx = BvTerms::new();
    let a = ctx.push(bv_const(3, 8));
    let b_c = ctx.push(bv_const(200, 8));
    let add = ctx.push(BvNode::Add(a, b_c));
    let mut bl = TermBlaster::new();
    let bits = bl.blast_word(&ctx, add);
    assert_eq!(bits.len(), 8);
    assert_eq!(solve_term_blaster(bl, &bits), (3u64 + 200u64) & 0xFF);
}

#[test]
fn wordsink_generic_matches_inherent_bvadd() {
    let mut ctx = BvTerms::new();
    let x = ctx.push(BvNode::Var(8));
    let c = ctx.push(bv_const(5, 8));
    let add = ctx.push(BvNode::Add(x, c));
    let mut b1 = TermBlaster::new();
    let bits_inherent = b1.blast_word(&ctx, add);
    let mut b2 = TermBlaster::new();
    let bits_generic = blast_bv_word(&mut b2, &ctx, add);
    assert_eq!(bits_inherent.len(), 8);
    assert_eq!(bits_inherent.len(), bits_generic.len());
    assert_eq!(b1.num_vars(), b2.num_vars(), "identical var allocation order");
}

#[test]
fn blast_word_variable_memoization() {
    let mut ctx = BvTerms::new();
    let x = ctx.push(BvNode::Var(8));
    let mut bl = TermBlaster::new();
    let bx1 = bl.blast_word(&ctx, x);
    let bx2 = bl.blast_word(&ctx, x);
    assert_eq!(bx1, bx2, "same variable must reuse cached bits");
    assert_eq!(bx1.len(), 8);
}

#[test]
fn blast_atom_ult_true_and_false() {
    for (x, y, want) in [(3u64, 5u64, 1u64), (5, 3, 0)] {
        let mut ctx = BvTerms::new();
        let a = ctx.push(bv_const(x, 8));
        let b_c = ctx.push(bv_const(y, 8));
        let mut bl = TermBlaster::new();
        let lit = bl.blast_atom(&ctx, BvAtom::Ult(a, b_c));
        assert_eq!(solve_term_blaster(bl, std::slice::from_ref(&lit)), want, "bvult({x},{y})");
    }
}

#[test]
fn blast_atom_eq_true_and_false() {
    for (x, y, want) in [(5u64, 5u64, 1u64), (5, 6, 0)] {
        let mut ctx = BvTerms::new();
        let a = ctx.push(bv_const(x, 8));
        let b_c = ctx.push(bv_const(y, 8));
        let mut bl = TermBlaster::new();
        let lit = bl.blast_atom(&ctx, BvAtom::Eq(a, b_c));
        assert_eq!(solve_term_blaster(bl, std::slice::from_ref(&lit)), want, "eq({x},{y})");
    }
}

#[test]
fn blast_word_constant_and_var_and_add() {
    let mut ctx = BvTerms::new();
    let x = ctx.push(BvNode::Var(8));
    let c = ctx.push(bv_const(1, 8));
    let add = ctx.push(BvNode::Add(x, c));
    let mut b = TermBlaster::new();
    let bits = b.blast_word(&ctx, add);
    assert_eq!(bits.len(), 8);
    let bx1 = b.blast_word(&ctx, x);
    let bx2 = b.blast_word(&ctx, x);
    assert_eq!(bx1, bx2);
}

#[test]
fn blast_atom_eq_is_solvable_true() {
    let mut ctx = BvTerms::new();
    let x = ctx.push(BvNode::Var(8));
    let one = ctx.push(bv_const(1, 8));
    let lhs = ctx.push(BvNode::Add(x, one));
    let y = ctx.push(BvNode::Var(8));
    let mut b = TermBlaster::new();
    let l = b.blast_atom(&ctx, BvAtom::Eq(lhs, y));
    let mut cnf = b.finish();
    cnf.clauses.push(vec![l]);
    let _ = solve_cnf(&cnf);
}

/// Blast `t`, pin each variable term to the value `vals` gives it, and
/// read the word of `t`.
fn value_under(ctx: &BvTerms, t: usize, vals: &[(usize, u64)]) -> u64 {
    let mut b = TermBlaster::new();
    let bits = b.blast_word(ctx, t);
    let vars = b.exported_var_bits(ctx);
    let mut cnf = b.finish();
    for (v, word) in vars {
        let val = vals.iter().find(|(k, _)| *k == v).map(|(_, x)| *x).unwrap_or(0);
        for (i, l) in word.iter().enumerate() {
            let lit = if (val >> i) & 1 == 1 { *l } else { l.negate() };
            cnf.clauses.push(vec![lit]);
        }
    }
    let model = solve_cnf(&cnf);
    pack_bits(&model, &bits)
}

#[test]
fn nested_terms_take_their_meaning() {
    let mut ctx = BvTerms::new();
    let x = ctx.push(BvNode::Var(8));
    let three = ctx.push(bv_const(3, 8));
    let two = ctx.push(bv_const(2, 8));
    let s = ctx.push(BvNode::Add(x, three));
    let d = ctx.push(BvNode::Udiv(s, two));
    let e = ctx.push(BvNode::Extract(d, 3, 0));
    let z = ctx.push(BvNode::ZeroExtend(e, 4));
    assert_eq!(value_under(&ctx, z, &[(x, 10)]), ((10 + 3) / 2) & 0xF);
    let r = ctx.push(BvNode::RotateLeft(x, 3));
    assert_eq!(value_under(&ctx, r, &[(x, 0x81)]), 0x81u8.rotate_left(3) as u64);
    let c = ctx.push(BvNode::Concat(e, e));
    assert_eq!(value_under(&ctx, c, &[(x, 10)]), 0x66);
    let n = ctx.push(BvNode::Neg(x));
    let q = ctx.push(BvNode::Sdiv(n, two));
    assert_eq!(value_under(&ctx, q, &[(x, 7)]), (-7i8 / 2) as u8 as u64);
    let sh = ctx.push(BvNode::Lshr(x, two));
    assert_eq!(value_under(&ctx, sh, &[(x, 0xF0)]), 0x3C);
    let rep = ctx.push(BvNode::Repeat(e, 2));
    assert_eq!(value_under(&ctx, rep, &[(x, 10)]), 0x66);
}

#[test]
fn shared_variable_keeps_one_word() {
    let mut ctx = BvTerms::new();
    let x = ctx.push(BvNode::Var(4));
    let s = ctx.push(BvNode::Sub(x, x));
    assert_eq!(value_under(&ctx, s, &[(x, 9)]), 0);
    let mut b = TermBlaster::new();
    let _ = b.blast_word(&ctx, s);
    let vars = b.exported_var_bits(&ctx);
    assert_eq!(vars.len(), 1);
    assert_eq!(vars[0].0, x);
}

#[test]
fn signed_predicates_read_twos_complement() {
    let mut ctx = BvTerms::new();
    let a = ctx.push(bv_const(0x80, 8));
    let b_c = ctx.push(bv_const(0x01, 8));
    for (p, want) in [(BvAtom::Slt(a, b_c), 1u64), (BvAtom::Sgt(a, b_c), 0), (BvAtom::Ugt(a, b_c), 1), (BvAtom::Distinct(a, b_c), 1)] {
        let mut bl = TermBlaster::new();
        let lit = bl.blast_atom(&ctx, p);
        assert_eq!(solve_term_blaster(bl, std::slice::from_ref(&lit)), want, "{p:?}");
    }
}

#[test]
fn blast_bv_word_constants_are_fixed_literals() {
    let one = BitLit { var: 0, pos: true };
    let zero = BitLit { var: 0, pos: false };
    let mut ctx = BvTerms::new();
    let a = ctx.push(bv_const(1, 4));
    let b = ctx.push(bv_const(0, 4));
    let t = ctx.push(BvNode::Concat(a, b));
    let mut sink = TermBlaster::new();
    let bits = blast_bv_word(&mut sink, &ctx, t);
    assert_eq!(bits, vec![zero, zero, zero, zero, one, zero, zero, zero]);

    for v in [5u64, 200, 0] {
        let mut ctx = BvTerms::new();
        let c = ctx.push(bv_const(v, 8));
        let mut sink = TermBlaster::new();
        let n0 = sink.num_vars();
        let bits = blast_bv_word(&mut sink, &ctx, c);
        let want: Vec<BitLit> = (0..8).map(|i| BitLit { var: 0, pos: (v >> i) & 1 == 1 }).collect();
        assert_eq!(bits, want);
        assert_eq!(sink.num_vars(), n0);
        assert_eq!(sink.finish().clauses.len(), 1, "only the clause pinning variable 0");
    }
}

#[test]
fn blast_bv_word_variable_gets_fresh_literals() {
    let mut ctx = BvTerms::new();
    let x = ctx.push(BvNode::Var(6));
    let mut sink = TermBlaster::new();
    let n0 = sink.num_vars();
    let bits = blast_bv_word(&mut sink, &ctx, x);
    let want: Vec<BitLit> = (0..6).map(|i| BitLit { var: n0 + i, pos: true }).collect();
    assert_eq!(bits, want);
    assert_eq!(sink.num_vars(), n0 + 6);
    // Nothing is remembered: a second call makes another fresh word, and so
    // does the memoizing `blast_word` after it, which then keeps its word.
    let again: Vec<BitLit> = (6..12).map(|i| BitLit { var: n0 + i, pos: true }).collect();
    assert_eq!(blast_bv_word(&mut sink, &ctx, x), again);
    let kept: Vec<BitLit> = (12..18).map(|i| BitLit { var: n0 + i, pos: true }).collect();
    assert_eq!(sink.blast_word(&ctx, x), kept);
    assert_eq!(sink.blast_word(&ctx, x), kept);
    assert_eq!(sink.finish().clauses.len(), 1);
}

#[test]
fn structural_words_rearrange_operand_words() {
    let mut ctx = BvTerms::new();
    let x = ctx.push(BvNode::Var(4));
    let c = ctx.push(bv_const(0b0101, 4));
    let t = ctx.push(BvNode::Concat(x, c));
    let e = ctx.push(BvNode::Extract(t, 5, 2));
    let mut sink = TermBlaster::new();
    let wx = sink.blast_word(&ctx, x);
    let n = sink.num_vars();
    let wc: Vec<BitLit> = (0..4).map(|i| BitLit { var: 0, pos: (0b0101 >> i) & 1 == 1 }).collect();
    let bits = blast_bv_word(&mut sink, &ctx, t);
    assert_eq!(bits, [wc.clone(), wx.clone()].concat(), "low word first, then the high one");
    let ext = blast_bv_word(&mut sink, &ctx, e);
    assert_eq!(ext, vec![wc[2], wc[3], wx[0], wx[1]]);
    assert_eq!(sink.num_vars(), n, "no variable added");
}

#[test]
fn blasted_products_carry_the_product() {
    let mut ctx = BvTerms::new();
    let a = ctx.push(bv_const(13, 8));
    let b = ctx.push(bv_const(20, 8));
    let t = ctx.push(BvNode::Mul(a, b));
    let mut sink = TermBlaster::new();
    let bits = blast_bv_word(&mut sink, &ctx, t);
    assert_eq!(bits.len(), 8);
    assert_eq!(solve_term_blaster(sink, &bits), (13 * 20) & 0xFF);
}

#[test]
fn rotate_right_undoes_rotate_left() {
    let x: Vec<BitLit> = (1..8).map(|v| BitLit { var: v, pos: v % 2 == 0 }).collect();
    for k in [0u32, 1, 3, 7, 9, 1000, u32::MAX] {
        assert_eq!(rotate_right(&rotate_left(&x, k), k), x, "k = {k}");
    }
    let n = x.len();
    let r = rotate_right(&x, 3);
    for i in 0..n {
        assert_eq!(r[i], x[(i + 3 % n) % n]);
    }
}
