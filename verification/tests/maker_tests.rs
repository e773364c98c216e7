use make_up_binary::{Expr, Maker, Step};

/// Evaluates the decomposition recorded for `t` by substituting each factor
/// leaf for its own mask value; every lookup is a pure cache hit after the
/// first resolution.
fn eval(m: &mut Maker, t: u8) -> u8 {
    match m.make(t).1 {
        Step::Exist => t,
        Step::Not(n) => !eval(m, n),
        Step::And(a, b) => eval(m, a) & eval(m, b),
        Step::Or(a, b) => eval(m, a) | eval(m, b),
        Step::Magic => panic!("mask did not resolve"),
    }
}

fn has_not(m: &mut Maker, t: u8) -> bool {
    match m.make(t).1 {
        Step::Exist => false,
        Step::Not(_) => true,
        Step::And(a, b) => has_not(m, a) || has_not(m, b),
        Step::Or(a, b) => has_not(m, a) || has_not(m, b),
        Step::Magic => false,
    }
}

#[test]
fn factor_resolves_to_leaf() {
    let mut m = Maker::new(vec![0b01010101, 0b00110011, 0b00001111]);
    assert_eq!(m.make(0b01010101), (0, Step::Exist));
    assert_eq!(m.make(0b00110011), (0, Step::Exist));
    assert_eq!(m.make(0b00001111), (0, Step::Exist));
}

#[test]
fn make_is_idempotent() {
    let mut m = Maker::new(vec![0b01010101, 0b00110011, 0b00001111]);
    let first = m.make(0b00000101);
    let second = m.make(0b00000101);
    assert_eq!(first, second);
}

#[test]
fn scenario_reachable_five() {
    let mut m = Maker::new(vec![0b01010101, 0b00110011, 0b00001111]);
    assert!(m.check(0b00000101));
    assert_eq!(eval(&mut m, 0b00000101), 0b00000101);
}

#[test]
fn scenario_needs_not() {
    let mut m = Maker::new(vec![0b01010101, 0b00110011, 0b00001111]);
    assert!(m.check(0b00010000));
    assert_eq!(eval(&mut m, 0b00010000), 0b00010000);
    assert!(has_not(&mut m, 0b00010000));
}

#[test]
fn scenario_infeasible_detail() {
    let m = Maker::new(vec![0b100, 0b011, 0b000, 0b111]);
    assert!(!m.check(0b101));
    assert_eq!(m.check_detail(0b101), vec![0b011]);
}

#[test]
fn infeasible_resolves_to_magic() {
    let mut m = Maker::new(vec![0b100, 0b011, 0b000, 0b111]);
    let r = m.make(0b101);
    assert_eq!(r.1, Step::Magic);
    assert_eq!(r.0, u64::MAX);
    assert!(matches!(m.get_expr(0b101), Expr::Magic));
}

/// Evaluates a reconstructed expression tree by substituting each factor
/// leaf for its own mask value.
fn eval_expr(e: &Expr) -> u8 {
    match e {
        Expr::Exist(v) => *v,
        Expr::Not(n) => !eval_expr(n),
        Expr::And(a, b) => eval_expr(a) & eval_expr(b),
        Expr::Or(a, b) => eval_expr(a) | eval_expr(b),
        Expr::Magic => panic!("error leaf in a resolved tree"),
    }
}

#[test]
fn expr_tree_recombines_to_target() {
    let mut m = Maker::new(vec![0b01010101, 0b00110011, 0b00001111]);
    let r = m.make(0b00000101);
    assert!(r.1 != Step::Magic);
    assert_eq!(eval_expr(&m.get_expr(0b00000101)), 0b00000101);
}

#[test]
fn factor_expr_is_leaf() {
    let mut m = Maker::new(vec![0b01010101]);
    m.make(0b01010101);
    assert!(matches!(m.get_expr(0b01010101), Expr::Exist(0b01010101)));
}

#[test]
fn tie_prefers_and() {
    // Both an AND pairing (0b0111 & 0b1110) and an OR pairing
    // (0b0100 | 0b0010) of cost zero produce the target; AND must win.
    let mut m = Maker::new(vec![0b0111, 0b1110, 0b0100, 0b0010]);
    let r = m.make(0b0110);
    assert_eq!(r.0, 0);
    assert!(matches!(r.1, Step::And(_, _)));
}

#[test]
fn not_costs_one_more() {
    let mut m = Maker::new(vec![0b01010101]);
    let r = m.make(0b10101010);
    assert_eq!(r, (1, Step::Not(0b01010101)));
}
