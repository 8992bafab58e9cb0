use cs220::parser::{parse_command, BinOp, Expression};
use cs220::semiring::Polynomial;

fn render(e: &Expression) -> String {
    match e {
        Expression::Num(s) => s.clone(),
        Expression::Variable(v) => v.clone(),
        Expression::BinOp { op, lhs, rhs } => {
            let sign = match op {
                BinOp::Add => '+',
                BinOp::Subtract => '-',
                BinOp::Multiply => '*',
                BinOp::Divide => '/',
                BinOp::Power => '^',
            };
            format!("({}{}{})", render(lhs), sign, render(rhs))
        }
    }
}

#[test]
fn test_parse_plain_expression() {
    let cmd = parse_command("3 - 2").unwrap();
    assert_eq!(cmd.variable, None);
    assert_eq!(render(&cmd.expression), "(3-2)");
}

#[test]
fn test_parse_assignment() {
    let cmd = parse_command("v = 3 - 2").unwrap();
    assert_eq!(cmd.variable, Some("v".to_string()));
    assert_eq!(render(&cmd.expression), "(3-2)");
}

#[test]
fn test_parse_sum_is_left_associative() {
    let cmd = parse_command("1+2+3").unwrap();
    assert_eq!(render(&cmd.expression), "((1+2)+3)");
}

#[test]
fn test_parse_power_is_right_associative() {
    let cmd = parse_command("2^3^2").unwrap();
    assert_eq!(render(&cmd.expression), "(2^(3^2))");
}

#[test]
fn test_parse_precedence() {
    let cmd = parse_command("3 + 5 * 2").unwrap();
    assert_eq!(render(&cmd.expression), "(3+(5*2))");
    let cmd = parse_command("2 * 3 ^ 2").unwrap();
    assert_eq!(render(&cmd.expression), "(2*(3^2))");
}

#[test]
fn test_parse_parentheses() {
    let cmd = parse_command("(1+2)*3").unwrap();
    assert_eq!(render(&cmd.expression), "((1+2)*3)");
}

#[test]
fn test_parse_literals_and_variables() {
    let cmd = parse_command("3.5 + x1").unwrap();
    assert_eq!(render(&cmd.expression), "(3.5+x1)");
}

#[test]
fn test_parse_errors() {
    assert!(parse_command("").is_err());
    assert!(parse_command("1 +").is_err());
    assert!(parse_command("(1").is_err());
    assert!(parse_command("= 2").is_err());
    assert!(parse_command("1 2").is_err());
}

#[test]
fn test_polynomial_from_str() {
    let p = Polynomial::<u64>::from_str("2x^2 + 5x + 6").unwrap();
    assert_eq!(p.entries(), &vec![(2u64, 2u64), (1u64, 5u64), (0u64, 6u64)]);
    let q = Polynomial::<u64>::from_str("3").unwrap();
    assert_eq!(q.entries(), &vec![(0u64, 3u64)]);
    let r = Polynomial::<i64>::from_str("7x").unwrap();
    assert_eq!(r.entries(), &vec![(1u64, 7i64)]);
}

#[test]
fn test_polynomial_from_str_rejects_bad_terms() {
    assert!(Polynomial::<u64>::from_str("").is_err());
    assert!(Polynomial::<u64>::from_str("x").is_err());
    assert!(Polynomial::<u64>::from_str("2x^").is_err());
    assert!(Polynomial::<u64>::from_str("2 +").is_err());
    assert!(Polynomial::<u64>::from_str("2+3").is_err());
}
