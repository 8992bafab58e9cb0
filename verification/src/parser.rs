//! A verified parser for calculator command lines: an optional variable
//! assignment followed by an arithmetic expression with the usual
//! precedence, left-associative sums and products and a right-associative
//! power operator.
//!
//! Numeric literals are kept as their text; evaluation converts them
//! outside this crate, since their values are not integers.

use crate::strutil::{chars_of, string_of};
use vstd::prelude::*;

verus! {

/// A binary operator of the calculator.
#[derive(Debug, Clone, Copy, PartialEq, Eq, Structural)]
pub enum BinOp {
    /// Addition.
    Add,
    /// Subtraction.
    Subtract,
    /// Multiplication.
    Multiply,
    /// Division.
    Divide,
    /// Exponentiation.
    Power,
}

/// An arithmetic expression over numeric literals and variables.
#[derive(Debug)]
pub enum Expression {
    /// A number literal, kept as its text.
    Num(String),
    /// A variable reference.
    Variable(String),
    /// A binary operation.
    BinOp {
        /// The operator.
        op: BinOp,
        /// The left operand.
        lhs: Box<Expression>,
        /// The right operand.
        rhs: Box<Expression>,
    },
}

/// A command: an expression, optionally assigned to a variable.
#[derive(Debug)]
pub struct Command {
    /// The variable assigned to, if any.
    pub variable: Option<String>,
    /// The expression to calculate.
    pub expression: Expression,
}

/// The parse could not be completed.
#[derive(Debug, Clone, Copy, PartialEq, Eq, Structural)]
pub struct ParseError;

/// The specification-level shape of an expression, over character
/// sequences.
pub enum ExprModel {
    /// A number literal, as its text.
    Num(Seq<char>),
    /// A variable reference.
    Variable(Seq<char>),
    /// A binary operation.
    BinOp(BinOp, Box<ExprModel>, Box<ExprModel>),
}

/// The specification-level shape of an expression tree.
pub open spec fn expr_model(e: Expression) -> ExprModel
    decreases e,
{
    match e {
        Expression::Num(s) => ExprModel::Num(s@),
        Expression::Variable(s) => ExprModel::Variable(s@),
        Expression::BinOp { op, lhs, rhs } => ExprModel::BinOp(
            op,
            Box::new(expr_model(*lhs)),
            Box::new(expr_model(*rhs)),
        ),
    }
}

/// An ASCII digit.
pub open spec fn is_digit(c: char) -> bool {
    '0' <= c && c <= '9'
}

/// An ASCII letter.
pub open spec fn is_alpha(c: char) -> bool {
    ('a' <= c && c <= 'z') || ('A' <= c && c <= 'Z')
}

/// A letter or a digit.
pub open spec fn is_alnum(c: char) -> bool {
    is_alpha(c) || is_digit(c)
}

/// The first position at or after `i` that does not hold a space.
pub open spec fn skip_ws(s: Seq<char>, i: int) -> int
    decreases s.len() - i,
{
    if 0 <= i < s.len() && s[i] == ' ' {
        skip_ws(s, i + 1)
    } else {
        i
    }
}

/// The end of the digit run starting at `i`.
pub open spec fn scan_digits(s: Seq<char>, i: int) -> int
    decreases s.len() - i,
{
    if 0 <= i < s.len() && is_digit(s[i]) {
        scan_digits(s, i + 1)
    } else {
        i
    }
}

/// The end of the letter-or-digit run starting at `i`.
pub open spec fn scan_alnum(s: Seq<char>, i: int) -> int
    decreases s.len() - i,
{
    if 0 <= i < s.len() && is_alnum(s[i]) {
        scan_alnum(s, i + 1)
    } else {
        i
    }
}

/// The end of the number literal starting at `i`: a digit run, optionally
/// followed by a point and a further digit run.
pub open spec fn number_end(s: Seq<char>, i: int) -> int {
    let e = scan_digits(s, i);
    if e < s.len() && s[e] == '.' {
        scan_digits(s, e + 1)
    } else {
        e
    }
}

/// Parses an atom at `i`: a parenthesized expression, a number literal or
/// a variable name.  `None` when nothing matches; otherwise the model and
/// the position after it.
pub open spec fn spec_atom(s: Seq<char>, i: int, fuel: nat) -> Option<(ExprModel, int)>
    decreases fuel,
{
    if fuel == 0 {
        None
    } else {
        let j = skip_ws(s, i);
        if j < s.len() && s[j] == '(' {
            match spec_expr(s, j + 1, (fuel - 1) as nat) {
                None => None,
                Some((e, k)) => {
                    let k2 = skip_ws(s, k);
                    if k2 < s.len() && s[k2] == ')' {
                        Some((e, k2 + 1))
                    } else {
                        None
                    }
                },
            }
        } else if j < s.len() && is_digit(s[j]) {
            Some((ExprModel::Num(s.subrange(j, number_end(s, j))), number_end(s, j)))
        } else if j < s.len() && is_alpha(s[j]) {
            Some((ExprModel::Variable(s.subrange(j, scan_alnum(s, j + 1))), scan_alnum(s, j + 1)))
        } else {
            None
        }
    }
}

/// Parses a factor at `i`: an atom, optionally raised to a factor; the
/// power operator associates to the right.
pub open spec fn spec_factor(s: Seq<char>, i: int, fuel: nat) -> Option<(ExprModel, int)>
    decreases fuel,
{
    if fuel == 0 {
        None
    } else {
        match spec_atom(s, i, (fuel - 1) as nat) {
            None => None,
            Some((a, k)) => {
                let k2 = skip_ws(s, k);
                if k2 < s.len() && s[k2] == '^' {
                    match spec_factor(s, k2 + 1, (fuel - 1) as nat) {
                        None => None,
                        Some((b, m)) => Some(
                            (ExprModel::BinOp(BinOp::Power, Box::new(a), Box::new(b)), m),
                        ),
                    }
                } else {
                    Some((a, k))
                }
            },
        }
    }
}

/// Extends `acc` with the `*` and `/` factors that follow `i`; products
/// associate to the left.
pub open spec fn spec_term_tail(s: Seq<char>, acc: ExprModel, i: int, fuel: nat) -> Option<
    (ExprModel, int),
>
    decreases fuel,
{
    if fuel == 0 {
        None
    } else {
        let j = skip_ws(s, i);
        if j < s.len() && (s[j] == '*' || s[j] == '/') {
            let op = if s[j] == '*' {
                BinOp::Multiply
            } else {
                BinOp::Divide
            };
            match spec_factor(s, j + 1, (fuel - 1) as nat) {
                None => None,
                Some((b, k)) => spec_term_tail(
                    s,
                    ExprModel::BinOp(op, Box::new(acc), Box::new(b)),
                    k,
                    (fuel - 1) as nat,
                ),
            }
        } else {
            Some((acc, i))
        }
    }
}

/// Parses a term at `i`: factors joined by `*` and `/`.
pub open spec fn spec_term(s: Seq<char>, i: int, fuel: nat) -> Option<(ExprModel, int)>
    decreases fuel,
{
    if fuel == 0 {
        None
    } else {
        match spec_factor(s, i, (fuel - 1) as nat) {
            None => None,
            Some((a, k)) => spec_term_tail(s, a, k, (fuel - 1) as nat),
        }
    }
}

/// Extends `acc` with the `+` and `-` terms that follow `i`; sums
/// associate to the left.
pub open spec fn spec_expr_tail(s: Seq<char>, acc: ExprModel, i: int, fuel: nat) -> Option<
    (ExprModel, int),
>
    decreases fuel,
{
    if fuel == 0 {
        None
    } else {
        let j = skip_ws(s, i);
        if j < s.len() && (s[j] == '+' || s[j] == '-') {
            let op = if s[j] == '+' {
                BinOp::Add
            } else {
                BinOp::Subtract
            };
            match spec_term(s, j + 1, (fuel - 1) as nat) {
                None => None,
                Some((b, k)) => spec_expr_tail(
                    s,
                    ExprModel::BinOp(op, Box::new(acc), Box::new(b)),
                    k,
                    (fuel - 1) as nat,
                ),
            }
        } else {
            Some((acc, i))
        }
    }
}

/// Parses an expression at `i`: terms joined by `+` and `-`.
pub open spec fn spec_expr(s: Seq<char>, i: int, fuel: nat) -> Option<(ExprModel, int)>
    decreases fuel,
{
    if fuel == 0 {
        None
    } else {
        match spec_term(s, i, (fuel - 1) as nat) {
            None => None,
            Some((a, k)) => spec_expr_tail(s, a, k, (fuel - 1) as nat),
        }
    }
}

/// The fuel that lets the descent reach the end of the line.
pub open spec fn parse_fuel(s: Seq<char>) -> nat {
    (4 * s.len() + 8) as nat
}

/// Parses a whole command line: an optional `name =` assignment, an
/// expression, and nothing but spaces after it.  `None` when the line
/// does not parse.
pub open spec fn spec_command(s: Seq<char>) -> Option<(Option<Seq<char>>, ExprModel)> {
    let j = skip_ws(s, 0);
    if j < s.len() && is_alpha(s[j]) && ({
        let e = scan_alnum(s, j + 1);
        let k = skip_ws(s, e);
        k < s.len() && s[k] == '='
    }) {
        let e = scan_alnum(s, j + 1);
        let k = skip_ws(s, e);
        match spec_expr(s, k + 1, parse_fuel(s)) {
            None => None,
            Some((m, p)) => if skip_ws(s, p) == s.len() {
                Some((Some(s.subrange(j, e)), m))
            } else {
                None
            },
        }
    } else {
        match spec_expr(s, 0, parse_fuel(s)) {
            None => None,
            Some((m, p)) => if skip_ws(s, p) == s.len() {
                Some((None, m))
            } else {
                None
            },
        }
    }
}


/// The first position at or after `i` without a space.
fn ws_end(cs: &Vec<char>, i: usize) -> (r: usize)
    requires
        i <= cs@.len(),
    ensures
        r == skip_ws(cs@, i as int),
        i <= r <= cs@.len(),
    decreases cs@.len() - i,
{
    if i < cs.len() && cs[i] == ' ' {
        ws_end(cs, i + 1)
    } else {
        i
    }
}

/// The end of the digit run starting at `i`.
pub(crate) fn digits_end(cs: &Vec<char>, i: usize) -> (r: usize)
    requires
        i <= cs@.len(),
    ensures
        r == scan_digits(cs@, i as int),
        i <= r <= cs@.len(),
    decreases cs@.len() - i,
{
    if i < cs.len() && '0' <= cs[i] && cs[i] <= '9' {
        digits_end(cs, i + 1)
    } else {
        i
    }
}

/// The end of the letter-or-digit run starting at `i`.
fn alnum_end(cs: &Vec<char>, i: usize) -> (r: usize)
    requires
        i <= cs@.len(),
    ensures
        r == scan_alnum(cs@, i as int),
        i <= r <= cs@.len(),
    decreases cs@.len() - i,
{
    if i < cs.len() && (('a' <= cs[i] && cs[i] <= 'z') || ('A' <= cs[i] && cs[i] <= 'Z') || ('0'
        <= cs[i] && cs[i] <= '9')) {
        alnum_end(cs, i + 1)
    } else {
        i
    }
}

/// The end of the number literal starting at `i`.
fn num_end(cs: &Vec<char>, i: usize) -> (r: usize)
    requires
        i <= cs@.len(),
    ensures
        r == number_end(cs@, i as int),
        i <= r <= cs@.len(),
{
    let e = digits_end(cs, i);
    if e < cs.len() && cs[e] == '.' {
        digits_end(cs, e + 1)
    } else {
        e
    }
}

/// The characters between `from` and `to`, as a string.
fn substring(cs: &Vec<char>, from: usize, to: usize) -> (r: String)
    requires
        from <= to <= cs@.len(),
    ensures
        r@ == cs@.subrange(from as int, to as int),
{
    let mut part: Vec<char> = Vec::new();
    let mut k = from;
    while k < to
        invariant
            from <= k <= to <= cs@.len(),
            part@ == cs@.subrange(from as int, k as int),
        decreases to - k,
    {
        part.push(cs[k]);
        k = k + 1;
        proof {
            assert(part@ =~= cs@.subrange(from as int, k as int));
        }
    }
    string_of(&part)
}

/// Parses an atom at `i`.
fn parse_atom(cs: &Vec<char>, i: usize, fuel: u64) -> (r: Option<(Expression, usize)>)
    requires
        i <= cs@.len(),
    ensures
        (r is Some) == (spec_atom(cs@, i as int, fuel as nat) is Some),
        r matches Some(p) ==> spec_atom(cs@, i as int, fuel as nat) == Some(
            (expr_model(p.0), p.1 as int),
        ) && i <= p.1 <= cs@.len(),
    decreases fuel,
{
    if fuel == 0 {
        return None;
    }
    let j = ws_end(cs, i);
    if j < cs.len() && cs[j] == '(' {
        match parse_expr(cs, j + 1, fuel - 1) {
            None => None,
            Some((e, k)) => {
                let k2 = ws_end(cs, k);
                if k2 < cs.len() && cs[k2] == ')' {
                    Some((e, k2 + 1))
                } else {
                    None
                }
            },
        }
    } else if j < cs.len() && '0' <= cs[j] && cs[j] <= '9' {
        let e = num_end(cs, j);
        let text = substring(cs, j, e);
        Some((Expression::Num(text), e))
    } else if j < cs.len() && (('a' <= cs[j] && cs[j] <= 'z') || ('A' <= cs[j] && cs[j]
        <= 'Z')) {
        let e = alnum_end(cs, j + 1);
        let text = substring(cs, j, e);
        Some((Expression::Variable(text), e))
    } else {
        None
    }
}

/// Parses a factor at `i`.
fn parse_factor(cs: &Vec<char>, i: usize, fuel: u64) -> (r: Option<(Expression, usize)>)
    requires
        i <= cs@.len(),
    ensures
        (r is Some) == (spec_factor(cs@, i as int, fuel as nat) is Some),
        r matches Some(p) ==> spec_factor(cs@, i as int, fuel as nat) == Some(
            (expr_model(p.0), p.1 as int),
        ) && i <= p.1 <= cs@.len(),
    decreases fuel,
{
    if fuel == 0 {
        return None;
    }
    match parse_atom(cs, i, fuel - 1) {
        None => None,
        Some((a, k)) => {
            let k2 = ws_end(cs, k);
            if k2 < cs.len() && cs[k2] == '^' {
                match parse_factor(cs, k2 + 1, fuel - 1) {
                    None => None,
                    Some((b, m)) => Some(
                        (
                            Expression::BinOp {
                                op: BinOp::Power,
                                lhs: Box::new(a),
                                rhs: Box::new(b),
                            },
                            m,
                        ),
                    ),
                }
            } else {
                Some((a, k))
            }
        },
    }
}

/// Extends `acc` with the products and quotients that follow `i`.
fn parse_term_tail(cs: &Vec<char>, acc: Expression, i: usize, fuel: u64) -> (r: Option<
    (Expression, usize),
>)
    requires
        i <= cs@.len(),
    ensures
        (r is Some) == (spec_term_tail(cs@, expr_model(acc), i as int, fuel as nat) is Some),
        r matches Some(p) ==> spec_term_tail(cs@, expr_model(acc), i as int, fuel as nat) == Some(
            (expr_model(p.0), p.1 as int),
        ) && i <= p.1 <= cs@.len(),
    decreases fuel,
{
    if fuel == 0 {
        return None;
    }
    let j = ws_end(cs, i);
    if j < cs.len() && (cs[j] == '*' || cs[j] == '/') {
        let op = if cs[j] == '*' {
            BinOp::Multiply
        } else {
            BinOp::Divide
        };
        match parse_factor(cs, j + 1, fuel - 1) {
            None => None,
            Some((b, k)) => {
                let joined = Expression::BinOp { op, lhs: Box::new(acc), rhs: Box::new(b) };
                parse_term_tail(cs, joined, k, fuel - 1)
            },
        }
    } else {
        Some((acc, i))
    }
}

/// Parses a term at `i`.
fn parse_term(cs: &Vec<char>, i: usize, fuel: u64) -> (r: Option<(Expression, usize)>)
    requires
        i <= cs@.len(),
    ensures
        (r is Some) == (spec_term(cs@, i as int, fuel as nat) is Some),
        r matches Some(p) ==> spec_term(cs@, i as int, fuel as nat) == Some(
            (expr_model(p.0), p.1 as int),
        ) && i <= p.1 <= cs@.len(),
    decreases fuel,
{
    if fuel == 0 {
        return None;
    }
    match parse_factor(cs, i, fuel - 1) {
        None => None,
        Some((a, k)) => parse_term_tail(cs, a, k, fuel - 1),
    }
}

/// Extends `acc` with the sums and differences that follow `i`.
fn parse_expr_tail(cs: &Vec<char>, acc: Expression, i: usize, fuel: u64) -> (r: Option<
    (Expression, usize),
>)
    requires
        i <= cs@.len(),
    ensures
        (r is Some) == (spec_expr_tail(cs@, expr_model(acc), i as int, fuel as nat) is Some),
        r matches Some(p) ==> spec_expr_tail(cs@, expr_model(acc), i as int, fuel as nat) == Some(
            (expr_model(p.0), p.1 as int),
        ) && i <= p.1 <= cs@.len(),
    decreases fuel,
{
    if fuel == 0 {
        return None;
    }
    let j = ws_end(cs, i);
    if j < cs.len() && (cs[j] == '+' || cs[j] == '-') {
        let op = if cs[j] == '+' {
            BinOp::Add
        } else {
            BinOp::Subtract
        };
        match parse_term(cs, j + 1, fuel - 1) {
            None => None,
            Some((b, k)) => {
                let joined = Expression::BinOp { op, lhs: Box::new(acc), rhs: Box::new(b) };
                parse_expr_tail(cs, joined, k, fuel - 1)
            },
        }
    } else {
        Some((acc, i))
    }
}

/// Parses an expression at `i`.
fn parse_expr(cs: &Vec<char>, i: usize, fuel: u64) -> (r: Option<(Expression, usize)>)
    requires
        i <= cs@.len(),
    ensures
        (r is Some) == (spec_expr(cs@, i as int, fuel as nat) is Some),
        r matches Some(p) ==> spec_expr(cs@, i as int, fuel as nat) == Some(
            (expr_model(p.0), p.1 as int),
        ) && i <= p.1 <= cs@.len(),
    decreases fuel,
{
    if fuel == 0 {
        return None;
    }
    match parse_term(cs, i, fuel - 1) {
        None => None,
        Some((a, k)) => parse_expr_tail(cs, a, k, fuel - 1),
    }
}

/// Parses a command line: an optional `name =` assignment, an expression,
/// and nothing but spaces after it.  A line too long for the descent
/// bound to be computed -- far beyond any line that fits in memory -- is
/// rejected outright.
pub fn parse_command(line: &str) -> (r: Result<Command, ParseError>)
    ensures
        line@.len() < 0x1000_0000_0000_0000 ==> {
            &&& (r is Ok) == (spec_command(line@) is Some)
            &&& (r matches Ok(cmd) ==> spec_command(line@) == Some(
                (
                    match cmd.variable {
                        Some(v) => Some(v@),
                        None => None::<Seq<char>>,
                    },
                    expr_model(cmd.expression),
                ),
            ))
        },
        line@.len() >= 0x1000_0000_0000_0000 ==> r is Err,
{
    let cs = chars_of(line);
    if (cs.len() as u64) >= 0x1000_0000_0000_0000u64 {
        return Err(ParseError);
    }
    let fuel = 4 * (cs.len() as u64) + 8;
    proof {
        assert(fuel as nat == parse_fuel(line@));
    }
    let j = ws_end(&cs, 0);
    let mut assign = false;
    let mut e: usize = 0;
    let mut k: usize = 0;
    if j < cs.len() && (('a' <= cs[j] && cs[j] <= 'z') || ('A' <= cs[j] && cs[j] <= 'Z')) {
        e = alnum_end(&cs, j + 1);
        k = ws_end(&cs, e);
        if k < cs.len() && cs[k] == '=' {
            assign = true;
        }
    }
    if assign {
        match parse_expr(&cs, k + 1, fuel) {
            None => Err(ParseError),
            Some((m, p)) => {
                if ws_end(&cs, p) == cs.len() {
                    let name = substring(&cs, j, e);
                    Ok(Command { variable: Some(name), expression: m })
                } else {
                    Err(ParseError)
                }
            },
        }
    } else {
        match parse_expr(&cs, 0, fuel) {
            None => Err(ParseError),
            Some((m, p)) => {
                if ws_end(&cs, p) == cs.len() {
                    Ok(Command { variable: None, expression: m })
                } else {
                    Err(ParseError)
                }
            },
        }
    }
}

} // verus!
