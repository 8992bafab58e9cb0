//! Verified symbolic differentiation over rational coefficients.
//!
//! Rational numbers normalize through the greatest common divisor, which
//! the `num` crate computes; differentiation is a trait whose every
//! implementation carries an exact relation between a function and its
//! derivative.

use crate::numeric::gcd_spec;
use vstd::prelude::*;
use vstd::arithmetic::div_mod::lemma_fundamental_div_mod;

verus! {

/// The absolute value of an integer.
pub open spec fn abs_int(x: int) -> int {
    if x >= 0 {
        x
    } else {
        -x
    }
}

/// Relies on `num::integer::gcd` (Stein's algorithm) for unsigned
/// arguments: the greatest common divisor of the two numbers.
#[verifier::external_body]
fn gcd_u128(a: u128, b: u128) -> (r: u128)
    ensures
        r as nat == gcd_spec(a as nat, b as nat),
{
    num::integer::gcd(a, b)
}

/// Euclid's greatest common divisor is positive as soon as one argument
/// is.
proof fn lemma_gcd_pos(a: nat, b: nat)
    requires
        b > 0,
    ensures
        gcd_spec(a, b) >= 1,
    decreases b,
{
    if a % b == 0 {
        assert(gcd_spec(a, b) == gcd_spec(b, 0));
    } else {
        lemma_gcd_pos(b, a % b);
    }
}

/// Euclid's greatest common divisor never exceeds its positive second
/// argument.
proof fn lemma_gcd_le(a: nat, b: nat)
    requires
        b >= 1,
    ensures
        gcd_spec(a, b) <= b,
    decreases b,
{
    if a % b == 0 {
        assert(gcd_spec(a, b) == gcd_spec(b, 0));
    } else {
        lemma_gcd_le(b, a % b);
    }
}

/// Dividing a non-negative value by a positive one cannot grow it, and
/// stays at least one while the divisor stays within the value.
proof fn lemma_div_shrinks(a: int, g: int)
    requires
        a >= 0,
        g >= 1,
    ensures
        0 <= a / g <= a,
        g <= a ==> a / g >= 1,
{
    lemma_fundamental_div_mod(a, g);
    assert(0 <= a / g <= a) by (nonlinear_arith)
        requires
            a == g * (a / g) + a % g,
            0 <= a % g,
            a % g < g,
            g >= 1,
            a >= 0,
    {
    }
    if g <= a {
        assert(a / g >= 1) by (nonlinear_arith)
            requires
                a == g * (a / g) + a % g,
                0 <= a % g,
                a % g < g,
                1 <= g <= a,
        {
        }
    }
}

/// A numerator and denominator reduced by their greatest common divisor,
/// signs kept on their own sides.
pub open spec fn norm_pair(s: int, d: int) -> (int, int) {
    let g = gcd_spec(abs_int(s) as nat, abs_int(d) as nat) as int;
    (
        if s >= 0 {
            abs_int(s) / g
        } else {
            -(abs_int(s) / g)
        },
        if d >= 0 {
            abs_int(d) / g
        } else {
            -(abs_int(d) / g)
        },
    )
}

/// The pair holds the canonical zero.
pub open spec fn pair_is_zero(n: int, d: int) -> bool {
    n == 0 && d == 0
}

/// A well-formed pair: the denominator is only zero on the canonical
/// zero.
pub open spec fn wf_pair(n: int, d: int) -> bool {
    d != 0 || n == 0
}

/// The value fits the signed word range symmetrically, so that its
/// negation fits too.
pub open spec fn in_isize(x: int) -> bool {
    -(isize::MAX as int) <= x <= isize::MAX as int
}

/// The sum of two rationals as the implementation computes it: zeros pass
/// the other operand through, anything else is cross-multiplied and
/// reduced.  When the reduced denominator is negative, the result takes
/// the numerator's negation on both sides, the denominator receiving the
/// original numerator back.
pub open spec fn add_pair(n1: int, d1: int, n2: int, d2: int) -> (int, int) {
    if pair_is_zero(n1, d1) {
        (n2, d2)
    } else if pair_is_zero(n2, d2) {
        (n1, d1)
    } else {
        let nd = norm_pair(n1 * d2 + d1 * n2, d1 * d2);
        if nd.1 < 0 {
            (-nd.0, nd.0)
        } else {
            nd
        }
    }
}

/// The product of two rationals as the implementation computes it.
pub open spec fn mul_pair(n1: int, d1: int, n2: int, d2: int) -> (int, int) {
    if pair_is_zero(n1, d1) || pair_is_zero(n2, d2) {
        (0, 0)
    } else {
        let nd = norm_pair(n1 * n2, d1 * d2);
        if nd.1 < 0 {
            (-nd.0, -nd.1)
        } else {
            nd
        }
    }
}

/// The difference of two rationals: the second is negated (through a
/// multiplication by minus one) and added.
pub open spec fn sub_pair(n1: int, d1: int, n2: int, d2: int) -> (int, int) {
    let m = mul_pair(n2, d2, -1, 1);
    add_pair(n1, d1, m.0, m.1)
}

/// The operands stay within the bounds the sum's arithmetic needs.
pub open spec fn add_ok(n1: int, d1: int, n2: int, d2: int) -> bool {
    &&& wf_pair(n1, d1)
    &&& wf_pair(n2, d2)
    &&& in_isize(n1 * d2)
    &&& in_isize(d1 * n2)
    &&& in_isize(n1 * d2 + d1 * n2)
    &&& in_isize(d1 * d2)
}

/// The operands stay within the bounds the product's arithmetic needs.
pub open spec fn mul_ok(n1: int, d1: int, n2: int, d2: int) -> bool {
    &&& wf_pair(n1, d1)
    &&& wf_pair(n2, d2)
    &&& in_isize(n1 * n2)
    &&& in_isize(d1 * d2)
}

/// The operands stay within the bounds subtraction needs for both of its
/// stages.
pub open spec fn sub_ok(n1: int, d1: int, n2: int, d2: int) -> bool {
    let m = mul_pair(n2, d2, -1, 1);
    mul_ok(n2, d2, -1, 1) && add_ok(n1, d1, m.0, m.1)
}

/// Rational number represented by a numerator and a denominator, kept
/// coprime with the denominator non-negative; zero is the pair of two
/// zeros.
#[derive(Debug, Clone, Copy, PartialEq, Eq, Structural)]
pub struct Rational {
    numerator: isize,
    denominator: isize,
}

impl Rational {
    /// The numerator.
    pub closed spec fn num(self) -> int {
        self.numerator as int
    }

    /// The denominator.
    pub closed spec fn den(self) -> int {
        self.denominator as int
    }

    /// Creates a new rational number from the raw numerator and
    /// denominator.
    pub fn new(numerator: isize, denominator: isize) -> (r: Self)
        ensures
            r.num() == numerator,
            r.den() == denominator,
    {
        Self { numerator, denominator }
    }

    /// Reads the numerator back.
    pub fn numerator_value(&self) -> (r: isize)
        ensures
            r == self.num(),
    {
        self.numerator
    }

    /// Reads the denominator back.
    pub fn denominator_value(&self) -> (r: isize)
        ensures
            r == self.den(),
    {
        self.denominator
    }

    /// Adds two rationals, normalizing the result.
    pub fn add(self, rhs: Self) -> (r: Self)
        requires
            !pair_is_zero(self.num(), self.den()) && !pair_is_zero(rhs.num(), rhs.den())
                ==> add_ok(self.num(), self.den(), rhs.num(), rhs.den()),
        ensures
            (r.num(), r.den()) == add_pair(self.num(), self.den(), rhs.num(), rhs.den()),
            wf_pair(self.num(), self.den()) && wf_pair(rhs.num(), rhs.den()) ==> wf_pair(
                r.num(),
                r.den(),
            ),
    {
        if self.numerator == 0 && self.denominator == 0 {
            rhs
        } else if rhs.numerator == 0 && rhs.denominator == 0 {
            self
        } else {
            let s = self.numerator * rhs.denominator + self.denominator * rhs.numerator;
            let d = self.denominator * rhs.denominator;
            proof {
                assert(d != 0) by (nonlinear_arith)
                    requires
                        self.den() != 0,
                        rhs.den() != 0,
                        d == self.den() * rhs.den(),
                {
                }
            }
            let nd = normalize(s, d);
            let mut numerator = nd.0;
            let mut denominator = nd.1;
            if denominator < 0 {
                numerator = -numerator;
                denominator = -numerator;
            }
            Self { numerator, denominator }
        }
    }

    /// Multiplies two rationals, normalizing the result.
    pub fn mul(self, rhs: Self) -> (r: Self)
        requires
            !pair_is_zero(self.num(), self.den()) && !pair_is_zero(rhs.num(), rhs.den())
                ==> mul_ok(self.num(), self.den(), rhs.num(), rhs.den()),
        ensures
            (r.num(), r.den()) == mul_pair(self.num(), self.den(), rhs.num(), rhs.den()),
            wf_pair(self.num(), self.den()) && wf_pair(rhs.num(), rhs.den()) ==> wf_pair(
                r.num(),
                r.den(),
            ),
    {
        if (self.numerator == 0 && self.denominator == 0) || (rhs.numerator == 0
            && rhs.denominator == 0) {
            Self { numerator: 0, denominator: 0 }
        } else {
            let s = self.numerator * rhs.numerator;
            let d = self.denominator * rhs.denominator;
            proof {
                assert(d != 0) by (nonlinear_arith)
                    requires
                        self.den() != 0,
                        rhs.den() != 0,
                        d == self.den() * rhs.den(),
                {
                }
            }
            let nd = normalize(s, d);
            let mut numerator = nd.0;
            let mut denominator = nd.1;
            if denominator < 0 {
                numerator = -numerator;
                denominator = -denominator;
            }
            Self { numerator, denominator }
        }
    }

    /// Subtracts `rhs` by adding its negation.
    pub fn sub(self, rhs: Self) -> (r: Self)
        requires
            wf_pair(self.num(), self.den()),
            wf_pair(rhs.num(), rhs.den()),
            sub_ok(self.num(), self.den(), rhs.num(), rhs.den()),
        ensures
            (r.num(), r.den()) == sub_pair(self.num(), self.den(), rhs.num(), rhs.den()),
            wf_pair(r.num(), r.den()),
    {
        let neg = rhs.mul(Self { numerator: -1, denominator: 1 });
        self.add(neg)
    }

    /// Divides by `rhs` by multiplying with its reciprocal.  The divisor
    /// may not be zero, and its reciprocal must be a well-formed rational.
    pub fn div(self, rhs: Self) -> (r: Self)
        requires
            wf_pair(self.num(), self.den()),
            !pair_is_zero(rhs.num(), rhs.den()),
            mul_ok(self.num(), self.den(), rhs.den(), rhs.num()),
        ensures
            (r.num(), r.den()) == mul_pair(self.num(), self.den(), rhs.den(), rhs.num()),
            wf_pair(r.num(), r.den()),
    {
        let rev = Self { numerator: rhs.denominator, denominator: rhs.numerator };
        self.mul(rev)
    }
}

/// Reduces the fraction `s / d` by the greatest common divisor of the two
/// magnitudes, each side keeping its sign.
fn normalize(s: isize, d: isize) -> (r: (isize, isize))
    requires
        in_isize(s as int),
        in_isize(d as int),
        d != 0,
    ensures
        (r.0 as int, r.1 as int) == norm_pair(s as int, d as int),
        abs_int(r.0 as int) <= abs_int(s as int),
        1 <= abs_int(r.1 as int) <= abs_int(d as int),
{
    let sa: u128 = if s >= 0 {
        s as u128
    } else {
        (-(s as i128)) as u128
    };
    let da: u128 = if d >= 0 {
        d as u128
    } else {
        (-(d as i128)) as u128
    };
    proof {
        assert(sa as int == abs_int(s as int));
        assert(da as int == abs_int(d as int));
    }
    let g = gcd_u128(sa, da);
    proof {
        lemma_gcd_pos(sa as nat, da as nat);
        lemma_gcd_le(sa as nat, da as nat);
        lemma_div_shrinks(sa as int, g as int);
        lemma_div_shrinks(da as int, g as int);
    }
    let qn = sa / g;
    let qd = da / g;
    let n0: isize = if s >= 0 {
        qn as isize
    } else {
        -(qn as isize)
    };
    let d0: isize = if d >= 0 {
        qd as isize
    } else {
        -(qd as isize)
    };
    (n0, d0)
}

/// Differentiable functions: each carries the exact relation between
/// itself and its derivative.
pub trait Differentiable: Sized {
    /// The bounds under which differentiating cannot overflow.
    spec fn diff_ok(&self) -> bool;

    /// The derivative relation: `r` is the derivative of `self`.
    spec fn diff_rel(&self, r: &Self) -> bool;

    /// Differentiates.
    fn diff(&self) -> (r: Self)
        requires
            self.diff_ok(),
        ensures
            self.diff_rel(&r),
    ;

    /// Returns a value equal to `self`.
    fn duplicate(&self) -> (r: Self)
        ensures
            r == *self,
    ;
}

impl Differentiable for Rational {
    /// A constant differentiates without any arithmetic.
    open spec fn diff_ok(&self) -> bool {
        true
    }

    /// The derivative of a constant is zero.
    open spec fn diff_rel(&self, r: &Self) -> bool {
        pair_is_zero(r.num(), r.den())
    }

    fn diff(&self) -> (r: Self) {
        Rational { numerator: 0, denominator: 0 }
    }

    fn duplicate(&self) -> (r: Self) {
        *self
    }
}

/// Singleton polynomial: a constant, or a single term with a coefficient
/// and a power.
#[derive(Debug, Clone, Copy, PartialEq, Eq, Structural)]
pub enum SingletonPolynomial {
    /// Constant polynomial.
    Const(Rational),
    /// A single non-constant term with its coefficient and power.
    Polynomial {
        /// Coefficient of the term.
        coeff: Rational,
        /// Power of the term.
        power: Rational,
    },
}

impl SingletonPolynomial {
    /// Creates a new constant polynomial.
    pub fn new_c(r: Rational) -> (s: Self)
        ensures
            s == SingletonPolynomial::Const(r),
    {
        Self::Const(r)
    }

    /// Creates a new single-term polynomial.
    pub fn new_poly(coeff: Rational, power: Rational) -> (s: Self)
        ensures
            s == (SingletonPolynomial::Polynomial { coeff, power }),
    {
        Self::Polynomial { coeff, power }
    }
}

impl Differentiable for SingletonPolynomial {
    /// The power rule's coefficient product and power decrement stay in
    /// bounds.
    open spec fn diff_ok(&self) -> bool {
        match *self {
            SingletonPolynomial::Const(_) => true,
            SingletonPolynomial::Polynomial { coeff, power } => {
                &&& wf_pair(coeff.num(), coeff.den())
                &&& wf_pair(power.num(), power.den())
                &&& mul_ok(coeff.num(), coeff.den(), power.num(), power.den())
                &&& sub_ok(power.num(), power.den(), 1, 1)
            },
        }
    }

    /// The power rule: the coefficient is multiplied by the power and the
    /// power drops by one; a power reaching zero leaves a constant.
    open spec fn diff_rel(&self, r: &Self) -> bool {
        match *self {
            SingletonPolynomial::Const(_) => *r matches SingletonPolynomial::Const(c)
                && pair_is_zero(c.num(), c.den()),
            SingletonPolynomial::Polynomial { coeff, power } => {
                let m = mul_pair(coeff.num(), coeff.den(), power.num(), power.den());
                let p = sub_pair(power.num(), power.den(), 1, 1);
                if pair_is_zero(p.0, p.1) {
                    *r matches SingletonPolynomial::Const(c) && (c.num(), c.den()) == m
                } else {
                    *r matches SingletonPolynomial::Polynomial { coeff: c, power: q } && (
                    c.num(),
                    c.den(),
                ) == m && (q.num(), q.den()) == p
                }
            },
        }
    }

    fn diff(&self) -> (r: Self) {
        match self {
            Self::Const(_) => Self::Const(Rational { numerator: 0, denominator: 0 }),
            Self::Polynomial { coeff, power } => {
                let new_coeff = (*coeff).mul(*power);
                let new_power = (*power).sub(Rational { numerator: 1, denominator: 1 });
                if new_power.numerator == 0 && new_power.denominator == 0 {
                    Self::Const(new_coeff)
                } else {
                    Self::Polynomial { coeff: new_coeff, power: new_power }
                }
            },
        }
    }

    fn duplicate(&self) -> (r: Self) {
        *self
    }
}

/// The exponential function.
#[derive(Debug, Clone, Copy, PartialEq, Eq, Structural)]
pub struct Exp;

impl Exp {
    /// Creates a new exponential function.
    pub fn new() -> (r: Self)
        ensures
            r == Exp,
    {
        Exp
    }
}

impl Default for Exp {
    fn default() -> (r: Self)
        ensures
            r == Exp,
    {
        Self::new()
    }
}

impl Differentiable for Exp {
    /// The exponential differentiates without any arithmetic.
    open spec fn diff_ok(&self) -> bool {
        true
    }

    /// The exponential is its own derivative.
    open spec fn diff_rel(&self, r: &Self) -> bool {
        *r == Exp
    }

    fn diff(&self) -> (r: Self) {
        Exp
    }

    fn duplicate(&self) -> (r: Self) {
        Exp
    }
}

/// Trigonometric functions, carrying their coefficients so that they are
/// closed under differentiation.
#[derive(Debug, Clone, Copy, PartialEq, Eq, Structural)]
pub enum Trignometric {
    /// Sine function.
    Sine {
        /// Coefficient.
        coeff: Rational,
    },
    /// Cosine function.
    Cosine {
        /// Coefficient.
        coeff: Rational,
    },
}

impl Trignometric {
    /// Creates a new sine function.
    pub fn new_sine(coeff: Rational) -> (r: Self)
        ensures
            r == (Trignometric::Sine { coeff }),
    {
        Self::Sine { coeff }
    }

    /// Creates a new cosine function.
    pub fn new_cosine(coeff: Rational) -> (r: Self)
        ensures
            r == (Trignometric::Cosine { coeff }),
    {
        Self::Cosine { coeff }
    }
}

impl Differentiable for Trignometric {
    /// The cosine's coefficient negation stays in bounds.
    open spec fn diff_ok(&self) -> bool {
        match *self {
            Trignometric::Sine { coeff } => true,
            Trignometric::Cosine { coeff } => wf_pair(coeff.num(), coeff.den()) && mul_ok(
                coeff.num(),
                coeff.den(),
                -1,
                1,
            ),
        }
    }

    /// Sine differentiates to cosine with the same coefficient; cosine to
    /// sine with the negated coefficient.
    open spec fn diff_rel(&self, r: &Self) -> bool {
        match *self {
            Trignometric::Sine { coeff } => *r == (Trignometric::Cosine { coeff }),
            Trignometric::Cosine { coeff } => {
                let m = mul_pair(coeff.num(), coeff.den(), -1, 1);
                *r matches Trignometric::Sine { coeff: c } && (c.num(), c.den()) == m
            },
        }
    }

    fn diff(&self) -> (r: Self) {
        match self {
            Self::Sine { coeff } => Self::Cosine { coeff: *coeff },
            Self::Cosine { coeff } => {
                let c = (*coeff).mul(Rational { numerator: -1, denominator: 1 });
                Self::Sine { coeff: c }
            },
        }
    }

    fn duplicate(&self) -> (r: Self) {
        *self
    }
}

/// Basic functions: constants, single polynomial terms, the exponential
/// and the trigonometric functions.
#[derive(Debug, Clone, Copy, PartialEq, Eq, Structural)]
pub enum BaseFuncs {
    /// Constant.
    Const(Rational),
    /// Polynomial.
    Poly(SingletonPolynomial),
    /// Exponential.
    Exp(Exp),
    /// Trigonometric.
    Trig(Trignometric),
}

impl Differentiable for BaseFuncs {
    /// Each wrapped function must itself differentiate in bounds.
    open spec fn diff_ok(&self) -> bool {
        match *self {
            BaseFuncs::Const(r) => r.diff_ok(),
            BaseFuncs::Poly(p) => p.diff_ok(),
            BaseFuncs::Exp(e) => e.diff_ok(),
            BaseFuncs::Trig(t) => t.diff_ok(),
        }
    }

    /// Each wrapped function differentiates inside its own variant.
    open spec fn diff_rel(&self, r: &Self) -> bool {
        match *self {
            BaseFuncs::Const(x) => *r matches BaseFuncs::Const(y) && x.diff_rel(&y),
            BaseFuncs::Poly(x) => *r matches BaseFuncs::Poly(y) && x.diff_rel(&y),
            BaseFuncs::Exp(x) => *r matches BaseFuncs::Exp(y) && x.diff_rel(&y),
            BaseFuncs::Trig(x) => *r matches BaseFuncs::Trig(y) && x.diff_rel(&y),
        }
    }

    fn diff(&self) -> (r: Self) {
        match self {
            Self::Const(x) => Self::Const(x.diff()),
            Self::Poly(x) => Self::Poly(x.diff()),
            Self::Exp(x) => Self::Exp(x.diff()),
            Self::Trig(x) => Self::Trig(x.diff()),
        }
    }

    fn duplicate(&self) -> (r: Self) {
        *self
    }
}

/// Complex functions: sums, differences, products, quotients and
/// compositions over a base family.
#[derive(Debug)]
pub enum ComplexFuncs<F> {
    /// A basic function.
    Func(F),
    /// Addition.
    Add(Box<ComplexFuncs<F>>, Box<ComplexFuncs<F>>),
    /// Subtraction.
    Sub(Box<ComplexFuncs<F>>, Box<ComplexFuncs<F>>),
    /// Multiplication.
    Mul(Box<ComplexFuncs<F>>, Box<ComplexFuncs<F>>),
    /// Division.
    Div(Box<ComplexFuncs<F>>, Box<ComplexFuncs<F>>),
    /// Composition.
    Comp(Box<ComplexFuncs<F>>, Box<ComplexFuncs<F>>),
}

impl<F: Differentiable> Differentiable for ComplexFuncs<F> {
    /// Every base function inside must differentiate in bounds.
    open spec fn diff_ok(&self) -> bool
        decreases self,
    {
        match *self {
            ComplexFuncs::Func(f) => f.diff_ok(),
            ComplexFuncs::Add(a, b) => (*a).diff_ok() && (*b).diff_ok(),
            ComplexFuncs::Sub(a, b) => (*a).diff_ok() && (*b).diff_ok(),
            ComplexFuncs::Mul(a, b) => (*a).diff_ok() && (*b).diff_ok(),
            ComplexFuncs::Div(a, b) => (*a).diff_ok() && (*b).diff_ok(),
            ComplexFuncs::Comp(a, b) => (*a).diff_ok() && (*b).diff_ok(),
        }
    }

    /// The elementary differentiation rules: sums and differences
    /// differentiate member-wise, products by the product rule, quotients
    /// by the quotient rule, and compositions by this implementation's
    /// chain rule, which composes the derivative of the outer function
    /// with the inner one and multiplies by the inner derivative.
    open spec fn diff_rel(&self, r: &Self) -> bool
        decreases self,
    {
        match *self {
            ComplexFuncs::Func(f) => *r matches ComplexFuncs::Func(g) && f.diff_rel(&g),
            ComplexFuncs::Add(a, b) => *r matches ComplexFuncs::Add(da, db) && (*a).diff_rel(
                &*da,
            ) && (*b).diff_rel(&*db),
            ComplexFuncs::Sub(a, b) => *r matches ComplexFuncs::Sub(da, db) && (*a).diff_rel(
                &*da,
            ) && (*b).diff_rel(&*db),
            ComplexFuncs::Mul(a, b) => *r matches ComplexFuncs::Add(l, rr) && *l
                matches ComplexFuncs::Mul(da, b1) && *rr matches ComplexFuncs::Mul(a1, db) && (
            *a).diff_rel(&*da) && *b1 == *b && *a1 == *a && (*b).diff_rel(&*db),
            ComplexFuncs::Div(a, b) => *r matches ComplexFuncs::Div(top, bot) && *top
                matches ComplexFuncs::Sub(l, rr) && *l matches ComplexFuncs::Mul(da, b1) && *rr
                matches ComplexFuncs::Mul(a1, db) && *bot matches ComplexFuncs::Mul(b2, b3) && (
            *a).diff_rel(&*da) && *b1 == *b && *a1 == *a && (*b).diff_rel(&*db) && *b2 == *b && *b3
                == *b,
            ComplexFuncs::Comp(a, b) => *r matches ComplexFuncs::Mul(db, c) && *c
                matches ComplexFuncs::Comp(da, b1) && (*b).diff_rel(&*db) && (*a).diff_rel(&*da)
                && *b1 == *b,
        }
    }

    fn diff(&self) -> (r: Self)
        decreases self,
    {
        match self {
            Self::Func(f) => Self::Func(f.diff()),
            Self::Add(f1, f2) => Self::Add(Box::new(f1.diff()), Box::new(f2.diff())),
            Self::Sub(f1, f2) => Self::Sub(Box::new(f1.diff()), Box::new(f2.diff())),
            Self::Mul(f1, f2) => Self::Add(
                Box::new(Self::Mul(Box::new(f1.diff()), Box::new(f2.duplicate()))),
                Box::new(Self::Mul(Box::new(f1.duplicate()), Box::new(f2.diff()))),
            ),
            Self::Div(f1, f2) => Self::Div(
                Box::new(
                    Self::Sub(
                        Box::new(Self::Mul(Box::new(f1.diff()), Box::new(f2.duplicate()))),
                        Box::new(Self::Mul(Box::new(f1.duplicate()), Box::new(f2.diff()))),
                    ),
                ),
                Box::new(Self::Mul(Box::new(f2.duplicate()), Box::new(f2.duplicate()))),
            ),
            Self::Comp(f1, f2) => Self::Mul(
                Box::new(f2.diff()),
                Box::new(Self::Comp(Box::new(f1.diff()), Box::new(f2.duplicate()))),
            ),
        }
    }

    fn duplicate(&self) -> (r: Self)
        decreases self,
    {
        match self {
            Self::Func(f) => Self::Func(f.duplicate()),
            Self::Add(f1, f2) => Self::Add(Box::new(f1.duplicate()), Box::new(f2.duplicate())),
            Self::Sub(f1, f2) => Self::Sub(Box::new(f1.duplicate()), Box::new(f2.duplicate())),
            Self::Mul(f1, f2) => Self::Mul(Box::new(f1.duplicate()), Box::new(f2.duplicate())),
            Self::Div(f1, f2) => Self::Div(Box::new(f1.duplicate()), Box::new(f2.duplicate())),
            Self::Comp(f1, f2) => Self::Comp(Box::new(f1.duplicate()), Box::new(f2.duplicate())),
        }
    }
}

} // verus!
