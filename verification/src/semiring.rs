//! Semirings: a shared interface for types with an addition and a
//! multiplication, machine-word instances with wrapping arithmetic, and
//! sparse polynomials over any semiring.

use crate::strutil::chars_of;
use vstd::prelude::*;
use vstd::wrapping::{i64_specs, u64_specs};

verus! {

/// A semiring: an additive identity, a multiplicative identity, and the
/// two operations.  Every implementation pins its operations down with
/// specification functions of its own.
pub trait Semiring: Sized {
    /// The additive identity, at the specification level.
    spec fn zero_spec() -> Self;

    /// The multiplicative identity, at the specification level.
    spec fn one_spec() -> Self;

    /// The sum, at the specification level.
    spec fn add_spec(self, rhs: Self) -> Self;

    /// The product, at the specification level.
    spec fn mul_spec(self, rhs: Self) -> Self;

    /// Additive identity.
    fn zero() -> (r: Self)
        ensures
            r == Self::zero_spec(),
    ;

    /// Multiplicative identity.
    fn one() -> (r: Self)
        ensures
            r == Self::one_spec(),
    ;

    /// Addition operation.
    fn add(&self, rhs: &Self) -> (r: Self)
        ensures
            r == (*self).add_spec(*rhs),
    ;

    /// Multiplication operation.
    fn mul(&self, rhs: &Self) -> (r: Self)
        ensures
            r == (*self).mul_spec(*rhs),
    ;

    /// Returns a value equal to `self`.
    fn duplicate(&self) -> (r: Self)
        ensures
            r == *self,
    ;
}

impl Semiring for u64 {
    open spec fn zero_spec() -> Self {
        0u64
    }

    open spec fn one_spec() -> Self {
        1u64
    }

    /// Addition wraps around the word range.
    open spec fn add_spec(self, rhs: Self) -> Self {
        u64_specs::wrapping_add(self, rhs)
    }

    /// Multiplication wraps around the word range.
    open spec fn mul_spec(self, rhs: Self) -> Self {
        u64_specs::wrapping_mul(self, rhs)
    }

    fn zero() -> (r: Self) {
        0
    }

    fn one() -> (r: Self) {
        1
    }

    fn add(&self, rhs: &Self) -> (r: Self) {
        self.wrapping_add(*rhs)
    }

    fn mul(&self, rhs: &Self) -> (r: Self) {
        self.wrapping_mul(*rhs)
    }

    fn duplicate(&self) -> (r: Self) {
        *self
    }
}

impl Semiring for i64 {
    open spec fn zero_spec() -> Self {
        0i64
    }

    open spec fn one_spec() -> Self {
        1i64
    }

    /// Addition wraps around the signed word range.
    open spec fn add_spec(self, rhs: Self) -> Self {
        i64_specs::wrapping_add(self, rhs)
    }

    /// Multiplication wraps around the signed word range.
    open spec fn mul_spec(self, rhs: Self) -> Self {
        i64_specs::wrapping_mul(self, rhs)
    }

    fn zero() -> (r: Self) {
        0
    }

    fn one() -> (r: Self) {
        1
    }

    fn add(&self, rhs: &Self) -> (r: Self) {
        self.wrapping_add(*rhs)
    }

    fn mul(&self, rhs: &Self) -> (r: Self) {
        self.wrapping_mul(*rhs)
    }

    fn duplicate(&self) -> (r: Self) {
        *self
    }
}

/// The semiring value obtained by adding the multiplicative identity to
/// zero the given number of times.
pub open spec fn iterated_sum<T: Semiring>(value: nat) -> T
    decreases value,
{
    if value == 0 {
        T::zero_spec()
    } else {
        iterated_sum::<T>((value - 1) as nat).add_spec(T::one_spec())
    }
}

/// Converts an integer to the semiring value it counts: the
/// multiplicative identity added up that many times.
pub fn from_usize<T: Semiring>(value: usize) -> (r: T)
    ensures
        r == iterated_sum::<T>(value as nat),
{
    let mut result = T::zero();
    let one = T::one();
    let mut i: usize = 0;
    while i < value
        invariant
            i <= value,
            result == iterated_sum::<T>(i as nat),
            one == T::one_spec(),
        decreases value - i,
    {
        result = result.add(&one);
        i = i + 1;
    }
    result
}

/// The index of the entry with the given exponent, or a negative value
/// if there is none.
pub open spec fn find_exp<C>(s: Seq<(u64, C)>, k: u64) -> int
    decreases s.len(),
{
    if s.len() == 0 {
        -1
    } else if s[0].0 == k {
        0
    } else {
        let r = find_exp(s.drop_first(), k);
        if r < 0 {
            -1
        } else {
            1 + r
        }
    }
}

/// The entries of `b` whose exponents do not occur in `a`, in order.
pub open spec fn missing_from<C>(b: Seq<(u64, C)>, a: Seq<(u64, C)>) -> Seq<(u64, C)>
    decreases b.len(),
{
    if b.len() == 0 {
        Seq::empty()
    } else {
        let rest = missing_from(b.drop_last(), a);
        if find_exp(a, b.last().0) >= 0 {
            rest
        } else {
            rest.push(b.last())
        }
    }
}

/// Stores an entry into a coefficient table: an existing exponent is
/// overwritten in place, a new exponent is appended.
pub open spec fn upsert<C>(s: Seq<(u64, C)>, k: u64, v: C) -> Seq<(u64, C)> {
    let i = find_exp(s, k);
    if i >= 0 {
        s.update(i, (k, v))
    } else {
        s.push((k, v))
    }
}

/// The coefficient table after storing a whole run of entries in order.
pub open spec fn upsert_all<C>(entries: Seq<(u64, C)>) -> Seq<(u64, C)>
    decreases entries.len(),
{
    if entries.len() == 0 {
        Seq::empty()
    } else {
        upsert(upsert_all(entries.drop_last()), entries.last().0, entries.last().1)
    }
}

/// The `k`-th power of a semiring value: the multiplicative identity
/// multiplied by the value `k` times.
pub open spec fn pow_spec<C: Semiring>(value: C, k: nat) -> C
    decreases k,
{
    if k == 0 {
        C::one_spec()
    } else {
        pow_spec(value, (k - 1) as nat).mul_spec(value)
    }
}

/// The value of a coefficient table at a point: the semiring sum, in
/// table order, of `value^k * c` over the entries `(k, c)`, starting
/// from the additive identity.
pub open spec fn eval_sum<C: Semiring>(entries: Seq<(u64, C)>, value: C) -> C
    decreases entries.len(),
{
    if entries.len() == 0 {
        C::zero_spec()
    } else {
        eval_sum(entries.drop_last(), value).add_spec(
            pow_spec(value, entries.last().0 as nat).mul_spec(entries.last().1),
        )
    }
}

/// Polynomials with coefficients in `C`, stored as exponent-coefficient
/// pairs in order of first appearance.
#[derive(Debug)]
pub struct Polynomial<C: Semiring> {
    coefficients: Vec<(u64, C)>,
}

/// A position whose exponent matches, with no match before it, is the
/// found index.
proof fn lemma_find_exp_at<C>(s: Seq<(u64, C)>, k: u64, i: int)
    requires
        0 <= i < s.len(),
        s[i].0 == k,
        forall|j: int| 0 <= j < i ==> (#[trigger] s[j]).0 != k,
    ensures
        find_exp(s, k) == i,
    decreases i,
{
    if i > 0 {
        lemma_find_exp_at(s.drop_first(), k, i - 1);
    }
}

/// A table without the exponent finds a negative index.
proof fn lemma_find_exp_none<C>(s: Seq<(u64, C)>, k: u64)
    requires
        forall|j: int| 0 <= j < s.len() ==> (#[trigger] s[j]).0 != k,
    ensures
        find_exp(s, k) < 0,
    decreases s.len(),
{
    if s.len() > 0 {
        lemma_find_exp_none(s.drop_first(), k);
    }
}

/// Finds the entry with the given exponent.
fn find_exp_position<C: Semiring>(s: &Vec<(u64, C)>, k: u64) -> (r: Option<usize>)
    ensures
        r matches Some(i) ==> i < s@.len() && find_exp(s@, k) == i,
        r is None ==> find_exp(s@, k) < 0,
{
    let mut j: usize = 0;
    while j < s.len()
        invariant
            j <= s@.len(),
            forall|m: int| 0 <= m < j ==> (#[trigger] s@[m]).0 != k,
        decreases s@.len() - j,
    {
        let e = &s[j];
        if e.0 == k {
            proof {
                lemma_find_exp_at(s@, k, j as int);
            }
            return Some(j);
        }
        j = j + 1;
    }
    proof {
        lemma_find_exp_none(s@, k);
    }
    None
}

impl<C: Semiring> Polynomial<C> {
    /// The exponent-coefficient pairs of the polynomial.
    pub closed spec fn coeffs(&self) -> Seq<(u64, C)> {
        self.coefficients@
    }

    /// The entries of the polynomial, for inspection.
    pub fn entries(&self) -> (r: &Vec<(u64, C)>)
        ensures
            r@ == self.coeffs(),
    {
        &self.coefficients
    }

    /// The zero polynomial: one constant term holding the additive
    /// identity.
    pub fn zero() -> (r: Self)
        ensures
            r.coeffs() =~= seq![(0u64, C::zero_spec())],
    {
        let mut ret: Vec<(u64, C)> = Vec::new();
        ret.push((0, C::zero()));
        Polynomial { coefficients: ret }
    }

    /// The unit polynomial: one constant term holding the multiplicative
    /// identity.
    pub fn one() -> (r: Self)
        ensures
            r.coeffs() =~= seq![(0u64, C::one_spec())],
    {
        let mut ret: Vec<(u64, C)> = Vec::new();
        ret.push((0, C::one()));
        Polynomial { coefficients: ret }
    }

    /// Constructs the polynomial `x`.
    pub fn x() -> (r: Self)
        ensures
            r.coeffs() =~= seq![(1u64, C::one_spec())],
    {
        let mut ret: Vec<(u64, C)> = Vec::new();
        ret.push((1, C::one()));
        Polynomial { coefficients: ret }
    }

    /// Constructs the single-term polynomial `a x^n`.
    pub fn term(a: C, n: u64) -> (r: Self)
        ensures
            r.coeffs() =~= seq![(n, a)],
    {
        let mut ret: Vec<(u64, C)> = Vec::new();
        ret.push((n, a));
        Polynomial { coefficients: ret }
    }

    /// Converts an integer to the polynomial counting it: the unit
    /// polynomial added onto the zero polynomial that many times, the
    /// count accumulating in the constant term.
    pub fn from_count(value: usize) -> (r: Self)
        ensures
            r.coeffs() =~= seq![(0u64, iterated_sum::<C>(value as nat))],
    {
        let mut result = Self::zero();
        let one = Self::one();
        let mut i: usize = 0;
        while i < value
            invariant
                i <= value,
                result.coeffs() =~= seq![(0u64, iterated_sum::<C>(i as nat))],
                one.coeffs() =~= seq![(0u64, C::one_spec())],
            decreases value - i,
        {
            let ghost pre = result.coeffs();
            result = result.add(&one);
            i = i + 1;
            proof {
                assert(find_exp(one.coeffs(), 0) == 0);
                assert(missing_from(one.coeffs(), pre) =~= Seq::<(u64, C)>::empty()) by {
                    assert(one.coeffs().drop_last() =~= Seq::<(u64, C)>::empty());
                    assert(missing_from(Seq::<(u64, C)>::empty(), pre) =~= Seq::<(
                        u64,
                        C,
                    )>::empty());
                    assert(find_exp(pre, one.coeffs().last().0) == 0);
                }
                assert(result.coeffs()[0] == (0u64, iterated_sum::<C>((i - 1) as nat).add_spec(
                    C::one_spec(),
                )));
                assert(result.coeffs() =~= seq![(0u64, iterated_sum::<C>(i as nat))]);
            }
        }
        result
    }

    /// Evaluates the polynomial at `value`: the semiring sum, in entry
    /// order, of `value^k` times the coefficient, over the entries
    /// `(k, c)`.
    pub fn eval(&self, value: C) -> (r: C)
        ensures
            r == eval_sum(self.coeffs(), value),
    {
        let mut ret = C::zero();
        let mut i: usize = 0;
        proof {
            assert(self.coeffs().subrange(0, 0) =~= Seq::<(u64, C)>::empty());
        }
        while i < self.coefficients.len()
            invariant
                i <= self.coeffs().len(),
                ret == eval_sum(self.coeffs().subrange(0, i as int), value),
            decreases self.coeffs().len() - i,
        {
            let k = self.coefficients[i].0;
            let mut temp = C::one();
            let mut c: u64 = 0;
            while c < k
                invariant
                    c <= k,
                    temp == pow_spec(value, c as nat),
                decreases k - c,
            {
                temp = temp.mul(&value);
                c = c + 1;
            }
            let e = &self.coefficients[i];
            temp = temp.mul(&e.1);
            ret = ret.add(&temp);
            i = i + 1;
            proof {
                assert(self.coeffs().subrange(0, i as int).drop_last() =~= self.coeffs()
                    .subrange(0, i - 1));
                assert(self.coeffs().subrange(0, i as int).last() == self.coeffs()[i - 1]);
            }
        }
        proof {
            assert(self.coeffs().subrange(0, self.coeffs().len() as int) =~= self.coeffs());
        }
        ret
    }

    /// Adds two polynomials: exponents shared with `rhs` have their
    /// coefficients added, the rest keep their coefficients, and the
    /// entries of `rhs` with new exponents follow at the end.
    pub fn add(&self, rhs: &Self) -> (r: Self)
        ensures
            r.coeffs().len() == self.coeffs().len() + missing_from(rhs.coeffs(), self.coeffs()).len(),
            forall|i: int|
                0 <= i < self.coeffs().len() ==> #[trigger] r.coeffs()[i] == (
                {
                    let e = self.coeffs()[i];
                    let j = find_exp(rhs.coeffs(), e.0);
                    if j >= 0 {
                        (e.0, e.1.add_spec(rhs.coeffs()[j].1))
                    } else {
                        e
                    }
                }),
            r.coeffs().skip(self.coeffs().len() as int) =~= missing_from(
                rhs.coeffs(),
                self.coeffs(),
            ),
    {
        let mut out: Vec<(u64, C)> = Vec::new();
        let mut i: usize = 0;
        while i < self.coefficients.len()
            invariant
                i <= self.coeffs().len(),
                out@.len() == i,
                forall|m: int|
                    0 <= m < i ==> #[trigger] out@[m] == (
                    {
                        let e = self.coeffs()[m];
                        let j = find_exp(rhs.coeffs(), e.0);
                        if j >= 0 {
                            (e.0, e.1.add_spec(rhs.coeffs()[j].1))
                        } else {
                            e
                        }
                    }),
            decreases self.coeffs().len() - i,
        {
            let e = &self.coefficients[i];
            let k = e.0;
            match find_exp_position(&rhs.coefficients, k) {
                Some(j) => {
                    let w = &rhs.coefficients[j];
                    out.push((k, e.1.add(&w.1)));
                },
                None => {
                    out.push((k, e.1.duplicate()));
                },
            }
            i = i + 1;
        }
        let mut j: usize = 0;
        while j < rhs.coefficients.len()
            invariant
                j <= rhs.coeffs().len(),
                out@.len() >= self.coeffs().len(),
                out@.subrange(0, self.coeffs().len() as int) =~= out@.subrange(
                    0,
                    self.coeffs().len() as int,
                ),
                forall|m: int|
                    0 <= m < self.coeffs().len() ==> #[trigger] out@[m] == (
                    {
                        let e = self.coeffs()[m];
                        let jj = find_exp(rhs.coeffs(), e.0);
                        if jj >= 0 {
                            (e.0, e.1.add_spec(rhs.coeffs()[jj].1))
                        } else {
                            e
                        }
                    }),
                out@.skip(self.coeffs().len() as int) =~= missing_from(
                    rhs.coeffs().subrange(0, j as int),
                    self.coeffs(),
                ),
            decreases rhs.coeffs().len() - j,
        {
            let e = &rhs.coefficients[j];
            let k = e.0;
            let ghost pre = out@;
            if find_exp_position(&self.coefficients, k).is_none() {
                out.push((k, e.1.duplicate()));
            }
            j = j + 1;
            proof {
                assert(rhs.coeffs().subrange(0, j as int).drop_last() =~= rhs.coeffs().subrange(
                    0,
                    j - 1,
                ));
                assert(rhs.coeffs().subrange(0, j as int).last() == rhs.coeffs()[j - 1]);
                assert(out@.skip(self.coeffs().len() as int) =~= missing_from(
                    rhs.coeffs().subrange(0, j as int),
                    self.coeffs(),
                ));
            }
        }
        proof {
            assert(rhs.coeffs().subrange(0, rhs.coeffs().len() as int) =~= rhs.coeffs());
        }
        Polynomial { coefficients: out }
    }

    /// Multiplies two polynomials: every pair of terms is multiplied and
    /// stored under the sum of the exponents, each exponent keeping only
    /// the most recently stored product.
    pub fn mul(&self, rhs: &Self) -> (r: Self)
        requires
            forall|i: int, j: int|
                0 <= i < self.coeffs().len() && 0 <= j < rhs.coeffs().len() ==> (
                #[trigger] self.coeffs()[i]).0 + (#[trigger] rhs.coeffs()[j]).0 <= u64::MAX,
        ensures
            exists|products: Seq<(u64, C)>|
                {
                    &&& products.len() == self.coeffs().len() * rhs.coeffs().len()
                    &&& (forall|i: int, j: int|
                        0 <= i < self.coeffs().len() && 0 <= j < rhs.coeffs().len()
                            ==> #[trigger] products[i * rhs.coeffs().len() + j] == (
                        ((self.coeffs()[i].0 + rhs.coeffs()[j].0) as u64), self.coeffs()[i].1
                            .mul_spec(rhs.coeffs()[j].1)))
                    &&& r.coeffs() == upsert_all(products)
                },
    {
        let mut out: Vec<(u64, C)> = Vec::new();
        let ghost mut products: Seq<(u64, C)> = Seq::empty();
        let rlen = rhs.coefficients.len();
        let mut i: usize = 0;
        while i < self.coefficients.len()
            invariant
                i <= self.coeffs().len(),
                rlen == rhs.coeffs().len(),
                forall|a: int, b: int|
                    0 <= a < self.coeffs().len() && 0 <= b < rhs.coeffs().len() ==> (
                    #[trigger] self.coeffs()[a]).0 + (#[trigger] rhs.coeffs()[b]).0 <= u64::MAX,
                products.len() == i * rlen,
                forall|a: int, b: int|
                    0 <= a < i && 0 <= b < rlen ==> #[trigger] products[a * rlen + b] == (
                    ((self.coeffs()[a].0 + rhs.coeffs()[b].0) as u64), self.coeffs()[a].1.mul_spec(
                        rhs.coeffs()[b].1,
                    )),
                out@ == upsert_all(products),
            decreases self.coeffs().len() - i,
        {
            let e = &self.coefficients[i];
            let mut j: usize = 0;
            proof {
                assert(i * rlen + rlen <= self.coeffs().len() * rlen) by (nonlinear_arith)
                    requires
                        0 <= i < self.coeffs().len(),
                        rlen >= 0,
                {
                }
            }
            while j < rlen
                invariant
                    0 <= i < self.coeffs().len(),
                    j <= rlen,
                    rlen == rhs.coeffs().len(),
                    e == &self.coeffs()[i as int],
                    forall|a: int, b: int|
                        0 <= a < self.coeffs().len() && 0 <= b < rhs.coeffs().len() ==> (
                        #[trigger] self.coeffs()[a]).0 + (#[trigger] rhs.coeffs()[b]).0
                            <= u64::MAX,
                    products.len() == i * rlen + j,
                    forall|a: int, b: int|
                        0 <= a < i && 0 <= b < rlen ==> #[trigger] products[a * rlen + b] == (
                        ((self.coeffs()[a].0 + rhs.coeffs()[b].0) as u64), self.coeffs()[a].1
                            .mul_spec(rhs.coeffs()[b].1)),
                    forall|b: int|
                        0 <= b < j ==> #[trigger] products[i as int * rlen + b] == (
                        ((self.coeffs()[i as int].0 + rhs.coeffs()[b].0) as u64), self.coeffs()[i as int].1
                            .mul_spec(rhs.coeffs()[b].1)),
                    out@ == upsert_all(products),
                decreases rlen - j,
            {
                let w = &rhs.coefficients[j];
                let k = e.0 + w.0;
                let v = e.1.mul(&w.1);
                let ghost pre_products = products;
                proof {
                    products = products.push((k, v));
                }
                match find_exp_position(&out, k) {
                    Some(p) => {
                        let _ = out.remove(p);
                        out.insert(p, (k, v));
                        proof {
                            assert(out@ =~= upsert_all(pre_products).update(p as int, (k, v)));
                            assert(products.drop_last() =~= pre_products);
                            assert(out@ =~= upsert_all(products));
                        }
                    },
                    None => {
                        out.push((k, v));
                        proof {
                            assert(products.drop_last() =~= pre_products);
                            assert(out@ =~= upsert_all(products));
                        }
                    },
                }
                j = j + 1;
                proof {
                    assert forall|b: int|
                        0 <= b < j implies #[trigger] products[i as int * rlen + b] == (
                        ((self.coeffs()[i as int].0 + rhs.coeffs()[b].0) as u64), self.coeffs()[i as int].1
                            .mul_spec(rhs.coeffs()[b].1)) by {
                        if b < j - 1 {
                            assert(products[i as int * rlen + b] == pre_products[i as int * rlen
                                + b]);
                        }
                    }
                    assert forall|a: int, b: int|
                        0 <= a < i && 0 <= b < rlen implies #[trigger] products[a * rlen + b] == (
                        ((self.coeffs()[a].0 + rhs.coeffs()[b].0) as u64), self.coeffs()[a].1
                            .mul_spec(rhs.coeffs()[b].1)) by {
                        assert(0 <= a * rlen + b < pre_products.len()) by (nonlinear_arith)
                            requires
                                0 <= a < i,
                                0 <= b < rlen,
                                pre_products.len() == i * rlen + j - 1,
                                j >= 1,
                        {
                        }
                        assert(products[a * rlen + b] == pre_products[a * rlen + b]);
                    }
                }
            }
            i = i + 1;
            proof {
                assert(products.len() == i * rlen) by (nonlinear_arith)
                    requires
                        products.len() == (i - 1) * rlen + rlen,
                {
                }
                assert forall|a: int, b: int|
                    0 <= a < i && 0 <= b < rlen implies #[trigger] products[a * rlen + b] == (
                    ((self.coeffs()[a].0 + rhs.coeffs()[b].0) as u64), self.coeffs()[a].1.mul_spec(
                        rhs.coeffs()[b].1,
                    )) by {
                    if a == i - 1 {
                        assert(products[(i - 1) * rlen + b] == (
                        ((self.coeffs()[i - 1].0 + rhs.coeffs()[b].0) as u64), self.coeffs()[i
                            - 1].1.mul_spec(rhs.coeffs()[b].1)));
                    }
                }
            }
        }
        proof {
            assert(products.len() == self.coeffs().len() * rlen);
        }
        Polynomial { coefficients: out }
    }
}


/// The numeric value of a run of decimal digits.
pub open spec fn digits_value(s: Seq<char>) -> int
    decreases s.len(),
{
    if s.len() == 0 {
        0
    } else {
        digits_value(s.drop_last()) * 10 + (s.last() as int - '0' as int)
    }
}

/// Over digit runs, the value of a prefix never exceeds the value of the
/// whole run.
proof fn lemma_digits_value_grows(s: Seq<char>, k: int)
    requires
        0 <= k <= s.len(),
        forall|m: int| 0 <= m < s.len() ==> crate::parser::is_digit(#[trigger] s[m]),
    ensures
        0 <= digits_value(s.subrange(0, k)) <= digits_value(s.subrange(0, s.len() as int)),
    decreases s.len() - k,
{
    if k < s.len() {
        lemma_digits_value_grows(s, k + 1);
        assert(s.subrange(0, k + 1).drop_last() =~= s.subrange(0, k));
        assert(crate::parser::is_digit(s[k]));
    } else {
        lemma_digits_value_nonneg(s.subrange(0, k));
    }
}

/// A digit run's value is never negative.
proof fn lemma_digits_value_nonneg(s: Seq<char>)
    requires
        forall|m: int| 0 <= m < s.len() ==> crate::parser::is_digit(#[trigger] s[m]),
    ensures
        digits_value(s) >= 0,
    decreases s.len(),
{
    if s.len() > 0 {
        assert(forall|m: int|
            0 <= m < s.drop_last().len() ==> crate::parser::is_digit(#[trigger] s.drop_last()[m]));
        lemma_digits_value_nonneg(s.drop_last());
    }
}

/// Reads the value of the digit run between `from` and `to`, or `None`
/// when it does not fit the word size.
fn digits_to_usize(cs: &Vec<char>, from: usize, to: usize) -> (r: Option<usize>)
    requires
        from <= to <= cs@.len(),
        forall|m: int| from <= m < to ==> crate::parser::is_digit(#[trigger] cs@[m]),
    ensures
        r matches Some(v) ==> v == digits_value(cs@.subrange(from as int, to as int)),
        r is None ==> digits_value(cs@.subrange(from as int, to as int)) > usize::MAX,
{
    let ghost whole = cs@.subrange(from as int, to as int);
    let mut acc: u128 = 0;
    let mut k = from;
    proof {
        assert(whole.subrange(0, 0) =~= Seq::<char>::empty());
    }
    while k < to
        invariant
            from <= k <= to <= cs@.len(),
            whole == cs@.subrange(from as int, to as int),
            forall|m: int| from <= m < to ==> crate::parser::is_digit(#[trigger] cs@[m]),
            acc == digits_value(whole.subrange(0, k - from)),
            acc <= usize::MAX,
        decreases to - k,
    {
        let c = cs[k];
        let d = (c as u32 - '0' as u32) as u128;
        proof {
            assert(crate::parser::is_digit(cs@[k as int]));
            assert(whole.subrange(0, k + 1 - from).drop_last() =~= whole.subrange(0, k - from));
            assert(whole.subrange(0, k + 1 - from).last() == cs@[k as int]);
        }
        acc = acc * 10 + d;
        k = k + 1;
        if acc > usize::MAX as u128 {
            proof {
                assert(forall|m: int|
                    0 <= m < whole.len() ==> crate::parser::is_digit(#[trigger] whole[m]));
                lemma_digits_value_grows(whole, k - from);
                assert(whole.subrange(0, whole.len() as int) =~= whole);
            }
            return None;
        }
    }
    proof {
        assert(whole.subrange(0, whole.len() as int) =~= whole);
    }
    Some(acc as usize)
}

/// One parsed term at `i`: its exponent and coefficient count, and the
/// position after it.  `None` when the text does not follow the term
/// grammar -- a digit run, optionally `x`, optionally `^` and a further
/// digit run -- or a number does not fit its type.
pub open spec fn spec_poly_term(s: Seq<char>, i: int) -> Option<((u64, int), int)> {
    let e1 = crate::parser::scan_digits(s, i);
    if e1 == i {
        None
    } else {
        let a = digits_value(s.subrange(i, e1));
        if a > usize::MAX {
            None
        } else if e1 < s.len() && s[e1] == 'x' {
            if e1 + 1 < s.len() && s[e1 + 1] == '^' {
                let e2 = crate::parser::scan_digits(s, e1 + 2);
                if e2 == e1 + 2 {
                    None
                } else {
                    let n = digits_value(s.subrange(e1 + 2, e2));
                    if n > u64::MAX {
                        None
                    } else {
                        Some(((n as u64, a), e2))
                    }
                }
            } else {
                Some(((1u64, a), e1 + 1))
            }
        } else {
            Some(((0u64, a), e1))
        }
    }
}

/// The terms of a polynomial string from `i` to its end, separated by
/// `" + "`.
pub open spec fn spec_poly_terms(s: Seq<char>, i: int, fuel: nat) -> Option<Seq<(u64, int)>>
    decreases fuel,
{
    if fuel == 0 {
        None
    } else {
        match spec_poly_term(s, i) {
            None => None,
            Some((t, p)) => {
                if p == s.len() {
                    Some(seq![t])
                } else if p + 3 <= s.len() && s[p] == ' ' && s[p + 1] == '+' && s[p + 2] == ' ' {
                    match spec_poly_terms(s, p + 3, (fuel - 1) as nat) {
                        None => None,
                        Some(rest) => Some(seq![t] + rest),
                    }
                } else {
                    None
                }
            },
        }
    }
}

/// The coefficient table a term list builds: each count converted to the
/// semiring and stored under its exponent, in order, later terms
/// overwriting earlier ones of the same exponent.
pub open spec fn poly_of_terms<C: Semiring>(terms: Seq<(u64, int)>) -> Seq<(u64, C)> {
    upsert_all(Seq::new(terms.len(), |t: int| (terms[t].0, iterated_sum::<C>(terms[t].1 as nat))))
}


/// Every character of the run a digit scan covers is a digit.
proof fn lemma_scan_digits_digits(s: Seq<char>, i: int)
    requires
        0 <= i <= s.len(),
    ensures
        i <= crate::parser::scan_digits(s, i) <= s.len(),
        forall|m: int|
            i <= m < crate::parser::scan_digits(s, i) ==> crate::parser::is_digit(
                #[trigger] s[m],
            ),
    decreases s.len() - i,
{
    if i < s.len() && crate::parser::is_digit(s[i]) {
        lemma_scan_digits_digits(s, i + 1);
    }
}

/// Reads the value of the digit run between `from` and `to`, or `None`
/// when it does not fit a `u64`.
fn digits_to_u64(cs: &Vec<char>, from: usize, to: usize) -> (r: Option<u64>)
    requires
        from <= to <= cs@.len(),
        forall|m: int| from <= m < to ==> crate::parser::is_digit(#[trigger] cs@[m]),
    ensures
        r matches Some(v) ==> v == digits_value(cs@.subrange(from as int, to as int)),
        r is None ==> digits_value(cs@.subrange(from as int, to as int)) > u64::MAX,
{
    let ghost whole = cs@.subrange(from as int, to as int);
    let mut acc: u128 = 0;
    let mut k = from;
    proof {
        assert(whole.subrange(0, 0) =~= Seq::<char>::empty());
    }
    while k < to
        invariant
            from <= k <= to <= cs@.len(),
            whole == cs@.subrange(from as int, to as int),
            forall|m: int| from <= m < to ==> crate::parser::is_digit(#[trigger] cs@[m]),
            acc == digits_value(whole.subrange(0, k - from)),
            acc <= u64::MAX,
        decreases to - k,
    {
        let c = cs[k];
        let d = (c as u32 - '0' as u32) as u128;
        proof {
            assert(crate::parser::is_digit(cs@[k as int]));
            assert(whole.subrange(0, k + 1 - from).drop_last() =~= whole.subrange(0, k - from));
            assert(whole.subrange(0, k + 1 - from).last() == cs@[k as int]);
        }
        acc = acc * 10 + d;
        k = k + 1;
        if acc > u64::MAX as u128 {
            proof {
                assert(forall|m: int|
                    0 <= m < whole.len() ==> crate::parser::is_digit(#[trigger] whole[m]));
                lemma_digits_value_grows(whole, k - from);
                assert(whole.subrange(0, whole.len() as int) =~= whole);
            }
            return None;
        }
    }
    proof {
        assert(whole.subrange(0, whole.len() as int) =~= whole);
    }
    Some(acc as u64)
}

/// Parses one term at `i`.
fn poly_term_at(cs: &Vec<char>, i: usize) -> (r: Option<((u64, usize), usize)>)
    requires
        i <= cs@.len(),
    ensures
        (r is Some) == (spec_poly_term(cs@, i as int) is Some),
        r matches Some(p) ==> spec_poly_term(cs@, i as int) == Some(
            (((p.0).0, (p.0).1 as int), p.1 as int),
        ) && i <= p.1 <= cs@.len(),
{
    let e1 = crate::parser::digits_end(cs, i);
    if e1 == i {
        return None;
    }
    proof {
        lemma_scan_digits_digits(cs@, i as int);
    }
    match digits_to_usize(cs, i, e1) {
        None => None,
        Some(a) => {
            if e1 < cs.len() && cs[e1] == 'x' {
                if e1 + 1 < cs.len() && cs[e1 + 1] == '^' {
                    let e2 = crate::parser::digits_end(cs, e1 + 2);
                    if e2 == e1 + 2 {
                        return None;
                    }
                    proof {
                        lemma_scan_digits_digits(cs@, e1 + 2);
                    }
                    match digits_to_u64(cs, e1 + 2, e2) {
                        None => None,
                        Some(n) => Some(((n, a), e2)),
                    }
                } else {
                    Some(((1, a), e1 + 1))
                }
            } else {
                Some(((0, a), e1))
            }
        },
    }
}

/// Parses the `" + "`-separated terms from `i` to the end of the text.
fn poly_terms_at(cs: &Vec<char>, i: usize, fuel: u64) -> (r: Option<Vec<(u64, usize)>>)
    requires
        i <= cs@.len(),
    ensures
        (r is Some) == (spec_poly_terms(cs@, i as int, fuel as nat) is Some),
        r matches Some(v) ==> spec_poly_terms(cs@, i as int, fuel as nat) == Some(
            Seq::new(v@.len(), |t: int| ((v@[t].0, v@[t].1 as int))),
        ),
    decreases fuel,
{
    if fuel == 0 {
        return None;
    }
    match poly_term_at(cs, i) {
        None => None,
        Some((t, p)) => {
            if p == cs.len() {
                let mut v: Vec<(u64, usize)> = Vec::new();
                v.push(t);
                proof {
                    assert(Seq::new(v@.len(), |m: int| ((v@[m].0, v@[m].1 as int))) =~= seq![
                        (t.0, t.1 as int),
                    ]);
                }
                Some(v)
            } else if cs.len() - p >= 3 && cs[p] == ' ' && cs[p + 1] == '+' && cs[p + 2] == ' ' {
                match poly_terms_at(cs, p + 3, fuel - 1) {
                    None => None,
                    Some(rest) => {
                        let mut rest = rest;
                        let ghost rest_model = Seq::new(
                            rest@.len(),
                            |m: int| ((rest@[m].0, rest@[m].1 as int)),
                        );
                        rest.insert(0, t);
                        proof {
                            assert(Seq::new(rest@.len(), |m: int| ((rest@[m].0, rest@[m].1 as int)))
                                =~= seq![(t.0, t.1 as int)] + rest_model);
                        }
                        Some(rest)
                    },
                }
            } else {
                None
            }
        },
    }
}

impl<C: Semiring> Polynomial<C> {
    /// Parses a polynomial from text of the form `"x^2 + 5x + 6"`: terms
    /// of shape `a`, `ax` or `ax^n` joined by `" + "`, with a decimal
    /// coefficient count and exponent.  The count converts into the
    /// semiring by repeated addition of the multiplicative identity.  A
    /// text too long for the descent bound -- far beyond any text that
    /// fits in memory -- is rejected outright.
    pub fn from_str(s: &str) -> (r: Result<Self, ()>)
        ensures
            s@.len() < 0x1000_0000_0000_0000 ==> {
                &&& (r is Ok) == (spec_poly_terms(s@, 0, (s@.len() + 1) as nat) is Some)
                &&& (r matches Ok(p) ==> (spec_poly_terms(s@, 0, (s@.len() + 1) as nat)
                    matches Some(ts) && p.coeffs() == poly_of_terms::<C>(ts)))
            },
            s@.len() >= 0x1000_0000_0000_0000 ==> r is Err,
    {
        let cs = chars_of(s);
        if (cs.len() as u64) >= 0x1000_0000_0000_0000u64 {
            return Err(());
        }
        let fuel = cs.len() as u64 + 1;
        match poly_terms_at(&cs, 0, fuel) {
            None => Err(()),
            Some(terms) => {
                let ghost models = Seq::new(
                    terms@.len(),
                    |m: int| ((terms@[m].0, terms@[m].1 as int)),
                );
                let mut out: Vec<(u64, C)> = Vec::new();
                let mut t: usize = 0;
                proof {
                    assert(Seq::new(0nat, |m: int| (models[m].0, iterated_sum::<C>(models[m].1 as nat)))
                        =~= Seq::<(u64, C)>::empty());
                }
                while t < terms.len()
                    invariant
                        t <= terms@.len(),
                        models == Seq::new(
                            terms@.len(),
                            |m: int| ((terms@[m].0, terms@[m].1 as int)),
                        ),
                        out@ == upsert_all(
                            Seq::new(
                                t as nat,
                                |m: int| (models[m].0, iterated_sum::<C>(models[m].1 as nat)),
                            ),
                        ),
                    decreases terms@.len() - t,
                {
                    let entry = terms[t];
                    let coeff = from_usize::<C>(entry.1);
                    let ghost pre_out = out@;
                    match find_exp_position(&out, entry.0) {
                        Some(pidx) => {
                            let _ = out.remove(pidx);
                            out.insert(pidx, (entry.0, coeff));
                            proof {
                                assert(out@ =~= pre_out.update(pidx as int, (entry.0, coeff)));
                            }
                        },
                        None => {
                            out.push((entry.0, coeff));
                        },
                    }
                    t = t + 1;
                    proof {
                        let built = Seq::new(
                            t as nat,
                            |m: int| (models[m].0, iterated_sum::<C>(models[m].1 as nat)),
                        );
                        assert(built.drop_last() =~= Seq::new(
                            (t - 1) as nat,
                            |m: int| (models[m].0, iterated_sum::<C>(models[m].1 as nat)),
                        ));
                        assert(built.last() == (models[t - 1].0, iterated_sum::<C>(
                            models[t - 1].1 as nat,
                        )));
                        assert(out@ =~= upsert_all(built));
                    }
                }
                proof {
                    assert(Seq::new(
                        terms@.len(),
                        |m: int| (models[m].0, iterated_sum::<C>(models[m].1 as nat)),
                    ) =~= Seq::new(
                        models.len(),
                        |m: int| (models[m].0, iterated_sum::<C>(models[m].1 as nat)),
                    ));
                    assert(out@ =~= poly_of_terms::<C>(models));
                }
                Ok(Polynomial { coefficients: out })
            },
        }
    }
}

} // verus!
