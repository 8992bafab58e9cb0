use cs220::calculus::{
    ComplexFuncs, Differentiable, Exp, Rational, SingletonPolynomial, Trignometric,
};
use cs220::semiring::{from_usize, Polynomial, Semiring};
use cs220::storage::{FileUploader, MockStorage, Storage};

#[test]
fn test_rational_add_normalizes() {
    let r = Rational::new(1, 2).add(Rational::new(1, 3));
    assert_eq!(r, Rational::new(5, 6));
}

#[test]
fn test_rational_add_reduces_by_gcd() {
    let r = Rational::new(1, 4).add(Rational::new(1, 4));
    assert_eq!(r, Rational::new(1, 2));
}

#[test]
fn test_rational_add_zero() {
    let zero = Rational::new(0, 0);
    let x = Rational::new(3, 7);
    assert_eq!(zero.add(x), x);
    assert_eq!(x.add(zero), x);
}

#[test]
fn test_rational_mul() {
    let r = Rational::new(2, 4).mul(Rational::new(2, 3));
    assert_eq!(r, Rational::new(1, 3));
    let z = Rational::new(0, 0).mul(Rational::new(2, 3));
    assert_eq!(z, Rational::new(0, 0));
}

#[test]
fn test_rational_mul_signs() {
    let r = Rational::new(-1, 2).mul(Rational::new(1, 3));
    assert_eq!(r, Rational::new(-1, 6));
    let s = Rational::new(-1, 2).mul(Rational::new(-1, 3));
    assert_eq!(s, Rational::new(1, 6));
}

#[test]
fn test_rational_sub() {
    let r = Rational::new(1, 2).sub(Rational::new(1, 3));
    assert_eq!(r, Rational::new(1, 6));
    let s = Rational::new(1, 3).sub(Rational::new(1, 2));
    assert_eq!(s, Rational::new(-1, 6));
}

#[test]
fn test_rational_div() {
    let r = Rational::new(1, 2).div(Rational::new(1, 3));
    assert_eq!(r, Rational::new(3, 2));
}

#[test]
fn test_rational_diff_is_zero() {
    let r = Rational::new(3, 4).diff();
    assert_eq!(r, Rational::new(0, 0));
}

#[test]
fn test_power_rule() {
    // d/dx 3 x^2 == 6 x^(1/1)
    let p = SingletonPolynomial::new_poly(Rational::new(3, 1), Rational::new(2, 1));
    let d = p.diff();
    assert_eq!(
        d,
        SingletonPolynomial::new_poly(Rational::new(6, 1), Rational::new(1, 1))
    );
}

#[test]
fn test_power_rule_power_one() {
    // The power drops to the reduced fraction 0/1, which is not the
    // canonical zero pair, so the term stays a polynomial term.
    let p = SingletonPolynomial::new_poly(Rational::new(5, 1), Rational::new(1, 1));
    let d = p.diff();
    assert_eq!(
        d,
        SingletonPolynomial::new_poly(Rational::new(5, 1), Rational::new(0, 1))
    );
}

#[test]
fn test_constant_diff() {
    let c = SingletonPolynomial::new_c(Rational::new(9, 2));
    assert_eq!(c.diff(), SingletonPolynomial::new_c(Rational::new(0, 0)));
}

#[test]
fn test_exp_diff() {
    assert_eq!(Exp::new().diff(), Exp::new());
}

#[test]
fn test_trig_diff() {
    let s = Trignometric::new_sine(Rational::new(1, 2));
    assert_eq!(s.diff(), Trignometric::new_cosine(Rational::new(1, 2)));
    let c = Trignometric::new_cosine(Rational::new(1, 2));
    assert_eq!(c.diff(), Trignometric::new_sine(Rational::new(-1, 2)));
}

#[test]
fn test_complex_product_rule_shape() {
    let f: ComplexFuncs<Exp> = ComplexFuncs::Mul(
        Box::new(ComplexFuncs::Func(Exp::new())),
        Box::new(ComplexFuncs::Func(Exp::new())),
    );
    let d = f.diff();
    match d {
        ComplexFuncs::Add(l, r) => {
            match (*l, *r) {
                (ComplexFuncs::Mul(da, b), ComplexFuncs::Mul(a, db)) => {
                    assert!(matches!(*da, ComplexFuncs::Func(Exp)));
                    assert!(matches!(*b, ComplexFuncs::Func(Exp)));
                    assert!(matches!(*a, ComplexFuncs::Func(Exp)));
                    assert!(matches!(*db, ComplexFuncs::Func(Exp)));
                }
                _ => panic!("product rule did not produce two products"),
            }
        }
        _ => panic!("product rule did not produce a sum"),
    }
}

#[test]
fn test_semiring_words() {
    assert_eq!(u64::zero(), 0);
    assert_eq!(u64::one(), 1);
    assert_eq!(3u64.add(&4), 7);
    assert_eq!(3u64.mul(&4), 12);
    assert_eq!(u64::MAX.add(&1), 0);
    assert_eq!((-3i64).add(&4), 1);
    assert_eq!((-3i64).mul(&4), -12);
}

#[test]
fn test_polynomial_from_count() {
    let p = Polynomial::<u64>::from_count(6);
    assert_eq!(p.entries(), &vec![(0u64, 6u64)]);
}

#[test]
fn test_from_usize() {
    assert_eq!(from_usize::<u64>(0), 0);
    assert_eq!(from_usize::<u64>(7), 7);
    assert_eq!(from_usize::<i64>(5), 5);
}

#[test]
fn test_polynomial_construction() {
    let z = Polynomial::<u64>::zero();
    assert_eq!(z.entries(), &vec![(0u64, 0u64)]);
    let o = Polynomial::<u64>::one();
    assert_eq!(o.entries(), &vec![(0u64, 1u64)]);
    let x = Polynomial::<u64>::x();
    assert_eq!(x.entries(), &vec![(1u64, 1u64)]);
    let t = Polynomial::<u64>::term(5, 3);
    assert_eq!(t.entries(), &vec![(3u64, 5u64)]);
}

#[test]
fn test_polynomial_add() {
    // (x^2 + 5x) + (2x + 6) == x^2 + 7x + 6
    let a = Polynomial::<u64>::term(1, 2).add(&Polynomial::<u64>::term(5, 1));
    let b = Polynomial::<u64>::term(2, 1).add(&Polynomial::<u64>::term(6, 0));
    let sum = a.add(&b);
    assert_eq!(sum.entries(), &vec![(2u64, 1u64), (1u64, 7u64), (0u64, 6u64)]);
}

#[test]
fn test_polynomial_mul_keeps_last_product_per_exponent() {
    // (x + 1) * (x + 1): the x * 1 and 1 * x products share the exponent
    // one, and the later one overwrites the earlier one.
    let a = Polynomial::<u64>::term(1, 1).add(&Polynomial::<u64>::term(1, 0));
    let p = a.mul(&a);
    assert_eq!(p.entries(), &vec![(2u64, 1u64), (1u64, 1u64), (0u64, 1u64)]);
}

#[test]
fn test_polynomial_eval() {
    assert_eq!(Polynomial::<u64>::zero().eval(5), 0);
    assert_eq!(Polynomial::<u64>::one().eval(7), 1);
    assert_eq!(Polynomial::<u64>::x().eval(4), 4);
    assert_eq!(Polynomial::<u64>::term(3, 2).eval(10), 300);
    // x^2 + 5x + 6 at 2 is 20.
    let p = Polynomial::<u64>::term(1, 2)
        .add(&Polynomial::<u64>::term(5, 1))
        .add(&Polynomial::<u64>::term(6, 0));
    assert_eq!(p.eval(2), 20);
}

#[test]
fn test_storage_upload_and_used() {
    let mut storage = MockStorage::new(10);
    assert_eq!(storage.capacity(), 10);
    assert_eq!(storage.upload("a", 4), Ok(()));
    assert_eq!(storage.used(), 4);
    assert_eq!(storage.upload("b", 7), Err(6));
    assert_eq!(storage.used(), 4);
    assert_eq!(storage.upload("a", 2), Ok(()));
    assert_eq!(storage.used(), 2);
    assert_eq!(storage.upload("b", 8), Ok(()));
    assert_eq!(storage.used(), 10);
}

#[test]
fn test_file_uploader() {
    let storage = MockStorage::new(5);
    let mut uploader = FileUploader::new(storage);
    assert_eq!(uploader.upload("x", 3), Ok(()));
    assert_eq!(uploader.upload("y", 3), Err(2));
    assert_eq!(uploader.upload("x", 5), Ok(()));
}
