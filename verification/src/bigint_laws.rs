//! Algebraic laws of the big-integer operations.
//!
//! Every arithmetic method of [`crate::bigint::BigInt`] pins its result down
//! to "the canonical word sequence holding this value", and canonical
//! sequences are unique per value.  Each law below therefore takes the
//! contracts of the calls it speaks about as premises and concludes the
//! stated equality for their results.

use crate::bigint::{
    is_canonical, lemma_canonical_needs_length, lemma_canonical_unique, lemma_pow2_le,
    lemma_wval_bounds, uval, wval,
};
use vstd::prelude::*;
use vstd::arithmetic::power2::*;

verus! {

/// The canonical one-word form of zero.
pub open spec fn zero_carrier() -> Seq<u32> {
    seq![0u32]
}

/// Zero's carrier is canonical and holds the value zero.
pub proof fn lemma_zero_carrier()
    ensures
        is_canonical(zero_carrier()),
        wval(zero_carrier()) == 0,
{
    assert(zero_carrier().drop_last() =~= Seq::<u32>::empty());
    assert(uval(Seq::<u32>::empty()) == 0);
    assert(uval(zero_carrier()) == 0);
}

/// Round-trip canonicalization: truncating a sign-extended copy of `x`
/// yields the same sequence as truncating `x` itself, whatever width the
/// extension chose.
pub proof fn lemma_round_trip_canonicalization(
    x: Seq<u32>,
    ext: Seq<u32>,
    r_ext: Seq<u32>,
    r_x: Seq<u32>,
)
    requires
        x.len() >= 1,
        wval(ext) == wval(x),
        is_canonical(r_ext),
        wval(r_ext) == wval(ext),
        is_canonical(r_x),
        wval(r_x) == wval(x),
    ensures
        r_ext == r_x,
{
    lemma_canonical_unique(r_ext, r_x);
}

/// Additive identity: adding the one-word zero to an already canonical `x`
/// returns `x` itself.
pub proof fn lemma_add_zero_identity(x: Seq<u32>, zero: Seq<u32>, r: Seq<u32>)
    requires
        is_canonical(x),
        zero == zero_carrier(),
        is_canonical(r),
        wval(r) == wval(x) + wval(zero),
    ensures
        r == x,
{
    lemma_zero_carrier();
    lemma_canonical_unique(r, x);
}

/// Commutativity: the sums of `a + b` and `b + a` canonicalize to the same
/// sequence.
pub proof fn lemma_add_commutative(a: Seq<u32>, b: Seq<u32>, r_ab: Seq<u32>, r_ba: Seq<u32>)
    requires
        is_canonical(r_ab),
        wval(r_ab) == wval(a) + wval(b),
        is_canonical(r_ba),
        wval(r_ba) == wval(b) + wval(a),
    ensures
        r_ab == r_ba,
{
    lemma_canonical_unique(r_ab, r_ba);
}

/// Associativity: adding `c` to the sum of `a` and `b` gives the same
/// canonical sequence as adding the sum of `b` and `c` to `a`.
pub proof fn lemma_add_associative(
    a: Seq<u32>,
    b: Seq<u32>,
    c: Seq<u32>,
    ab: Seq<u32>,
    bc: Seq<u32>,
    r_left: Seq<u32>,
    r_right: Seq<u32>,
)
    requires
        wval(ab) == wval(a) + wval(b),
        wval(bc) == wval(b) + wval(c),
        is_canonical(r_left),
        wval(r_left) == wval(ab) + wval(c),
        is_canonical(r_right),
        wval(r_right) == wval(a) + wval(bc),
    ensures
        r_left == r_right,
{
    lemma_canonical_unique(r_left, r_right);
}

/// Additive inverse: for `x` whose value is not the minimum of its width --
/// so negation needs no extra word -- adding the two's complement of `x`
/// canonicalizes to the one-word zero.
pub proof fn lemma_add_inverse(x: Seq<u32>, neg: Seq<u32>, r: Seq<u32>)
    requires
        x.len() >= 1,
        wval(x) != -pow2((32 * x.len() - 1) as nat),
        wval(neg) == -wval(x),
        is_canonical(r),
        wval(r) == wval(x) + wval(neg),
    ensures
        r == zero_carrier(),

{
    lemma_zero_carrier();
    lemma_canonical_unique(r, zero_carrier());
}

/// Subtraction consistency: `a - a` canonicalizes to the one-word zero for
/// every `a` that is not the minimum value of its width.  (For the minimum
/// value the negation inside subtraction returns the operand itself, and
/// the difference is `2 * wval(a)` instead.)
pub proof fn lemma_sub_self_is_zero(a: Seq<u32>, r: Seq<u32>)
    requires
        a.len() >= 1,
        wval(a) != -pow2((32 * a.len() - 1) as nat),
        is_canonical(r),
        wval(r) == wval(a) - wval(a),
    ensures
        r == zero_carrier(),
{
    lemma_zero_carrier();
    lemma_canonical_unique(r, zero_carrier());
}

/// Width growth on overflow: when two `n`-word operands have a sum outside
/// the signed range of `32 n` bits, the canonical sum takes exactly
/// `n + 1` words.
pub proof fn lemma_add_overflow_growth(a: Seq<u32>, b: Seq<u32>, r: Seq<u32>)
    requires
        a.len() >= 1,
        a.len() == b.len(),
        is_canonical(r),
        wval(r) == wval(a) + wval(b),
        wval(a) + wval(b) >= pow2((32 * a.len() - 1) as nat) || wval(a) + wval(b) < -pow2(
            (32 * a.len() - 1) as nat,
        ),
    ensures
        r.len() == a.len() + 1,
{
    let n = a.len();
    lemma_wval_bounds(a);
    lemma_wval_bounds(b);
    lemma_wval_bounds(r);
    if r.len() <= n {
        lemma_pow2_le((32 * r.len() - 1) as nat, (32 * n - 1) as nat);
        assert(false);
    }
    if r.len() >= n + 2 {
        lemma_canonical_needs_length(r);
        lemma_pow2_le((32 * n + 1) as nat, (32 * (r.len() - 1) - 1) as nat);
        lemma_pow2_adds((32 * n - 1) as nat, 2);
        assert(pow2(2) == 4) by {
            lemma2_to64();
        }
        assert(false);
    }
}

} // verus!
