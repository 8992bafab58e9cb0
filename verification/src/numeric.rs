//! Small verified numeric exercises: array sums, powers of three, greatest
//! common divisors, binomial coefficients and pairing two vectors.

use vstd::prelude::*;

verus! {

/// The sum of the entries of a sequence of words.
pub open spec fn seq_sum(s: Seq<u64>) -> int
    decreases s.len(),
{
    if s.len() == 0 {
        0
    } else {
        seq_sum(s.drop_last()) + s.last()
    }
}

/// Sequence sums split over concatenation.
proof fn lemma_seq_sum_add(a: Seq<u64>, b: Seq<u64>)
    ensures
        seq_sum(a + b) == seq_sum(a) + seq_sum(b),
    decreases b.len(),
{
    if b.len() == 0 {
        assert(a + b =~= a);
    } else {
        lemma_seq_sum_add(a, b.drop_last());
        assert((a + b).drop_last() =~= a + b.drop_last());
        assert((a + b).last() == b.last());
    }
}

/// A sequence sum of words is never negative.
proof fn lemma_seq_sum_nonneg(s: Seq<u64>)
    ensures
        seq_sum(s) >= 0,
    decreases s.len(),
{
    if s.len() > 0 {
        lemma_seq_sum_nonneg(s.drop_last());
    }
}

/// Returns the sum of the given array.  Freedom from overflow is assumed,
/// so the mathematical sum must fit in a word.
pub fn sum_array(input: &[u64]) -> (r: u64)
    requires
        seq_sum(input@) <= u64::MAX,
    ensures
        r == seq_sum(input@),
{
    let mut acc: u64 = 0;
    let mut i: usize = 0;
    proof {
        assert(input@.subrange(0, 0) =~= Seq::<u64>::empty());
    }
    while i < input.len()
        invariant
            i <= input@.len(),
            seq_sum(input@) <= u64::MAX,
            acc == seq_sum(input@.subrange(0, i as int)),
        decreases input@.len() - i,
    {
        proof {
            let pre = input@.subrange(0, i as int);
            let post = input@.subrange(i as int, input@.len() as int);
            assert(input@ =~= pre + post);
            lemma_seq_sum_add(pre, post);
            assert(post.drop_first() =~= input@.subrange(i + 1, input@.len() as int));
            lemma_seq_sum_add(pre.push(input@[i as int]), post.drop_first());
            assert(pre.push(input@[i as int]) + post.drop_first() =~= input@);
            lemma_seq_sum_nonneg(post.drop_first());
            lemma_seq_sum_nonneg(pre);
            assert(pre.push(input@[i as int]).drop_last() =~= pre);
            assert(input@.subrange(0, i + 1) =~= pre.push(input@[i as int]));
        }
        acc = acc + input[i];
        i = i + 1;
    }
    proof {
        assert(input@.subrange(0, input@.len() as int) =~= input@);
    }
    acc
}

/// The `k`-th power of three.
pub open spec fn pow3(k: nat) -> int
    decreases k,
{
    if k == 0 {
        1
    } else {
        3 * pow3((k - 1) as nat)
    }
}

/// Every power of three is positive.
proof fn lemma_pow3_pos(k: nat)
    ensures
        pow3(k) >= 1,
    decreases k,
{
    if k > 0 {
        lemma_pow3_pos((k - 1) as nat);
    }
}

/// Powers of three grow with the exponent.
pub proof fn lemma_pow3_increases(k1: nat, k2: nat)
    requires
        k1 <= k2,
    ensures
        pow3(k1) <= pow3(k2),
        pow3(k1) >= 1,
    decreases k2,
{
    lemma_pow3_pos(k1);
    if k1 < k2 {
        lemma_pow3_increases(k1, (k2 - 1) as nat);
    }
}

/// The largest power of three below the word limit, written out.
pub proof fn lemma_pow3_forty()
    ensures
        pow3(40) == 12157665459056928801,
{
    assert(pow3(0) == 1);
    assert(pow3(1) == 3);
    assert(pow3(2) == 9);
    assert(pow3(3) == 27);
    assert(pow3(4) == 81);
    assert(pow3(5) == 243);
    assert(pow3(6) == 729);
    assert(pow3(7) == 2187);
    assert(pow3(8) == 6561);
    assert(pow3(9) == 19683);
    assert(pow3(10) == 59049);
    assert(pow3(11) == 177147);
    assert(pow3(12) == 531441);
    assert(pow3(13) == 1594323);
    assert(pow3(14) == 4782969);
    assert(pow3(15) == 14348907);
    assert(pow3(16) == 43046721);
    assert(pow3(17) == 129140163);
    assert(pow3(18) == 387420489);
    assert(pow3(19) == 1162261467);
    assert(pow3(20) == 3486784401);
    assert(pow3(21) == 10460353203);
    assert(pow3(22) == 31381059609);
    assert(pow3(23) == 94143178827);
    assert(pow3(24) == 282429536481);
    assert(pow3(25) == 847288609443);
    assert(pow3(26) == 2541865828329);
    assert(pow3(27) == 7625597484987);
    assert(pow3(28) == 22876792454961);
    assert(pow3(29) == 68630377364883);
    assert(pow3(30) == 205891132094649);
    assert(pow3(31) == 617673396283947);
    assert(pow3(32) == 1853020188851841);
    assert(pow3(33) == 5559060566555523);
    assert(pow3(34) == 16677181699666569);
    assert(pow3(35) == 50031545098999707);
    assert(pow3(36) == 150094635296999121);
    assert(pow3(37) == 450283905890997363);
    assert(pow3(38) == 1350851717672992089);
    assert(pow3(39) == 4052555153018976267);
    assert(pow3(40) == 12157665459056928801);
}

/// Given a non-negative integer `n`, returns the smallest power of three
/// that is at least `n`.  Freedom from overflow is assumed, so `n` may not
/// exceed the largest power of three a word can hold.
pub fn up3(n: u64) -> (r: u64)
    requires
        n <= pow3(40),
    ensures
        exists|m: nat| r == #[trigger] pow3(m) && r >= n && (m == 0 || pow3((m - 1) as nat) < n),
{
    let mut p: u64 = 1;
    let mut m: u64 = 0;
    proof {
        lemma_pow3_forty();
    }
    while p < n
        invariant
            n <= pow3(40),
            pow3(40) == 12157665459056928801,
            p == pow3(m as nat),
            m == 0 || pow3((m - 1) as nat) < n,
            p >= 1,
            m <= 40,
        decreases 40 - m,
    {
        proof {
            if m >= 40 {
                lemma_pow3_increases(40, m as nat);
                assert(false);
            }
            lemma_pow3_increases((m + 1) as nat, 40);
            assert(pow3((m + 1) as nat) == 3 * pow3(m as nat));
        }
        p = p * 3;
        m = m + 1;
        proof {
            lemma_pow3_pos(m as nat);
        }
    }
    p
}

/// Euclid's greatest common divisor of two non-negative integers.
pub open spec fn gcd_spec(a: nat, b: nat) -> nat
    decreases b,
{
    if b == 0 {
        a
    } else {
        gcd_spec(b, a % b)
    }
}

/// Returns the greatest common divisor of two non-negative integers.
pub fn gcd(lhs: u64, rhs: u64) -> (r: u64)
    ensures
        r == gcd_spec(lhs as nat, rhs as nat),
{
    let mut x = lhs;
    let mut y = rhs;
    while y != 0
        invariant
            gcd_spec(x as nat, y as nat) == gcd_spec(lhs as nat, rhs as nat),
        decreases y,
    {
        let temp = y;
        y = x % y;
        x = temp;
    }
    x
}

/// Binomial coefficients by the multiplicative rule
/// `C(n, k) = C(n, k - 1) * (n - k + 1) / k`, with `C(n, 0) = 1`; the
/// division is always exact for these values.
pub open spec fn binom(n: nat, k: nat) -> int
    decreases k,
{
    if k == 0 {
        1
    } else {
        (binom(n, (k - 1) as nat) * (n - k + 1)) / (k as int)
    }
}

/// Returns the row `n` of Pascal's triangle: `C(n, 0)` through `C(n, n)`.
/// Freedom from overflow is assumed for every intermediate product.
pub fn chooses(n: u64) -> (r: Vec<u64>)
    requires
        forall|i: int|
            1 <= i < n ==> 0 <= #[trigger] binom(n as nat, (i - 1) as nat) * (n - i + 1)
                <= u64::MAX,
    ensures
        r@.len() == if n == 0 {
            1int
        } else {
            n + 1
        },
        r@[0] == 1,
        forall|i: int| 0 <= i < n ==> r@[i] == binom(n as nat, i as nat),
        n > 0 ==> r@[n as int] == 1,
{
    let mut ret: Vec<u64> = Vec::new();
    let mut a: u64 = 1;
    ret.push(a);
    let mut i: u64 = 1;
    while i < n
        invariant
            1 <= i <= n || (n == 0 && i == 1),
            a == binom(n as nat, (i - 1) as nat),
            ret@.len() == i,
            forall|j: int| 0 <= j < i ==> ret@[j] == binom(n as nat, j as nat),
            forall|j: int|
                1 <= j < n ==> 0 <= #[trigger] binom(n as nat, (j - 1) as nat) * (n - j + 1)
                    <= u64::MAX,
        decreases n - i,
    {
        a = (a * (n - i + 1)) / i;
        ret.push(a);
        i = i + 1;
    }
    if n != 0 {
        ret.push(1);
    }
    ret
}

/// Pairs the entries of two vectors index by index, dropping the tail of
/// the longer one.
pub fn zip(lhs: Vec<u64>, rhs: Vec<u64>) -> (r: Vec<(u64, u64)>)
    ensures
        r@.len() == if lhs@.len() <= rhs@.len() {
            lhs@.len()
        } else {
            rhs@.len()
        },
        forall|i: int| 0 <= i < r@.len() ==> r@[i] == (lhs@[i], rhs@[i]),
{
    let mut ret: Vec<(u64, u64)> = Vec::new();
    let a = lhs.len();
    let b = rhs.len();
    let bound = if a <= b {
        a
    } else {
        b
    };
    let mut i: usize = 0;
    while i < bound
        invariant
            bound <= lhs@.len(),
            bound <= rhs@.len(),
            i <= bound,
            ret@.len() == i,
            forall|j: int| 0 <= j < i ==> ret@[j] == (lhs@[j], rhs@[j]),
        decreases bound - i,
    {
        ret.push((lhs[i], rhs[i]));
        i = i + 1;
    }
    ret
}

} // verus!
