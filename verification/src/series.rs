//! Verified step-by-step sequence producers: substring search positions,
//! generic-seeded Fibonacci numbers, ranges with a stride, and divisors.

use vstd::prelude::*;
use vstd::arithmetic::div_mod::{lemma_fundamental_div_mod, lemma_fundamental_div_mod_converse};

verus! {

/// `query` occurs in `base` at position `p`.
pub open spec fn is_match(query: Seq<u64>, base: Seq<u64>, p: int) -> bool {
    0 <= p && p + query.len() <= base.len() && base.subrange(p, p + query.len()) == query
}

/// Returns every position at which `query` occurs in `base`, in
/// increasing order.
pub fn find(query: &[u64], base: &[u64]) -> (r: Vec<usize>)
    requires
        query@.len() > 0 || base@.len() < usize::MAX,
    ensures
        forall|k: int| 0 <= k < r@.len() ==> is_match(query@, base@, #[trigger] r@[k] as int),
        forall|p: usize| is_match(query@, base@, p as int) ==> r@.contains(p),
        forall|k1: int, k2: int| 0 <= k1 < k2 < r@.len() ==> r@[k1] < r@[k2],
{
    let qlen = query.len();
    let blen = base.len();
    let mut ret: Vec<usize> = Vec::new();
    if qlen > blen {
        proof {
            assert forall|p: usize| is_match(query@, base@, p as int) implies ret@.contains(p) by {
                assert(p + query@.len() > base@.len());
            }
        }
        return ret;
    }
    let mut p: usize = 0;
    while p <= blen - qlen
        invariant
            qlen == query@.len(),
            blen == base@.len(),
            qlen <= blen,
            p <= blen - qlen + 1,
            forall|k: int| 0 <= k < ret@.len() ==> is_match(query@, base@, #[trigger] ret@[k] as int),
            forall|q: usize| q < p && is_match(query@, base@, q as int) ==> ret@.contains(q),
            forall|k1: int, k2: int| 0 <= k1 < k2 < ret@.len() ==> ret@[k1] < ret@[k2],
            forall|k: int| 0 <= k < ret@.len() ==> ret@[k] < p,
            qlen > 0 || blen < usize::MAX,
        decreases blen - qlen + 1 - p,
    {
        let mut t: usize = 0;
        let mut matches = true;
        while t < qlen
            invariant
                qlen == query@.len(),
                blen == base@.len(),
                p + qlen <= blen,
                t <= qlen,
                matches <==> forall|u: int| 0 <= u < t ==> base@[p + u] == query@[u],
            decreases qlen - t,
        {
            if base[p + t] != query[t] {
                matches = false;
            }
            t = t + 1;
        }
        let ghost pre_ret = ret@;
        if matches {
            proof {
                assert(base@.subrange(p as int, p + query@.len()) =~= query@);
            }
            ret.push(p);
        } else {
            proof {
                assert(!is_match(query@, base@, p as int)) by {
                    let u = choose|u: int| 0 <= u < qlen && base@[p + u] != query@[u];
                    if is_match(query@, base@, p as int) {
                        assert(base@.subrange(p as int, p + query@.len())[u] == query@[u]);
                    }
                }
            }
        }
        p = p + 1;
        proof {
            assert forall|q: usize| q < p && is_match(query@, base@, q as int) implies ret@
                .contains(q) by {
                if q < p - 1 {
                    assert(pre_ret.contains(q));
                    let k = choose|k: int| 0 <= k < pre_ret.len() && pre_ret[k] == q;
                    assert(ret@[k] == q);
                } else {
                    assert(ret@[ret@.len() - 1] == q);
                }
            }
        }
    }
    proof {
        assert forall|q: usize| is_match(query@, base@, q as int) implies ret@.contains(q) by {
            assert(q + query@.len() <= base@.len());
            assert(q < p);
        }
    }
    ret
}

/// A Fibonacci sequence iterator over the two most recent values.
#[derive(Debug, Clone, Copy, PartialEq, Eq, Structural)]
pub struct FibIter {
    /// The value yielded next.
    pub curr: u64,
    /// The value after it.
    pub next: u64,
}

impl FibIter {
    /// Starts the sequence from the two given seeds.
    pub fn new(first: u64, second: u64) -> (r: Self)
        ensures
            r.curr == first,
            r.next == second,
    {
        Self { curr: first, next: second }
    }

    /// Yields the current value and advances by one step; the iterator
    /// ends when the following value would overflow a word.
    pub fn next(&mut self) -> (r: Option<u64>)
        ensures
            old(self).curr + old(self).next <= u64::MAX ==> (r == Some(old(self).curr)
                && final(self).curr == old(self).next
                && final(self).next == old(self).curr + old(self).next),
            old(self).curr + old(self).next > u64::MAX ==> r is None && *final(self) == *old(self),
    {
        if self.curr <= u64::MAX - self.next {
            let a = self.curr;
            self.curr = self.next;
            self.next = a + self.next;
            Some(a)
        } else {
            None
        }
    }
}

/// Returns an iterator over the Fibonacci sequence starting from `first`
/// and `second`.
pub fn fib(first: u64, second: u64) -> (r: FibIter)
    ensures
        r.curr == first,
        r.next == second,
{
    FibIter::new(first, second)
}

/// Endpoint of range, inclusive or exclusive.
#[derive(Debug, Clone, Copy, PartialEq, Eq, Structural)]
pub enum Endpoint {
    /// Inclusive endpoint.
    Inclusive(isize),
    /// Exclusive endpoint.
    Exclusive(isize),
}

/// The first value of a range with the given endpoints: an exclusive
/// start moves one stride-direction step inward.
pub open spec fn range_start(endpoints: (Endpoint, Endpoint), step: int) -> int {
    match endpoints.0 {
        Endpoint::Inclusive(s) => s as int,
        Endpoint::Exclusive(s) => if step > 0 {
            s + 1
        } else {
            s - 1
        },
    }
}

/// The last admissible value of a range with the given endpoints.
pub open spec fn range_end(endpoints: (Endpoint, Endpoint), step: int) -> int {
    match endpoints.1 {
        Endpoint::Inclusive(e) => e as int,
        Endpoint::Exclusive(e) => if step > 0 {
            e - 1
        } else {
            e + 1
        },
    }
}

/// The endpoint adjustments of `RangeIter::new` stay within the signed
/// word range.
pub open spec fn endpoints_in_bounds(endpoints: (Endpoint, Endpoint), step: int) -> bool {
    isize::MIN <= range_start(endpoints, step) <= isize::MAX && isize::MIN <= range_end(
        endpoints,
        step,
    ) <= isize::MAX
}

/// An iterator over a stride of values between two endpoints.
#[derive(Debug, Clone, Copy, PartialEq, Eq, Structural)]
pub struct RangeIter {
    /// The value yielded next.
    pub start: isize,
    /// The last admissible value.
    pub end: isize,
    /// The stride added after each value.
    pub step: isize,
    /// Whether the iteration has stopped for good.
    pub done: bool,
}

impl RangeIter {
    /// Normalizes the endpoints to an inclusive first and last value for
    /// the given stride direction.
    pub fn new(endpoints: (Endpoint, Endpoint), step: isize) -> (r: Self)
        requires
            endpoints_in_bounds(endpoints, step as int),
        ensures
            r.start == range_start(endpoints, step as int),
            r.end == range_end(endpoints, step as int),
            r.step == step,
            !r.done,
    {
        let (start, end) = if step > 0 {
            let s = match endpoints.0 {
                Endpoint::Inclusive(s) => s,
                Endpoint::Exclusive(s) => s + 1,
            };
            let e = match endpoints.1 {
                Endpoint::Inclusive(e) => e,
                Endpoint::Exclusive(e) => e - 1,
            };
            (s, e)
        } else {
            let s = match endpoints.0 {
                Endpoint::Inclusive(s) => s,
                Endpoint::Exclusive(s) => s - 1,
            };
            let e = match endpoints.1 {
                Endpoint::Inclusive(e) => e,
                Endpoint::Exclusive(e) => e + 1,
            };
            (s, e)
        };
        RangeIter { start, end, step, done: false }
    }

    /// Yields the next value of the range and strides onward; the
    /// iterator ends past the last admissible value, or as soon as the
    /// stride would leave the signed word range.
    pub fn next(&mut self) -> (r: Option<isize>)
        ensures
            old(self).done ==> r is None && *final(self) == *old(self),
            !old(self).done && old(self).step > 0 ==> (if old(self).start <= old(self).end {
                r == Some(old(self).start) && final(self).end == old(self).end && final(self).step
                    == old(self).step && (if old(self).start + old(self).step <= isize::MAX {
                    final(self).start == old(self).start + old(self).step && !final(self).done
                } else {
                    final(self).done
                })
            } else {
                r is None && *final(self) == *old(self)
            }),
            !old(self).done && old(self).step <= 0 ==> (if old(self).start >= old(self).end {
                r == Some(old(self).start) && final(self).end == old(self).end && final(self).step
                    == old(self).step && (if old(self).start + old(self).step >= isize::MIN {
                    final(self).start == old(self).start + old(self).step && !final(self).done
                } else {
                    final(self).done
                })
            } else {
                r is None && *final(self) == *old(self)
            }),
    {
        if self.done {
            return None;
        }
        if self.step > 0 {
            if self.start <= self.end {
                let result = self.start;
                if self.start <= isize::MAX - self.step {
                    self.start = self.start + self.step;
                } else {
                    self.done = true;
                }
                Some(result)
            } else {
                None
            }
        } else {
            if self.start >= self.end {
                let result = self.start;
                if self.start >= isize::MIN - self.step {
                    self.start = self.start + self.step;
                } else {
                    self.done = true;
                }
                Some(result)
            } else {
                None
            }
        }
    }
}

/// Returns an iterator over the range between `left` and `right` with the
/// given stride.
pub fn range(left: Endpoint, right: Endpoint, step: isize) -> (r: RangeIter)
    requires
        endpoints_in_bounds((left, right), step as int),
    ensures
        r.start == range_start((left, right), step as int),
        r.end == range_end((left, right), step as int),
        r.step == step,
        !r.done,
{
    RangeIter::new((left, right), step)
}

/// For a positive divisor candidate, staying at or below the quotient is
/// the same as its square staying at or below the number.
proof fn lemma_square_below(n: int, i: int)
    requires
        n >= 1,
        i >= 1,
    ensures
        i <= n / i <==> i * i <= n,
{
    lemma_fundamental_div_mod(n, i);
    if i <= n / i {
        assert(i * i <= (n / i) * i) by (nonlinear_arith)
            requires
                i >= 1,
                i <= n / i,
        {
        }
        assert((n / i) * i <= n) by (nonlinear_arith)
            requires
                n == i * (n / i) + n % i,
                n % i >= 0,
        {
        }
    }
    if i * i <= n {
        if n / i < i {
            assert(n == i * (n / i) + n % i);
            assert(i * (n / i) <= i * (i - 1)) by (nonlinear_arith)
                requires
                    i >= 1,
                    n / i <= i - 1,
            {
            }
            assert(n < i * i) by (nonlinear_arith)
                requires
                    n == i * (n / i) + n % i,
                    i * (n / i) <= i * (i - 1),
                    n % i < i,
            {
            }
        }
    }
}

/// Returns all divisors of `n` in increasing order.
pub fn divisors(n: u64) -> (r: Vec<u64>)
    requires
        n >= 1,
    ensures
        forall|k1: int, k2: int| 0 <= k1 < k2 < r@.len() ==> r@[k1] < r@[k2],
        forall|d: u64| #![trigger r@.contains(d)]
            r@.contains(d) <==> (1 <= d <= n && n as int % d as int == 0),
{
    let mut small: Vec<u64> = Vec::new();
    let mut large: Vec<u64> = Vec::new();
    let mut i: u64 = 1;
    proof {
        assert forall|d: u64| 1 <= d <= n implies #[trigger] (n as int / d as int) >= 1 by {
            lemma_fundamental_div_mod(n as int, d as int);
            assert((n as int / d as int) >= 1) by (nonlinear_arith)
                requires
                    n as int == d as int * (n as int / d as int) + n as int % d as int,
                    0 <= n as int % d as int,
                    (n as int % d as int) < d as int,
                    1 <= d as int,
                    d as int <= n as int,
            {
            }
        }
    }
    while i <= n / i
        invariant
            n >= 1,
            i >= 1,
            forall|k1: int, k2: int| 0 <= k1 < k2 < small@.len() ==> small@[k1] < small@[k2],
            forall|k1: int, k2: int| 0 <= k1 < k2 < large@.len() ==> large@[k1] > large@[k2],
            forall|k: int|
                0 <= k < small@.len() ==> 1 <= #[trigger] small@[k] < i && small@[k] * small@[k]
                    <= n && n as int % small@[k] as int == 0,
            forall|k: int|
                0 <= k < large@.len() ==> 1 <= #[trigger] large@[k] <= n && large@[k] * large@[k]
                    > n && n as int % large@[k] as int == 0,
            forall|d: u64| #![trigger small@.contains(d)]
                1 <= d < i && n as int % d as int == 0 && d * d <= n ==> small@.contains(d),
            forall|d: u64| #![trigger large@.contains(d)]
                1 <= d <= n && d * d > n && n as int % d as int == 0 && (n as int / d as int) < i
                    ==> large@.contains(d),
            forall|k: int|
                0 <= k < large@.len() ==> (n as int / #[trigger] large@[k] as int) < i,
        decreases n + 1 - i,
    {
        proof {
            lemma_square_below(n as int, i as int);
        }
        if n % i == 0 {
            let q = n / i;
            let ghost pre_small = small@;
            let ghost pre_large = large@;
            proof {
                lemma_fundamental_div_mod(n as int, i as int);
                assert(n == i * q);
                assert(q <= n) by (nonlinear_arith)
                    requires
                        n == i * q,
                        i >= 1,
                        q >= 0,
                {
                }
                if q != i {
                    assert(i < q) by (nonlinear_arith)
                        requires
                            n == i * q,
                            i * i <= n,
                            i >= 1,
                            q >= 0,
                            i != q,
                    {
                    }
                    assert(q * q > n) by (nonlinear_arith)
                        requires
                            n == i * q,
                            i < q,
                            i >= 1,
                    {
                    }
                    lemma_fundamental_div_mod_converse(n as int, q as int, i as int, 0);
                    assert(n as int % q as int == 0 && (n as int / q as int) == i);
                }
            }
            small.push(i);
            proof {
                assert forall|d: u64|
                    1 <= d < i + 1 && n as int % d as int == 0 && d * d <= n implies small@
                    .contains(d) by {
                    if d == i {
                        assert(small@[small@.len() - 1] == i);
                    } else {
                        assert(pre_small.contains(d));
                        let k = choose|k: int| 0 <= k < pre_small.len() && pre_small[k] == d;
                        assert(small@[k] == d);
                    }
                }
                assert forall|k: int| 0 <= k < small@.len() implies 1 <= #[trigger] small@[k] < i
                    + 1 && small@[k] * small@[k] <= n && n as int % small@[k] as int == 0 by {
                    if k < pre_small.len() {
                        assert(small@[k] == pre_small[k]);
                    }
                }
            }
            if q != i {
                large.push(q);
                proof {
                    assert forall|d: u64| pre_large.contains(d) implies large@.contains(d) by {
                        let k = choose|k: int| 0 <= k < pre_large.len() && pre_large[k] == d;
                        assert(large@[k] == d);
                    }
                    assert(large@.contains(q)) by {
                        assert(large@[large@.len() - 1] == q);
                    }
                    assert forall|k1: int, k2: int|
                        0 <= k1 < k2 < large@.len() implies large@[k1] > large@[k2] by {
                        if k2 == large@.len() - 1 {
                            let d1 = pre_large[k1];
                            assert((n as int / d1 as int) < i);
                            lemma_fundamental_div_mod(n as int, d1 as int);
                            let q1 = n as int / d1 as int;
                            assert(q1 >= 1) by (nonlinear_arith)
                                requires
                                    n as int == d1 * q1 + n as int % d1 as int,
                                    n as int % d1 as int == 0,
                                    d1 >= 1,
                                    n >= 1,
                            {
                            }
                            assert(d1 > q) by (nonlinear_arith)
                                requires
                                    n as int == d1 * q1 + n as int % d1 as int,
                                    n as int % d1 as int == 0,
                                    n == i * q,
                                    q1 < i,
                                    q1 >= 1,
                                    d1 >= 1,
                                    i >= 1,
                                    q >= 1,
                            {
                            }
                        }
                    }
                }
            }
            proof {
                assert forall|d: u64|
                    1 <= d <= n && d * d > n && n as int % d as int == 0 && (n as int / d as int)
                        < i + 1 implies large@.contains(d) by {
                    if (n as int / d as int) < i {
                        assert(pre_large.contains(d) || (q != i && d == q));
                    } else {
                        lemma_fundamental_div_mod(n as int, d as int);
                        assert(n as int == d * i) by (nonlinear_arith)
                            requires
                                n as int == d * (n as int / d as int) + n as int % d as int,
                                n as int % d as int == 0,
                                (n as int / d as int) == i,
                        {
                        }
                        lemma_fundamental_div_mod_converse(n as int, i as int, d as int, 0);
                        assert(q == d);
                        assert(q != i) by (nonlinear_arith)
                            requires
                                d * d > n,
                                i * i <= n,
                                d == q,
                                i >= 1,
                                d >= 1,
                        {
                        }
                    }
                }
            }
        } else {
            proof {
                assert forall|d: u64|
                    1 <= d <= n && d * d > n && n as int % d as int == 0 && (n as int / d as int)
                        < i + 1 implies large@.contains(d) by {
                    if (n as int / d as int) >= i {
                        lemma_fundamental_div_mod(n as int, d as int);
                        assert(n as int == d * i) by (nonlinear_arith)
                            requires
                                n as int == d * (n as int / d as int) + n as int % d as int,
                                n as int % d as int == 0,
                                (n as int / d as int) == i,
                        {
                        }
                        lemma_fundamental_div_mod_converse(n as int, i as int, d as int, 0);
                        assert(false);
                    }
                }
            }
        }
        proof {
            assert(i < u64::MAX) by (nonlinear_arith)
                requires
                    i as int * i as int <= n as int,
                    1 <= i,
                    n <= u64::MAX,
            {
            }
        }
        i = i + 1;
    }
    proof {
        lemma_square_below(n as int, i as int);
        assert(i * i > n);
    }
    let ghost small0 = small@;
    let mut ret = small;
    let mut k = large.len();
    proof {
        assert forall|j: int| 0 <= j < small0.len() implies 1 <= #[trigger] small0[j] <= n by {
            assert(small0[j] * small0[j] <= n);
            assert(small0[j] <= n) by (nonlinear_arith)
                requires
                    small0[j] as int * small0[j] as int <= n as int,
                    small0[j] >= 1,
            {
            }
        }
        assert forall|d: u64| #![trigger small0.contains(d)]
            small0.contains(d) <==> (1 <= d && d * d <= n && n as int % d as int == 0) by {
            if small0.contains(d) {
                let j = choose|j: int| 0 <= j < small0.len() && small0[j] == d;
            }
            if 1 <= d && d * d <= n && n as int % d as int == 0 {
                assert(d < i) by (nonlinear_arith)
                    requires
                        d as int * d as int <= n as int,
                        i as int * i as int > n as int,
                        d >= 1,
                        i >= 1,
                {
                }
                assert(d <= n) by (nonlinear_arith)
                    requires
                        d as int * d as int <= n as int,
                        d >= 1,
                {
                }
            }
        }
        assert forall|j: int, m: int|
            0 <= j < ret@.len() && 0 <= m < large@.len() implies #[trigger] ret@[j]
            < #[trigger] large@[m] by {
            assert(ret@[j] * ret@[j] <= n);
            assert(large@[m] * large@[m] > n);
            assert(ret@[j] < large@[m]) by (nonlinear_arith)
                requires
                    ret@[j] * ret@[j] <= n,
                    large@[m] * large@[m] > n,
                    ret@[j] >= 1,
                    large@[m] >= 1,
            {
            }
        }
    }
    while k > 0
        invariant
            n >= 1,
            i >= 1,
            i * i > n,
            k <= large@.len(),
            forall|k1: int, k2: int| 0 <= k1 < k2 < ret@.len() ==> ret@[k1] < ret@[k2],
            forall|k1: int, k2: int| 0 <= k1 < k2 < large@.len() ==> large@[k1] > large@[k2],
            forall|j: int|
                0 <= j < ret@.len() ==> 1 <= #[trigger] ret@[j] <= n && n as int % ret@[j] as int
                    == 0,
            forall|m: int|
                0 <= m < large@.len() ==> 1 <= #[trigger] large@[m] <= n && large@[m] * large@[m]
                    > n && n as int % large@[m] as int == 0,
            forall|j: int, m: int|
                0 <= j < ret@.len() && 0 <= m < k ==> #[trigger] ret@[j] < #[trigger] large@[m],
            forall|d: u64| #![trigger ret@.contains(d)]
                ret@.contains(d) <==> (small0.contains(d) || exists|m: int|
                    k <= m < large@.len() && large@[m] == d),
            forall|d: u64| #![trigger small0.contains(d)]
                small0.contains(d) <==> (1 <= d && d * d <= n && n as int % d as int == 0),
        decreases k,
    {
        k = k - 1;
        let ghost pre_ret = ret@;
        ret.push(large[k]);
        proof {
            assert forall|d: u64| ret@.contains(d) implies (small0.contains(d) || exists|m: int|
                k <= m < large@.len() && large@[m] == d) by {
                let j = choose|j: int| 0 <= j < ret@.len() && ret@[j] == d;
                if j < pre_ret.len() {
                    assert(pre_ret[j] == d);
                    assert(pre_ret.contains(d));
                } else {
                    assert(large@[k as int] == d);
                }
            }
            assert forall|d: u64|
                small0.contains(d) || (exists|m: int| k <= m < large@.len() && large@[m] == d)
                implies ret@.contains(d) by {
                if small0.contains(d) || (exists|m: int| k + 1 <= m < large@.len() && large@[m]
                    == d) {
                    assert(pre_ret.contains(d));
                    let j = choose|j: int| 0 <= j < pre_ret.len() && pre_ret[j] == d;
                    assert(ret@[j] == d);
                } else {
                    let m = choose|m: int| k <= m < large@.len() && large@[m] == d;
                    assert(m == k);
                    assert(ret@[ret@.len() - 1] == d);
                }
            }
        }
    }
    proof {
        assert forall|d: u64| ret@.contains(d) implies (1 <= d <= n && n as int % d as int
            == 0) by {
            if small0.contains(d) {
                let j = choose|j: int| 0 <= j < small0.len() && small0[j] == d;
                assert(d * d <= n);
                assert(d <= n) by (nonlinear_arith)
                    requires
                        d * d <= n,
                        d >= 1,
                {
                }
            }
        }
        assert forall|d: u64| 1 <= d <= n && n as int % d as int == 0 implies ret@.contains(
            d,
        ) by {
            if d * d <= n {
                assert(small0.contains(d));
            } else {
                let q = n as int / d as int;
                lemma_fundamental_div_mod(n as int, d as int);
                assert(n as int == d * q);
                assert(q < i) by (nonlinear_arith)
                    requires
                        n as int == d * q,
                        d * d > n,
                        i * i > n,
                        d >= 1,
                        q >= 0,
                        n >= 1,
                        i >= 1,
                {
                }
                assert(large@.contains(d));
                let m = choose|m: int| 0 <= m < large@.len() && large@[m] == d;
                assert(exists|m2: int| 0 <= m2 < large@.len() && large@[m2] == d);
            }
        }
    }
    ret
}

} // verus!
