//! Verified exercises over lists of numbers: order statistics, modes,
//! exact-count selections, pair sums and interleavings.

use crate::sorting::{lemma_sorted_unique_isize, sort_isize, sort_usize, sorted_isize, sorted_usize};
use vstd::prelude::*;
use vstd::relations::{sorted_by, total_ordering};

verus! {

/// Non-strict order over signed words, as a specification relation.
pub open spec fn isize_le() -> spec_fn(isize, isize) -> bool {
    |a: isize, b: isize| a <= b
}

/// `isize_le` is a total ordering.
pub proof fn lemma_isize_le_total()
    ensures
        total_ordering(isize_le()),
{
}

/// The sorted arrangement of a sequence of signed words.
pub open spec fn sorted_seq_of(s: Seq<isize>) -> Seq<isize> {
    s.sort_by(isize_le())
}

/// The exec insertion sort returns exactly the specification-level sorted
/// arrangement.
proof fn lemma_sort_matches_spec(s: Seq<isize>, t: Seq<isize>)
    requires
        sorted_isize(t),
        t.to_multiset() == s.to_multiset(),
    ensures
        t == sorted_seq_of(s),
{
    lemma_isize_le_total();
    s.lemma_sort_by_ensures(isize_le());
    let u = sorted_seq_of(s);
    assert(sorted_isize(u)) by {
        assert(forall|i: int, j: int|
            0 <= i < j < u.len() ==> #[trigger] isize_le()(u[i], u[j]));
        assert forall|i: int, j: int| 0 <= i <= j < u.len() implies u[i] <= u[j] by {
            if i < j {
                assert(isize_le()(u[i], u[j]));
            }
        }
    }
    lemma_sorted_unique_isize(t, u);
}

/// Returns the median: the element a sorted copy holds in the middle
/// position (for an even count, the later of the two middle positions).
pub fn median(values: Vec<isize>) -> (r: Option<isize>)
    ensures
        values@.len() == 0 ==> r is None,
        values@.len() > 0 ==> r == Some(sorted_seq_of(values@)[values@.len() as int / 2]),
{
    let len = values.len();
    if len == 0 {
        return None;
    }
    let temp = sort_isize(&values);
    proof {
        lemma_sort_matches_spec(values@, temp@);
    }
    Some(temp[len / 2])
}

/// How many entries of `s` equal `x`.
pub open spec fn count_of(s: Seq<isize>, x: isize) -> int
    decreases s.len(),
{
    if s.len() == 0 {
        0
    } else {
        count_of(s.drop_last(), x) + if s.last() == x {
            1int
        } else {
            0int
        }
    }
}

/// Counting never exceeds the length of the sequence, and never goes
/// negative.
proof fn lemma_count_of_bounds(s: Seq<isize>, x: isize)
    ensures
        0 <= count_of(s, x) <= s.len(),
    decreases s.len(),
{
    if s.len() > 0 {
        lemma_count_of_bounds(s.drop_last(), x);
    }
}

/// Counts the occurrences of `x` in the vector.
fn count_occurrences(values: &Vec<isize>, x: isize) -> (c: usize)
    ensures
        c == count_of(values@, x),
{
    let mut c: usize = 0;
    let mut k: usize = 0;
    proof {
        assert(values@.subrange(0, 0) =~= Seq::<isize>::empty());
    }
    while k < values.len()
        invariant
            k <= values@.len(),
            c == count_of(values@.subrange(0, k as int), x),
            c <= k,
        decreases values@.len() - k,
    {
        proof {
            assert(values@.subrange(0, k + 1).drop_last() =~= values@.subrange(0, k as int));
            lemma_count_of_bounds(values@.subrange(0, k as int), x);
        }
        if values[k] == x {
            c = c + 1;
        }
        k = k + 1;
    }
    proof {
        assert(values@.subrange(0, values@.len() as int) =~= values@);
    }
    c
}

/// Returns the smallest mode: among the values that occur most often, the
/// least one.
pub fn mode(values: Vec<isize>) -> (r: Option<isize>)
    ensures
        values@.len() == 0 ==> r is None,
        values@.len() > 0 ==> (r matches Some(m) && values@.contains(m) && forall|x: isize|
            #[trigger] values@.contains(x) ==> count_of(values@, x) < count_of(values@, m) || (
            count_of(values@, x) == count_of(values@, m) && m <= x)),
{
    let len = values.len();
    if len == 0 {
        return None;
    }
    let mut best = values[0];
    let mut best_count = count_occurrences(&values, best);
    let mut i: usize = 1;
    proof {
        assert(values@.contains(values@[0]));
    }
    while i < values.len()
        invariant
            1 <= i <= values@.len(),
            values@.contains(best),
            best_count == count_of(values@, best),
            forall|j: int|
                0 <= j < i ==> count_of(values@, #[trigger] values@[j]) < best_count || (count_of(
                    values@,
                    values@[j],
                ) == best_count && best <= values@[j]),
        decreases values@.len() - i,
    {
        let x = values[i];
        let c = count_occurrences(&values, x);
        if c > best_count || (c == best_count && x < best) {
            best = x;
            best_count = c;
            proof {
                assert(values@.contains(values@[i as int]));
            }
        }
        i = i + 1;
    }
    proof {
        assert forall|x: isize| #[trigger] values@.contains(x) implies count_of(values@, x)
            < best_count || (count_of(values@, x) == best_count && best <= x) by {
            let j = choose|j: int| 0 <= j < values@.len() && values@[j] == x;
            assert(count_of(values@, values@[j]) < best_count || (count_of(values@, values@[j])
                == best_count && best <= values@[j]));
        }
    }
    Some(best)
}

/// Returns the position of the first entry that equals the median.
pub fn position_median(inner: Vec<isize>) -> (r: Option<usize>)
    ensures
        inner@.len() == 0 ==> r is None,
        inner@.len() > 0 ==> (r matches Some(p) && p < inner@.len() && inner@[p as int]
            == sorted_seq_of(inner@)[inner@.len() as int / 2] && forall|j: int|
            0 <= j < p ==> inner@[j] != sorted_seq_of(inner@)[inner@.len() as int / 2]),
{
    let len = inner.len();
    if len == 0 {
        return None;
    }
    let sorted = sort_isize(&inner);
    proof {
        lemma_sort_matches_spec(inner@, sorted@);
    }
    let target = sorted[len / 2];
    let mut p: usize = 0;
    while p < inner.len()
        invariant
            p <= inner@.len(),
            target == sorted_seq_of(inner@)[inner@.len() as int / 2],
            forall|j: int| 0 <= j < p ==> inner@[j] != target,
        decreases inner@.len() - p,
    {
        if inner[p] == target {
            return Some(p);
        }
        p = p + 1;
    }
    proof {
        let ghost t = sorted_seq_of(inner@);
        assert(t.to_multiset() == inner@.to_multiset()) by {
            lemma_isize_le_total();
            inner@.lemma_sort_by_ensures(isize_le());
        }
        assert(t.contains(target)) by {
            assert(t[inner@.len() as int / 2] == target);
        }
        vstd::seq_lib::to_multiset_contains(t, target);
        vstd::seq_lib::to_multiset_contains(inner@, target);
        assert(inner@.contains(target));
        let j = choose|j: int| 0 <= j < inner@.len() && inner@[j] == target;
        assert(false);
    }
    None
}

/// How many entries of `s` equal `x`.
pub open spec fn count_usize(s: Seq<usize>, x: usize) -> int
    decreases s.len(),
{
    if s.len() == 0 {
        0
    } else {
        count_usize(s.drop_last(), x) + if s.last() == x {
            1int
        } else {
            0int
        }
    }
}

/// Counting never exceeds the length of the sequence, and never goes
/// negative.
proof fn lemma_count_usize_bounds(s: Seq<usize>, x: usize)
    ensures
        0 <= count_usize(s, x) <= s.len(),
    decreases s.len(),
{
    if s.len() > 0 {
        lemma_count_usize_bounds(s.drop_last(), x);
    }
}

/// Counts the occurrences of `x` in the vector.
fn count_occurrences_usize(values: &Vec<usize>, x: usize) -> (c: usize)
    ensures
        c == count_usize(values@, x),
{
    let mut c: usize = 0;
    let mut k: usize = 0;
    proof {
        assert(values@.subrange(0, 0) =~= Seq::<usize>::empty());
    }
    while k < values.len()
        invariant
            k <= values@.len(),
            c == count_usize(values@.subrange(0, k as int), x),
            c <= k,
        decreases values@.len() - k,
    {
        proof {
            assert(values@.subrange(0, k + 1).drop_last() =~= values@.subrange(0, k as int));
            lemma_count_usize_bounds(values@.subrange(0, k as int), x);
        }
        if values[k] == x {
            c = c + 1;
        }
        k = k + 1;
    }
    proof {
        assert(values@.subrange(0, values@.len() as int) =~= values@);
    }
    c
}

/// Returns, in increasing order and without repetition, the values that
/// occur exactly `n` times in the input.
pub fn find_count_n(inner: Vec<usize>, n: usize) -> (r: Vec<usize>)
    ensures
        sorted_usize(r@),
        r@.no_duplicates(),
        forall|x: usize|
            #[trigger] r@.contains(x) <==> (inner@.contains(x) && count_usize(inner@, x) == n),
{
    let mut picked: Vec<usize> = Vec::new();
    let mut i: usize = 0;
    while i < inner.len()
        invariant
            i <= inner@.len(),
            picked@.no_duplicates(),
            forall|x: usize|
                #[trigger] picked@.contains(x) ==> inner@.contains(x) && count_usize(inner@, x)
                    == n,
            forall|x: usize|
                #[trigger] picked@.contains(x) ==> exists|k: int| 0 <= k < i && inner@[k] == x,
            forall|k: int|
                0 <= k < i && count_usize(inner@, #[trigger] inner@[k]) == n ==> picked@.contains(
                    inner@[k],
                ),
        decreases inner@.len() - i,
    {
        let x = inner[i];
        let ghost pre_picked = picked@;
        let mut first = true;
        let mut j: usize = 0;
        while j < i
            invariant
                j <= i <= inner@.len(),
                first <==> forall|k: int| 0 <= k < j ==> inner@[k] != x,
            decreases i - j,
        {
            if inner[j] == x {
                first = false;
            }
            j = j + 1;
        }
        if first {
            let c = count_occurrences_usize(&inner, x);
            if c == n {
                proof {
                    if picked@.contains(x) {
                        let k = choose|k: int| 0 <= k < i && inner@[k] == x;
                        assert(inner@[k] != x);
                    }
                    assert(!picked@.contains(x));
                }
                picked.push(x);
                proof {
                    assert(picked@.no_duplicates()) by {
                        assert(forall|k: int|
                            0 <= k < pre_picked.len() ==> picked@[k] == pre_picked[k]);
                        assert(picked@.last() == x);
                        assert forall|k: int| 0 <= k < pre_picked.len() implies pre_picked[k]
                            != x by {
                            if pre_picked[k] == x {
                                assert(pre_picked.contains(x));
                            }
                        }
                    }
                }
            }
        }
        i = i + 1;
        proof {
            assert(picked@ == pre_picked || picked@ == pre_picked.push(x));
            assert forall|y: usize| pre_picked.contains(y) implies picked@.contains(y) by {
                let pk = choose|pk: int| 0 <= pk < pre_picked.len() && pre_picked[pk] == y;
                assert(picked@[pk] == y);
            }
            assert forall|y: usize| #[trigger] picked@.contains(y) implies inner@.contains(y)
                && count_usize(inner@, y) == n && exists|k: int|
                0 <= k < i && inner@[k] == y by {
                let pk = choose|pk: int| 0 <= pk < picked@.len() && picked@[pk] == y;
                if pk < pre_picked.len() {
                    assert(pre_picked.contains(y));
                    let k = choose|k: int| 0 <= k < i - 1 && inner@[k] == y;
                    assert(0 <= k < i && inner@[k] == y);
                } else {
                    assert(y == x);
                    assert(inner@[i - 1] == y);
                    assert(inner@.contains(y));
                }
            }
            assert forall|k: int|
                0 <= k < i && count_usize(inner@, #[trigger] inner@[k]) == n implies picked@
                .contains(inner@[k]) by {
                if k == i - 1 {
                    if first {
                        assert(picked@.last() == x);
                        assert(picked@.contains(x));
                    } else {
                        let e = choose|e: int| 0 <= e < i - 1 && inner@[e] == x;
                        assert(count_usize(inner@, inner@[e]) == n);
                        assert(pre_picked.contains(inner@[e]));
                    }
                } else {
                    assert(pre_picked.contains(inner@[k]));
                }
            }
        }
    }
    let sorted = sort_usize(&picked);
    proof {
        broadcast use vstd::seq_lib::group_to_multiset_ensures;

        picked@.lemma_multiset_has_no_duplicates();
        sorted@.lemma_multiset_has_no_duplicates_conv();
        assert forall|x: usize| #[trigger] sorted@.contains(x) implies picked@.contains(x) by {
            assert(sorted@.to_multiset().count(x) > 0);
        }
        assert forall|x: usize| #[trigger] picked@.contains(x) implies sorted@.contains(x) by {
            assert(picked@.to_multiset().count(x) > 0);
        }
        assert forall|x: usize|
            inner@.contains(x) && count_usize(inner@, x) == n implies #[trigger] sorted@.contains(
            x,
        ) by {
            let k = choose|k: int| 0 <= k < inner@.len() && inner@[k] == x;
            assert(picked@.contains(inner@[k]));
        }
    }
    sorted
}

/// How many entries of `b` pair with `x` to the sum `n`.
pub open spec fn row_count(x: i64, b: Seq<i64>, n: i64) -> int
    decreases b.len(),
{
    if b.len() == 0 {
        0
    } else {
        row_count(x, b.drop_last(), n) + if x + b.last() == n {
            1int
        } else {
            0int
        }
    }
}

/// How many pairs of one entry of `a` and one entry of `b` sum to `n`.
pub open spec fn pair_count(a: Seq<i64>, b: Seq<i64>, n: i64) -> int
    decreases a.len(),
{
    if a.len() == 0 {
        0
    } else {
        pair_count(a.drop_last(), b, n) + row_count(a.last(), b, n)
    }
}

/// A row contributes at most its length.
proof fn lemma_row_count_bounds(x: i64, b: Seq<i64>, n: i64)
    ensures
        0 <= row_count(x, b, n) <= b.len(),
    decreases b.len(),
{
    if b.len() > 0 {
        lemma_row_count_bounds(x, b.drop_last(), n);
    }
}

/// The pair count is at most the product of the lengths.
proof fn lemma_pair_count_bounds(a: Seq<i64>, b: Seq<i64>, n: i64)
    ensures
        0 <= pair_count(a, b, n) <= a.len() * b.len(),
    decreases a.len(),
{
    if a.len() > 0 {
        lemma_pair_count_bounds(a.drop_last(), b, n);
        lemma_row_count_bounds(a.last(), b, n);
        assert(a.drop_last().len() == a.len() - 1);
        assert((a.len() - 1) * b.len() + b.len() == a.len() * b.len()) by (nonlinear_arith);
    } else {
        assert(a.len() * b.len() == 0) by (nonlinear_arith)
            requires
                a.len() == 0,
        {
        }
    }
}

/// Counts, among all pairs taken from the first two rows of the input, how
/// many sum to `n`.
pub fn sum_is_n(inner: Vec<Vec<i64>>, n: i64) -> (r: usize)
    requires
        inner@.len() >= 2,
        inner@[0]@.len() * inner@[1]@.len() <= usize::MAX,
    ensures
        r == pair_count(inner@[0]@, inner@[1]@, n),
{
    let a = &inner[0];
    let b = &inner[1];
    let mut count: usize = 0;
    let mut ia: usize = 0;
    proof {
        assert(a@.subrange(0, 0) =~= Seq::<i64>::empty());
    }
    while ia < a.len()
        invariant
            ia <= a@.len(),
            a@ == inner@[0]@,
            b@ == inner@[1]@,
            a@.len() * b@.len() <= usize::MAX,
            count == pair_count(a@.subrange(0, ia as int), b@, n),
            count <= ia * b@.len(),
        decreases a@.len() - ia,
    {
        let x = a[ia];
        let mut ib: usize = 0;
        proof {
            assert(b@.subrange(0, 0) =~= Seq::<i64>::empty());
            assert(ia * b@.len() <= a@.len() * b@.len()) by (nonlinear_arith)
                requires
                    0 <= ia < a@.len(),
                    b@.len() >= 0,
            {
            }
        }
        while ib < b.len()
            invariant
                ib <= b@.len(),
                ia < a@.len(),
                a@ == inner@[0]@,
                b@ == inner@[1]@,
                x == a@[ia as int],
                a@.len() * b@.len() <= usize::MAX,
                count == pair_count(a@.subrange(0, ia as int), b@, n) + row_count(
                    x,
                    b@.subrange(0, ib as int),
                    n,
                ),
                count <= ia * b@.len() + ib,
            decreases b@.len() - ib,
        {
            proof {
                assert(b@.subrange(0, ib + 1).drop_last() =~= b@.subrange(0, ib as int));
                assert(ia * b@.len() + ib < a@.len() * b@.len()) by (nonlinear_arith)
                    requires
                        0 <= ia < a@.len(),
                        0 <= ib < b@.len(),
                {
                }
            }
            let sum = x as i128 + b[ib] as i128;
            if sum == n as i128 {
                count = count + 1;
            }
            ib = ib + 1;
        }
        proof {
            assert(b@.subrange(0, b@.len() as int) =~= b@);
            assert(a@.subrange(0, ia + 1).drop_last() =~= a@.subrange(0, ia as int));
            assert(a@.subrange(0, ia + 1).last() == x);
            assert(ia * b@.len() + b@.len() == (ia + 1) * b@.len()) by (nonlinear_arith);
        }
        ia = ia + 1;
    }
    proof {
        assert(a@.subrange(0, a@.len() as int) =~= a@);
    }
    count
}

/// The sum of the entries of a row.
pub open spec fn sum_i64(s: Seq<i64>) -> int
    decreases s.len(),
{
    if s.len() == 0 {
        0
    } else {
        sum_i64(s.drop_last()) + s.last()
    }
}

/// The sum of the absolute values of the entries of a row.
pub open spec fn abs_sum_i64(s: Seq<i64>) -> int
    decreases s.len(),
{
    if s.len() == 0 {
        0
    } else {
        abs_sum_i64(s.drop_last()) + if s.last() >= 0 {
            s.last() as int
        } else {
            -(s.last() as int)
        }
    }
}

/// The sum of all entries of a table of rows.
pub open spec fn sum_2d(s: Seq<Vec<i64>>) -> int
    decreases s.len(),
{
    if s.len() == 0 {
        0
    } else {
        sum_2d(s.drop_last()) + sum_i64(s.last()@)
    }
}

/// The sum of the absolute values of all entries of a table of rows.
pub open spec fn abs_sum_2d(s: Seq<Vec<i64>>) -> int
    decreases s.len(),
{
    if s.len() == 0 {
        0
    } else {
        abs_sum_2d(s.drop_last()) + abs_sum_i64(s.last()@)
    }
}

/// A row sum is bounded by the row's absolute sum, which is non-negative.
proof fn lemma_row_abs(s: Seq<i64>)
    ensures
        abs_sum_i64(s) >= 0,
        -abs_sum_i64(s) <= sum_i64(s) <= abs_sum_i64(s),
    decreases s.len(),
{
    if s.len() > 0 {
        lemma_row_abs(s.drop_last());
    }
}

/// A table sum is bounded by the table's absolute sum, which is
/// non-negative.
proof fn lemma_table_abs(s: Seq<Vec<i64>>)
    ensures
        abs_sum_2d(s) >= 0,
        -abs_sum_2d(s) <= sum_2d(s) <= abs_sum_2d(s),
    decreases s.len(),
{
    if s.len() > 0 {
        lemma_table_abs(s.drop_last());
        lemma_row_abs(s.last()@);
    }
}

/// Absolute row sums only grow along a prefix.
proof fn lemma_row_abs_prefix(s: Seq<i64>, k: int)
    requires
        0 <= k <= s.len(),
    ensures
        abs_sum_i64(s.subrange(0, k)) <= abs_sum_i64(s),
    decreases s.len() - k,
{
    if k < s.len() {
        lemma_row_abs_prefix(s, k + 1);
        assert(s.subrange(0, k + 1).drop_last() =~= s.subrange(0, k));
    } else {
        assert(s.subrange(0, k) =~= s);
    }
}

/// Absolute table sums only grow along a prefix of rows.
proof fn lemma_table_abs_prefix(s: Seq<Vec<i64>>, k: int)
    requires
        0 <= k <= s.len(),
    ensures
        abs_sum_2d(s.subrange(0, k)) <= abs_sum_2d(s),
    decreases s.len() - k,
{
    if k < s.len() {
        lemma_table_abs_prefix(s, k + 1);
        assert(s.subrange(0, k + 1).drop_last() =~= s.subrange(0, k));
        lemma_row_abs(s[k]@);
    } else {
        assert(s.subrange(0, k) =~= s);
    }
}

/// Returns the sum of all entries of a two-dimensional array.  Freedom
/// from overflow is assumed; it is stated as a bound on the sum of the
/// absolute values, which bounds every intermediate sum as well.
pub fn two_dimensional_sum(inner: Vec<Vec<i64>>) -> (r: i64)
    requires
        abs_sum_2d(inner@) <= i64::MAX,
    ensures
        r == sum_2d(inner@),
{
    let mut acc: i64 = 0;
    let mut i: usize = 0;
    proof {
        assert(inner@.subrange(0, 0) =~= Seq::<Vec<i64>>::empty());
    }
    while i < inner.len()
        invariant
            i <= inner@.len(),
            abs_sum_2d(inner@) <= i64::MAX,
            acc == sum_2d(inner@.subrange(0, i as int)),
            -abs_sum_2d(inner@.subrange(0, i as int)) <= acc <= abs_sum_2d(
                inner@.subrange(0, i as int),
            ),
        decreases inner@.len() - i,
    {
        let row = &inner[i];
        let mut j: usize = 0;
        proof {
            assert(row@.subrange(0, 0) =~= Seq::<i64>::empty());
        }
        while j < row.len()
            invariant
                j <= row@.len(),
                i < inner@.len(),
                row@ == inner@[i as int]@,
                abs_sum_2d(inner@) <= i64::MAX,
                acc == sum_2d(inner@.subrange(0, i as int)) + sum_i64(row@.subrange(0, j as int)),
                -(abs_sum_2d(inner@.subrange(0, i as int)) + abs_sum_i64(
                    row@.subrange(0, j as int),
                )) <= acc <= abs_sum_2d(inner@.subrange(0, i as int)) + abs_sum_i64(
                    row@.subrange(0, j as int),
                ),
            decreases row@.len() - j,
        {
            proof {
                assert(row@.subrange(0, j + 1).drop_last() =~= row@.subrange(0, j as int));
                lemma_table_abs_prefix(inner@, i + 1);
                assert(inner@.subrange(0, i + 1).drop_last() =~= inner@.subrange(0, i as int));
                assert(inner@.subrange(0, i + 1).last()@ == row@);
                lemma_row_abs_prefix(row@, j + 1);
                lemma_table_abs(inner@.subrange(0, i as int));
                lemma_row_abs(row@.subrange(0, j as int));
            }
            acc = acc + row[j];
            j = j + 1;
        }
        i = i + 1;
        proof {
            assert(row@.subrange(0, row@.len() as int) =~= row@);
            assert(inner@.subrange(0, i as int).drop_last() =~= inner@.subrange(0, i - 1));
            assert(inner@.subrange(0, i as int).last()@ == row@);
        }
    }
    proof {
        assert(inner@.subrange(0, inner@.len() as int) =~= inner@);
    }
    acc
}

/// Returns whether the sequence continues as a Fibonacci sequence from its
/// first two terms; sequences of at most two terms qualify by definition.
pub fn is_fibonacci(inner: Vec<i64>) -> (r: bool)
    ensures
        r <==> forall|i: int|
            2 <= i < inner@.len() ==> #[trigger] inner@[i] == inner@[i - 1] + inner@[i - 2],
{
    if inner.len() <= 2 {
        return true;
    }
    let mut i: usize = 2;
    while i < inner.len()
        invariant
            2 <= i <= inner@.len(),
            forall|j: int| 2 <= j < i ==> #[trigger] inner@[j] == inner@[j - 1] + inner@[j - 2],
        decreases inner@.len() - i,
    {
        let expected = inner[i - 1] as i128 + inner[i - 2] as i128;
        if inner[i] as i128 != expected {
            return false;
        }
        i = i + 1;
    }
    true
}

/// Interleaves three equally long vectors, one entry from each in turn.
pub fn interleave3<T: Copy>(list1: Vec<T>, list2: Vec<T>, list3: Vec<T>) -> (r: Vec<T>)
    requires
        list1@.len() == list2@.len(),
        list2@.len() == list3@.len(),
        3 * list1@.len() <= usize::MAX,
    ensures
        r@.len() == 3 * list1@.len(),
        forall|i: int|
            0 <= i < list1@.len() ==> r@[3 * i] == #[trigger] list1@[i] && r@[3 * i + 1]
                == list2@[i] && r@[3 * i + 2] == list3@[i],
{
    let mut ret: Vec<T> = Vec::new();
    let mut i: usize = 0;
    while i < list1.len()
        invariant
            i <= list1@.len(),
            list1@.len() == list2@.len(),
            list2@.len() == list3@.len(),
            3 * list1@.len() <= usize::MAX,
            ret@.len() == 3 * i,
            forall|j: int|
                0 <= j < i ==> ret@[3 * j] == #[trigger] list1@[j] && ret@[3 * j + 1] == list2@[j]
                    && ret@[3 * j + 2] == list3@[j],
        decreases list1@.len() - i,
    {
        let ghost pre = ret@;
        ret.push(list1[i]);
        ret.push(list2[i]);
        ret.push(list3[i]);
        i = i + 1;
        proof {
            assert forall|j: int|
                0 <= j < i implies ret@[3 * j] == #[trigger] list1@[j] && ret@[3 * j + 1]
                == list2@[j] && ret@[3 * j + 2] == list3@[j] by {
                if j < i - 1 {
                    assert(ret@[3 * j] == pre[3 * j]);
                    assert(ret@[3 * j + 1] == pre[3 * j + 1]);
                    assert(ret@[3 * j + 2] == pre[3 * j + 2]);
                } else {
                    assert(ret@[3 * j] == list1@[j]);
                    assert(ret@[3 * j + 1] == list2@[j]);
                    assert(ret@[3 * j + 2] == list3@[j]);
                }
            }
        }
    }
    ret
}

/// An interleaved index stays below the block of its round.
proof fn lemma_interleave_index(q: int, k: int, round: int, rows: int)
    requires
        0 <= q < round,
        0 <= k < rows,
    ensures
        0 <= q * rows + k < round * rows,
        q * rows + k < (round - 1) * rows + rows || q == round - 1,
    decreases 0int,
{
    assert(0 <= q * rows + k < round * rows) by (nonlinear_arith)
        requires
            0 <= q < round,
            0 <= k < rows,
    {
    }
    if q != round - 1 {
        assert(q * rows + k < (round - 1) * rows + rows) by (nonlinear_arith)
            requires
                0 <= q < round - 1,
                0 <= k < rows,
        {
        }
    }
}

/// Interleaves the rows of a table, one entry from each row in turn; all
/// rows must be equally long.
pub fn interleave_n<T: Copy>(iters: Vec<Vec<T>>) -> (r: Vec<T>)
    requires
        iters@.len() >= 1,
        forall|j: int| 0 <= j < iters@.len() ==> #[trigger] iters@[j]@.len() == iters@[0]@.len(),
        iters@.len() * iters@[0]@.len() <= usize::MAX,
    ensures
        r@.len() == iters@.len() * iters@[0]@.len(),
        forall|round: int, j: int|
            0 <= round < iters@[0]@.len() && 0 <= j < iters@.len() ==> r@[round * iters@.len() + j]
                == #[trigger] iters@[j]@[round],
{
    let rows = iters.len();
    let len = iters[0].len();
    let mut ret: Vec<T> = Vec::new();
    let mut round: usize = 0;
    while round < len
        invariant
            round <= len,
            rows == iters@.len(),
            len == iters@[0]@.len(),
            forall|j: int| 0 <= j < rows ==> #[trigger] iters@[j]@.len() == len,
            rows * len <= usize::MAX,
            ret@.len() == round * rows,
            forall|q: int, j: int|
                0 <= q < round && 0 <= j < rows ==> ret@[q * rows + j] == #[trigger] iters@[j]@[q],
        decreases len - round,
    {
        let mut j: usize = 0;
        proof {
            assert(round * rows + rows <= len * rows) by (nonlinear_arith)
                requires
                    0 <= round < len,
                    rows >= 0,
            {
            }
            assert(len * rows == rows * len) by (nonlinear_arith);
        }
        while j < rows
            invariant
                j <= rows,
                round < len,
                rows == iters@.len(),
                len == iters@[0]@.len(),
                forall|q: int| 0 <= q < rows ==> #[trigger] iters@[q]@.len() == len,
                rows * len <= usize::MAX,
                round * rows + rows <= rows * len,
                ret@.len() == round * rows + j,
                forall|q: int, k: int|
                    0 <= q < round && 0 <= k < rows ==> ret@[q * rows + k] == #[trigger] iters@[k]@[q],
                forall|k: int|
                    0 <= k < j ==> ret@[round * rows + k] == #[trigger] iters@[k]@[round as int],
            decreases rows - j,
        {
            let ghost pre_ret = ret@;
            ret.push(iters[j][round]);
            j = j + 1;
            proof {
                assert forall|q: int, k: int|
                    0 <= q < round && 0 <= k < rows implies ret@[q * rows + k] == #[trigger] iters@[k]@[q] by {
                    lemma_interleave_index(q, k, round as int, rows as int);
                    assert(q * rows + k < pre_ret.len());
                    assert(pre_ret[q * rows + k] == iters@[k]@[q]);
                }
            }
        }
        round = round + 1;
        proof {
            assert(round * rows == (round - 1) * rows + rows) by (nonlinear_arith);
            assert forall|q: int, k: int|
                0 <= q < round && 0 <= k < rows implies ret@[q * rows + k] == #[trigger] iters@[k]@[q] by {
                lemma_interleave_index(q, k, round as int, rows as int);
                if q == round - 1 {
                    assert(q * rows == (round - 1) * rows);
                    assert(ret@[(round - 1) * rows + k] == iters@[k]@[round - 1]);
                }
            }
        }
    }
    proof {
        assert(ret@.len() == len * rows) by (nonlinear_arith)
            requires
                ret@.len() == len * rows || ret@.len() == rows * len,
        {
        }
        assert(rows * len == len * rows) by (nonlinear_arith);
    }
    ret
}

} // verus!
