//! Verified insertion sorts over machine integers, together with the
//! uniqueness of sorted permutations.

use vstd::prelude::*;
use vstd::seq_lib::{group_to_multiset_ensures, to_multiset_insert};

verus! {

broadcast use group_to_multiset_ensures;

/// Non-decreasing order over signed words.
pub open spec fn sorted_isize(s: Seq<isize>) -> bool {
    forall|i: int, j: int| 0 <= i <= j < s.len() ==> s[i] <= s[j]
}

/// Non-decreasing order over unsigned words.
pub open spec fn sorted_usize(s: Seq<usize>) -> bool {
    forall|i: int, j: int| 0 <= i <= j < s.len() ==> s[i] <= s[j]
}

/// Sorts the entries into non-decreasing order; the result holds exactly
/// the entries of the input, multiplicity included.
pub fn sort_isize(v: &Vec<isize>) -> (r: Vec<isize>)
    ensures
        sorted_isize(r@),
        r@.to_multiset() == v@.to_multiset(),
        r@.len() == v@.len(),
{
    let mut out: Vec<isize> = Vec::new();
    let mut idx: usize = 0;
    proof {
        assert(v@.subrange(0, 0) =~= out@);
    }
    while idx < v.len()
        invariant
            idx <= v@.len(),
            out@.len() == idx,
            sorted_isize(out@),
            out@.to_multiset() == v@.subrange(0, idx as int).to_multiset(),
        decreases v@.len() - idx,
    {
        let x = v[idx];
        let mut p: usize = 0;
        while p < out.len() && out[p] <= x
            invariant
                p <= out@.len(),
                forall|j: int| 0 <= j < p ==> out@[j] <= x,
            decreases out@.len() - p,
        {
            p = p + 1;
        }
        let ghost old_out = out@;
        out.insert(p, x);
        idx = idx + 1;
        proof {
            old_out.insert_ensures(p as int, x);
            to_multiset_insert(old_out, p as int, x);
            assert(v@.subrange(0, idx as int) =~= v@.subrange(0, idx - 1).push(x));
            assert(sorted_isize(out@)) by {
                assert forall|i: int, j: int| 0 <= i <= j < out@.len() implies out@[i]
                    <= out@[j] by {
                    if i < p && j < p {
                    } else if i == p && j == p {
                    } else if j == p {
                        assert(out@[i] == old_out[i]);
                    } else if i == p {
                        assert(out@[j] == old_out[j - 1]);
                        assert(old_out[p as int] > x || p == old_out.len());
                    } else if i < p {
                        assert(out@[j] == old_out[j - 1]);
                    } else {
                        assert(out@[i] == old_out[i - 1] && out@[j] == old_out[j - 1]);
                    }
                }
            }
        }
    }
    proof {
        assert(v@.subrange(0, v@.len() as int) =~= v@);
    }
    out
}

/// Sorts the entries into non-decreasing order; the result holds exactly
/// the entries of the input, multiplicity included.
pub fn sort_usize(v: &Vec<usize>) -> (r: Vec<usize>)
    ensures
        sorted_usize(r@),
        r@.to_multiset() == v@.to_multiset(),
        r@.len() == v@.len(),
{
    let mut out: Vec<usize> = Vec::new();
    let mut idx: usize = 0;
    proof {
        assert(v@.subrange(0, 0) =~= out@);
    }
    while idx < v.len()
        invariant
            idx <= v@.len(),
            out@.len() == idx,
            sorted_usize(out@),
            out@.to_multiset() == v@.subrange(0, idx as int).to_multiset(),
        decreases v@.len() - idx,
    {
        let x = v[idx];
        let mut p: usize = 0;
        while p < out.len() && out[p] <= x
            invariant
                p <= out@.len(),
                forall|j: int| 0 <= j < p ==> out@[j] <= x,
            decreases out@.len() - p,
        {
            p = p + 1;
        }
        let ghost old_out = out@;
        out.insert(p, x);
        idx = idx + 1;
        proof {
            old_out.insert_ensures(p as int, x);
            to_multiset_insert(old_out, p as int, x);
            assert(v@.subrange(0, idx as int) =~= v@.subrange(0, idx - 1).push(x));
            assert(sorted_usize(out@)) by {
                assert forall|i: int, j: int| 0 <= i <= j < out@.len() implies out@[i]
                    <= out@[j] by {
                    if i < p && j < p {
                    } else if i == p && j == p {
                    } else if j == p {
                        assert(out@[i] == old_out[i]);
                    } else if i == p {
                        assert(out@[j] == old_out[j - 1]);
                        assert(old_out[p as int] > x || p == old_out.len());
                    } else if i < p {
                        assert(out@[j] == old_out[j - 1]);
                    } else {
                        assert(out@[i] == old_out[i - 1] && out@[j] == old_out[j - 1]);
                    }
                }
            }
        }
    }
    proof {
        assert(v@.subrange(0, v@.len() as int) =~= v@);
    }
    out
}

/// Two sorted sequences over the same multiset are the same sequence: a
/// multiset has exactly one sorted arrangement.
pub proof fn lemma_sorted_unique_isize(s1: Seq<isize>, s2: Seq<isize>)
    requires
        sorted_isize(s1),
        sorted_isize(s2),
        s1.to_multiset() == s2.to_multiset(),
    ensures
        s1 == s2,
    decreases s1.len(),
{
    assert(s1.len() == s1.to_multiset().len());
    assert(s2.len() == s2.to_multiset().len());
    if s1.len() == 0 {
        assert(s1 =~= s2);
    } else {
        assert(s1.contains(s1[0])) by {
            assert(s1[0] == s1[0]);
        }
        assert(s1.to_multiset().count(s1[0]) > 0);
        assert(s2.contains(s1[0]));
        let j2 = choose|j: int| 0 <= j < s2.len() && s2[j] == s1[0];
        assert(s2[0] <= s1[0]);
        assert(s2.contains(s2[0])) by {
            assert(s2[0] == s2[0]);
        }
        assert(s2.to_multiset().count(s2[0]) > 0);
        assert(s1.contains(s2[0]));
        let j1 = choose|j: int| 0 <= j < s1.len() && s1[j] == s2[0];
        assert(s1[0] <= s2[0]);
        assert(s1[0] == s2[0]);
        assert(s1.drop_first() =~= s1.remove(0));
        assert(s2.drop_first() =~= s2.remove(0));
        assert(s1.drop_first().to_multiset() == s1.to_multiset().remove(s1[0]));
        assert(s2.drop_first().to_multiset() == s2.to_multiset().remove(s2[0]));
        assert(sorted_isize(s1.drop_first()));
        assert(sorted_isize(s2.drop_first()));
        lemma_sorted_unique_isize(s1.drop_first(), s2.drop_first());
        assert(s1 =~= seq![s1[0]] + s1.drop_first());
        assert(s2 =~= seq![s2[0]] + s2.drop_first());
    }
}

} // verus!
