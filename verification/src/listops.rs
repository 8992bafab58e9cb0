//! Verified list and table exercises: inversion pairs, preorder tree
//! traversal, parity filtering, first-occurrence deduplication, and the
//! natural join of two tables.

use vstd::prelude::*;

verus! {

/// The inversion pairs `(v, m)` of `s` with `v < m < hi` for a fixed
/// first index `v`, in increasing order of `m`.
pub open spec fn inversions_row(s: Seq<i64>, v: int, hi: int) -> Seq<(usize, usize)>
    decreases hi - v,
{
    if hi <= v + 1 {
        Seq::empty()
    } else {
        let rest = inversions_row(s, v, hi - 1);
        if s[v] > s[hi - 1] {
            rest.push((v as usize, (hi - 1) as usize))
        } else {
            rest
        }
    }
}

/// All inversion pairs of `s` with first index below `vhi`, ordered by
/// first and then second index.
pub open spec fn inversions_upto(s: Seq<i64>, vhi: int) -> Seq<(usize, usize)>
    decreases vhi,
{
    if vhi <= 0 {
        Seq::empty()
    } else {
        inversions_upto(s, vhi - 1) + inversions_row(s, vhi - 1, s.len() as int)
    }
}

/// Returns the pairs `(i, j)` where `i < j` and `inner[i] > inner[j]`, in
/// increasing order.
pub fn inversion(inner: Vec<i64>) -> (r: Vec<(usize, usize)>)
    ensures
        r@ == inversions_upto(inner@, inner@.len() as int),
{
    let mut ret: Vec<(usize, usize)> = Vec::new();
    let len = inner.len();
    let mut v: usize = 0;
    while v < len
        invariant
            v <= len,
            len == inner@.len(),
            ret@ == inversions_upto(inner@, v as int),
        decreases len - v,
    {
        let mut m: usize = v + 1;
        while m < len
            invariant
                v < m <= len || (m == v + 1 && v < len),
                len == inner@.len(),
                ret@ == inversions_upto(inner@, v as int) + inversions_row(inner@, v as int, m as int),
            decreases len - m,
        {
            if inner[v] > inner[m] {
                ret.push((v, m));
            }
            m = m + 1;
            proof {
                assert(ret@ =~= inversions_upto(inner@, v as int) + inversions_row(
                    inner@,
                    v as int,
                    m as int,
                ));
            }
        }
        v = v + 1;
    }
    ret
}

/// A node of a tree: a name with children, or a leaf name.
#[derive(Debug)]
pub enum Node<T> {
    /// Non-leaf node: its name and its child nodes.
    NonLeaf((T, Vec<Node<T>>)),
    /// Leaf node: its name.
    Leaf(T),
}

/// The preorder listing of a tree: the root first, then each subtree in
/// order.
pub open spec fn preorder_of<T>(n: Node<T>) -> Seq<T>
    decreases n,
{
    match n {
        Node::Leaf(v) => seq![v],
        Node::NonLeaf((v, children)) => seq![v] + preorder_list(children@),
    }
}

/// The preorder listings of a row of trees, concatenated.
pub open spec fn preorder_list<T>(s: Seq<Node<T>>) -> Seq<T>
    decreases s,
{
    if s.len() == 0 {
        Seq::empty()
    } else {
        preorder_of(s[0]) + preorder_list(s.drop_first())
    }
}

/// Traverses the tree in preorder: the root is visited first, then each
/// subtree from left to right.
pub fn traverse_preorder<T>(root: Node<T>) -> (r: Vec<T>)
    ensures
        r@ == preorder_of(root),
    decreases root,
{
    match root {
        Node::Leaf(val) => {
            let mut ret: Vec<T> = Vec::new();
            ret.push(val);
            proof {
                assert(ret@ =~= preorder_of(root));
            }
            ret
        },
        Node::NonLeaf((val, children)) => {
            proof {
                assert(decreases_to!(root => children@));
            }
            let mut ret: Vec<T> = Vec::new();
            ret.push(val);
            let mut rest = traverse_list(children);
            ret.append(&mut rest);
            proof {
                assert(ret@ =~= preorder_of(root));
            }
            ret
        },
    }
}

/// Traverses a row of trees in preorder, one after the other.
fn traverse_list<T>(nodes: Vec<Node<T>>) -> (r: Vec<T>)
    ensures
        r@ == preorder_list(nodes@),
    decreases nodes@,
{
    let mut nodes = nodes;
    if nodes.len() == 0 {
        let ret: Vec<T> = Vec::new();
        proof {
            assert(ret@ =~= preorder_list(nodes@));
        }
        ret
    } else {
        let ghost pre = nodes@;
        let first = nodes.remove(0);
        proof {
            assert(first == pre[0]);
            vstd::seq::axiom_seq_index_decreases(pre, 0);
            assert(nodes@ =~= pre.subrange(1, pre.len() as int));
            vstd::seq::axiom_seq_subrange_decreases(pre, 1, pre.len() as int);
            assert(nodes@ =~= pre.drop_first());
        }
        let mut ret = traverse_preorder(first);
        let mut rest = traverse_list(nodes);
        ret.append(&mut rest);
        proof {
            assert(ret@ =~= preorder_list(pre));
        }
        ret
    }
}

/// The entries of `s` with the even ones removed, in order.
pub open spec fn without_evens(s: Seq<i64>) -> Seq<i64>
    decreases s.len(),
{
    if s.len() == 0 {
        Seq::empty()
    } else {
        let rest = without_evens(s.drop_last());
        if s.last() % 2 == 0 {
            rest
        } else {
            rest.push(s.last())
        }
    }
}

/// Removes all even numbers from the vector, in place.
pub fn remove_even(inner: &mut Vec<i64>)
    ensures
        final(inner)@ == without_evens(old(inner)@),
{
    let mut out: Vec<i64> = Vec::new();
    let mut i: usize = 0;
    proof {
        assert(inner@.subrange(0, 0) =~= Seq::<i64>::empty());
    }
    while i < inner.len()
        invariant
            i <= inner@.len(),
            inner@ == old(inner)@,
            out@ == without_evens(inner@.subrange(0, i as int)),
        decreases inner@.len() - i,
    {
        proof {
            assert(inner@.subrange(0, i + 1).drop_last() =~= inner@.subrange(0, i as int));
        }
        if inner[i] % 2 != 0 {
            out.push(inner[i]);
        }
        i = i + 1;
    }
    proof {
        assert(inner@.subrange(0, inner@.len() as int) =~= inner@);
    }
    *inner = out;
}

/// The entries of `s` with every repeated value removed, keeping the
/// first occurrence of each, in order.
pub open spec fn first_occurrences(s: Seq<i64>) -> Seq<i64>
    decreases s.len(),
{
    if s.len() == 0 {
        Seq::empty()
    } else {
        let rest = first_occurrences(s.drop_last());
        if s.drop_last().contains(s.last()) {
            rest
        } else {
            rest.push(s.last())
        }
    }
}

/// Removes the repeated occurrences of every value from the vector, in
/// place, keeping the first occurrence of each.
pub fn remove_duplicate(inner: &mut Vec<i64>)
    ensures
        final(inner)@ == first_occurrences(old(inner)@),
{
    let mut out: Vec<i64> = Vec::new();
    let mut i: usize = 0;
    proof {
        assert(inner@.subrange(0, 0) =~= Seq::<i64>::empty());
    }
    while i < inner.len()
        invariant
            i <= inner@.len(),
            inner@ == old(inner)@,
            out@ == first_occurrences(inner@.subrange(0, i as int)),
        decreases inner@.len() - i,
    {
        let x = inner[i];
        let mut seen = false;
        let mut j: usize = 0;
        while j < i
            invariant
                j <= i <= inner@.len(),
                x == inner@[i as int],
                seen <==> exists|k: int| 0 <= k < j && inner@[k] == x,
            decreases i - j,
        {
            if inner[j] == x {
                seen = true;
            }
            j = j + 1;
        }
        proof {
            let prefix = inner@.subrange(0, i as int);
            assert(inner@.subrange(0, i + 1).drop_last() =~= prefix);
            if seen {
                let k = choose|k: int| 0 <= k < i && inner@[k] == x;
                assert(prefix[k] == x);
                assert(prefix.contains(x));
            } else {
                if prefix.contains(x) {
                    let k = choose|k: int| 0 <= k < prefix.len() && prefix[k] == x;
                    assert(inner@[k] == x);
                }
                assert(!prefix.contains(x));
            }
        }
        if !seen {
            out.push(x);
        }
        i = i + 1;
    }
    proof {
        assert(inner@.subrange(0, inner@.len() as int) =~= inner@);
    }
    *inner = out;
}

/// The rows joining one row of the first table with the matching rows of
/// the second, in the second table's order: a match shares the first
/// column, and the joined row is the first row followed by the rest of
/// the second.
pub open spec fn join_row(r1: Seq<Seq<char>>, t2: Seq<Seq<Seq<char>>>) -> Seq<Seq<Seq<char>>>
    decreases t2.len(),
{
    if t2.len() == 0 {
        Seq::empty()
    } else {
        let rest = join_row(r1, t2.drop_last());
        if t2.last()[0] == r1[0] {
            rest.push(r1 + t2.last().drop_first())
        } else {
            rest
        }
    }
}

/// The natural join of two tables on their first columns, in row order.
pub open spec fn join_all(t1: Seq<Seq<Seq<char>>>, t2: Seq<Seq<Seq<char>>>) -> Seq<
    Seq<Seq<char>>,
>
    decreases t1.len(),
{
    if t1.len() == 0 {
        Seq::empty()
    } else {
        join_all(t1.drop_last(), t2) + join_row(t1.last(), t2)
    }
}

/// Returns the natural join of two tables using the first column as the
/// join argument; every row must have at least that column.
pub fn natural_join(table1: Vec<Vec<String>>, table2: Vec<Vec<String>>) -> (r: Vec<Vec<String>>)
    requires
        forall|i: int| 0 <= i < table1@.len() ==> (#[trigger] table1@[i])@.len() >= 1,
        forall|j: int| 0 <= j < table2@.len() ==> (#[trigger] table2@[j])@.len() >= 1,
    ensures
        r.deep_view() == join_all(table1.deep_view(), table2.deep_view()),
{
    let mut ret: Vec<Vec<String>> = Vec::new();
    let mut i: usize = 0;
    proof {
        assert(table1.deep_view().subrange(0, 0) =~= Seq::<Seq<Seq<char>>>::empty());
        assert(ret.deep_view() =~= join_all(table1.deep_view().subrange(0, 0), table2.deep_view()));
    }
    while i < table1.len()
        invariant
            i <= table1@.len(),
            forall|k: int| 0 <= k < table1@.len() ==> (#[trigger] table1@[k])@.len() >= 1,
            forall|k: int| 0 <= k < table2@.len() ==> (#[trigger] table2@[k])@.len() >= 1,
            ret.deep_view() == join_all(
                table1.deep_view().subrange(0, i as int),
                table2.deep_view(),
            ),
        decreases table1@.len() - i,
    {
        let r1 = &table1[i];
        let mut j: usize = 0;
        proof {
            assert(table2.deep_view().subrange(0, 0) =~= Seq::<Seq<Seq<char>>>::empty());
        }
        while j < table2.len()
            invariant
                i < table1@.len(),
                j <= table2@.len(),
                r1 == &table1@[i as int],
                forall|k: int| 0 <= k < table1@.len() ==> (#[trigger] table1@[k])@.len() >= 1,
                forall|k: int| 0 <= k < table2@.len() ==> (#[trigger] table2@[k])@.len() >= 1,
                ret.deep_view() == join_all(
                    table1.deep_view().subrange(0, i as int),
                    table2.deep_view(),
                ) + join_row(
                    table1.deep_view()[i as int],
                    table2.deep_view().subrange(0, j as int),
                ),
            decreases table2@.len() - j,
        {
            let r2 = &table2[j];
            let ghost pre_ret = ret.deep_view();
            if r1[0] == r2[0] {
                let mut row: Vec<String> = Vec::new();
                let mut k: usize = 0;
                while k < r1.len()
                    invariant
                        k <= r1@.len(),
                        r1 == &table1@[i as int],
                        i < table1@.len(),
                        row.deep_view() == table1.deep_view()[i as int].subrange(0, k as int),
                    decreases r1@.len() - k,
                {
                    let ghost pre_row = row.deep_view();
                    let elem = r1[k].clone();
                    proof {
                        assert(elem@ == table1@[i as int]@[k as int]@);
                        assert(table1.deep_view()[i as int][k as int] == table1@[i as int]@[k as int]@);
                    }
                    row.push(elem);
                    k = k + 1;
                    proof {
                        assert(row.deep_view() =~= pre_row.push(table1@[i as int]@[k - 1]@));
                        assert(row.deep_view() =~= table1.deep_view()[i as int].subrange(
                            0,
                            k as int,
                        ));
                    }
                }
                let mut k2: usize = 1;
                while k2 < r2.len()
                    invariant
                        1 <= k2 <= r2@.len() || (k2 == 1 && r2@.len() >= 1),
                        r1 == &table1@[i as int],
                        r2 == &table2@[j as int],
                        i < table1@.len(),
                        j < table2@.len(),
                        row.deep_view() == table1.deep_view()[i as int] + table2.deep_view()[j as int].subrange(1, k2 as int),
                    decreases r2@.len() - k2,
                {
                    let ghost pre_row = row.deep_view();
                    let elem = r2[k2].clone();
                    proof {
                        assert(elem@ == table2@[j as int]@[k2 as int]@);
                        assert(table2.deep_view()[j as int][k2 as int] == table2@[j as int]@[k2 as int]@);
                    }
                    row.push(elem);
                    k2 = k2 + 1;
                    proof {
                        assert(row.deep_view() =~= pre_row.push(table2@[j as int]@[k2 - 1]@));
                        assert(row.deep_view() =~= table1.deep_view()[i as int]
                            + table2.deep_view()[j as int].subrange(1, k2 as int));
                    }
                }
                proof {
                    assert(table1.deep_view()[i as int].subrange(
                        0,
                        table1.deep_view()[i as int].len() as int,
                    ) =~= table1.deep_view()[i as int]);
                    assert(table2.deep_view()[j as int].subrange(
                        1,
                        table2.deep_view()[j as int].len() as int,
                    ) =~= table2.deep_view()[j as int].drop_first());
                }
                ret.push(row);
                proof {
                    assert(ret.deep_view() =~= pre_ret.push(
                        table1.deep_view()[i as int] + table2.deep_view()[j as int].drop_first(),
                    ));
                }
            }
            j = j + 1;
            proof {
                assert(table2.deep_view().subrange(0, j as int).drop_last() =~= table2.deep_view()
                    .subrange(0, j - 1));
                assert(table2.deep_view().subrange(0, j as int).last() == table2.deep_view()[j
                    - 1]);
                assert(ret.deep_view() =~= join_all(
                    table1.deep_view().subrange(0, i as int),
                    table2.deep_view(),
                ) + join_row(
                    table1.deep_view()[i as int],
                    table2.deep_view().subrange(0, j as int),
                ));
            }
        }
        i = i + 1;
        proof {
            assert(table2.deep_view().subrange(0, table2.deep_view().len() as int)
                =~= table2.deep_view());
            assert(table1.deep_view().subrange(0, i as int).drop_last() =~= table1.deep_view()
                .subrange(0, i - 1));
            assert(table1.deep_view().subrange(0, i as int).last() == table1.deep_view()[i - 1]);
            assert(ret.deep_view() =~= join_all(
                table1.deep_view().subrange(0, i as int),
                table2.deep_view(),
            ));
        }
    }
    proof {
        assert(table1.deep_view().subrange(0, table1.deep_view().len() as int)
            =~= table1.deep_view());
    }
    ret
}

} // verus!
