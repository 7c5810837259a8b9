//! Sets of points kept as one flag per point.

use crate::grid::Vertex;
use crate::listing::lists;
use vstd::prelude::*;

verus! {

/// The points that `m` marks.
pub(crate) open spec fn marked(m: Seq<bool>) -> Set<int> {
    Set::new(|v: int| 0 <= v < m.len() && m[v])
}

/// How many points `m` leaves unmarked.
pub(crate) open spec fn unmarked(m: Seq<bool>) -> nat
    decreases m.len(),
{
    if m.len() == 0 {
        0
    } else if m.last() {
        unmarked(m.drop_last())
    } else {
        unmarked(m.drop_last()) + 1
    }
}

/// Marking a point that was not marked leaves one unmarked point fewer.
pub(crate) proof fn lemma_unmarked_mark(m: Seq<bool>, i: int)
    requires
        0 <= i < m.len(),
        !m[i],
    ensures
        unmarked(m.update(i, true)) + 1 == unmarked(m),
    decreases m.len(),
{
    let m2 = m.update(i, true);
    if i == m.len() - 1 {
        assert(m2.drop_last() =~= m.drop_last());
    } else {
        lemma_unmarked_mark(m.drop_last(), i);
        assert(m2.drop_last() =~= m.drop_last().update(i, true));
    }
}

/// How many points `m` marks.
pub(crate) open spec fn tally(m: Seq<bool>) -> nat
    decreases m.len(),
{
    if m.len() == 0 {
        0
    } else if m.last() {
        tally(m.drop_last()) + 1
    } else {
        tally(m.drop_last())
    }
}

/// The marked points are finitely many, as many as the marks count.
pub(crate) proof fn lemma_marked_len(m: Seq<bool>)
    ensures
        marked(m).finite(),
        marked(m).len() == tally(m),
        tally(m) <= m.len(),
    decreases m.len(),
{
    if m.len() == 0 {
        assert(marked(m) =~= Set::<int>::empty());
    } else {
        let rest = m.drop_last();
        lemma_marked_len(rest);
        if m.last() {
            assert(marked(m) =~= marked(rest).insert(m.len() - 1));
        } else {
            assert(marked(m) =~= marked(rest));
        }
    }
}

/// How many points `m` marks.
pub(crate) fn count_marked(m: &Vec<bool>) -> (r: usize)
    ensures
        r == marked(m@).len(),
{
    let mut r: usize = 0;
    let mut i: usize = 0;
    while i < m.len()
        invariant
            0 <= i <= m@.len(),
            r == tally(m@.take(i as int)),
            r <= i,
        decreases m@.len() - i,
    {
        proof {
            assert(m@.take(i + 1).drop_last() =~= m@.take(i as int));
        }
        if m[i] {
            r += 1;
        }
        i += 1;
    }
    proof {
        assert(m@.take(m@.len() as int) =~= m@);
        lemma_marked_len(m@);
    }
    r
}

/// Marks in `into` every point that `from` marks.
pub(crate) fn merge_marks(into: &mut Vec<bool>, from: &Vec<bool>)
    requires
        old(into)@.len() == from@.len(),
    ensures
        final(into)@.len() == from@.len(),
        forall|u: int|
            0 <= u < from@.len() ==> #[trigger] final(into)@[u] == (old(into)@[u] || from@[u]),
{
    let mut i: usize = 0;
    while i < from.len()
        invariant
            0 <= i <= from@.len(),
            into@.len() == from@.len(),
            forall|u: int| 0 <= u < i ==> #[trigger] into@[u] == (old(into)@[u] || from@[u]),
            forall|u: int| i <= u < from@.len() ==> #[trigger] into@[u] == old(into)@[u],
        decreases from@.len() - i,
    {
        if from[i] {
            into.set(i, true);
        }
        i += 1;
    }
}

/// Flags for `n` points, none of them marked.
pub(crate) fn blank(n: usize) -> (m: Vec<bool>)
    ensures
        m@.len() == n,
        forall|i: int| 0 <= i < n ==> !m@[i],
{
    let mut m: Vec<bool> = Vec::new();
    while m.len() < n
        invariant
            m@.len() <= n,
            forall|i: int| 0 <= i < m@.len() ==> !m@[i],
        decreases n - m@.len(),
    {
        m.push(false);
    }
    m
}

/// The marked points, in ascending order.
pub(crate) fn marked_vertices(m: &Vec<bool>) -> (r: Vec<Vertex>)
    ensures
        lists(r@, marked(m@)),
{
    let mut r: Vec<Vertex> = Vec::new();
    let mut i: usize = 0;
    while i < m.len()
        invariant
            0 <= i <= m@.len(),
            forall|j: int, k: int| 0 <= j < k < r@.len() ==> r@[j] < r@[k],
            forall|j: int| 0 <= j < r@.len() ==> #[trigger] r@[j] < i && m@[r@[j] as int],
            forall|v: int|
                0 <= v < i && m@[v] ==> exists|j: int| 0 <= j < r@.len() && #[trigger] r@[j] == v,
        decreases m@.len() - i,
    {
        if m[i] {
            let ghost before = r@;
            r.push(i);
            assert forall|v: int| 0 <= v < i + 1 && m@[v] implies exists|j: int|
                0 <= j < r@.len() && #[trigger] r@[j] == v by {
                if v < i {
                    let j = choose|j: int| 0 <= j < before.len() && #[trigger] before[j] == v;
                    assert(r@[j] == v);
                } else {
                    assert(r@[before.len() as int] == v);
                }
            }
        }
        i += 1;
    }
    r
}

} // verus!
