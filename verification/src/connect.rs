//! Connectivity: which points can be reached from which over points with
//! given signs.

use crate::grid::{Grid, Sign};
use vstd::prelude::*;

verus! {

impl Grid {
    /// Step `i` of the walk `p` goes to an adjacent point whose sign is allowed.
    pub open spec fn hop(self, allowed: Set<Sign>, p: Seq<int>, i: int) -> bool {
        &&& self.adjacent(p[i - 1], p[i])
        &&& allowed.contains(self.cells[p[i]])
    }

    /// `p` is a walk: it has a first point, and every later point is adjacent
    /// to the one before it and holds an allowed sign.
    pub open spec fn walk(self, allowed: Set<Sign>, p: Seq<int>) -> bool {
        &&& p.len() > 0
        &&& forall|i: int| 0 < i < p.len() ==> #[trigger] self.hop(allowed, p, i)
    }

    /// A walk leads from `start` to `v`. The sign of `start` itself does not matter.
    pub open spec fn connected(self, start: int, allowed: Set<Sign>, v: int) -> bool {
        exists|p: Seq<int>| #[trigger] self.walk(allowed, p) && p[0] == start && p.last() == v
    }

    /// All that is connected to `start` through points with an allowed sign.
    pub open spec fn component(self, start: int, allowed: Set<Sign>) -> Set<int> {
        Set::new(|v: int| self.connected(start, allowed, v))
    }
}

/// Every point is connected to itself.
pub proof fn lemma_connected_start(g: Grid, start: int, allowed: Set<Sign>)
    ensures
        g.connected(start, allowed, start),
{
    let p = seq![start];
    assert(g.walk(allowed, p));
}

/// A walk can be taken one step further.
pub proof fn lemma_connected_step(g: Grid, start: int, allowed: Set<Sign>, v: int, b: int)
    requires
        g.connected(start, allowed, v),
        g.adjacent(v, b),
        allowed.contains(g.cells[b]),
    ensures
        g.connected(start, allowed, b),
{
    let p = choose|p: Seq<int>| #[trigger] g.walk(allowed, p) && p[0] == start && p.last() == v;
    let q = p.push(b);
    assert forall|i: int| 0 < i < q.len() implies #[trigger] g.hop(allowed, q, i) by {
        if i < p.len() {
            assert(g.hop(allowed, p, i));
        }
    }
    assert(g.walk(allowed, q));
}

/// A walk can be entered one step earlier, from a point beside its start,
/// if the start holds an allowed sign.
pub proof fn lemma_connected_prepend(g: Grid, b: int, start: int, allowed: Set<Sign>, v: int)
    requires
        g.connected(start, allowed, v),
        g.adjacent(b, start),
        allowed.contains(g.cells[start]),
    ensures
        g.connected(b, allowed, v),
{
    let p = choose|p: Seq<int>| #[trigger] g.walk(allowed, p) && p[0] == start && p.last() == v;
    let q = seq![b] + p;
    assert forall|i: int| 0 < i < q.len() implies #[trigger] g.hop(allowed, q, i) by {
        if i > 1 {
            assert(g.hop(allowed, p, i - 1));
        }
    }
    assert(g.walk(allowed, q));
}

/// A walk never leaves the board once it has left its start.
pub proof fn lemma_connected_on_board(g: Grid, start: int, allowed: Set<Sign>, v: int)
    requires
        g.connected(start, allowed, v),
    ensures
        v == start || (g.on_board(v) && allowed.contains(g.cells[v])),
{
    let p = choose|p: Seq<int>| #[trigger] g.walk(allowed, p) && p[0] == start && p.last() == v;
    if p.len() > 1 {
        assert(g.hop(allowed, p, p.len() - 1));
    }
}

/// A walk that starts in a set that cannot be left by a step to an allowed
/// point ends in that set.
proof fn lemma_walk_stays_within(g: Grid, allowed: Set<Sign>, s: Set<int>, p: Seq<int>)
    requires
        g.walk(allowed, p),
        s.contains(p[0]),
        forall|a: int, b: int|
            s.contains(a) && #[trigger] g.adjacent(a, b) && allowed.contains(g.cells[b])
                ==> s.contains(b),
    ensures
        s.contains(p.last()),
    decreases p.len(),
{
    if p.len() > 1 {
        let q = p.drop_last();
        assert forall|i: int| 0 < i < q.len() implies #[trigger] g.hop(allowed, q, i) by {
            assert(g.hop(allowed, p, i));
        }
        lemma_walk_stays_within(g, allowed, s, q);
        assert(g.hop(allowed, p, p.len() - 1));
    }
}

/// A set that holds `start` and cannot be left by a step to an allowed point
/// holds all that is connected to `start`.
pub proof fn lemma_component_within(g: Grid, start: int, allowed: Set<Sign>, s: Set<int>)
    requires
        s.contains(start),
        forall|a: int, b: int|
            s.contains(a) && #[trigger] g.adjacent(a, b) && allowed.contains(g.cells[b])
                ==> s.contains(b),
    ensures
        g.component(start, allowed).subset_of(s),
{
    assert forall|v: int| g.component(start, allowed).contains(v) implies s.contains(v) by {
        let p = choose|p: Seq<int>| #[trigger]
            g.walk(allowed, p) && p[0] == start && p.last() == v;
        lemma_walk_stays_within(g, allowed, s, p);
    }
}

} // verus!
