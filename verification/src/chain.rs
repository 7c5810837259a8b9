//! Chains of stones and their liberties.

use crate::connect::{
    lemma_component_within, lemma_connected_on_board, lemma_connected_prepend,
    lemma_connected_start, lemma_connected_step,
};
use crate::grid::Grid;
use vstd::prelude::*;

verus! {

impl Grid {
    /// The stones of one color that hang together with the one at `v`;
    /// empty where `v` is off the board.
    pub open spec fn chain(self, v: int) -> Set<int> {
        if self.on_board(v) {
            self.component(v, set![self.cells[v]])
        } else {
            Set::empty()
        }
    }

    /// The points that hold the sign of `v` and are connected to `v` through
    /// points of that sign and empty points; empty where `v` is off the board.
    pub open spec fn related(self, v: int) -> Set<int> {
        if self.on_board(v) {
            let s = self.cells[v];
            Set::new(|u: int| self.connected(v, set![s, 0i8], u) && self.cells[u] == s)
        } else {
            Set::empty()
        }
    }

    /// `v` has an empty point beside it.
    pub open spec fn touches_empty(self, v: int) -> bool {
        exists|e: int| #[trigger] self.adjacent(v, e) && self.cells[e] == 0
    }

    /// The chain of `v` has a liberty: one of its points has an empty point beside it.
    pub open spec fn has_liberty(self, v: int) -> bool {
        exists|u: int| #[trigger] self.chain(v).contains(u) && self.touches_empty(u)
    }

    /// No point beside `v` holds what `v` holds.
    pub open spec fn is_point_chain(self, v: int) -> bool {
        forall|n: int| #[trigger] self.adjacent(v, n) ==> self.sign_at(n) != self.sign_at(v)
    }
}

/// Every stone of a chain holds the sign of the chain and lies on the board.
pub proof fn lemma_chain_sign(g: Grid, v: int, u: int)
    requires
        g.chain(v).contains(u),
    ensures
        g.on_board(v),
        g.on_board(u),
        g.cells[u] == g.cells[v],
{
    lemma_connected_on_board(g, v, set![g.cells[v]], u);
}

/// A stone belongs to its own chain.
pub proof fn lemma_chain_start(g: Grid, v: int)
    requires
        g.on_board(v),
    ensures
        g.chain(v).contains(v),
{
    lemma_connected_start(g, v, set![g.cells[v]]);
}

/// A stone of the board is a point chain exactly when its chain is that
/// stone alone.
pub proof fn lemma_point_chain_alone(g: Grid, v: int)
    requires
        g.wf(),
        g.on_board(v),
    ensures
        g.is_point_chain(v) <==> g.chain(v) == set![v],
{
    let allowed = set![g.cells[v]];
    lemma_chain_start(g, v);
    if g.is_point_chain(v) {
        let alone = set![v];
        lemma_component_within(g, v, allowed, alone);
        assert(g.chain(v) =~= alone);
    }
    if g.chain(v) == set![v] {
        assert forall|n: int| #[trigger] g.adjacent(v, n) implies g.sign_at(n) != g.sign_at(v) by {
            if g.cells[n] == g.cells[v] {
                lemma_connected_step(g, v, allowed, v, n);
                assert(g.chain(v).contains(n));
            }
        }
    }
}

/// If `u` is in the chain of `v`, then `v` is in the chain of `u`.
pub proof fn lemma_chain_symmetric(g: Grid, v: int, u: int)
    requires
        g.chain(v).contains(u),
    ensures
        g.chain(u).contains(v),
{
    let s = g.cells[v];
    let allowed = set![s];
    lemma_chain_sign(g, v, u);
    let back = Set::new(|w: int| g.on_board(w) && g.cells[w] == s && g.connected(w, allowed, v));
    lemma_connected_start(g, v, allowed);
    assert forall|a: int, b: int|
        back.contains(a) && #[trigger] g.adjacent(a, b) && allowed.contains(
            g.cells[b],
        ) implies back.contains(b) by {
        lemma_connected_prepend(g, b, a, allowed, v);
    }
    lemma_component_within(g, v, allowed, back);
}

/// The stones of a chain all have that same chain.
pub proof fn lemma_chain_shared(g: Grid, v: int, u: int)
    requires
        g.chain(v).contains(u),
    ensures
        g.chain(u) == g.chain(v),
{
    lemma_chain_sign(g, v, u);
    lemma_chain_symmetric(g, v, u);
    let allowed = set![g.cells[v]];
    assert forall|a: int, b: int|
        g.chain(v).contains(a) && #[trigger] g.adjacent(a, b) && allowed.contains(
            g.cells[b],
        ) implies g.chain(v).contains(b) by {
        lemma_connected_step(g, v, allowed, a, b);
    }
    lemma_component_within(g, u, allowed, g.chain(v));
    assert forall|a: int, b: int|
        g.chain(u).contains(a) && #[trigger] g.adjacent(a, b) && allowed.contains(
            g.cells[b],
        ) implies g.chain(u).contains(b) by {
        lemma_connected_step(g, u, allowed, a, b);
    }
    lemma_component_within(g, v, allowed, g.chain(u));
}

/// A chain and its liberties depend only on the chain's own points and the
/// points beside them: a board that agrees there has the same chain, with
/// a liberty or without one alike.
pub proof fn lemma_chain_frame(g: Grid, h: Grid, v: int)
    requires
        g.on_board(v),
        h.width == g.width,
        h.cells.len() == g.cells.len(),
        forall|u: int| #[trigger] g.chain(v).contains(u) ==> h.cells[u] == g.cells[u],
        forall|u: int, e: int|
            g.chain(v).contains(u) && #[trigger] g.adjacent(u, e) ==> h.cells[e] == g.cells[e],
    ensures
        h.chain(v) == g.chain(v),
        h.has_liberty(v) == g.has_liberty(v),
{
    let s = g.cells[v];
    let allowed = set![s];
    lemma_chain_start(g, v);
    lemma_chain_start(h, v);
    assert forall|a: int, b: int|
        g.chain(v).contains(a) && #[trigger] h.adjacent(a, b) && allowed.contains(
            h.cells[b],
        ) implies g.chain(v).contains(b) by {
        lemma_connected_step(g, v, allowed, a, b);
    }
    lemma_component_within(h, v, allowed, g.chain(v));
    let both = g.chain(v).intersect(h.chain(v));
    assert forall|a: int, b: int|
        both.contains(a) && #[trigger] g.adjacent(a, b) && allowed.contains(
            g.cells[b],
        ) implies both.contains(b) by {
        lemma_connected_step(g, v, allowed, a, b);
        lemma_connected_step(h, v, allowed, a, b);
    }
    lemma_component_within(g, v, allowed, both);
    if g.has_liberty(v) {
        let u = choose|u: int| #[trigger] g.chain(v).contains(u) && g.touches_empty(u);
        let e = choose|e: int| #[trigger] g.adjacent(u, e) && g.cells[e] == 0;
        assert(h.adjacent(u, e) && h.cells[e] == 0);
        assert(h.chain(v).contains(u) && h.touches_empty(u));
    }
    if h.has_liberty(v) {
        let u = choose|u: int| #[trigger] h.chain(v).contains(u) && h.touches_empty(u);
        let e = choose|e: int| #[trigger] h.adjacent(u, e) && h.cells[e] == 0;
        assert(g.adjacent(u, e) && g.cells[e] == 0);
        assert(g.chain(v).contains(u) && g.touches_empty(u));
    }
}

} // verus!
