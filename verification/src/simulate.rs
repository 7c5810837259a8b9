//! Placing a stone: when the move stands and when it is refused.

use crate::board::PseudoBoard;
use crate::capture::opponent;
use crate::chain::{lemma_chain_sign, lemma_chain_start};
use crate::connect::lemma_component_within;
use crate::grid::{Grid, Sign, Vertex};
use crate::listing::{lists, same_vertices, vertex_set};
use crate::marks::{marked, marked_vertices};
use vstd::prelude::*;

verus! {

impl Grid {
    /// Every point beside `v` holds `sign`: a stone of that color at `v` could
    /// neither capture nor find a liberty of its own.
    pub open spec fn shut_in(self, sign: Sign, v: int) -> bool {
        forall|n: int| #[trigger] self.adjacent(v, n) ==> self.cells[n] == sign
    }

    /// The stone of `sign` just placed at `v` may not stay. Its chain has no
    /// liberty, and either it stands alone and captures fewer than two
    /// chains, or it does not stand alone and captures nothing.
    pub open spec fn suicide(self, sign: Sign, v: int) -> bool {
        &&& !self.has_liberty(v)
        &&& if self.is_point_chain(v) {
            !self.captures_two_chains(sign, v)
        } else {
            self.captures_nothing(sign, v)
        }
    }

    /// A stone of `sign` at `v` would stand alone and without a liberty: no
    /// point beside `v` is empty or holds `sign`.
    pub open spec fn walled_in(self, sign: Sign, v: int) -> bool {
        forall|n: int|
            #[trigger] self.adjacent(v, n) ==> self.cells[n] != 0 && self.cells[n] != sign
    }

    /// A stone of `sign` at `v` is refused on this board.
    pub open spec fn move_refused(self, sign: Sign, v: int) -> bool {
        self.shut_in(sign, v) || self.put(v, sign).suicide(sign, v)
    }

    /// The board that a move of `sign` at `v` leaves. A refused move leaves
    /// it as it was; an accepted one leaves the new stone and empties what
    /// it captured.
    pub open spec fn after_move(self, sign: Sign, v: int) -> Grid {
        if self.move_refused(sign, v) {
            self
        } else {
            self.put(v, sign).without(self.put(v, sign).captured(sign, v))
        }
    }
}

impl PseudoBoard {
    /// Whether all of `neighbors`, the points beside `vertex`, hold `sign`.
    fn shut_in(&self, sign: Sign, vertex: Vertex, neighbors: &Vec<Vertex>) -> (r: bool)
        requires
            self.wf(),
            same_vertices(neighbors@, self@.neighbors(vertex as int)),
        ensures
            r == self@.shut_in(sign, vertex as int),
    {
        let ghost ns = self@.neighbors(vertex as int);
        proof {
            self@.lemma_neighbors_adjacent(vertex as int);
        }
        let mut i: usize = 0;
        while i < neighbors.len()
            invariant
                0 <= i <= neighbors@.len(),
                same_vertices(neighbors@, ns),
                forall|b: int| self@.adjacent(vertex as int, b) <==> ns.contains(b),
                forall|k: int| 0 <= k < i ==> self@.cells[ns[k]] == sign,
            decreases neighbors@.len() - i,
        {
            let b: Vertex = neighbors[i];
            assert(ns.contains(b as int));
            if self.data[b] != sign {
                return false;
            }
            i += 1;
        }
        true
    }

    /// Puts a stone of `sign` back on every point that `dead` marks.
    fn restore_stones(&mut self, dead: &Vec<bool>, sign: Sign)
        requires
            dead@.len() == old(self).data@.len(),
        ensures
            final(self).width == old(self).width,
            final(self).data@.len() == old(self).data@.len(),
            forall|u: int|
                0 <= u < dead@.len() ==> final(self).data@[u] == if dead@[u] {
                    sign
                } else {
                    old(self).data@[u]
                },
    {
        let mut d: usize = 0;
        while d < dead.len()
            invariant
                0 <= d <= dead@.len(),
                self.width == old(self).width,
                self.data@.len() == old(self).data@.len(),
                dead@.len() == self.data@.len(),
                forall|u: int| 0 <= u < d && dead@[u] ==> #[trigger] self.data@[u] == sign,
                forall|u: int|
                    0 <= u < dead@.len() && !(u < d && dead@[u]) ==> #[trigger] self.data@[u]
                        == old(self).data@[u],
            decreases dead@.len() - d,
        {
            if dead[d] {
                self.data.set(d, sign);
            }
            d += 1;
        }
    }

    /// Places a stone of `sign` at `vertex` and takes off the chains of the
    /// other color beside it that are left without a liberty. Returns the
    /// captured stones in ascending order.
    ///
    /// The move is refused, with `None`, in three cases. Where every point
    /// beside `vertex` holds `sign`, nothing is tried and the board is not
    /// touched. Where the new stone's chain has no liberty, it must capture:
    /// a stone that stands alone at least two chains, any other at least one.
    /// A refused move leaves the board exactly as it was: what was taken off
    /// while the move was tried is put back, and `vertex` holds again what
    /// it held before.
    pub fn make_pseudo_move(&mut self, sign: Sign, vertex: Vertex) -> (r: Option<Vec<Vertex>>)
        requires
            old(self).wf(),
            sign == 1 || sign == -1,
        ensures
            final(self)@ == old(self)@.after_move(sign, vertex as int),
            r is None <==> old(self)@.move_refused(sign, vertex as int),
            r matches Some(dead) ==> lists(
                dead@,
                old(self)@.put(vertex as int, sign).captured(sign, vertex as int),
            ),
            final(self).wf(),
            // A move refused outright does not touch the board.
            old(self)@.shut_in(sign, vertex as int) ==> r is None && final(self)@ == old(self)@,
            // A refused move leaves the board as it was.
            r is None ==> final(self)@ == old(self)@,
            // After an accepted move the new stone stands, the captured
            // stones are gone, and nothing else has changed.
            r matches Some(dead) ==> {
                &&& old(self)@.on_board(vertex as int)
                &&& final(self)@.cells[vertex as int] == sign
                &&& forall|i: int|
                    0 <= i < dead@.len() ==> final(self)@.cells[#[trigger] dead@[i] as int] == 0
                &&& forall|u: int|
                    old(self)@.on_board(u) && u != vertex && !vertex_set(dead@).contains(u)
                        ==> final(self)@.cells[u] == old(self)@.cells[u]
            },
            // A stone that would stand alone without a liberty stays only
            // if it captures two chains at once.
            old(self)@.walled_in(sign, vertex as int) ==> (r is None <==> !old(self)@.put(
                vertex as int,
                sign,
            ).captures_two_chains(sign, vertex as int)),
            // A stone whose chain has no liberty and that captures nothing
            // does not stay.
            !old(self)@.put(vertex as int, sign).has_liberty(vertex as int) && old(self)@.put(
                vertex as int,
                sign,
            ).captures_nothing(sign, vertex as int) ==> r is None,
    {
        proof {
            let g = old(self)@;
            if g.walled_in(sign, vertex as int) {
                lemma_walled_in_move(g, sign, vertex as int);
            }
            if !g.put(vertex as int, sign).has_liberty(vertex as int) && g.put(
                vertex as int,
                sign,
            ).captures_nothing(sign, vertex as int) {
                lemma_plain_suicide(g, sign, vertex as int);
            }
        }
        let ghost g0 = self@;
        let ghost v = vertex as int;
        let neighbors = self.get_neighbors(vertex);
        if self.shut_in(sign, vertex, &neighbors) {
            return None;
        }
        let before = self.get(vertex);
        self.set(vertex, sign);
        let ghost g1 = self@;
        let mut check_capture = false;
        let mut check_multi_dead_chains = false;
        if !self.has_liberties(vertex) {
            if self.is_point_chain(vertex) {
                check_multi_dead_chains = true;
            } else {
                check_capture = true;
            }
        }
        let (dead, dead_chains) = self.capture_around(sign, vertex, &neighbors);
        let captured = marked_vertices(&dead);
        proof {
            lemma_captured_listing(g1, sign, v, captured@);
        }
        if (check_multi_dead_chains && dead_chains <= 1) || (check_capture && captured.len() == 0) {
            self.restore_stones(&dead, -sign);
            if let Some(held) = before {
                self.set(vertex, held);
            }
            proof {
                lemma_move_undone(g0, sign, v, dead@, self@);
            }
            return None;
        }
        proof {
            lemma_move_stands(g0, sign, v, captured@);
        }
        Some(captured)
    }
}

/// The list of the captured stones is empty exactly when no chain is captured.
proof fn lemma_captured_listing(g: Grid, sign: Sign, v: int, captured: Seq<Vertex>)
    requires
        lists(captured, g.captured(sign, v)),
    ensures
        captured.len() == 0 <==> g.captures_nothing(sign, v),
        vertex_set(captured) == g.captured(sign, v),
{
    if captured.len() == 0 {
        assert forall|n: int| !#[trigger] g.captures(sign, v, n) by {
            if g.captures(sign, v, n) {
                lemma_chain_start(g, n);
                assert(g.captured(sign, v).contains(n));
            }
        }
    } else {
        assert(g.captured(sign, v).contains(captured[0] as int));
    }
}

/// Putting the captured stones back, and at `v` what it held, gives the
/// board as it was before the move.
proof fn lemma_move_undone(g: Grid, sign: Sign, v: int, dead: Seq<bool>, last: Grid)
    requires
        sign == 1 || sign == -1,
        dead.len() == g.cells.len(),
        marked(dead) == g.put(v, sign).captured(sign, v),
        last.width == g.width,
        last.cells.len() == g.cells.len(),
        forall|u: int|
            0 <= u < dead.len() ==> last.cells[u] == if u == v {
                g.cells[u]
            } else if dead[u] {
                opponent(sign)
            } else {
                g.put(v, sign).without(marked(dead)).cells[u]
            },
    ensures
        last == g,
{
    let g1 = g.put(v, sign);
    assert forall|u: int| 0 <= u < dead.len() implies last.cells[u] == g.cells[u] by {
        if u != v && dead[u] {
            assert(g1.captured(sign, v).contains(u));
            let n = choose|n: int| #[trigger] g1.captures(sign, v, n) && g1.chain(n).contains(u);
            lemma_chain_sign(g1, n, u);
        }
    }
}

/// An accepted move was made on the board, its stone stands, and nothing
/// but the captured stones has changed.
proof fn lemma_move_stands(g: Grid, sign: Sign, v: int, captured: Seq<Vertex>)
    requires
        g.wf(),
        sign == 1 || sign == -1,
        !g.move_refused(sign, v),
        lists(captured, g.put(v, sign).captured(sign, v)),
    ensures
        g.on_board(v),
        g.after_move(sign, v).cells[v] == sign,
        forall|i: int|
            0 <= i < captured.len() ==> g.after_move(sign, v).cells[#[trigger] captured[i] as int]
                == 0,
        forall|u: int|
            g.on_board(u) && u != v && !vertex_set(captured).contains(u) ==> g.after_move(
                sign,
                v,
            ).cells[u] == g.cells[u],
{
    let g1 = g.put(v, sign);
    lemma_captured_listing(g1, sign, v, captured);
    if !g.on_board(v) {
        // Off the board at most one point lies beside `v`, so two chains
        // cannot be captured, and the move would have been refused.
        let (n1, n2) = choose|n1: int, n2: int|
            #![trigger g1.captures(sign, v, n1), g1.captures(sign, v, n2)]
            g1.captures(sign, v, n1) && g1.captures(sign, v, n2) && !g1.chain(n1).contains(n2);
        lemma_chain_start(g1, n1);
    }
    if g1.captured(sign, v).contains(v) {
        let n = choose|n: int| #[trigger] g1.captures(sign, v, n) && g1.chain(n).contains(v);
        lemma_chain_sign(g1, n, v);
    }
    assert forall|i: int| 0 <= i < captured.len() implies g.after_move(
        sign,
        v,
    ).cells[#[trigger] captured[i] as int] == 0 by {
        let u = captured[i] as int;
        let n = choose|n: int| #[trigger] g1.captures(sign, v, n) && g1.chain(n).contains(u);
        lemma_chain_sign(g1, n, u);
    }
}

/// A stone placed where no point beside it is empty or holds its color
/// stands alone and has no liberty. Such a move is refused unless it
/// captures at least two different chains at once.
pub proof fn lemma_walled_in_move(g: Grid, sign: Sign, v: int)
    requires
        g.wf(),
        sign == 1 || sign == -1,
        g.walled_in(sign, v),
    ensures
        g.put(v, sign).is_point_chain(v),
        !g.put(v, sign).has_liberty(v),
        g.move_refused(sign, v) <==> !g.put(v, sign).captures_two_chains(sign, v),
{
    let g1 = g.put(v, sign);
    assert forall|n: int| #[trigger] g1.adjacent(v, n) implies g1.sign_at(n) != g1.sign_at(v) by {
        assert(g.adjacent(v, n));
    }
    if g.on_board(v) {
        let alone = set![v];
        lemma_component_within(g1, v, set![sign], alone);
        if g1.has_liberty(v) {
            let e = choose|e: int| #[trigger] g1.adjacent(v, e) && g1.cells[e] == 0;
            assert(g.adjacent(v, e));
        }
    }
    if g.shut_in(sign, v) && g1.captures_two_chains(sign, v) {
        let (n1, n2) = choose|n1: int, n2: int|
            #![trigger g1.captures(sign, v, n1), g1.captures(sign, v, n2)]
            g1.captures(sign, v, n1) && g1.captures(sign, v, n2) && !g1.chain(n1).contains(n2);
        assert(g.adjacent(v, n1));
    }
}

/// A stone whose chain is left without a liberty and that captures nothing
/// is refused, whether it stands alone or not.
pub proof fn lemma_plain_suicide(g: Grid, sign: Sign, v: int)
    requires
        !g.put(v, sign).has_liberty(v),
        g.put(v, sign).captures_nothing(sign, v),
    ensures
        g.move_refused(sign, v),
{
}

} // verus!
