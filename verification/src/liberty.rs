//! Liberties: whether a chain has an empty point beside it.

use crate::board::PseudoBoard;
use crate::connect::lemma_connected_start;
use crate::grid::{Sign, Vertex};
use crate::listing::same_vertices;
use crate::marks::{blank, unmarked};
use crate::search::pending;
use vstd::prelude::*;

verus! {

impl PseudoBoard {
    /// Whether an empty point lies beside `u`.
    pub(crate) fn touches_empty(&self, u: Vertex) -> (r: bool)
        requires
            self.wf(),
        ensures
            r == self@.touches_empty(u as int),
    {
        let neighbors = self.get_neighbors(u);
        proof {
            self@.lemma_neighbors_adjacent(u as int);
        }
        let ghost ns = self@.neighbors(u as int);
        let mut i: usize = 0;
        while i < neighbors.len()
            invariant
                0 <= i <= neighbors@.len(),
                same_vertices(neighbors@, ns),
                forall|b: int| self@.adjacent(u as int, b) <==> ns.contains(b),
                forall|k: int| 0 <= k < i ==> self@.cells[ns[k]] != 0,
            decreases neighbors@.len() - i,
        {
            let b: Vertex = neighbors[i];
            assert(ns.contains(b as int));
            if self.data[b] == 0 {
                return true;
            }
            i += 1;
        }
        proof {
            assert forall|e: int| #[trigger] self@.adjacent(u as int, e) implies self@.cells[e]
                != 0 by {
                let k = choose|k: int| 0 <= k < ns.len() && ns[k] == e;
                assert(self@.cells[ns[k]] != 0);
            }
        }
        false
    }

    /// Walks the chain of `vertex`, which holds `sign`, and stops at the
    /// first of its stones that has an empty point beside it.
    pub(crate) fn has_liberties_inner(&self, vertex: Vertex, sign: Sign) -> (r: bool)
        requires
            self.wf(),
            self@.sign_at(vertex as int) == Some(sign),
        ensures
            r == self@.has_liberty(vertex as int),
    {
        let ghost g = self@;
        let ghost start = vertex as int;
        let ghost allowed = set![sign];
        let signs: [Sign; 1] = [sign];
        let mut marks = blank(self.data.len());
        let mut stack: Vec<Vertex> = Vec::new();
        marks.set(vertex, true);
        stack.push(vertex);
        proof {
            lemma_connected_start(g, start, allowed);
            assert(stack@[0] == vertex);
        }
        while stack.len() > 0
            invariant
                self.wf(),
                g == self@,
                start == vertex as int,
                allowed == set![sign],
                signs@.to_set() == allowed,
                g.sign_at(start) == Some(sign),
                g.searching(start, allowed, marks@, stack@, None),
                forall|a: int|
                    g.found(start, marks@, a) && !pending(stack@, a) ==> !g.touches_empty(a),
            decreases unmarked(marks@) + stack@.len(),
        {
            let ghost marks0 = marks@;
            let ghost stack0 = stack@;
            let u: Vertex = stack.pop().unwrap();
            let ghost stack1 = stack@;
            proof {
                g.lemma_search_take(start, allowed, marks0, stack0);
                g.lemma_found_connected(start, allowed, marks0, stack1, Some(u as int), u as int);
            }
            if self.touches_empty(u) {
                proof {
                    assert(g.chain(start).contains(u as int));
                }
                return true;
            }
            self.spread(u, &signs, &mut marks, &mut stack);
            proof {
                g.lemma_search_spread(start, allowed, marks0, stack1, u as int, marks@, stack@);
                assert forall|a: int|
                    g.found(start, marks@, a) && !pending(stack@, a) implies !g.touches_empty(
                    a,
                ) by {
                    if a != u as int {
                        if pending(stack0, a) {
                            let k = choose|k: int|
                                0 <= k < stack0.len() && #[trigger] stack0[k] == a;
                            assert(stack1[k] == a);
                        }
                    }
                }
            }
        }
        proof {
            g.lemma_search_done(start, allowed, marks@);
        }
        false
    }

    /// Whether the chain of the stone at `vertex` has a liberty, an empty
    /// point beside one of its stones. `false` where `vertex` is off the board.
    pub fn has_liberties(&self, vertex: Vertex) -> (r: bool)
        requires
            self.wf(),
        ensures
            r == self@.has_liberty(vertex as int),
    {
        match self.get(vertex) {
            None => false,
            Some(sign) => self.has_liberties_inner(vertex, sign),
        }
    }
}

} // verus!
