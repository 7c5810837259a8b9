//! Regions of the board: what hangs together with a point.

use crate::board::PseudoBoard;
use crate::connect::{lemma_connected_on_board, lemma_connected_start};
use crate::grid::{Sign, Vertex};
use crate::listing::{lists, vertex_set};
use crate::marks::{blank, marked, marked_vertices, unmarked};
use crate::search::pending;
use vstd::prelude::*;

verus! {

impl PseudoBoard {
    /// Marks every point of the board that is connected to `vertex` through
    /// points that hold one of `signs`.
    pub(crate) fn get_connected_component_inner(&self, vertex: Vertex, signs: &[Sign]) -> (marks:
        Vec<bool>)
        requires
            self.wf(),
        ensures
            marks@.len() == self.data@.len(),
            forall|v: int|
                0 <= v < marks@.len() ==> (marks@[v] <==> self@.connected(
                    vertex as int,
                    signs@.to_set(),
                    v,
                )),
    {
        let ghost g = self@;
        let ghost start = vertex as int;
        let ghost allowed = signs@.to_set();
        let mut marks = blank(self.data.len());
        let mut stack: Vec<Vertex> = Vec::new();
        if vertex < self.data.len() {
            marks.set(vertex, true);
        }
        stack.push(vertex);
        proof {
            lemma_connected_start(g, start, allowed);
            assert(stack@[0] == vertex);
        }
        while stack.len() > 0
            invariant
                self.wf(),
                g == self@,
                start == vertex as int,
                allowed == signs@.to_set(),
                g.searching(start, allowed, marks@, stack@, None),
            decreases unmarked(marks@) + stack@.len(),
        {
            let ghost marks0 = marks@;
            let ghost stack0 = stack@;
            let u: Vertex = stack.pop().unwrap();
            let ghost stack1 = stack@;
            proof {
                g.lemma_search_take(start, allowed, marks0, stack0);
            }
            self.spread(u, signs, &mut marks, &mut stack);
            proof {
                g.lemma_search_spread(start, allowed, marks0, stack1, u as int, marks@, stack@);
            }
        }
        proof {
            g.lemma_search_done(start, allowed, marks@);
        }
        marks
    }

    /// The points connected to `vertex` through points that hold one of
    /// `signs`, in ascending order. `vertex` itself is always among them,
    /// whatever it holds.
    pub fn get_connected_component(&self, vertex: Vertex, signs: &[Sign]) -> (r: Vec<Vertex>)
        requires
            self.wf(),
        ensures
            lists(r@, self@.component(vertex as int, signs@.to_set())),
            vertex_set(r@).contains(vertex as int),
    {
        let marks = self.get_connected_component_inner(vertex, signs);
        let mut r = marked_vertices(&marks);
        let ghost inside = r@;
        let ghost all = self@.component(vertex as int, signs@.to_set());
        proof {
            lemma_connected_start(self@, vertex as int, signs@.to_set());
            assert forall|v: int| all.contains(v) implies v == vertex || marked(marks@).contains(
                v,
            ) by {
                lemma_connected_on_board(self@, vertex as int, signs@.to_set(), v);
            }
        }
        if vertex >= self.data.len() {
            r.push(vertex);
            proof {
                assert(r@[inside.len() as int] == vertex);
                assert forall|v: int| all.contains(v) implies exists|i: int|
                    0 <= i < r@.len() && #[trigger] r@[i] == v by {
                    if v != vertex {
                        let i = choose|i: int| 0 <= i < inside.len() && #[trigger] inside[i] == v;
                        assert(r@[i] == v);
                    }
                }
            }
        } else {
            proof {
                assert(marked(marks@) =~= all);
            }
        }
        proof {
            assert(all.contains(vertex as int));
            let i = choose|i: int| 0 <= i < r@.len() && #[trigger] r@[i] == vertex as int;
            assert(r@[i] == vertex);
        }
        r
    }

    /// The chain of the stone at `vertex`: the stones of its color that hang
    /// together with it, in ascending order. Empty where `vertex` is off the
    /// board.
    pub fn get_chain(&self, vertex: Vertex) -> (r: Vec<Vertex>)
        requires
            self.wf(),
        ensures
            lists(r@, self@.chain(vertex as int)),
            self@.on_board(vertex as int) ==> vertex_set(r@).contains(vertex as int),
            !self@.on_board(vertex as int) ==> r@.len() == 0,
    {
        match self.get(vertex) {
            None => Vec::new(),
            Some(sign) => {
                let signs: [Sign; 1] = [sign];
                proof {
                    assert(signs@.to_set() =~= set![sign]);
                }
                self.get_connected_component(vertex, &signs)
            },
        }
    }

    /// The stones of the color at `vertex` that can be reached from it over
    /// stones of that color and empty points, in ascending order. Empty where
    /// `vertex` is off the board.
    pub fn get_related_chains(&self, vertex: Vertex) -> (r: Vec<Vertex>)
        requires
            self.wf(),
        ensures
            lists(r@, self@.related(vertex as int)),
    {
        let sign = match self.get(vertex) {
            None => {
                return Vec::new();
            },
            Some(x) => x,
        };
        let signs: [Sign; 2] = [sign, 0];
        proof {
            assert(signs@.to_set() =~= set![sign, 0i8]);
        }
        let mut marks = self.get_connected_component_inner(vertex, &signs);
        let mut i: usize = 0;
        while i < marks.len()
            invariant
                0 <= i <= marks@.len(),
                marks@.len() == self.data@.len(),
                forall|v: int|
                    0 <= v < i ==> (marks@[v] <==> self@.related(vertex as int).contains(v)),
                forall|v: int|
                    i <= v < marks@.len() ==> (marks@[v] <==> self@.connected(
                        vertex as int,
                        set![sign, 0i8],
                        v,
                    )),
                self@.sign_at(vertex as int) == Some(sign),
            decreases marks@.len() - i,
        {
            if self.data[i] != sign {
                marks.set(i, false);
            }
            i += 1;
        }
        proof {
            assert forall|v: int| self@.related(vertex as int).contains(v) implies 0 <= v
                < marks@.len() by {
                lemma_connected_on_board(self@, vertex as int, set![sign, 0i8], v);
            }
            assert(marked(marks@) =~= self@.related(vertex as int));
        }
        marked_vertices(&marks)
    }
}

} // verus!
