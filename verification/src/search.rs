//! The flood fill that the region and liberty queries share: a stack of
//! points still to be looked at, and one flag per point of the board.

use crate::board::PseudoBoard;
use crate::connect::{lemma_component_within, lemma_connected_start, lemma_connected_step};
use crate::grid::{Grid, Sign, Vertex};
use crate::listing::same_vertices;
use crate::marks::{lemma_unmarked_mark, unmarked};
use vstd::prelude::*;

verus! {

/// `v` waits on the stack.
pub(crate) open spec fn pending(stack: Seq<Vertex>, v: int) -> bool {
    exists|k: int| 0 <= k < stack.len() && #[trigger] stack[k] == v
}

impl Grid {
    /// `v` has been found: it is the start of the search or a marked point.
    pub(crate) open spec fn found(self, start: int, marks: Seq<bool>, v: int) -> bool {
        v == start || (0 <= v < marks.len() && marks[v])
    }

    /// A search from `start` is under way. Only points connected to `start`
    /// are marked, the stack holds found points, and every found point that
    /// neither waits on the stack nor is the one in hand has all the allowed
    /// points beside it marked.
    pub(crate) open spec fn searching(
        self,
        start: int,
        allowed: Set<Sign>,
        marks: Seq<bool>,
        stack: Seq<Vertex>,
        in_hand: Option<int>,
    ) -> bool {
        &&& marks.len() == self.cells.len()
        &&& self.on_board(start) ==> marks[start]
        &&& forall|v: int| 0 <= v < marks.len() && marks[v] ==> self.connected(start, allowed, v)
        &&& forall|k: int|
            0 <= k < stack.len() ==> self.found(start, marks, #[trigger] stack[k] as int)
        &&& in_hand matches Some(u) ==> self.found(start, marks, u)
        &&& forall|a: int, b: int|
            self.found(start, marks, a) && !pending(stack, a) && in_hand != Some(a)
                && #[trigger] self.adjacent(a, b) && allowed.contains(self.cells[b])
                ==> marks[b]
    }

    /// A found point is connected to the start.
    pub(crate) proof fn lemma_found_connected(
        self,
        start: int,
        allowed: Set<Sign>,
        marks: Seq<bool>,
        stack: Seq<Vertex>,
        in_hand: Option<int>,
        v: int,
    )
        requires
            self.searching(start, allowed, marks, stack, in_hand),
            self.found(start, marks, v),
        ensures
            self.connected(start, allowed, v),
    {
        lemma_connected_start(self, start, allowed);
    }

    /// Taking the last point off the stack keeps the search in order, with
    /// that point in hand.
    pub(crate) proof fn lemma_search_take(
        self,
        start: int,
        allowed: Set<Sign>,
        marks: Seq<bool>,
        stack: Seq<Vertex>,
    )
        requires
            self.searching(start, allowed, marks, stack, None),
            stack.len() > 0,
        ensures
            self.searching(
                start,
                allowed,
                marks,
                stack.drop_last(),
                Some(stack.last() as int),
            ),
    {
        let rest = stack.drop_last();
        let u = stack.last() as int;
        assert forall|a: int, b: int|
            self.found(start, marks, a) && !pending(rest, a) && Some(u) != Some(a)
                && #[trigger] self.adjacent(a, b) && allowed.contains(
                self.cells[b],
            ) implies marks[b] by {
            if pending(stack, a) {
                let k = choose|k: int| 0 <= k < stack.len() && #[trigger] stack[k] == a;
                assert(rest[k] == a);
            }
        }
    }

    /// Once the points beside the one in hand have been marked and put on
    /// the stack, the search is in order with nothing in hand.
    pub(crate) proof fn lemma_search_spread(
        self,
        start: int,
        allowed: Set<Sign>,
        marks: Seq<bool>,
        stack: Seq<Vertex>,
        u: int,
        marks2: Seq<bool>,
        stack2: Seq<Vertex>,
    )
        requires
            self.searching(start, allowed, marks, stack, Some(u)),
            marks2.len() == marks.len(),
            forall|v: int| 0 <= v < marks.len() && marks[v] ==> marks2[v],
            forall|v: int|
                0 <= v < marks.len() && marks2[v] && !marks[v] ==> {
                    &&& self.adjacent(u, v)
                    &&& allowed.contains(self.cells[v])
                    &&& pending(stack2, v)
                },
            forall|b: int|
                #[trigger] self.adjacent(u, b) && allowed.contains(self.cells[b]) ==> marks2[b],
            stack2.len() >= stack.len(),
            stack2.subrange(0, stack.len() as int) == stack,
            forall|k: int|
                stack.len() <= k < stack2.len() ==> {
                    let v = #[trigger] stack2[k] as int;
                    0 <= v < marks.len() && marks2[v] && !marks[v]
                },
        ensures
            self.searching(start, allowed, marks2, stack2, None),
    {
        lemma_connected_start(self, start, allowed);
        assert forall|v: int| 0 <= v < marks2.len() && marks2[v] implies self.connected(
            start,
            allowed,
            v,
        ) by {
            if !marks[v] {
                lemma_connected_step(self, start, allowed, u, v);
            }
        }
        assert forall|k: int| 0 <= k < stack2.len() implies self.found(
            start,
            marks2,
            #[trigger] stack2[k] as int,
        ) by {
            if k < stack.len() {
                assert(stack2.subrange(0, stack.len() as int)[k] == stack2[k]);
            }
        }
        assert forall|a: int, b: int|
            self.found(start, marks2, a) && !pending(stack2, a) && #[trigger] self.adjacent(a, b)
                && allowed.contains(self.cells[b]) implies marks2[b] by {
            if a != u && pending(stack, a) {
                let k = choose|k: int| 0 <= k < stack.len() && #[trigger] stack[k] == a;
                assert(stack2.subrange(0, stack.len() as int)[k] == a);
            }
        }
    }

    /// When nothing waits any more, what has been found is all that is
    /// connected to the start.
    pub(crate) proof fn lemma_search_done(self, start: int, allowed: Set<Sign>, marks: Seq<bool>)
        requires
            self.searching(start, allowed, marks, Seq::<Vertex>::empty(), None),
        ensures
            forall|v: int| self.connected(start, allowed, v) <==> self.found(start, marks, v),
    {
        let s = Set::new(|v: int| self.found(start, marks, v));
        lemma_component_within(self, start, allowed, s);
        lemma_connected_start(self, start, allowed);
        assert forall|v: int| self.connected(start, allowed, v) implies self.found(
            start,
            marks,
            v,
        ) by {
            assert(self.component(start, allowed).contains(v));
        }
    }
}

/// Whether `s` is one of `signs`.
pub(crate) fn allows(signs: &[Sign], s: Sign) -> (r: bool)
    ensures
        r == signs@.contains(s),
{
    let mut i: usize = 0;
    while i < signs.len()
        invariant
            0 <= i <= signs@.len(),
            forall|k: int| 0 <= k < i ==> signs@[k] != s,
        decreases signs@.len() - i,
    {
        if signs[i] == s {
            return true;
        }
        i += 1;
    }
    false
}

impl PseudoBoard {
    /// Looks at the points beside `u`: each one that holds one of `signs` and
    /// is not marked yet is marked and put on the stack.
    pub(crate) fn spread(
        &self,
        u: Vertex,
        signs: &[Sign],
        marks: &mut Vec<bool>,
        stack: &mut Vec<Vertex>,
    )
        requires
            self.wf(),
            old(marks)@.len() == self.data@.len(),
        ensures
            final(marks)@.len() == old(marks)@.len(),
            forall|v: int| 0 <= v < old(marks)@.len() && old(marks)@[v] ==> final(marks)@[v],
            forall|v: int|
                0 <= v < old(marks)@.len() && final(marks)@[v] && !old(marks)@[v] ==> {
                    &&& self@.adjacent(u as int, v)
                    &&& signs@.contains(self@.cells[v])
                    &&& pending(final(stack)@, v)
                },
            forall|b: int|
                #[trigger] self@.adjacent(u as int, b) && signs@.contains(self@.cells[b])
                    ==> final(marks)@[b],
            final(stack)@.len() >= old(stack)@.len(),
            final(stack)@.subrange(0, old(stack)@.len() as int) == old(stack)@,
            forall|k: int|
                old(stack)@.len() <= k < final(stack)@.len() ==> {
                    let v = #[trigger] final(stack)@[k] as int;
                    0 <= v < old(marks)@.len() && final(marks)@[v] && !old(marks)@[v]
                },
            unmarked(final(marks)@) + final(stack)@.len() == unmarked(old(marks)@) + old(
                stack,
            )@.len(),
    {
        let neighbors = self.get_neighbors(u);
        let ghost ns = self@.neighbors(u as int);
        proof {
            self@.lemma_neighbors_adjacent(u as int);
        }
        let mut i: usize = 0;
        while i < neighbors.len()
            invariant
                0 <= i <= neighbors@.len(),
                self.wf(),
                ns == self@.neighbors(u as int),
                same_vertices(neighbors@, ns),
                forall|b: int| self@.adjacent(u as int, b) <==> ns.contains(b),
                marks@.len() == old(marks)@.len(),
                marks@.len() == self.data@.len(),
                forall|v: int| 0 <= v < marks@.len() && old(marks)@[v] ==> marks@[v],
                forall|v: int|
                    0 <= v < marks@.len() && marks@[v] && !old(marks)@[v] ==> {
                        &&& self@.adjacent(u as int, v)
                        &&& signs@.contains(self@.cells[v])
                        &&& pending(stack@, v)
                    },
                forall|k: int|
                    0 <= k < i && signs@.contains(self@.cells[ns[k]]) ==> marks@[ns[k]],
                stack@.len() >= old(stack)@.len(),
                stack@.subrange(0, old(stack)@.len() as int) == old(stack)@,
                forall|k: int|
                    old(stack)@.len() <= k < stack@.len() ==> {
                        let v = #[trigger] stack@[k] as int;
                        0 <= v < marks@.len() && marks@[v] && !old(marks)@[v]
                    },
                unmarked(marks@) + stack@.len() == unmarked(old(marks)@) + old(stack)@.len(),
            decreases neighbors@.len() - i,
        {
            let b: Vertex = neighbors[i];
            if allows(signs, self.data[b]) && !marks[b] {
                let ghost stack0 = stack@;
                proof {
                    lemma_unmarked_mark(marks@, b as int);
                }
                marks.set(b, true);
                stack.push(b);
                assert(stack@[stack0.len() as int] == b);
                assert forall|v: int|
                    0 <= v < marks@.len() && marks@[v] && !old(marks)@[v] implies pending(
                    stack@,
                    v,
                ) by {
                    if v != b {
                        let k = choose|k: int| 0 <= k < stack0.len() && #[trigger] stack0[k] == v;
                        assert(stack@[k] == v);
                    }
                }
                assert(stack@.subrange(0, old(stack)@.len() as int) =~= stack0.subrange(
                    0,
                    old(stack)@.len() as int,
                ));
            }
            i += 1;
        }
    }
}

} // verus!
