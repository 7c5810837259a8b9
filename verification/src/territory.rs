//! Territory and dead stones: which stones of a settled position count as
//! captured although they still stand on the board.

use crate::board::PseudoBoard;
use crate::capture::opponent;
use crate::connect::lemma_connected_on_board;
use crate::grid::{Grid, Sign, Vertex};
use crate::listing::lists;
use crate::marks::{blank, count_marked, marked, marked_vertices, merge_marks};
use vstd::prelude::*;

verus! {

impl Grid {
    /// The region around the empty point `v` that `color` may claim: all
    /// that is connected to `v` through empty points and stones of the other
    /// color.
    pub open spec fn territory(self, v: int, color: Sign) -> Set<int> {
        self.component(v, set![0i8, opponent(color)])
    }

    /// The stones of the other color inside the region that `color` may
    /// claim around `v`: dead, if the region is `color`'s.
    pub open spec fn prisoners(self, v: int, color: Sign) -> Set<int> {
        Set::new(|u: int| self.territory(v, color).contains(u) && self.cells[u] == opponent(color))
    }

    /// The empty points that only `color` may claim around `v`: they are in
    /// its region and not in that of the other color.
    pub open spec fn exclusive(self, v: int, color: Sign) -> Set<int> {
        Set::new(
            |u: int|
                self.territory(v, color).contains(u) && self.cells[u] == 0 && !self.territory(
                    v,
                    opponent(color),
                ).contains(u),
        )
    }

    /// The region around `v` speaks for `color`: at most one empty point is
    /// `color`'s alone, and `color` would lose no more stones there than
    /// the other color.
    pub open spec fn favors(self, v: int, color: Sign) -> bool {
        &&& self.exclusive(v, color).len() <= 1
        &&& self.prisoners(v, color).len() <= self.prisoners(v, opponent(color)).len()
    }

    /// The color that owns the region around the empty point `v`: the one
    /// that the region speaks for, if it speaks for one only.
    pub open spec fn owner(self, v: int) -> Option<Sign> {
        if self.favors(v, 1i8) && !self.favors(v, -1i8) {
            Some(1i8)
        } else if self.favors(v, -1i8) && !self.favors(v, 1i8) {
            Some(-1i8)
        } else {
            None
        }
    }

    /// The points that are settled together with the empty point `v`: the
    /// owner's region, or just the empty points around `v` where nobody
    /// owns it.
    pub open spec fn settled_with(self, v: int) -> Set<int> {
        match self.owner(v) {
            Some(color) => self.territory(v, color),
            None => self.chain(v),
        }
    }

    /// The stones that are dead in the region around the empty point `v`.
    pub open spec fn dead_around(self, v: int) -> Set<int> {
        match self.owner(v) {
            Some(color) => self.prisoners(v, color),
            None => Set::empty(),
        }
    }

    /// The points settled once the points below `k` have been looked at in
    /// ascending order. Each empty point not settled before settles what
    /// goes with it.
    pub open spec fn settled(self, k: nat) -> Set<int>
        decreases k,
    {
        if k == 0 {
            Set::empty()
        } else {
            let before = self.settled((k - 1) as nat);
            if self.cells[k - 1] == 0 && !before.contains(k - 1) {
                before + self.settled_with(k - 1)
            } else {
                before
            }
        }
    }

    /// `v` opens a region: it is an empty point of the board that no point
    /// before it has settled.
    pub open spec fn opens_region(self, v: int) -> bool {
        &&& self.on_board(v)
        &&& self.cells[v] == 0
        &&& !self.settled(v as nat).contains(v)
    }

    /// The stones found dead once the points below `k` have been looked at.
    pub open spec fn floating_before(self, k: nat) -> Set<int>
        decreases k,
    {
        if k == 0 {
            Set::empty()
        } else {
            let before = self.floating_before((k - 1) as nat);
            if self.opens_region(k - 1) {
                before + self.dead_around(k - 1)
            } else {
                before
            }
        }
    }

    /// The dead stones of the position.
    pub open spec fn floating(self) -> Set<int> {
        self.floating_before(self.cells.len())
    }
}

impl PseudoBoard {
    /// Marks the points of `area` that hold `sign`.
    fn stones_within(&self, area: &Vec<bool>, sign: Sign) -> (r: Vec<bool>)
        requires
            area@.len() == self.data@.len(),
        ensures
            r@.len() == area@.len(),
            forall|u: int|
                0 <= u < area@.len() ==> #[trigger] r@[u] == (area@[u] && self.data@[u] == sign),
    {
        let mut r: Vec<bool> = Vec::new();
        let mut i: usize = 0;
        while i < area.len()
            invariant
                0 <= i <= area@.len(),
                area@.len() == self.data@.len(),
                r@.len() == i,
                forall|u: int|
                    0 <= u < i ==> #[trigger] r@[u] == (area@[u] && self.data@[u] == sign),
            decreases area@.len() - i,
        {
            r.push(area[i] && self.data[i] == sign);
            i += 1;
        }
        r
    }

    /// Marks the empty points of `area` that `other` does not mark.
    fn exclusive_points(&self, area: &Vec<bool>, other: &Vec<bool>) -> (r: Vec<bool>)
        requires
            area@.len() == self.data@.len(),
            other@.len() == self.data@.len(),
        ensures
            r@.len() == area@.len(),
            forall|u: int|
                0 <= u < area@.len() ==> #[trigger] r@[u] == (area@[u] && self.data@[u] == 0
                    && !other@[u]),
    {
        let mut r: Vec<bool> = Vec::new();
        let mut i: usize = 0;
        while i < area.len()
            invariant
                0 <= i <= area@.len(),
                area@.len() == self.data@.len(),
                other@.len() == self.data@.len(),
                r@.len() == i,
                forall|u: int|
                    0 <= u < i ==> #[trigger] r@[u] == (area@[u] && self.data@[u] == 0
                        && !other@[u]),
            decreases area@.len() - i,
        {
            r.push(area[i] && self.data[i] == 0 && !other[i]);
            i += 1;
        }
        r
    }

    /// Judges the region around the point `vertex`. Returns the marks of the
    /// points settled with it and the marks of the stones dead in it.
    fn judge_region(&self, vertex: Vertex) -> (r: (Vec<bool>, Vec<bool>))
        requires
            self.wf(),
            self@.on_board(vertex as int),
        ensures
            r.0@.len() == self.data@.len(),
            r.1@.len() == self.data@.len(),
            marked(r.0@) == self@.settled_with(vertex as int),
            marked(r.1@) == self@.dead_around(vertex as int),
    {
        let ghost g = self@;
        let ghost v = vertex as int;
        let for_pos: [Sign; 2] = [0, -1];
        let for_neg: [Sign; 2] = [0, 1];
        proof {
            assert(for_pos@.to_set() =~= set![0i8, opponent(1i8)]);
            assert(for_neg@.to_set() =~= set![0i8, opponent(-1i8)]);
        }
        let pos_area = self.get_connected_component_inner(vertex, &for_pos);
        let neg_area = self.get_connected_component_inner(vertex, &for_neg);
        proof {
            lemma_marks_of_component(g, v, for_pos@.to_set(), pos_area@);
            lemma_marks_of_component(g, v, for_neg@.to_set(), neg_area@);
        }
        let pos_dead = self.stones_within(&pos_area, -1);
        let neg_dead = self.stones_within(&neg_area, 1);
        let pos_only = self.exclusive_points(&pos_area, &neg_area);
        let neg_only = self.exclusive_points(&neg_area, &pos_area);
        proof {
            assert(marked(pos_dead@) =~= g.prisoners(v, 1i8));
            assert(marked(neg_dead@) =~= g.prisoners(v, -1i8));
            assert(marked(pos_only@) =~= g.exclusive(v, 1i8));
            assert(marked(neg_only@) =~= g.exclusive(v, -1i8));
        }
        let pos_diff = count_marked(&pos_only);
        let neg_diff = count_marked(&neg_only);
        let pos_lost = count_marked(&pos_dead);
        let neg_lost = count_marked(&neg_dead);
        let favor_neg = neg_diff <= 1 && neg_lost <= pos_lost;
        let favor_pos = pos_diff <= 1 && pos_lost <= neg_lost;
        if favor_pos && !favor_neg {
            (pos_area, pos_dead)
        } else if favor_neg && !favor_pos {
            (neg_area, neg_dead)
        } else {
            let own: [Sign; 1] = [self.data[vertex]];
            proof {
                assert(own@.to_set() =~= set![g.cells[v]]);
            }
            let chain = self.get_connected_component_inner(vertex, &own);
            let nothing = blank(self.data.len());
            proof {
                lemma_marks_of_component(g, v, own@.to_set(), chain@);
            }
            (chain, nothing)
        }
    }

    /// The stones that are dead as the position stands, in ascending order.
    ///
    /// The points are looked at in ascending order. Each empty point that is
    /// not settled yet opens a region. Where the region speaks for one color
    /// only, that color owns it: all of it is settled, and the other color's
    /// stones in it are dead. Otherwise only the empty points around the
    /// point are settled, and no stone is dead.
    pub fn get_floating_stones(&self) -> (r: Vec<Vertex>)
        requires
            self.wf(),
        ensures
            lists(r@, self@.floating()),
    {
        let ghost g = self@;
        let n: usize = self.data.len();
        let mut done = blank(n);
        let mut dead = blank(n);
        let mut vertex: usize = 0;
        while vertex < n
            invariant
                0 <= vertex <= n,
                n == self.data@.len(),
                g == self@,
                self.wf(),
                done@.len() == n,
                dead@.len() == n,
                marked(done@) == g.settled(vertex as nat),
                marked(dead@) == g.floating_before(vertex as nat),
            decreases n - vertex,
        {
            if self.data[vertex] == 0 && !done[vertex] {
                let (area, stones) = self.judge_region(vertex);
                merge_marks(&mut done, &area);
                merge_marks(&mut dead, &stones);
            }
            vertex += 1;
        }
        marked_vertices(&dead)
    }
}

/// Marks that tell, for each point of the board, whether it is connected
/// to a point `v` of the board mark the whole component of `v`.
proof fn lemma_marks_of_component(g: Grid, v: int, allowed: Set<Sign>, marks: Seq<bool>)
    requires
        g.on_board(v),
        marks.len() == g.cells.len(),
        forall|u: int| 0 <= u < marks.len() ==> (marks[u] <==> g.connected(v, allowed, u)),
    ensures
        marked(marks) == g.component(v, allowed),
{
    assert forall|u: int| marked(marks).contains(u) <==> g.component(v, allowed).contains(u) by {
        if g.component(v, allowed).contains(u) {
            lemma_connected_on_board(g, v, allowed, u);
        }
    }
}

} // verus!
