//! The mathematical model of a board: its cells and which of them lie
//! beside each other.

use vstd::prelude::*;

verus! {

/// What a point holds: `0` is empty, `1` and `-1` are the two colors.
pub type Sign = i8;

/// A point of the board, as its index in row-major order.
pub type Vertex = usize;

/// A board as a value of mathematics: `cells` lists the points row by row,
/// `width` points to a row.
#[verifier::ext_equal]
pub struct Grid {
    /// What each point holds, row after row.
    pub cells: Seq<Sign>,
    /// The number of points in a row.
    pub width: nat,
}

impl Grid {
    /// The cells fill a rectangle: rows are not empty and the last one is full.
    pub open spec fn wf(self) -> bool {
        &&& self.width > 0
        &&& self.cells.len() % self.width == 0
    }

    /// `v` is a point of the board.
    pub open spec fn on_board(self, v: int) -> bool {
        0 <= v < self.cells.len()
    }

    /// The sign at `v`, or nothing where `v` is off the board.
    pub open spec fn sign_at(self, v: int) -> Option<Sign> {
        if self.on_board(v) {
            Some(self.cells[v])
        } else {
            None
        }
    }

    /// The board with `sign` written at `v`; unchanged where `v` is off the board.
    pub open spec fn put(self, v: int, sign: Sign) -> Grid {
        if self.on_board(v) {
            Grid { cells: self.cells.update(v, sign), width: self.width }
        } else {
            self
        }
    }

    /// `b` is a point of the board directly above, below, left or right of `a`.
    /// Rows do not wrap: the last point of a row is not beside the first of the next.
    pub open spec fn adjacent(self, a: int, b: int) -> bool {
        &&& 0 <= a
        &&& self.on_board(b)
        &&& (a == b + self.width || b == a + self.width || (a == b + 1 && a % (self.width as int)
            != 0) || (b == a + 1 && b % (self.width as int) != 0))
    }

    /// The points adjacent to `v`, in the order above, below, left, right.
    pub open spec fn neighbors(self, v: int) -> Seq<int> {
        let w = self.width as int;
        let above = if self.adjacent(v, v - w) {
            seq![v - w]
        } else {
            seq![]
        };
        let below = if self.adjacent(v, v + w) {
            seq![v + w]
        } else {
            seq![]
        };
        let left = if w > 1 && self.adjacent(v, v - 1) {
            seq![v - 1]
        } else {
            seq![]
        };
        let right = if w > 1 && self.adjacent(v, v + 1) {
            seq![v + 1]
        } else {
            seq![]
        };
        above + below + left + right
    }
}

/// In a row of `w` points, `v` is the last one exactly when `v + 1` starts a row.
pub proof fn lemma_next_in_row(v: int, w: int)
    requires
        0 <= v,
        0 < w,
    ensures
        v % w < w - 1 <==> (v + 1) % w != 0,
{
    vstd::arithmetic::div_mod::lemma_fundamental_div_mod(v, w);
    vstd::arithmetic::div_mod::lemma_fundamental_div_mod(v + 1, w);
    vstd::arithmetic::div_mod::lemma_mod_pos_bound(v, w);
    vstd::arithmetic::div_mod::lemma_mod_pos_bound(v + 1, w);
    let q0 = v / w;
    let q1 = (v + 1) / w;
    assert(w * (q1 - q0) == w * q1 - w * q0) by (nonlinear_arith);
    if q1 - q0 >= 2 {
        assert(w * (q1 - q0) >= 2 * w) by (nonlinear_arith)
            requires
                q1 - q0 >= 2,
                w > 0,
        ;
    }
    if q1 - q0 <= -1 {
        assert(w * (q1 - q0) <= -w) by (nonlinear_arith)
            requires
                q1 - q0 <= -1,
                w > 0,
        ;
    }
}

impl Grid {
    /// `neighbors` lists exactly the adjacent points, each once.
    pub proof fn lemma_neighbors_adjacent(self, v: int)
        requires
            self.wf(),
        ensures
            forall|b: int| self.adjacent(v, b) <==> self.neighbors(v).contains(b),
            self.neighbors(v).no_duplicates(),
            self.neighbors(v).len() <= 4,
    {
        let w = self.width as int;
        let ns = self.neighbors(v);
        let above = if self.adjacent(v, v - w) {
            seq![v - w]
        } else {
            seq![]
        };
        let below = if self.adjacent(v, v + w) {
            seq![v + w]
        } else {
            seq![]
        };
        let left = if w > 1 && self.adjacent(v, v - 1) {
            seq![v - 1]
        } else {
            seq![]
        };
        assert forall|b: int| self.adjacent(v, b) implies ns.contains(b) by {
            if b == v - w {
                assert(ns[0] == b);
            } else if b == v + w {
                assert(ns[above.len() as int] == b);
            } else if b == v - 1 {
                assert(ns[(above.len() + below.len()) as int] == b);
            } else {
                assert(ns[(above.len() + below.len() + left.len()) as int] == b);
            }
        }
    }
}

} // verus!
