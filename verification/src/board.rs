//! The executable board and its elementary operations.

use crate::grid::{lemma_next_in_row, Grid, Sign, Vertex};
use crate::listing::same_vertices;
use vstd::prelude::*;

verus! {

/// A position: the signs of all points, row by row, and the length of a row.
///
/// The methods ask for a board that is a rectangle (`wf`). [`PseudoBoard::new`]
/// makes no other; whoever fills in the fields by hand sees to it.
#[derive(Clone)]
pub struct PseudoBoard {
    /// What each point holds, row after row.
    pub data: Vec<Sign>,
    /// The number of points in a row.
    pub width: usize,
}

/// A board is seen as its grid.
impl View for PseudoBoard {
    type V = Grid;

    open spec fn view(&self) -> Grid {
        Grid { cells: self.data@, width: self.width as nat }
    }
}

impl PseudoBoard {
    /// The board is a rectangle.
    pub open spec fn wf(&self) -> bool {
        self@.wf()
    }

    /// Makes a board of `data`, a grid of rows of `width` points each.
    /// There is no board where the rows would be empty or the last one short.
    pub fn new(data: Vec<Sign>, width: usize) -> (r: Option<PseudoBoard>)
        ensures
            r is Some <==> (Grid { cells: data@, width: width as nat }).wf(),
            r matches Some(b) ==> b.data == data && b.width == width,
    {
        if width == 0 || data.len() % width != 0 {
            None
        } else {
            Some(PseudoBoard { data, width })
        }
    }

    /// The sign at `v`, or `None` off the board.
    pub fn get(&self, v: Vertex) -> (r: Option<Sign>)
        ensures
            r == self@.sign_at(v as int),
    {
        if v < self.data.len() {
            Some(self.data[v])
        } else {
            None
        }
    }

    /// Writes `sign` at `v`. Off the board nothing is written.
    pub fn set(&mut self, v: Vertex, sign: Sign)
        ensures
            final(self)@ == old(self)@.put(v as int, sign),
    {
        if v < self.data.len() {
            self.data.set(v, sign);
        }
    }

    /// The points of the board beside `v`: above, below, left, right, in that
    /// order, without those that would lie off the board.
    pub fn get_neighbors(&self, v: Vertex) -> (r: Vec<Vertex>)
        requires
            self.wf(),
        ensures
            same_vertices(r@, self@.neighbors(v as int)),
    {
        let n: usize = self.data.len();
        let w: usize = self.width;
        let x: usize = v % w;
        let mut result: Vec<Vertex> = Vec::new();
        if v >= w && v - w < n {
            result.push(v - w);
        }
        if v < n && n - v > w {
            result.push(v + w);
        }
        proof {
            lemma_next_in_row(v as int, w as int);
            assert(0int % (w as int) == 0);
        }
        if x > 0 && v - 1 < n {
            result.push(v - 1);
        }
        if x < w - 1 && v < n && v + 1 < n {
            result.push(v + 1);
        }
        result
    }

    /// Whether the stone at `v` stands alone: no point beside it holds the same sign.
    pub fn is_point_chain(&self, v: Vertex) -> (r: bool)
        requires
            self.wf(),
        ensures
            r == self@.is_point_chain(v as int),
    {
        let sign = self.get(v);
        let neighbors = self.get_neighbors(v);
        let mut i: usize = 0;
        while i < neighbors.len()
            invariant
                0 <= i <= neighbors.len(),
                self.wf(),
                sign == self@.sign_at(v as int),
                same_vertices(neighbors@, self@.neighbors(v as int)),
                forall|k: int| 0 <= k < i ==> self@.sign_at(neighbors@[k] as int) != sign,
            decreases neighbors.len() - i,
        {
            if self.get(neighbors[i]) == sign {
                proof {
                    self@.lemma_neighbors_adjacent(v as int);
                }
                return false;
            }
            i += 1;
        }
        proof {
            self@.lemma_neighbors_adjacent(v as int);
            let ns = self@.neighbors(v as int);
            assert forall|b: int| #[trigger] self@.adjacent(v as int, b) implies self@.sign_at(b)
                != sign by {
                let k = choose|k: int| 0 <= k < ns.len() && ns[k] == b;
                assert(neighbors@[k] as int == b);
            }
        }
        true
    }
}

} // verus!
