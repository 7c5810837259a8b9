//! The queries read the board and never write it, and the board alone
//! decides what they answer.

use crate::grid::{Grid, Sign, Vertex};
use crate::listing::{lemma_listing_unique, lists};
use vstd::prelude::*;

verus! {

/// What the queries of a board answered, all at one time: `liberties` and
/// `alone` for `has_liberties` and `is_point_chain`, the lists for
/// `get_connected_component`, `get_chain`, `get_related_chains` and
/// `get_floating_stones`.
pub struct Answers {
    pub liberties: bool,
    pub alone: bool,
    pub component: Seq<Vertex>,
    pub chain: Seq<Vertex>,
    pub related: Seq<Vertex>,
    pub floating: Seq<Vertex>,
}

impl Grid {
    /// `answers` is what the queries may answer on this board when asked
    /// about the point `v` and the signs `allowed`: each answer meets what
    /// its query promises.
    pub open spec fn answered(self, v: int, allowed: Set<Sign>, answers: Answers) -> bool {
        &&& answers.liberties == self.has_liberty(v)
        &&& answers.alone == self.is_point_chain(v)
        &&& lists(answers.component, self.component(v, allowed))
        &&& lists(answers.chain, self.chain(v))
        &&& lists(answers.related, self.related(v))
        &&& lists(answers.floating, self.floating())
    }
}

/// Asked twice of the same board, every query answers the same. The
/// queries take the board by shared reference, so the board is the same
/// after each of them, and what they promise leaves room for one answer
/// only.
pub proof fn lemma_queries_repeatable(
    g: Grid,
    v: int,
    allowed: Set<Sign>,
    first: Answers,
    second: Answers,
)
    requires
        g.answered(v, allowed, first),
        g.answered(v, allowed, second),
    ensures
        first == second,
{
    lemma_listing_unique(first.component, second.component, g.component(v, allowed));
    lemma_listing_unique(first.chain, second.chain, g.chain(v));
    lemma_listing_unique(first.related, second.related, g.related(v));
    lemma_listing_unique(first.floating, second.floating, g.floating());
}

} // verus!
