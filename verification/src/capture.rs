//! Captures: the chains that a stone just placed takes off the board.

use crate::board::PseudoBoard;
use crate::chain::{lemma_chain_frame, lemma_chain_shared, lemma_chain_sign, lemma_chain_start};
use crate::connect::{lemma_component_within, lemma_connected_step};
use crate::grid::{Grid, Sign, Vertex};
use crate::listing::{lists, same_vertices, vertex_set};
use crate::marks::{blank, marked};
use vstd::prelude::*;

verus! {

/// The other color.
pub open spec fn opponent(sign: Sign) -> Sign {
    (-(sign as int)) as Sign
}

impl Grid {
    /// The board with the points of `stones` emptied.
    pub open spec fn without(self, stones: Set<int>) -> Grid {
        Grid {
            cells: Seq::new(
                self.cells.len(),
                |u: int|
                    if stones.contains(u) {
                        0i8
                    } else {
                        self.cells[u]
                    },
            ),
            width: self.width,
        }
    }

    /// On this board, where a stone of `sign` has just been placed at `v`,
    /// that stone captures the chain of `n`: `n` lies beside `v`, holds the
    /// other color, and its chain has no liberty.
    pub open spec fn captures(self, sign: Sign, v: int, n: int) -> bool {
        &&& self.adjacent(v, n)
        &&& self.cells[n] == opponent(sign)
        &&& !self.has_liberty(n)
    }

    /// All the stones that the stone of `sign` just placed at `v` captures.
    pub open spec fn captured(self, sign: Sign, v: int) -> Set<int> {
        Set::new(
            |u: int|
                exists|n: int| #[trigger] self.captures(sign, v, n) && self.chain(n).contains(u),
        )
    }

    /// The stone just placed at `v` captures no chain.
    pub open spec fn captures_nothing(self, sign: Sign, v: int) -> bool {
        forall|n: int| !#[trigger] self.captures(sign, v, n)
    }

    /// The stone just placed at `v` captures at least two different chains.
    pub open spec fn captures_two_chains(self, sign: Sign, v: int) -> bool {
        exists|n1: int, n2: int|
            #![trigger self.captures(sign, v, n1), self.captures(sign, v, n2)]
            self.captures(sign, v, n1) && self.captures(sign, v, n2) && !self.chain(n1).contains(
                n2,
            )
    }

    /// The captures of the stone at `v` are being worked out, and the first
    /// `i` of the points `ns` beside it have been dealt with: `dead` marks
    /// the stones captured on behalf of those, `cur` is the board without
    /// them, and `count` chains were taken, the first on behalf of
    /// `ns[first]`, the second on behalf of `ns[second]`.
    spec fn capturing(
        self,
        sign: Sign,
        v: int,
        ns: Seq<int>,
        i: int,
        cur: Grid,
        dead: Seq<bool>,
        count: int,
        first: int,
        second: int,
    ) -> bool {
        let d = marked(dead);
        let enemy = opponent(sign);
        &&& dead.len() == self.cells.len()
        &&& cur == self.without(d)
        &&& forall|u: int| d.contains(u) ==> self.cells[u] == enemy
        &&& forall|a: int, b: int|
            d.contains(a) && #[trigger] self.adjacent(a, b) && self.cells[b] == enemy
                ==> d.contains(b)
        &&& forall|u: int|
            d.contains(u) ==> exists|k: int|
                0 <= k < i && self.captures(sign, v, ns[k]) && #[trigger] self.chain(
                    ns[k],
                ).contains(u)
        &&& forall|k: int, u: int|
            0 <= k < i && self.captures(sign, v, ns[k]) && #[trigger] self.chain(ns[k]).contains(
                u,
            ) ==> d.contains(u)
        &&& 0 <= count <= i
        &&& count == 0 ==> forall|u: int| !d.contains(u)
        &&& count >= 1 ==> 0 <= first < i && self.captures(sign, v, ns[first])
        &&& count == 1 ==> d.subset_of(self.chain(ns[first]))
        &&& count >= 2 ==> 0 <= second < i && self.captures(sign, v, ns[second])
            && !self.chain(ns[first]).contains(ns[second])
    }
}

/// While captures are being worked out, a stone of the other color that has
/// not been taken has its whole chain, and all that lies beside it, still
/// as it was.
proof fn lemma_not_taken(g: Grid, sign: Sign, dead: Seq<bool>, n: int)
    requires
        sign == 1 || sign == -1,
        dead.len() == g.cells.len(),
        forall|u: int| marked(dead).contains(u) ==> g.cells[u] == opponent(sign),
        forall|a: int, b: int|
            marked(dead).contains(a) && #[trigger] g.adjacent(a, b) && g.cells[b] == opponent(
                sign,
            ) ==> marked(dead).contains(b),
        g.on_board(n),
        g.cells[n] == opponent(sign),
        !marked(dead).contains(n),
    ensures
        g.without(marked(dead)).chain(n) == g.chain(n),
        g.without(marked(dead)).has_liberty(n) == g.has_liberty(n),
        forall|u: int| g.chain(n).contains(u) ==> !marked(dead).contains(u),
{
    let d = marked(dead);
    let enemy = opponent(sign);
    let allowed = set![enemy];
    let h = g.without(d);
    let rest = Set::new(|u: int| g.on_board(u) && g.cells[u] == enemy && !d.contains(u));
    assert forall|a: int, b: int|
        rest.contains(a) && #[trigger] g.adjacent(a, b) && allowed.contains(
            g.cells[b],
        ) implies rest.contains(b) by {
        if d.contains(b) {
            assert(g.adjacent(b, a));
        }
    }
    lemma_component_within(g, n, allowed, rest);
    assert forall|u: int, e: int|
        g.chain(n).contains(u) && #[trigger] g.adjacent(u, e) implies h.cells[e] == g.cells[e] by {
        if d.contains(e) {
            lemma_connected_step(g, n, allowed, u, e);
        }
    }
    lemma_chain_frame(g, h, n);
}

/// A point beside `v` that is passed over leaves the state of the captures
/// in order.
proof fn lemma_capture_skip(
    g: Grid,
    sign: Sign,
    v: int,
    ns: Seq<int>,
    i: int,
    cur: Grid,
    dead: Seq<bool>,
    count: int,
    first: int,
    second: int,
)
    requires
        sign == 1 || sign == -1,
        g.capturing(sign, v, ns, i, cur, dead, count, first, second),
        0 <= i < ns.len(),
        g.adjacent(v, ns[i]),
        !(cur.cells[ns[i]] == opponent(sign) && !cur.has_liberty(ns[i])),
    ensures
        g.capturing(sign, v, ns, i + 1, cur, dead, count, first, second),
{
    let d = marked(dead);
    let enemy = opponent(sign);
    let n = ns[i];
    if g.captures(sign, v, n) {
        if d.contains(n) {
            lemma_component_within(g, n, set![enemy], d);
        } else {
            lemma_not_taken(g, sign, dead, n);
        }
    }
    assert forall|u: int| d.contains(u) implies exists|k: int|
        0 <= k < i + 1 && g.captures(sign, v, ns[k]) && #[trigger] g.chain(ns[k]).contains(
            u,
        ) by {
        let k = choose|k: int|
            0 <= k < i && g.captures(sign, v, ns[k]) && #[trigger] g.chain(ns[k]).contains(u);
        assert(0 <= k < i + 1 && g.chain(ns[k]).contains(u));
    }
}

/// A chain that is taken leaves the state of the captures in order, with
/// one chain more.
proof fn lemma_capture_take(
    g: Grid,
    sign: Sign,
    v: int,
    ns: Seq<int>,
    i: int,
    cur: Grid,
    dead: Seq<bool>,
    count: int,
    first: int,
    second: int,
    cur2: Grid,
    dead2: Seq<bool>,
) -> (w: (int, int))
    requires
        sign == 1 || sign == -1,
        g.capturing(sign, v, ns, i, cur, dead, count, first, second),
        0 <= i < ns.len(),
        g.adjacent(v, ns[i]),
        cur.cells[ns[i]] == opponent(sign),
        !cur.has_liberty(ns[i]),
        cur2 == cur.without(cur.chain(ns[i])),
        dead2.len() == dead.len(),
        forall|u: int|
            0 <= u < dead.len() ==> (dead2[u] <==> dead[u] || cur.chain(ns[i]).contains(u)),
    ensures
        g.capturing(sign, v, ns, i + 1, cur2, dead2, count + 1, w.0, w.1),
{
    let d = marked(dead);
    let d2 = marked(dead2);
    let enemy = opponent(sign);
    let n = ns[i];
    lemma_not_taken(g, sign, dead, n);
    let c = g.chain(n);
    lemma_chain_start(g, n);
    assert forall|u: int| c.contains(u) implies g.on_board(u) && g.cells[u] == enemy by {
        lemma_chain_sign(g, n, u);
    }
    assert(cur2 =~= g.without(d2));
    assert forall|a: int, b: int|
        d2.contains(a) && #[trigger] g.adjacent(a, b) && g.cells[b] == enemy implies d2.contains(
        b,
    ) by {
        if c.contains(a) {
            lemma_connected_step(g, n, set![enemy], a, b);
        }
    }
    assert forall|u: int| d2.contains(u) implies exists|k: int|
        0 <= k < i + 1 && g.captures(sign, v, ns[k]) && #[trigger] g.chain(ns[k]).contains(
            u,
        ) by {
        if d.contains(u) {
            let k = choose|k: int|
                0 <= k < i && g.captures(sign, v, ns[k]) && #[trigger] g.chain(ns[k]).contains(u);
            assert(0 <= k < i + 1 && g.chain(ns[k]).contains(u));
        } else {
            assert(g.chain(ns[i]).contains(u));
        }
    }
    if count == 0 {
        (i, second)
    } else if count == 1 {
        assert(g.chain(ns[first]).contains(ns[first])) by {
            lemma_chain_start(g, ns[first]);
        }
        (first, i)
    } else {
        (first, second)
    }
}

/// When all the points beside `v` have been dealt with, the stones marked
/// are the captured ones, and the count tells whether no chain, one, or
/// more than one was captured.
proof fn lemma_capture_done(
    g: Grid,
    sign: Sign,
    v: int,
    ns: Seq<int>,
    cur: Grid,
    dead: Seq<bool>,
    count: int,
    first: int,
    second: int,
)
    requires
        sign == 1 || sign == -1,
        g.wf(),
        ns == g.neighbors(v),
        g.capturing(sign, v, ns, ns.len() as int, cur, dead, count, first, second),
    ensures
        marked(dead) == g.captured(sign, v),
        cur == g.without(g.captured(sign, v)),
        count == 0 <==> g.captures_nothing(sign, v),
        count <= 1 <==> !g.captures_two_chains(sign, v),
{
    let d = marked(dead);
    g.lemma_neighbors_adjacent(v);
    assert forall|u: int| g.captured(sign, v).contains(u) implies d.contains(u) by {
        let n = choose|n: int| #[trigger] g.captures(sign, v, n) && g.chain(n).contains(u);
        let k = choose|k: int| 0 <= k < ns.len() && ns[k] == n;
        assert(g.chain(ns[k]).contains(u));
    }
    assert forall|u: int| d.contains(u) implies g.captured(sign, v).contains(u) by {
        let k = choose|k: int|
            0 <= k < ns.len() && g.captures(sign, v, ns[k]) && #[trigger] g.chain(ns[k]).contains(
                u,
            );
        assert(g.captures(sign, v, ns[k]));
    }
    assert(d =~= g.captured(sign, v));
    if count == 0 {
        assert forall|n: int| !#[trigger] g.captures(sign, v, n) by {
            if g.captures(sign, v, n) {
                lemma_chain_start(g, n);
            }
        }
    }
    if count >= 2 {
        assert(g.captures(sign, v, ns[first]) && g.captures(sign, v, ns[second])
            && !g.chain(ns[first]).contains(ns[second]));
    }
    if count <= 1 && g.captures_two_chains(sign, v) {
        let (n1, n2) = choose|n1: int, n2: int|
            #![trigger g.captures(sign, v, n1), g.captures(sign, v, n2)]
            g.captures(sign, v, n1) && g.captures(sign, v, n2) && !g.chain(n1).contains(n2);
        lemma_chain_start(g, n1);
        lemma_chain_start(g, n2);
        let m = ns[first];
        lemma_chain_shared(g, m, n1);
    }
}

/// A listing of a chain names the stones of the chain, all of them on the board.
proof fn lemma_listed_chain(g: Grid, n: int, chain: Seq<Vertex>)
    requires
        lists(chain, g.chain(n)),
    ensures
        vertex_set(chain) == g.chain(n),
        forall|k: int| 0 <= k < chain.len() ==> #[trigger] chain[k] < g.cells.len(),
{
    assert forall|k: int| 0 <= k < chain.len() implies #[trigger] chain[k] < g.cells.len() by {
        lemma_chain_sign(g, n, chain[k] as int);
    }
    assert forall|u: int| g.chain(n).contains(u) implies vertex_set(chain).contains(u) by {
        let k = choose|k: int| 0 <= k < chain.len() && #[trigger] chain[k] == u;
        assert(chain[k] == u);
    }
}

impl PseudoBoard {
    /// Empties the points of `stones` and marks them in `dead`.
    fn remove_stones(&mut self, stones: &Vec<Vertex>, dead: &mut Vec<bool>)
        requires
            old(dead)@.len() == old(self).data@.len(),
            forall|k: int| 0 <= k < stones@.len() ==> #[trigger] stones@[k] < old(self).data@.len(),
        ensures
            final(self)@ == old(self)@.without(vertex_set(stones@)),
            final(dead)@.len() == old(dead)@.len(),
            forall|u: int|
                0 <= u < old(dead)@.len() ==> (final(dead)@[u] <==> old(dead)@[u] || vertex_set(
                    stones@,
                ).contains(u)),
    {
        let mut j: usize = 0;
        while j < stones.len()
            invariant
                0 <= j <= stones@.len(),
                self.width == old(self).width,
                self.data@.len() == old(self).data@.len(),
                dead@.len() == old(dead)@.len(),
                dead@.len() == self.data@.len(),
                forall|k: int| 0 <= k < stones@.len() ==> #[trigger] stones@[k] < self.data@.len(),
                forall|u: int|
                    0 <= u < dead@.len() ==> (dead@[u] <==> old(dead)@[u] || vertex_set(
                        stones@.take(j as int),
                    ).contains(u)),
                forall|u: int|
                    0 <= u < dead@.len() ==> self.data@[u] == if vertex_set(
                        stones@.take(j as int),
                    ).contains(u) {
                        0i8
                    } else {
                        old(self).data@[u]
                    },
            decreases stones@.len() - j,
        {
            let c: Vertex = stones[j];
            let ghost after = stones@.take(j + 1);
            self.data.set(c, 0);
            dead.set(c, true);
            proof {
                assert(after[j as int] == c);
            }
            j += 1;
        }
        proof {
            assert(stones@.take(stones@.len() as int) =~= stones@);
        }
    }

    /// Takes off the board the chains that the stone of `sign` just placed
    /// at `vertex` captures. `neighbors` are the points beside `vertex`.
    /// Returns the marks of the stones taken and the number of chains.
    pub(crate) fn capture_around(
        &mut self,
        sign: Sign,
        vertex: Vertex,
        neighbors: &Vec<Vertex>,
    ) -> (r: (Vec<bool>, usize))
        requires
            old(self).wf(),
            sign == 1 || sign == -1,
            same_vertices(neighbors@, old(self)@.neighbors(vertex as int)),
        ensures
            final(self)@ == old(self)@.without(old(self)@.captured(sign, vertex as int)),
            r.0@.len() == old(self).data@.len(),
            marked(r.0@) == old(self)@.captured(sign, vertex as int),
            r.1 == 0 <==> old(self)@.captures_nothing(sign, vertex as int),
            r.1 <= 1 <==> !old(self)@.captures_two_chains(sign, vertex as int),
    {
        let ghost g1 = self@;
        let ghost v = vertex as int;
        let ghost ns = g1.neighbors(v);
        let enemy: Sign = -sign;
        let mut dead = blank(self.data.len());
        let mut dead_chains: usize = 0;
        let ghost mut first: int = 0;
        let ghost mut second: int = 0;
        proof {
            g1.lemma_neighbors_adjacent(v);
            assert(self@ =~= g1.without(marked(dead@)));
        }
        let mut i: usize = 0;
        while i < neighbors.len()
            invariant
                0 <= i <= neighbors@.len(),
                sign == 1 || sign == -1,
                enemy == opponent(sign),
                g1.wf(),
                self.wf(),
                ns == g1.neighbors(v),
                v == vertex as int,
                same_vertices(neighbors@, ns),
                ns.len() <= 4,
                forall|b: int| g1.adjacent(v, b) <==> ns.contains(b),
                g1.capturing(
                    sign,
                    v,
                    ns,
                    i as int,
                    self@,
                    dead@,
                    dead_chains as int,
                    first,
                    second,
                ),
            decreases neighbors@.len() - i,
        {
            let n: Vertex = neighbors[i];
            if self.data[n] == enemy && !self.has_liberties(n) {
                let chain = self.get_chain(n);
                let ghost cur = self@;
                let ghost dead0 = dead@;
                proof {
                    lemma_listed_chain(cur, n as int, chain@);
                }
                self.remove_stones(&chain, &mut dead);
                proof {
                    let w = lemma_capture_take(
                        g1,
                        sign,
                        v,
                        ns,
                        i as int,
                        cur,
                        dead0,
                        dead_chains as int,
                        first,
                        second,
                        self@,
                        dead@,
                    );
                    first = w.0;
                    second = w.1;
                }
                dead_chains += 1;
            } else {
                proof {
                    lemma_capture_skip(
                        g1,
                        sign,
                        v,
                        ns,
                        i as int,
                        self@,
                        dead@,
                        dead_chains as int,
                        first,
                        second,
                    );
                }
            }
            i += 1;
        }
        proof {
            lemma_capture_done(g1, sign, v, ns, self@, dead@, dead_chains as int, first, second);
        }
        (dead, dead_chains)
    }
}

} // verus!
