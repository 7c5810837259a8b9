//! Lists of points: how the board's methods hand out sets of points.

use crate::grid::Vertex;
use vstd::prelude::*;

verus! {

/// `r` lists the members of `s`, each once, in ascending order.
pub open spec fn lists(r: Seq<Vertex>, s: Set<int>) -> bool {
    &&& forall|i: int, j: int| 0 <= i < j < r.len() ==> r[i] < r[j]
    &&& forall|i: int| 0 <= i < r.len() ==> s.contains(#[trigger] r[i] as int)
    &&& forall|v: int| s.contains(v) ==> exists|i: int| 0 <= i < r.len() && #[trigger] r[i] == v
}

/// `r` holds the same vertices as `s`, in the same order.
pub open spec fn same_vertices(r: Seq<Vertex>, s: Seq<int>) -> bool {
    &&& r.len() == s.len()
    &&& forall|i: int| 0 <= i < r.len() ==> #[trigger] r[i] as int == s[i]
}

/// The points that `stones` names.
pub open spec fn vertex_set(stones: Seq<Vertex>) -> Set<int> {
    Set::new(|v: int| exists|k: int| 0 <= k < stones.len() && #[trigger] stones[k] == v)
}

/// The greatest member of a listed set stands last in the listing.
proof fn lemma_listing_last(a: Seq<Vertex>, s: Set<int>, v: int)
    requires
        lists(a, s),
        s.contains(v),
    ensures
        a.len() > 0,
        v <= a.last(),
{
    let i = choose|i: int| 0 <= i < a.len() && #[trigger] a[i] == v;
    if i < a.len() - 1 {
        assert(a[i] < a[a.len() - 1]);
    }
}

/// A listing without its last entry lists the set without its greatest member.
proof fn lemma_listing_drop_last(a: Seq<Vertex>, s: Set<int>)
    requires
        lists(a, s),
        a.len() > 0,
    ensures
        lists(a.drop_last(), s.remove(a.last() as int)),
{
    let rest = a.drop_last();
    let top = a.last() as int;
    assert forall|v: int| s.remove(top).contains(v) implies exists|i: int|
        0 <= i < rest.len() && #[trigger] rest[i] == v by {
        let i = choose|i: int| 0 <= i < a.len() && #[trigger] a[i] == v;
        assert(rest[i] == v);
    }
}

/// A set has one listing only: two lists that both name its members, each
/// once and in ascending order, are the same list.
pub proof fn lemma_listing_unique(a: Seq<Vertex>, b: Seq<Vertex>, s: Set<int>)
    requires
        lists(a, s),
        lists(b, s),
    ensures
        a == b,
    decreases a.len(),
{
    if a.len() == 0 {
        if b.len() > 0 {
            lemma_listing_last(a, s, b[0] as int);
        }
    } else {
        lemma_listing_last(b, s, a.last() as int);
        lemma_listing_last(a, s, b.last() as int);
        lemma_listing_drop_last(a, s);
        lemma_listing_drop_last(b, s);
        lemma_listing_unique(a.drop_last(), b.drop_last(), s.remove(a.last() as int));
    }
}

} // verus!
