//! What a route is: the walks that the search is asked to find, the order in
//! which it reports them, and the facts about both that the proofs rest on.

use vstd::prelude::*;
use vstd::seq_lib::seq_to_set_is_finite;
use vstd::set_lib::lemma_len_subset;
use crate::edge::{unique_ids, Edge};
use crate::path::{ids_of, total_weight};

verus! {

/// The walk ends at the location `end`.
pub open spec fn arrives(walk: Seq<Edge>, end: u16) -> bool {
    walk.len() > 0 && walk.last().exit == end
}

/// A walk over edges of the graph that sets out from `start`, follows
/// adjacent edges, takes no edge twice, and has not stood at `end` before its
/// last edge.
pub open spec fn is_trail(edges: Seq<Edge>, start: u16, end: u16, walk: Seq<Edge>) -> bool {
    &&& walk.len() > 0
    &&& walk[0].entry == start
    &&& forall|i: int| 0 <= i < walk.len() ==> edges.contains(#[trigger] walk[i])
    &&& forall|i: int|
        0 <= i < walk.len() - 1 ==> (#[trigger] walk[i]).exit == walk[i + 1].entry && walk[i].exit
            != end
    &&& unique_ids(walk)
}

/// A trail that ends at `end`: it stops the first time it reaches it.
pub open spec fn is_route(edges: Seq<Edge>, start: u16, end: u16, walk: Seq<Edge>) -> bool {
    is_trail(edges, start, end, walk) && walk.last().exit == end
}

/// A route that no other route undercuts.
pub open spec fn is_shortest_route(
    edges: Seq<Edge>,
    start: u16,
    end: u16,
    walk: Seq<Edge>,
) -> bool {
    &&& is_route(edges, start, end, walk)
    &&& forall|other: Seq<Edge>| #[trigger]
        is_route(edges, start, end, other) ==> total_weight(walk) <= total_weight(other)
}

/// The walks `a` and `b` agree on their first `n` edges and part ways at the
/// next, where `a` takes an edge that stands earlier in the list.
pub open spec fn diverges_at(edges: Seq<Edge>, a: Seq<Edge>, b: Seq<Edge>, n: int) -> bool {
    &&& 0 <= n < a.len()
    &&& n < b.len()
    &&& a.take(n) == b.take(n)
    &&& edges.index_of(a[n]) < edges.index_of(b[n])
}

/// The order of discovery: `a` comes before `b` when, at the first edge in
/// which they differ, `a` takes the one listed earlier.
pub open spec fn precedes(edges: Seq<Edge>, a: Seq<Edge>, b: Seq<Edge>) -> bool {
    exists|n: int| diverges_at(edges, a, b, n)
}

/// Every walk of the list comes before all that follow it.
pub open spec fn in_discovery_order(edges: Seq<Edge>, walks: Seq<Seq<Edge>>) -> bool {
    forall|i: int, j: int|
        0 <= i < j < walks.len() ==> precedes(edges, #[trigger] walks[i], #[trigger] walks[j])
}

/// In a list with unique identifiers an edge is found where it stands.
pub proof fn lemma_index_of_listed(edges: Seq<Edge>, k: int)
    requires
        unique_ids(edges),
        0 <= k < edges.len(),
    ensures
        edges.index_of(edges[k]) == k,
{
    let found = edges.index_of(edges[k]);
    assert(0 <= found < edges.len() && edges[found] == edges[k]);
    if found < k {
        assert(edges[found].id != edges[k].id);
    } else if k < found {
        assert(edges[k].id != edges[found].id);
    }
}

/// A walk that takes no edge twice is no longer than the list it draws from.
pub proof fn lemma_walk_fits(edges: Seq<Edge>, walk: Seq<Edge>)
    requires
        unique_ids(walk),
        forall|i: int| 0 <= i < walk.len() ==> edges.contains(#[trigger] walk[i]),
    ensures
        walk.len() <= edges.len(),
{
    let taken = ids_of(walk);
    let listed = ids_of(edges);
    assert(taken.no_duplicates()) by {
        assert forall|i: int, j: int|
            0 <= i < taken.len() && 0 <= j < taken.len() && i != j implies taken[i] != taken[j] by {
            if i < j {
                assert(walk[i].id != walk[j].id);
            } else {
                assert(walk[j].id != walk[i].id);
            }
        }
    }
    taken.unique_seq_to_set();
    listed.lemma_cardinality_of_set();
    seq_to_set_is_finite(listed);
    assert(taken.to_set().subset_of(listed.to_set())) by {
        assert forall|id: u16| taken.to_set().contains(id) implies listed.to_set().contains(
            id,
        ) by {
            let i = choose|i: int| 0 <= i < taken.len() && taken[i] == id;
            assert(edges.contains(walk[i]));
            let k = choose|k: int| 0 <= k < edges.len() && edges[k] == walk[i];
            assert(listed[k] == id);
        }
    }
    lemma_len_subset(taken.to_set(), listed.to_set());
}

/// Walks that have parted ways stay in the same order however they go on.
pub proof fn lemma_precedes_extends(
    edges: Seq<Edge>,
    a: Seq<Edge>,
    b: Seq<Edge>,
    longer_a: Seq<Edge>,
    longer_b: Seq<Edge>,
)
    requires
        precedes(edges, a, b),
        a.is_prefix_of(longer_a),
        b.is_prefix_of(longer_b),
    ensures
        precedes(edges, longer_a, longer_b),
{
    let n = choose|n: int| diverges_at(edges, a, b, n);
    assert(longer_a.take(n) =~= a.take(n));
    assert(longer_b.take(n) =~= b.take(n));
    assert(longer_a[n] == a[n]);
    assert(longer_b[n] == b[n]);
    assert(diverges_at(edges, longer_a, longer_b, n));
}

/// Of two walks that extend one stem by different edges, the one that takes
/// the edge listed earlier comes first.
pub proof fn lemma_precedes_siblings(edges: Seq<Edge>, stem: Seq<Edge>, i: int, j: int)
    requires
        unique_ids(edges),
        0 <= i < j < edges.len(),
    ensures
        precedes(edges, stem.push(edges[i]), stem.push(edges[j])),
{
    lemma_index_of_listed(edges, i);
    lemma_index_of_listed(edges, j);
    let n = stem.len() as int;
    assert(stem.push(edges[i]).take(n) =~= stem.push(edges[j]).take(n));
    assert(diverges_at(edges, stem.push(edges[i]), stem.push(edges[j]), n));
}

} // verus!
