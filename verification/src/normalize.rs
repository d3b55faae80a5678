//! The normalizer: it checks the identifiers and removes, pass after pass,
//! the edges that can lie on no walk from the start to the end location.

use vstd::prelude::*;
use crate::edge::{
    entries_of, exits_of, first_repeated_id, has_entry, has_exit, holds_location,
    lemma_entries_hold, lemma_exits_hold, listed_entries, listed_exits, unique_ids, verify_edges,
    Edge, PathError,
};
use crate::route::{diverges_at, is_route, lemma_index_of_listed, precedes};
use crate::sift::{lemma_filter_keeps_all, lemma_filter_members, lemma_filter_positions};

verus! {

/// The edge leads to a location that is not the end and where no edge can be
/// entered.
pub open spec fn dead_end(edges: Seq<Edge>, end: u16, edge: Edge) -> bool {
    !has_entry(edges, edge.exit) && edge.exit != end
}

/// The edge sets out from a location that is not the start and where no
/// edge ends.
pub open spec fn unreachable(edges: Seq<Edge>, start: u16, edge: Edge) -> bool {
    !has_exit(edges, edge.entry) && edge.entry != start
}

/// The test that one pass applies: neither a dead end nor unreachable.
pub open spec fn viable(edges: Seq<Edge>, start: u16, end: u16) -> spec_fn(Edge) -> bool {
    |edge: Edge| !dead_end(edges, end, edge) && !unreachable(edges, start, edge)
}

/// What one pass leaves of the edges.
pub open spec fn pruned_once(edges: Seq<Edge>, start: u16, end: u16) -> Seq<Edge> {
    edges.filter(viable(edges, start, end))
}

/// What is left when passes are repeated until one removes nothing.
pub open spec fn pruned(edges: Seq<Edge>, start: u16, end: u16) -> Seq<Edge>
    decreases edges.len(),
{
    let next = pruned_once(edges, start, end);
    if next.len() < edges.len() {
        pruned(next, start, end)
    } else {
        edges
    }
}

/// Whether `edge` is a dead end, given the entry locations of the graph.
pub fn is_dead_end(edge: &Edge, node_entries: &[u16], end: u16) -> (b: bool)
    ensures
        b <==> edge.exit != end && !node_entries@.contains(edge.exit),
{
    edge.exit != end && !holds_location(node_entries, edge.exit)
}

/// Whether `edge` is unreachable, given the exit locations of the graph.
pub fn is_unreachable(edge: &Edge, node_exits: &[u16], start: u16) -> (b: bool)
    ensures
        b <==> edge.entry != start && !node_exits@.contains(edge.entry),
{
    edge.entry != start && !holds_location(node_exits, edge.entry)
}

/// One pass: keeps, in order, the edges that are neither dead ends nor
/// unreachable with respect to the whole list.
pub fn prune_pass(start: u16, end: u16, edges: &[Edge]) -> (kept: Vec<Edge>)
    ensures
        kept@ == pruned_once(edges@, start, end),
{
    let node_entries = entries_of(edges);
    let node_exits = exits_of(edges);
    let mut kept: Vec<Edge> = Vec::new();
    let mut k: usize = 0;
    proof {
        reveal(Seq::filter);
        assert(edges@.take(0).len() == 0);
    }
    while k < edges.len()
        invariant
            k <= edges@.len(),
            node_entries@ == listed_entries(edges@),
            node_exits@ == listed_exits(edges@),
            kept@ == edges@.take(k as int).filter(viable(edges@, start, end)),
        decreases edges@.len() - k,
    {
        let edge = edges[k];
        proof {
            lemma_entries_hold(edges@, edge.exit);
            lemma_exits_hold(edges@, edge.entry);
            edges@.take(k as int).lemma_filter_push(edge, viable(edges@, start, end));
            assert(edges@.take(k as int).push(edge) =~= edges@.take(k + 1));
        }
        if !is_dead_end(&edge, node_entries.as_slice(), end) && !is_unreachable(
            &edge,
            node_exits.as_slice(),
            start,
        ) {
            kept.push(edge);
        }
        k += 1;
    }
    assert(edges@.take(k as int) =~= edges@);
    kept
}

/// Checks the identifiers, then prunes until a pass removes nothing. An
/// edge list of which nothing is left holds no path.
pub fn normalize(start: u16, end: u16, edges: Vec<Edge>) -> (r: Result<Vec<Edge>, PathError>)
    ensures
        r is Ok <==> unique_ids(edges@) && pruned(edges@, start, end).len() > 0,
        r == Err::<Vec<Edge>, PathError>(PathError::NoPath) <==> unique_ids(edges@) && pruned(
            edges@,
            start,
            end,
        ).len() == 0,
        match r {
            Ok(left) => left@ == pruned(edges@, start, end),
            Err(PathError::InvalidInput(id)) => first_repeated_id(edges@, id),
            Err(PathError::NoPath) => true,
        },
{
    match verify_edges(edges.as_slice()) {
        Err(e) => {
            return Err(e);
        },
        Ok(_) => {},
    }
    let mut current = edges;
    loop
        invariant
            pruned(current@, start, end) == pruned(edges@, start, end),
        ensures
            current@ == pruned(edges@, start, end),
        decreases current@.len(),
    {
        let next = prune_pass(start, end, current.as_slice());
        proof {
            current@.lemma_filter_len(viable(current@, start, end));
        }
        if next.len() == current.len() {
            break ;
        }
        current = next;
    }
    if current.len() == 0 {
        return Err(PathError::NoPath);
    }
    Ok(current)
}

/// Every edge of `part` is an edge of `whole`.
pub open spec fn drawn_from(part: Seq<Edge>, whole: Seq<Edge>) -> bool {
    forall|i: int| 0 <= i < part.len() ==> whole.contains(#[trigger] part[i])
}

/// No edge of the list is a dead end or unreachable with respect to the
/// list itself: a pass would remove nothing.
pub open spec fn self_supporting(edges: Seq<Edge>, start: u16, end: u16) -> bool {
    forall|i: int| 0 <= i < edges.len() ==> viable(edges, start, end)(#[trigger] edges[i])
}

/// A pass over what pruning has left removes nothing: pruning ends in a
/// fixed point of the single pass.
pub proof fn lemma_pruned_is_fixed_point(edges: Seq<Edge>, start: u16, end: u16)
    ensures
        pruned_once(pruned(edges, start, end), start, end) == pruned(edges, start, end),
        pruned(pruned(edges, start, end), start, end) == pruned(edges, start, end),
        self_supporting(pruned(edges, start, end), start, end),
    decreases edges.len(),
{
    let next = pruned_once(edges, start, end);
    if next.len() < edges.len() {
        lemma_pruned_is_fixed_point(next, start, end);
    } else {
        edges.lemma_filter_len(viable(edges, start, end));
        lemma_filter_keeps_all(edges, viable(edges, start, end));
        lemma_filter_members(edges, viable(edges, start, end));
        assert forall|i: int| 0 <= i < edges.len() implies viable(edges, start, end)(
            #[trigger] edges[i],
        ) by {
            assert(next.contains(edges[i]));
        }
    }
}

/// A part of a part is a part of the whole.
pub proof fn lemma_drawn_from_chain(inner: Seq<Edge>, middle: Seq<Edge>, whole: Seq<Edge>)
    requires
        drawn_from(inner, middle),
        drawn_from(middle, whole),
    ensures
        drawn_from(inner, whole),
{
    assert forall|i: int| 0 <= i < inner.len() implies whole.contains(#[trigger] inner[i]) by {
        assert(middle.contains(inner[i]));
        let k = choose|k: int| 0 <= k < middle.len() && middle[k] == inner[i];
        assert(whole.contains(middle[k]));
    }
}

/// Pruning only removes: what a pass leaves was there before, and what is
/// left in the end was left by the first pass.
pub proof fn lemma_pruned_is_drawn(edges: Seq<Edge>, start: u16, end: u16)
    ensures
        drawn_from(pruned_once(edges, start, end), edges),
        drawn_from(pruned(edges, start, end), pruned_once(edges, start, end)),
        drawn_from(pruned(edges, start, end), edges),
    decreases edges.len(),
{
    let next = pruned_once(edges, start, end);
    let left = pruned(edges, start, end);
    lemma_filter_members(edges, viable(edges, start, end));
    assert forall|i: int| 0 <= i < next.len() implies edges.contains(#[trigger] next[i]) by {
        assert(next.contains(next[i]));
    }
    if next.len() < edges.len() {
        lemma_pruned_is_drawn(next, start, end);
    } else {
        edges.lemma_filter_len(viable(edges, start, end));
        lemma_filter_keeps_all(edges, viable(edges, start, end));
        assert forall|i: int| 0 <= i < left.len() implies next.contains(#[trigger] left[i]) by {
            assert(next[i] == left[i]);
        }
    }
    lemma_drawn_from_chain(left, next, edges);
}

/// A part of the graph that supports itself outlives every pass: pruning
/// leaves the largest such part.
pub proof fn lemma_self_supporting_survives(
    edges: Seq<Edge>,
    part: Seq<Edge>,
    start: u16,
    end: u16,
)
    requires
        drawn_from(part, edges),
        self_supporting(part, start, end),
    ensures
        drawn_from(part, pruned(edges, start, end)),
    decreases edges.len(),
{
    let next = pruned_once(edges, start, end);
    if next.len() < edges.len() {
        lemma_filter_members(edges, viable(edges, start, end));
        assert forall|i: int| 0 <= i < part.len() implies next.contains(#[trigger] part[i]) by {
            let edge = part[i];
            assert(viable(part, start, end)(edge));
            assert(edges.contains(edge));
            if has_entry(part, edge.exit) {
                let k = choose|k: int|
                    0 <= k < part.len() && (#[trigger] part[k]).entry == edge.exit;
                assert(edges.contains(part[k]));
                let n = choose|n: int| 0 <= n < edges.len() && edges[n] == part[k];
                assert(edges[n].entry == edge.exit);
            }
            if has_exit(part, edge.entry) {
                let k = choose|k: int|
                    0 <= k < part.len() && (#[trigger] part[k]).exit == edge.entry;
                assert(edges.contains(part[k]));
                let n = choose|n: int| 0 <= n < edges.len() && edges[n] == part[k];
                assert(edges[n].exit == edge.entry);
            }
            assert(viable(edges, start, end)(edge));
        }
        lemma_self_supporting_survives(next, part, start, end);
    }
}

/// The edges of a route support one another: each is entered where the
/// one before ends, or at the start, and ends where the next is entered, or
/// at the end.
pub proof fn lemma_route_is_self_supporting(
    edges: Seq<Edge>,
    start: u16,
    end: u16,
    route: Seq<Edge>,
)
    requires
        is_route(edges, start, end, route),
    ensures
        self_supporting(route, start, end),
{
    assert forall|i: int| 0 <= i < route.len() implies viable(route, start, end)(
        #[trigger] route[i],
    ) by {
        if i < route.len() - 1 {
            assert(route[i].exit == route[i + 1].entry);
            assert(has_entry(route, route[i].exit));
        }
        if i > 0 {
            assert(route[i - 1].exit == route[i].entry);
            assert(has_exit(route, route[i].entry));
        }
    }
}

/// Pruning neither removes a route nor makes one: the graph and what is
/// left of it have the same routes.
pub proof fn lemma_pruning_keeps_routes(edges: Seq<Edge>, start: u16, end: u16, route: Seq<Edge>)
    ensures
        is_route(edges, start, end, route) <==> is_route(
            pruned(edges, start, end),
            start,
            end,
            route,
        ),
{
    let left = pruned(edges, start, end);
    if is_route(edges, start, end, route) {
        lemma_route_is_self_supporting(edges, start, end, route);
        lemma_self_supporting_survives(edges, route, start, end);
    }
    if is_route(left, start, end, route) {
        lemma_pruned_is_drawn(edges, start, end);
        lemma_drawn_from_chain(route, left, edges);
    }
}

/// A pass leaves the identifiers unique.
pub proof fn lemma_pass_keeps_ids_unique(edges: Seq<Edge>, start: u16, end: u16)
    requires
        unique_ids(edges),
    ensures
        unique_ids(pruned_once(edges, start, end)),
{
    let next = pruned_once(edges, start, end);
    let pos = lemma_filter_positions(edges, viable(edges, start, end));
    assert forall|a: int, b: int| 0 <= a < b < next.len() implies next[a].id != next[b].id by {
        assert(pos[a] < pos[b]);
        assert(edges[pos[a]].id != edges[pos[b]].id);
    }
}

/// A pass keeps the edges in their order: of two that it leaves, the one
/// found first in what is left was found first before.
pub proof fn lemma_pass_keeps_order(edges: Seq<Edge>, start: u16, end: u16, x: Edge, y: Edge)
    requires
        unique_ids(edges),
        pruned_once(edges, start, end).contains(x),
        pruned_once(edges, start, end).contains(y),
        pruned_once(edges, start, end).index_of(x) < pruned_once(edges, start, end).index_of(y),
    ensures
        edges.index_of(x) < edges.index_of(y),
{
    let next = pruned_once(edges, start, end);
    let pos = lemma_filter_positions(edges, viable(edges, start, end));
    let a = next.index_of(x);
    let b = next.index_of(y);
    assert(pos[a] < pos[b]);
    lemma_index_of_listed(edges, pos[a]);
    lemma_index_of_listed(edges, pos[b]);
}

/// Pruning leaves the identifiers unique.
pub proof fn lemma_pruning_keeps_ids_unique(edges: Seq<Edge>, start: u16, end: u16)
    requires
        unique_ids(edges),
    ensures
        unique_ids(pruned(edges, start, end)),
    decreases edges.len(),
{
    let next = pruned_once(edges, start, end);
    if next.len() < edges.len() {
        lemma_pass_keeps_ids_unique(edges, start, end);
        lemma_pruning_keeps_ids_unique(next, start, end);
    }
}

/// Pruning keeps the edges in their order.
pub proof fn lemma_pruning_keeps_order(edges: Seq<Edge>, start: u16, end: u16, x: Edge, y: Edge)
    requires
        unique_ids(edges),
        pruned(edges, start, end).contains(x),
        pruned(edges, start, end).contains(y),
        pruned(edges, start, end).index_of(x) < pruned(edges, start, end).index_of(y),
    ensures
        edges.index_of(x) < edges.index_of(y),
    decreases edges.len(),
{
    let next = pruned_once(edges, start, end);
    let left = pruned(edges, start, end);
    if next.len() < edges.len() {
        lemma_pass_keeps_ids_unique(edges, start, end);
        lemma_pruning_keeps_order(next, start, end, x, y);
        lemma_pruned_is_drawn(edges, start, end);
        let a = choose|a: int| 0 <= a < left.len() && left[a] == x;
        assert(next.contains(left[a]));
        let b = choose|b: int| 0 <= b < left.len() && left[b] == y;
        assert(next.contains(left[b]));
        lemma_pass_keeps_order(edges, start, end, x, y);
    }
}

/// Walks over what pruning has left stand in the same order of discovery
/// in the graph as in what is left of it.
pub proof fn lemma_pruning_keeps_discovery_order(
    edges: Seq<Edge>,
    start: u16,
    end: u16,
    a: Seq<Edge>,
    b: Seq<Edge>,
)
    requires
        unique_ids(edges),
        drawn_from(a, pruned(edges, start, end)),
        drawn_from(b, pruned(edges, start, end)),
        precedes(pruned(edges, start, end), a, b),
    ensures
        precedes(edges, a, b),
{
    let left = pruned(edges, start, end);
    let n = choose|n: int| diverges_at(left, a, b, n);
    assert(left.contains(a[n]));
    assert(left.contains(b[n]));
    lemma_pruning_keeps_order(edges, start, end, a[n], b[n]);
    assert(diverges_at(edges, a, b, n));
}

/// An edge that sets out from the start is never removed as unreachable,
/// and one that ends at the end is never removed as a dead end: a pass
/// removes the first only for where it leads, the second only for where
/// it comes from.
pub proof fn law_pass_spares_terminal_edges(edges: Seq<Edge>, start: u16, end: u16, edge: Edge)
    requires
        edges.contains(edge),
    ensures
        edge.entry == start ==> (pruned_once(edges, start, end).contains(edge) <==> !dead_end(
            edges,
            end,
            edge,
        )),
        edge.exit == end ==> (pruned_once(edges, start, end).contains(edge) <==> !unreachable(
            edges,
            start,
            edge,
        )),
        edge.entry == start && edge.exit == end ==> pruned_once(edges, start, end).contains(edge),
{
    lemma_filter_members(edges, viable(edges, start, end));
}

/// The same of pruning as a whole. An edge from the start is left exactly
/// when it leads to the end or to an edge that is left; an edge to the end,
/// exactly when it comes from the start or from an edge that is left; an
/// edge from the start to the end, always.
pub proof fn law_pruning_spares_terminal_edges(
    edges: Seq<Edge>,
    start: u16,
    end: u16,
    edge: Edge,
)
    requires
        edges.contains(edge),
    ensures
        edge.entry == start ==> (pruned(edges, start, end).contains(edge) <==> edge.exit == end
            || has_entry(pruned(edges, start, end), edge.exit)),
        edge.exit == end ==> (pruned(edges, start, end).contains(edge) <==> edge.entry == start
            || has_exit(pruned(edges, start, end), edge.entry)),
        edge.entry == start && edge.exit == end ==> pruned(edges, start, end).contains(edge),
{
    let left = pruned(edges, start, end);
    lemma_pruned_is_fixed_point(edges, start, end);
    lemma_pruned_is_drawn(edges, start, end);
    if left.contains(edge) {
        let i = choose|i: int| 0 <= i < left.len() && left[i] == edge;
        assert(viable(left, start, end)(left[i]));
    } else {
        let more = left.push(edge);
        assert(more[left.len() as int] == edge);
        let from_start = edge.entry == start && (edge.exit == end || has_entry(left, edge.exit));
        let to_end = edge.exit == end && (edge.entry == start || has_exit(left, edge.entry));
        if from_start || to_end {
            assert forall|i: int| 0 <= i < more.len() implies viable(more, start, end)(
                #[trigger] more[i],
            ) by {
                let e = more[i];
                if i < left.len() {
                    assert(viable(left, start, end)(left[i]));
                }
                if has_entry(left, e.exit) {
                    let k = choose|k: int|
                        0 <= k < left.len() && (#[trigger] left[k]).entry == e.exit;
                    assert(more[k].entry == e.exit);
                }
                if has_exit(left, e.entry) {
                    let k = choose|k: int|
                        0 <= k < left.len() && (#[trigger] left[k]).exit == e.entry;
                    assert(more[k].exit == e.entry);
                }
            }
            assert forall|i: int| 0 <= i < more.len() implies edges.contains(
                #[trigger] more[i],
            ) by {
                if i < left.len() {
                    assert(edges.contains(left[i]));
                }
            }
            lemma_self_supporting_survives(edges, more, start, end);
            assert(left.contains(more[left.len() as int]));
        }
    }
}

/// An edge that a pass finds to be a dead end or unreachable is gone after
/// that pass and stays gone.
pub proof fn law_pruning_removes(edges: Seq<Edge>, start: u16, end: u16, edge: Edge)
    requires
        dead_end(edges, end, edge) || unreachable(edges, start, edge),
    ensures
        !pruned_once(edges, start, end).contains(edge),
        !pruned(edges, start, end).contains(edge),
{
    let next = pruned_once(edges, start, end);
    let left = pruned(edges, start, end);
    lemma_filter_members(edges, viable(edges, start, end));
    lemma_pruned_is_drawn(edges, start, end);
    if left.contains(edge) {
        let i = choose|i: int| 0 <= i < left.len() && left[i] == edge;
        assert(next.contains(left[i]));
    }
}

} // verus!
