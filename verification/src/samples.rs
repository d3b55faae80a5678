//! Sample graphs, each with the search that it is meant for, and a search
//! of a graph drawn at random.

use vstd::prelude::*;
use rand::Rng;
use crate::edge::{unique_ids, Edge, PathError};
use crate::route::is_route;
use crate::shortest::{is_outcome_of, search_report, Report};

verus! {

/// Edges that are numbered from one, in list order, have unique
/// identifiers.
proof fn lemma_numbered_from_one(edges: Seq<Edge>)
    requires
        forall|k: int| 0 <= k < edges.len() ==> (#[trigger] edges[k]).id == k + 1,
    ensures
        unique_ids(edges),
{
}

/// A graph with dead-end chains, unreachable chains, a loop between two
/// locations, and two lightest routes of two edges each.
pub open spec fn matthiaskrgr_graph() -> Seq<Edge> {
    seq![
        Edge { id: 1, entry: 0, exit: 5, weight: 1 },
        Edge { id: 2, entry: 5, exit: 10, weight: 1 },
        Edge { id: 3, entry: 5, exit: 7, weight: 1 },
        Edge { id: 4, entry: 7, exit: 10, weight: 1 },
        Edge { id: 5, entry: 6, exit: 10, weight: 1 },
        Edge { id: 6, entry: 7, exit: 11, weight: 1 },
        Edge { id: 7, entry: 11, exit: 20, weight: 1 },
        Edge { id: 8, entry: 20, exit: 25, weight: 1 },
        Edge { id: 9, entry: 25, exit: 26, weight: 1 },
        Edge { id: 10, entry: 26, exit: 27, weight: 1 },
        Edge { id: 11, entry: 50, exit: 10, weight: 1 },
        Edge { id: 12, entry: 49, exit: 50, weight: 1 },
        Edge { id: 13, entry: 48, exit: 59, weight: 1 },
        Edge { id: 14, entry: 0, exit: 100, weight: 1 },
        Edge { id: 15, entry: 100, exit: 10, weight: 1 },
        Edge { id: 16, entry: 5, exit: 9, weight: 1 },
        Edge { id: 17, entry: 9, exit: 200, weight: 1 },
        Edge { id: 18, entry: 200, exit: 10, weight: 1 },
        Edge { id: 19, entry: 7, exit: 5, weight: 1 },
    ]
}

/// Builds the graph `matthiaskrgr_graph`.
pub fn matthiaskrgr_edges() -> (edgevec: Vec<Edge>)
    ensures
        edgevec@ == matthiaskrgr_graph(),
{
    let mut edgevec: Vec<Edge> = Vec::new();
    edgevec.push(Edge { id: 1, entry: 0, exit: 5, weight: 1 });
    edgevec.push(Edge { id: 2, entry: 5, exit: 10, weight: 1 });
    edgevec.push(Edge { id: 3, entry: 5, exit: 7, weight: 1 });
    edgevec.push(Edge { id: 4, entry: 7, exit: 10, weight: 1 });
    edgevec.push(Edge { id: 5, entry: 6, exit: 10, weight: 1 });
    edgevec.push(Edge { id: 6, entry: 7, exit: 11, weight: 1 });
    edgevec.push(Edge { id: 7, entry: 11, exit: 20, weight: 1 });
    edgevec.push(Edge { id: 8, entry: 20, exit: 25, weight: 1 });
    edgevec.push(Edge { id: 9, entry: 25, exit: 26, weight: 1 });
    edgevec.push(Edge { id: 10, entry: 26, exit: 27, weight: 1 });
    edgevec.push(Edge { id: 11, entry: 50, exit: 10, weight: 1 });
    edgevec.push(Edge { id: 12, entry: 49, exit: 50, weight: 1 });
    edgevec.push(Edge { id: 13, entry: 48, exit: 59, weight: 1 });
    edgevec.push(Edge { id: 14, entry: 0, exit: 100, weight: 1 });
    edgevec.push(Edge { id: 15, entry: 100, exit: 10, weight: 1 });
    edgevec.push(Edge { id: 16, entry: 5, exit: 9, weight: 1 });
    edgevec.push(Edge { id: 17, entry: 9, exit: 200, weight: 1 });
    edgevec.push(Edge { id: 18, entry: 200, exit: 10, weight: 1 });
    edgevec.push(Edge { id: 19, entry: 7, exit: 5, weight: 1 });
    assert(edgevec@ =~= matthiaskrgr_graph());
    edgevec
}

/// Searches `matthiaskrgr_graph` from location 0 to location 10.
pub fn test_matthiaskrgr() -> (r: Result<Report, PathError>)
    ensures
        r is Ok,
        is_outcome_of(matthiaskrgr_graph(), 0, 10, r),
{
    let start_floor: u16 = 0;
    let end_floor: u16 = 10;
    proof {
        let graph = matthiaskrgr_graph();
        lemma_numbered_from_one(graph);
        let route = seq![graph[0], graph[1]];
        assert(graph.contains(route[0]));
        assert(graph.contains(route[1]));
        assert(is_route(graph, start_floor, end_floor, route));
    }
    search_report(start_floor, end_floor, matthiaskrgr_edges())
}

/// A fork after the first edge: one branch arrives at once, the other takes
/// a detour.
pub open spec fn prolog1_graph() -> Seq<Edge> {
    seq![
        Edge { id: 1, entry: 0, exit: 5, weight: 1 },
        Edge { id: 2, entry: 5, exit: 10, weight: 1 },
        Edge { id: 3, entry: 5, exit: 7, weight: 1 },
        Edge { id: 4, entry: 7, exit: 10, weight: 1 },
    ]
}

/// Builds the graph `prolog1_graph`.
pub fn prolog1_edges() -> (edgevec: Vec<Edge>)
    ensures
        edgevec@ == prolog1_graph(),
{
    let mut edgevec: Vec<Edge> = Vec::new();
    edgevec.push(Edge { id: 1, entry: 0, exit: 5, weight: 1 });
    edgevec.push(Edge { id: 2, entry: 5, exit: 10, weight: 1 });
    edgevec.push(Edge { id: 3, entry: 5, exit: 7, weight: 1 });
    edgevec.push(Edge { id: 4, entry: 7, exit: 10, weight: 1 });
    assert(edgevec@ =~= prolog1_graph());
    edgevec
}

/// Searches `prolog1_graph` from location 0 to location 10.
pub fn test_prolog1() -> (r: Result<Report, PathError>)
    ensures
        r is Ok,
        is_outcome_of(prolog1_graph(), 0, 10, r),
{
    let start_floor: u16 = 0;
    let end_floor: u16 = 10;
    proof {
        let graph = prolog1_graph();
        lemma_numbered_from_one(graph);
        let route = seq![graph[0], graph[1]];
        assert(graph.contains(route[0]));
        assert(graph.contains(route[1]));
        assert(is_route(graph, start_floor, end_floor, route));
    }
    search_report(start_floor, end_floor, prolog1_edges())
}

/// The same fork with the detour through another location.
pub open spec fn prolog2_graph() -> Seq<Edge> {
    seq![
        Edge { id: 1, entry: 0, exit: 5, weight: 1 },
        Edge { id: 2, entry: 5, exit: 10, weight: 1 },
        Edge { id: 3, entry: 5, exit: 8, weight: 1 },
        Edge { id: 4, entry: 8, exit: 10, weight: 1 },
    ]
}

/// Builds the graph `prolog2_graph`.
pub fn prolog2_edges() -> (edgevec: Vec<Edge>)
    ensures
        edgevec@ == prolog2_graph(),
{
    let mut edgevec: Vec<Edge> = Vec::new();
    edgevec.push(Edge { id: 1, entry: 0, exit: 5, weight: 1 });
    edgevec.push(Edge { id: 2, entry: 5, exit: 10, weight: 1 });
    edgevec.push(Edge { id: 3, entry: 5, exit: 8, weight: 1 });
    edgevec.push(Edge { id: 4, entry: 8, exit: 10, weight: 1 });
    assert(edgevec@ =~= prolog2_graph());
    edgevec
}

/// Searches `prolog2_graph` from location 0 to location 10.
pub fn test_prolog2() -> (r: Result<Report, PathError>)
    ensures
        r is Ok,
        is_outcome_of(prolog2_graph(), 0, 10, r),
{
    let start_floor: u16 = 0;
    let end_floor: u16 = 10;
    proof {
        let graph = prolog2_graph();
        lemma_numbered_from_one(graph);
        let route = seq![graph[0], graph[1]];
        assert(graph.contains(route[0]));
        assert(graph.contains(route[1]));
        assert(is_route(graph, start_floor, end_floor, route));
    }
    search_report(start_floor, end_floor, prolog2_edges())
}

/// A graph most of which sets out from a location that nothing leads to.
pub open spec fn prolog3_graph() -> Seq<Edge> {
    seq![
        Edge { id: 1, entry: 0, exit: 6, weight: 1 },
        Edge { id: 2, entry: 6, exit: 19, weight: 1 },
        Edge { id: 3, entry: 3, exit: 6, weight: 1 },
        Edge { id: 4, entry: 3, exit: 9, weight: 1 },
        Edge { id: 5, entry: 9, exit: 19, weight: 1 },
        Edge { id: 6, entry: 3, exit: 13, weight: 1 },
        Edge { id: 7, entry: 13, exit: 17, weight: 1 },
        Edge { id: 8, entry: 17, exit: 19, weight: 1 },
        Edge { id: 9, entry: 9, exit: 17, weight: 1 },
        Edge { id: 10, entry: 6, exit: 17, weight: 1 },
    ]
}

/// Builds the graph `prolog3_graph`.
pub fn prolog3_edges() -> (edgevec: Vec<Edge>)
    ensures
        edgevec@ == prolog3_graph(),
{
    let mut edgevec: Vec<Edge> = Vec::new();
    edgevec.push(Edge { id: 1, entry: 0, exit: 6, weight: 1 });
    edgevec.push(Edge { id: 2, entry: 6, exit: 19, weight: 1 });
    edgevec.push(Edge { id: 3, entry: 3, exit: 6, weight: 1 });
    edgevec.push(Edge { id: 4, entry: 3, exit: 9, weight: 1 });
    edgevec.push(Edge { id: 5, entry: 9, exit: 19, weight: 1 });
    edgevec.push(Edge { id: 6, entry: 3, exit: 13, weight: 1 });
    edgevec.push(Edge { id: 7, entry: 13, exit: 17, weight: 1 });
    edgevec.push(Edge { id: 8, entry: 17, exit: 19, weight: 1 });
    edgevec.push(Edge { id: 9, entry: 9, exit: 17, weight: 1 });
    edgevec.push(Edge { id: 10, entry: 6, exit: 17, weight: 1 });
    assert(edgevec@ =~= prolog3_graph());
    edgevec
}

/// Searches `prolog3_graph` from location 0 to location 19.
pub fn test_prolog3() -> (r: Result<Report, PathError>)
    ensures
        r is Ok,
        is_outcome_of(prolog3_graph(), 0, 19, r),
{
    let start_floor: u16 = 0;
    let end_floor: u16 = 19;
    proof {
        let graph = prolog3_graph();
        lemma_numbered_from_one(graph);
        let route = seq![graph[0], graph[1]];
        assert(graph.contains(route[0]));
        assert(graph.contains(route[1]));
        assert(is_route(graph, start_floor, end_floor, route));
    }
    search_report(start_floor, end_floor, prolog3_edges())
}

/// A side entrance that cannot be reached, and a detour before the end.
pub open spec fn prolog4_graph() -> Seq<Edge> {
    seq![
        Edge { id: 1, entry: 0, exit: 6, weight: 1 },
        Edge { id: 2, entry: 2, exit: 6, weight: 1 },
        Edge { id: 3, entry: 6, exit: 8, weight: 1 },
        Edge { id: 4, entry: 8, exit: 10, weight: 1 },
        Edge { id: 5, entry: 6, exit: 10, weight: 1 },
    ]
}

/// Builds the graph `prolog4_graph`.
pub fn prolog4_edges() -> (edgevec: Vec<Edge>)
    ensures
        edgevec@ == prolog4_graph(),
{
    let mut edgevec: Vec<Edge> = Vec::new();
    edgevec.push(Edge { id: 1, entry: 0, exit: 6, weight: 1 });
    edgevec.push(Edge { id: 2, entry: 2, exit: 6, weight: 1 });
    edgevec.push(Edge { id: 3, entry: 6, exit: 8, weight: 1 });
    edgevec.push(Edge { id: 4, entry: 8, exit: 10, weight: 1 });
    edgevec.push(Edge { id: 5, entry: 6, exit: 10, weight: 1 });
    assert(edgevec@ =~= prolog4_graph());
    edgevec
}

/// Searches `prolog4_graph` from location 0 to location 10.
pub fn test_prolog4() -> (r: Result<Report, PathError>)
    ensures
        r is Ok,
        is_outcome_of(prolog4_graph(), 0, 10, r),
{
    let start_floor: u16 = 0;
    let end_floor: u16 = 10;
    proof {
        let graph = prolog4_graph();
        lemma_numbered_from_one(graph);
        let route = seq![graph[0], graph[4]];
        assert(graph.contains(route[0]));
        assert(graph.contains(route[1]));
        assert(is_route(graph, start_floor, end_floor, route));
    }
    search_report(start_floor, end_floor, prolog4_edges())
}

/// Two ways out of the start, of two and of three edges.
pub open spec fn prolog5_graph() -> Seq<Edge> {
    seq![
        Edge { id: 1, entry: 0, exit: 3, weight: 1 },
        Edge { id: 2, entry: 2, exit: 6, weight: 1 },
        Edge { id: 3, entry: 0, exit: 2, weight: 1 },
        Edge { id: 4, entry: 3, exit: 10, weight: 1 },
        Edge { id: 5, entry: 6, exit: 10, weight: 1 },
    ]
}

/// Builds the graph `prolog5_graph`.
pub fn prolog5_edges() -> (edgevec: Vec<Edge>)
    ensures
        edgevec@ == prolog5_graph(),
{
    let mut edgevec: Vec<Edge> = Vec::new();
    edgevec.push(Edge { id: 1, entry: 0, exit: 3, weight: 1 });
    edgevec.push(Edge { id: 2, entry: 2, exit: 6, weight: 1 });
    edgevec.push(Edge { id: 3, entry: 0, exit: 2, weight: 1 });
    edgevec.push(Edge { id: 4, entry: 3, exit: 10, weight: 1 });
    edgevec.push(Edge { id: 5, entry: 6, exit: 10, weight: 1 });
    assert(edgevec@ =~= prolog5_graph());
    edgevec
}

/// Searches `prolog5_graph` from location 0 to location 10.
pub fn test_prolog5() -> (r: Result<Report, PathError>)
    ensures
        r is Ok,
        is_outcome_of(prolog5_graph(), 0, 10, r),
{
    let start_floor: u16 = 0;
    let end_floor: u16 = 10;
    proof {
        let graph = prolog5_graph();
        lemma_numbered_from_one(graph);
        let route = seq![graph[0], graph[3]];
        assert(graph.contains(route[0]));
        assert(graph.contains(route[1]));
        assert(is_route(graph, start_floor, end_floor, route));
    }
    search_report(start_floor, end_floor, prolog5_edges())
}

/// Two parallel edges into the end: two lightest routes that differ in
/// their last edge only.
pub open spec fn prolog6_graph() -> Seq<Edge> {
    seq![
        Edge { id: 1, entry: 0, exit: 3, weight: 1 },
        Edge { id: 2, entry: 5, exit: 10, weight: 1 },
        Edge { id: 3, entry: 3, exit: 8, weight: 1 },
        Edge { id: 4, entry: 8, exit: 12, weight: 1 },
        Edge { id: 5, entry: 8, exit: 12, weight: 1 },
    ]
}

/// Builds the graph `prolog6_graph`.
pub fn prolog6_edges() -> (edgevec: Vec<Edge>)
    ensures
        edgevec@ == prolog6_graph(),
{
    let mut edgevec: Vec<Edge> = Vec::new();
    edgevec.push(Edge { id: 1, entry: 0, exit: 3, weight: 1 });
    edgevec.push(Edge { id: 2, entry: 5, exit: 10, weight: 1 });
    edgevec.push(Edge { id: 3, entry: 3, exit: 8, weight: 1 });
    edgevec.push(Edge { id: 4, entry: 8, exit: 12, weight: 1 });
    edgevec.push(Edge { id: 5, entry: 8, exit: 12, weight: 1 });
    assert(edgevec@ =~= prolog6_graph());
    edgevec
}

/// Searches `prolog6_graph` from location 0 to location 12.
pub fn test_prolog6() -> (r: Result<Report, PathError>)
    ensures
        r is Ok,
        is_outcome_of(prolog6_graph(), 0, 12, r),
{
    let start_floor: u16 = 0;
    let end_floor: u16 = 12;
    proof {
        let graph = prolog6_graph();
        lemma_numbered_from_one(graph);
        let route = seq![graph[0], graph[2], graph[3]];
        assert(graph.contains(route[0]));
        assert(graph.contains(route[1]));
        assert(graph.contains(route[2]));
        assert(is_route(graph, start_floor, end_floor, route));
    }
    search_report(start_floor, end_floor, prolog6_edges())
}

/// Two routes of two edges each, beside a chain that cannot be reached.
pub open spec fn prolog7_graph() -> Seq<Edge> {
    seq![
        Edge { id: 1, entry: 0, exit: 6, weight: 1 },
        Edge { id: 2, entry: 0, exit: 8, weight: 1 },
        Edge { id: 3, entry: 3, exit: 8, weight: 1 },
        Edge { id: 4, entry: 1, exit: 3, weight: 1 },
        Edge { id: 5, entry: 6, exit: 15, weight: 1 },
        Edge { id: 6, entry: 8, exit: 15, weight: 1 },
    ]
}

/// Builds the graph `prolog7_graph`.
pub fn prolog7_edges() -> (edgevec: Vec<Edge>)
    ensures
        edgevec@ == prolog7_graph(),
{
    let mut edgevec: Vec<Edge> = Vec::new();
    edgevec.push(Edge { id: 1, entry: 0, exit: 6, weight: 1 });
    edgevec.push(Edge { id: 2, entry: 0, exit: 8, weight: 1 });
    edgevec.push(Edge { id: 3, entry: 3, exit: 8, weight: 1 });
    edgevec.push(Edge { id: 4, entry: 1, exit: 3, weight: 1 });
    edgevec.push(Edge { id: 5, entry: 6, exit: 15, weight: 1 });
    edgevec.push(Edge { id: 6, entry: 8, exit: 15, weight: 1 });
    assert(edgevec@ =~= prolog7_graph());
    edgevec
}

/// Searches `prolog7_graph` from location 0 to location 15.
pub fn test_prolog7() -> (r: Result<Report, PathError>)
    ensures
        r is Ok,
        is_outcome_of(prolog7_graph(), 0, 15, r),
{
    let start_floor: u16 = 0;
    let end_floor: u16 = 15;
    proof {
        let graph = prolog7_graph();
        lemma_numbered_from_one(graph);
        let route = seq![graph[0], graph[4]];
        assert(graph.contains(route[0]));
        assert(graph.contains(route[1]));
        assert(is_route(graph, start_floor, end_floor, route));
    }
    search_report(start_floor, end_floor, prolog7_edges())
}

/// A short cut and a detour that meet before the last edge.
pub open spec fn prolog8_graph() -> Seq<Edge> {
    seq![
        Edge { id: 1, entry: 0, exit: 3, weight: 1 },
        Edge { id: 2, entry: 7, exit: 10, weight: 1 },
        Edge { id: 3, entry: 3, exit: 7, weight: 1 },
        Edge { id: 4, entry: 3, exit: 10, weight: 1 },
        Edge { id: 5, entry: 10, exit: 15, weight: 1 },
    ]
}

/// Builds the graph `prolog8_graph`.
pub fn prolog8_edges() -> (edgevec: Vec<Edge>)
    ensures
        edgevec@ == prolog8_graph(),
{
    let mut edgevec: Vec<Edge> = Vec::new();
    edgevec.push(Edge { id: 1, entry: 0, exit: 3, weight: 1 });
    edgevec.push(Edge { id: 2, entry: 7, exit: 10, weight: 1 });
    edgevec.push(Edge { id: 3, entry: 3, exit: 7, weight: 1 });
    edgevec.push(Edge { id: 4, entry: 3, exit: 10, weight: 1 });
    edgevec.push(Edge { id: 5, entry: 10, exit: 15, weight: 1 });
    assert(edgevec@ =~= prolog8_graph());
    edgevec
}

/// Searches `prolog8_graph` from location 0 to location 15.
pub fn test_prolog8() -> (r: Result<Report, PathError>)
    ensures
        r is Ok,
        is_outcome_of(prolog8_graph(), 0, 15, r),
{
    let start_floor: u16 = 0;
    let end_floor: u16 = 15;
    proof {
        let graph = prolog8_graph();
        lemma_numbered_from_one(graph);
        let route = seq![graph[0], graph[3], graph[4]];
        assert(graph.contains(route[0]));
        assert(graph.contains(route[1]));
        assert(graph.contains(route[2]));
        assert(is_route(graph, start_floor, end_floor, route));
    }
    search_report(start_floor, end_floor, prolog8_edges())
}

/// A location drawn at random from `low` up to, not including, `high`.
///
/// Calls `rand::Rng::gen_range` on the generator that `rand::thread_rng`
/// hands out. All that is claimed of the call is the range that its
/// documentation gives: two calls on the same bounds may differ. The call
/// panics where `low` is not below `high`, which the precondition leaves
/// out, and where the system cannot seed the generator, which nothing here
/// can rule out.
#[verifier::external_body]
fn random_location(low: u16, high: u16) -> (location: u16)
    requires
        low < high,
    ensures
        low <= location < high,
{
    rand::thread_rng().gen_range(low, high)
}

/// The edges are numbered from zero in list order, weigh one each, and
/// touch only locations from `low` up to, not including, `high`.
pub open spec fn is_random_graph(edges: Seq<Edge>, count: u16, low: u16, high: u16) -> bool {
    &&& edges.len() == count
    &&& forall|k: int|
        0 <= k < edges.len() ==> {
            &&& (#[trigger] edges[k]).id == k
            &&& low <= edges[k].entry < high
            &&& low <= edges[k].exit < high
            &&& edges[k].weight == 1
        }
}

/// A graph of `count` edges between locations drawn at random from `low`
/// up to, not including, `high`. Where the range is empty there is nothing
/// to draw from, and the graph has no edges.
pub fn random_edges(count: u16, low: u16, high: u16) -> (edgevec: Vec<Edge>)
    ensures
        low < high ==> is_random_graph(edgevec@, count, low, high),
        low >= high ==> edgevec@.len() == 0,
        unique_ids(edgevec@),
{
    let mut edgevec: Vec<Edge> = Vec::new();
    if low >= high {
        return edgevec;
    }
    let mut id: u16 = 0;
    while id < count
        invariant
            id <= count,
            low < high,
            is_random_graph(edgevec@, id, low, high),
        decreases count - id,
    {
        let entry: u16 = random_location(low, high);
        let exit: u16 = random_location(low, high);
        let edge = Edge { id: id, entry: entry, exit: exit, weight: 1 };
        edgevec.push(edge);
        id += 1;
    }
    edgevec
}

/// Draws a graph of a hundred edges between locations below fifty and
/// searches it for a way from location 0 to location 76. No edge ends
/// there, so whatever was drawn the search reports that there is no path.
/// The graph is handed back with the outcome.
pub fn test() -> (r: (Vec<Edge>, Result<Report, PathError>))
    ensures
        is_random_graph(r.0@, 100, 0, 50),
        r.1 == Err::<Report, PathError>(PathError::NoPath),
{
    let start_floor: u16 = 0;
    let end_floor: u16 = 76;
    let edgevec = random_edges(100, 0, 50);
    let drawn = edgevec.clone();
    proof {
        assert(drawn@ =~= edgevec@);
        assert forall|route: Seq<Edge>| !is_route(edgevec@, start_floor, end_floor, route) by {
            if is_route(edgevec@, start_floor, end_floor, route) {
                assert(edgevec@.contains(route[route.len() - 1]));
            }
        }
    }
    (drawn, search_report(start_floor, end_floor, edgevec))
}

} // verus!
