//! The whole search: normalize the graph, enumerate its routes, select the
//! lightest.

use vstd::prelude::*;
use crate::edge::{first_repeated_id, repeats_at, unique_ids, Edge, PathError};
use crate::normalize::{
    lemma_pruning_keeps_discovery_order, lemma_pruning_keeps_ids_unique,
    lemma_pruning_keeps_routes, normalize, pruned,
};
use crate::path::{total_weight, Path};
use crate::route::{arrives, in_discovery_order, is_route, is_shortest_route, precedes};
use crate::frontier::{all_wf, frontier_after, trails_of};
use crate::search::{enumerate_paths, lists_routes};
use crate::select::{copies_of, lightest, select_shortest};
use crate::sift::{lemma_filter_members, lemma_filter_positions};

verus! {

/// The list holds exactly the routes from `start` to `end` that weigh
/// least, each once, in the order of their discovery, and every path
/// reports the sum of the weights of its edges.
pub open spec fn lists_shortest_routes(
    edges: Seq<Edge>,
    start: u16,
    end: u16,
    paths: Seq<Path>,
) -> bool {
    &&& all_wf(paths)
    &&& forall|i: int|
        0 <= i < paths.len() ==> is_shortest_route(
            edges,
            start,
            end,
            #[trigger] trails_of(paths)[i],
        )
    &&& forall|route: Seq<Edge>| #[trigger]
        is_shortest_route(edges, start, end, route) ==> trails_of(paths).contains(route)
    &&& in_discovery_order(edges, trails_of(paths))
}

/// An edge list in which an identifier repeats does not have unique
/// identifiers.
pub proof fn lemma_repeat_is_not_unique(edges: Seq<Edge>, id: u16)
    requires
        first_repeated_id(edges, id),
    ensures
        !unique_ids(edges),
{
    let i = choose|i: int|
        0 <= i < edges.len() && unique_ids(edges.take(i)) && repeats_at(edges, i)
            && #[trigger] edges[i].id == id;
    let j = choose|j: int| 0 <= j < i && #[trigger] edges[j].id == edges[i].id;
    assert(edges[j].id == edges[i].id);
}

/// Selecting the lightest of all routes gives the shortest routes.
pub proof fn lemma_selection_is_shortest(
    edges: Seq<Edge>,
    start: u16,
    end: u16,
    found: Seq<Path>,
    chosen: Seq<Path>,
)
    requires
        lists_routes(edges, start, end, found),
        copies_of(chosen, found.filter(lightest(found, end))),
    ensures
        lists_shortest_routes(edges, start, end, chosen),
        found.len() > 0 ==> chosen.len() > 0,
{
    let test = lightest(found, end);
    let kept = found.filter(test);
    let pos = lemma_filter_positions(found, test);
    lemma_filter_members(found, test);
    let walks = trails_of(found);
    assert forall|i: int| 0 <= i < chosen.len() implies (#[trigger] chosen[i]).wf()
        && is_shortest_route(edges, start, end, trails_of(chosen)[i]) by {
        let p = found[pos[i]];
        assert(kept[i] == p);
        assert(chosen[i].is_copy_of(&kept[i]));
        assert(p.wf());
        assert(kept.contains(kept[i]));
        assert(test(p));
        assert(is_route(edges, start, end, walks[pos[i]]));
        assert forall|other: Seq<Edge>| #[trigger]
            is_route(edges, start, end, other) implies total_weight(p@) <= total_weight(other) by {
            assert(walks.contains(other));
            let j = choose|j: int| 0 <= j < walks.len() && walks[j] == other;
            assert(found[j].wf());
            assert(arrives(found[j]@, end));
        }
    }
    assert forall|route: Seq<Edge>| #[trigger]
        is_shortest_route(edges, start, end, route) implies trails_of(chosen).contains(route) by {
        assert(walks.contains(route));
        let j = choose|j: int| 0 <= j < walks.len() && walks[j] == route;
        assert(found[j].wf());
        assert(test(found[j])) by {
            assert forall|n: int|
                0 <= n < found.len() && arrives((#[trigger] found[n])@, end) implies found[j]
                .weight_spec() <= found[n].weight_spec() by {
                assert(found[n].wf());
                assert(is_route(edges, start, end, walks[n]));
            }
        }
        assert(pos.contains(j));
        let a = choose|a: int| 0 <= a < pos.len() && pos[a] == j;
        assert(chosen[a].is_copy_of(&kept[a]));
        assert(trails_of(chosen)[a] == route);
    }
    assert forall|i: int, j: int| 0 <= i < j < chosen.len() implies precedes(
        edges,
        #[trigger] trails_of(chosen)[i],
        #[trigger] trails_of(chosen)[j],
    ) by {
        assert(chosen[i].is_copy_of(&kept[i]));
        assert(chosen[j].is_copy_of(&kept[j]));
        assert(pos[i] < pos[j]);
        assert(precedes(edges, walks[pos[i]], walks[pos[j]]));
    }
    if found.len() > 0 {
        lemma_some_route_is_shortest(edges, start, end, found, found.len() as int);
        let j = choose|j: int|
            0 <= j < found.len() && is_shortest_route(edges, start, end, #[trigger] walks[j]);
        assert(trails_of(chosen).contains(walks[j]));
    }
}

/// Among finitely many routes one weighs least: of the first `upto` listed
/// routes, where there is any, one is no heavier than the others.
proof fn lemma_lightest_exists(
    edges: Seq<Edge>,
    start: u16,
    end: u16,
    found: Seq<Path>,
    upto: int,
) -> (best: int)
    requires
        lists_routes(edges, start, end, found),
        0 < upto <= found.len(),
    ensures
        0 <= best < upto,
        forall|n: int|
            0 <= n < upto ==> total_weight(found[best]@) <= total_weight((#[trigger] found[n])@),
    decreases upto,
{
    if upto == 1 {
        0
    } else {
        let before = lemma_lightest_exists(edges, start, end, found, upto - 1);
        if total_weight(found[upto - 1]@) < total_weight(found[before]@) {
            upto - 1
        } else {
            before
        }
    }
}

/// Where there is a route there is a shortest one.
proof fn lemma_some_route_is_shortest(
    edges: Seq<Edge>,
    start: u16,
    end: u16,
    found: Seq<Path>,
    upto: int,
)
    requires
        lists_routes(edges, start, end, found),
        0 < upto == found.len(),
    ensures
        exists|j: int|
            0 <= j < found.len() && is_shortest_route(
                edges,
                start,
                end,
                #[trigger] trails_of(found)[j],
            ),
{
    let best = lemma_lightest_exists(edges, start, end, found, upto);
    let walks = trails_of(found);
    assert(is_route(edges, start, end, walks[best]));
    assert forall|other: Seq<Edge>| #[trigger]
        is_route(edges, start, end, other) implies total_weight(walks[best]) <= total_weight(
        other,
    ) by {
        assert(walks.contains(other));
        let n = choose|n: int| 0 <= n < walks.len() && walks[n] == other;
        assert(total_weight(found[best]@) <= total_weight(found[n]@));
    }
    assert(is_shortest_route(edges, start, end, walks[best]));
}

/// What holds of the routes of what pruning leaves holds of the routes of
/// the graph: they are the same, in the same order.
pub proof fn lemma_routes_of_pruned(edges: Seq<Edge>, start: u16, end: u16, paths: Seq<Path>)
    requires
        unique_ids(edges),
        lists_routes(pruned(edges, start, end), start, end, paths),
    ensures
        lists_routes(edges, start, end, paths),
{
    let left = pruned(edges, start, end);
    let walks = trails_of(paths);
    assert forall|i: int| 0 <= i < paths.len() implies is_route(
        edges,
        start,
        end,
        #[trigger] walks[i],
    ) by {
        lemma_pruning_keeps_routes(edges, start, end, walks[i]);
    }
    assert forall|route: Seq<Edge>| #[trigger]
        is_route(edges, start, end, route) implies walks.contains(route) by {
        lemma_pruning_keeps_routes(edges, start, end, route);
    }
    assert forall|i: int, j: int| 0 <= i < j < walks.len() implies precedes(
        edges,
        #[trigger] walks[i],
        #[trigger] walks[j],
    ) by {
        assert(is_route(left, start, end, walks[i]));
        assert(is_route(left, start, end, walks[j]));
        assert(precedes(left, walks[i], walks[j]));
        lemma_pruning_keeps_discovery_order(edges, start, end, walks[i], walks[j]);
    }
}

/// What a search has to tell: the edges that pruning left, every route
/// found, and the routes among them that weigh least.
#[derive(Debug)]
pub struct Report {
    pub purged: Vec<Edge>,
    pub found: Vec<Path>,
    pub shortest: Vec<Path>,
}

/// The report is the one that a search of `edges` from `start` to `end`
/// gives when there is a route.
pub open spec fn is_report_of(edges: Seq<Edge>, start: u16, end: u16, report: Report) -> bool {
    &&& report.purged@ == pruned(edges, start, end)
    &&& report.found@.len() > 0
    &&& lists_routes(edges, start, end, report.found@)
    &&& trails_of(report.found@) == frontier_after(
        report.purged@,
        start,
        end,
        report.purged@.len(),
    )
    &&& report.shortest@.len() > 0
    &&& copies_of(report.shortest@, report.found@.filter(lightest(report.found@, end)))
    &&& lists_shortest_routes(edges, start, end, report.shortest@)
}

/// What a search of `edges` from `start` to `end` returns: the report where
/// the identifiers are unique and a route exists, and else the error that
/// says which of the two is wrong.
pub open spec fn is_outcome_of(
    edges: Seq<Edge>,
    start: u16,
    end: u16,
    r: Result<Report, PathError>,
) -> bool {
    &&& r is Ok <==> unique_ids(edges) && exists|route: Seq<Edge>|
        is_route(edges, start, end, route)
    &&& r == Err::<Report, PathError>(PathError::NoPath) <==> unique_ids(edges) && forall|
        route: Seq<Edge>,
    |
        !is_route(edges, start, end, route)
    &&& match r {
        Ok(report) => is_report_of(edges, start, end, report),
        Err(PathError::InvalidInput(id)) => first_repeated_id(edges, id),
        Err(PathError::NoPath) => true,
    }
}

/// Searches the graph for its routes from `start` to `end` and reports what
/// pruning left, all routes, and the lightest of them, ties included. A
/// route sets out from `start`, follows adjacent edges, takes no edge twice
/// and stops when it first reaches `end`. Edge lists with a repeated
/// identifier are refused, and a graph without a route is reported as such.
pub fn search_report(start: u16, end: u16, edges: Vec<Edge>) -> (r: Result<Report, PathError>)
    ensures
        is_outcome_of(edges@, start, end, r),
{
    let ghost all = edges@;
    let purged = match normalize(start, end, edges) {
        Ok(left) => left,
        Err(e) => {
            proof {
                match e {
                    PathError::InvalidInput(id) => {
                        lemma_repeat_is_not_unique(all, id);
                    },
                    PathError::NoPath => {
                        assert forall|route: Seq<Edge>| !is_route(all, start, end, route) by {
                            lemma_pruning_keeps_routes(all, start, end, route);
                            if is_route(pruned(all, start, end), start, end, route) {
                                assert(pruned(all, start, end).contains(route[0]));
                            }
                        }
                    },
                }
            }
            return Err(e);
        },
    };
    proof {
        lemma_pruning_keeps_ids_unique(all, start, end);
        assert forall|route: Seq<Edge>|
            is_route(all, start, end, route) <==> is_route(purged@, start, end, route) by {
            lemma_pruning_keeps_routes(all, start, end, route);
        }
    }
    let found = match enumerate_paths(start, end, purged.as_slice()) {
        Ok(found) => found,
        Err(e) => {
            proof {
                match e {
                    PathError::InvalidInput(id) => {
                        lemma_repeat_is_not_unique(purged@, id);
                    },
                    PathError::NoPath => {},
                }
            }
            return Err(e);
        },
    };
    let shortest = select_shortest(end, &found);
    proof {
        lemma_routes_of_pruned(all, start, end, found@);
        lemma_selection_is_shortest(all, start, end, found@, shortest@);
        let witness = trails_of(found@)[0];
        assert(is_route(all, start, end, witness));
    }
    Ok(Report { purged, found, shortest })
}

/// The minimum-weight routes from `start` to `end`, ties included, in the
/// order of their discovery: the last part of what `search_report` tells.
pub fn shortest_paths(start: u16, end: u16, edges: Vec<Edge>) -> (r: Result<Vec<Path>, PathError>)
    ensures
        r is Ok <==> unique_ids(edges@) && exists|route: Seq<Edge>|
            is_route(edges@, start, end, route),
        r == Err::<Vec<Path>, PathError>(PathError::NoPath) <==> unique_ids(edges@) && forall|
            route: Seq<Edge>,
        |
            !is_route(edges@, start, end, route),
        match r {
            Ok(paths) => paths@.len() > 0 && lists_shortest_routes(edges@, start, end, paths@),
            Err(PathError::InvalidInput(id)) => first_repeated_id(edges@, id),
            Err(PathError::NoPath) => true,
        },
{
    match search_report(start, end, edges) {
        Ok(report) => Ok(report.shortest),
        Err(e) => Err(e),
    }
}

} // verus!
