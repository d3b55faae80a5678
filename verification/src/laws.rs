//! What holds of every search, stated over the model and proved from the
//! contracts of the functions.

use vstd::prelude::*;
use crate::edge::{first_repeated_id, repeats_at, unique_ids, Edge, PathError};
use crate::path::{total_weight, Path};
use crate::route::{
    arrives, diverges_at, in_discovery_order, is_route, is_shortest_route, is_trail,
    lemma_walk_fits, precedes,
};
use crate::frontier::{frontier_after, trails_of};
use crate::generation::{
    lemma_converged, lemma_every_generation, lemma_settled_frontier_stays,
};
use crate::search::lists_routes;
use crate::shortest::{is_outcome_of, lists_shortest_routes, Report};

verus! {

/// No walk comes before itself.
pub proof fn lemma_precedes_irreflexive(edges: Seq<Edge>, a: Seq<Edge>)
    ensures
        !precedes(edges, a, a),
{
    if precedes(edges, a, a) {
        let n = choose|n: int| diverges_at(edges, a, a, n);
        assert(diverges_at(edges, a, a, n));
    }
}

/// The order of discovery is transitive.
pub proof fn lemma_precedes_transitive(edges: Seq<Edge>, a: Seq<Edge>, b: Seq<Edge>, c: Seq<Edge>)
    requires
        precedes(edges, a, b),
        precedes(edges, b, c),
    ensures
        precedes(edges, a, c),
{
    let n = choose|n: int| diverges_at(edges, a, b, n);
    let m = choose|m: int| diverges_at(edges, b, c, m);
    if n < m {
        assert(b.take(m)[n] == c.take(m)[n]);
        assert(a.take(n) =~= b.take(m).take(n));
        assert(c.take(n) =~= c.take(m).take(n));
        assert(diverges_at(edges, a, c, n));
    } else if n == m {
        assert(diverges_at(edges, a, c, n));
    } else {
        assert(a.take(n)[m] == b.take(n)[m]);
        assert(a.take(m) =~= a.take(n).take(m));
        assert(c.take(m) =~= b.take(n).take(m));
        assert(diverges_at(edges, a, c, m));
    }
}

/// Two lists in discovery order that hold the same walks agree up to any
/// index of the first.
proof fn lemma_ordered_lists_agree(
    edges: Seq<Edge>,
    first: Seq<Seq<Edge>>,
    second: Seq<Seq<Edge>>,
    i: int,
)
    requires
        in_discovery_order(edges, first),
        in_discovery_order(edges, second),
        forall|k: int| 0 <= k < first.len() ==> second.contains(#[trigger] first[k]),
        forall|k: int| 0 <= k < second.len() ==> first.contains(#[trigger] second[k]),
        0 <= i < first.len(),
    ensures
        i < second.len(),
        first[i] == second[i],
    decreases i,
{
    assert(second.contains(first[i]));
    let k = choose|k: int| 0 <= k < second.len() && second[k] == first[i];
    if k < i {
        lemma_ordered_lists_agree(edges, first, second, k);
        assert(precedes(edges, first[k], first[i]));
        lemma_precedes_irreflexive(edges, first[i]);
    }
    assert(first.contains(second[i]));
    let m = choose|m: int| 0 <= m < first.len() && first[m] == second[i];
    if m < i {
        lemma_ordered_lists_agree(edges, first, second, m);
        assert(precedes(edges, second[m], second[i]));
        lemma_precedes_irreflexive(edges, second[i]);
    }
    if k > i {
        assert(precedes(edges, second[i], second[k]));
        if m > i {
            assert(precedes(edges, first[i], first[m]));
            lemma_precedes_transitive(edges, first[i], second[i], first[i]);
        }
        lemma_precedes_irreflexive(edges, first[i]);
    }
}

/// The routes of a graph can be listed in one way only: two lists that
/// each hold every route, in discovery order, hold the same walks at the
/// same places.
pub proof fn law_routes_listed_one_way(
    edges: Seq<Edge>,
    start: u16,
    end: u16,
    first: Seq<Path>,
    second: Seq<Path>,
)
    requires
        lists_routes(edges, start, end, first),
        lists_routes(edges, start, end, second),
    ensures
        trails_of(first) == trails_of(second),
{
    let a = trails_of(first);
    let b = trails_of(second);
    assert forall|k: int| 0 <= k < a.len() implies b.contains(#[trigger] a[k]) by {
        assert(is_route(edges, start, end, a[k]));
    }
    assert forall|k: int| 0 <= k < b.len() implies a.contains(#[trigger] b[k]) by {
        assert(is_route(edges, start, end, b[k]));
    }
    if a.len() > 0 {
        lemma_ordered_lists_agree(edges, a, b, a.len() - 1);
    }
    if b.len() > 0 {
        lemma_ordered_lists_agree(edges, b, a, b.len() - 1);
    }
    assert forall|i: int| 0 <= i < a.len() implies a[i] == b[i] by {
        lemma_ordered_lists_agree(edges, a, b, i);
    }
    assert(a =~= b);
}

/// The answer of a search is determined by the graph: two lists that each
/// hold every lightest route, in discovery order, hold the same walks at
/// the same places.
pub proof fn law_shortest_listed_one_way(
    edges: Seq<Edge>,
    start: u16,
    end: u16,
    first: Seq<Path>,
    second: Seq<Path>,
)
    requires
        lists_shortest_routes(edges, start, end, first),
        lists_shortest_routes(edges, start, end, second),
    ensures
        trails_of(first) == trails_of(second),
{
    let a = trails_of(first);
    let b = trails_of(second);
    assert forall|k: int| 0 <= k < a.len() implies b.contains(#[trigger] a[k]) by {
        assert(is_shortest_route(edges, start, end, a[k]));
    }
    assert forall|k: int| 0 <= k < b.len() implies a.contains(#[trigger] b[k]) by {
        assert(is_shortest_route(edges, start, end, b[k]));
    }
    if a.len() > 0 {
        lemma_ordered_lists_agree(edges, a, b, a.len() - 1);
    }
    if b.len() > 0 {
        lemma_ordered_lists_agree(edges, b, a, b.len() - 1);
    }
    assert forall|i: int| 0 <= i < a.len() implies a[i] == b[i] by {
        lemma_ordered_lists_agree(edges, a, b, i);
    }
    assert(a =~= b);
}

/// Whatever the graph, cycles included, no path that the enumerator or a
/// search returns takes an edge twice: the identifiers along it are all
/// different.
pub proof fn law_no_edge_taken_twice(
    edges: Seq<Edge>,
    start: u16,
    end: u16,
    paths: Seq<Path>,
    i: int,
)
    requires
        lists_routes(edges, start, end, paths) || lists_shortest_routes(edges, start, end, paths),
        0 <= i < paths.len(),
    ensures
        unique_ids(paths[i]@),
        forall|a: int, b: int|
            0 <= a < b < paths[i].ids().len() ==> paths[i].ids()[a] != paths[i].ids()[b],
{
    assert(paths[i].wf());
    assert forall|a: int, b: int| 0 <= a < b < paths[i].ids().len() implies paths[i].ids()[a]
        != paths[i].ids()[b] by {
        assert(paths[i]@[a].id != paths[i]@[b].id);
    }
}

/// The weight that a returned path carries is the sum of the weights of
/// its edges.
pub proof fn law_weight_is_sum(edges: Seq<Edge>, start: u16, end: u16, paths: Seq<Path>, i: int)
    requires
        lists_routes(edges, start, end, paths) || lists_shortest_routes(edges, start, end, paths),
        0 <= i < paths.len(),
    ensures
        paths[i].weight_spec() == total_weight(paths[i]@),
{
    assert(paths[i].wf());
}

/// Where identifiers repeat, one identifier only can be reported: the
/// first that repeats.
pub proof fn law_first_repeat_is_one(edges: Seq<Edge>, a: u16, b: u16)
    requires
        first_repeated_id(edges, a),
        first_repeated_id(edges, b),
    ensures
        a == b,
{
    let i = choose|i: int|
        0 <= i < edges.len() && unique_ids(edges.take(i)) && repeats_at(edges, i)
            && #[trigger] edges[i].id == a;
    let j = choose|j: int|
        0 <= j < edges.len() && unique_ids(edges.take(j)) && repeats_at(edges, j)
            && #[trigger] edges[j].id == b;
    if i < j {
        let n = choose|n: int| 0 <= n < i && #[trigger] edges[n].id == edges[i].id;
        assert(edges.take(j)[n].id != edges.take(j)[i].id);
    } else if j < i {
        let n = choose|n: int| 0 <= n < j && #[trigger] edges[n].id == edges[j].id;
        assert(edges.take(i)[n].id != edges.take(i)[j].id);
    }
}

/// All lightest paths that a search returns weigh the same, and no route
/// weighs less.
pub proof fn law_ties_weigh_the_same(
    edges: Seq<Edge>,
    start: u16,
    end: u16,
    paths: Seq<Path>,
    i: int,
    j: int,
    route: Seq<Edge>,
)
    requires
        lists_shortest_routes(edges, start, end, paths),
        0 <= i < paths.len(),
        0 <= j < paths.len(),
    ensures
        paths[i].weight_spec() == paths[j].weight_spec(),
        is_route(edges, start, end, route) ==> paths[i].weight_spec() <= total_weight(route),
{
    let walks = trails_of(paths);
    assert(paths[i].wf());
    assert(paths[j].wf());
    assert(is_shortest_route(edges, start, end, walks[i]));
    assert(is_shortest_route(edges, start, end, walks[j]));
}

/// A walk from `start` to `end` of any kind: it sets out from `start`,
/// follows adjacent edges of the graph, and ends at `end`. It may take an
/// edge more than once.
pub open spec fn is_any_walk(edges: Seq<Edge>, start: u16, end: u16, walk: Seq<Edge>) -> bool {
    &&& walk.len() > 0
    &&& walk[0].entry == start
    &&& forall|i: int| 0 <= i < walk.len() ==> edges.contains(#[trigger] walk[i])
    &&& forall|i: int| 0 <= i < walk.len() - 1 ==> (#[trigger] walk[i]).exit == walk[i + 1].entry
    &&& walk.last().exit == end
}

/// A walk from `start` to `end` that takes no edge twice. It may pass
/// through `end` on its way.
pub open spec fn is_walk_between(edges: Seq<Edge>, start: u16, end: u16, walk: Seq<Edge>) -> bool {
    is_any_walk(edges, start, end, walk) && unique_ids(walk)
}

/// Two walks put end to end weigh what they weigh together.
pub proof fn lemma_weight_of_joined(first: Seq<Edge>, second: Seq<Edge>)
    ensures
        total_weight(first + second) == total_weight(first) + total_weight(second),
    decreases second.len(),
{
    if second.len() == 0 {
        assert(first + second =~= first);
    } else {
        lemma_weight_of_joined(first, second.drop_last());
        assert((first + second).drop_last() =~= first + second.drop_last());
    }
}

/// The first edges of a walk weigh no more than the walk.
pub proof fn lemma_prefix_weighs_less(walk: Seq<Edge>, n: int)
    requires
        0 <= n <= walk.len(),
    ensures
        total_weight(walk.take(n)) <= total_weight(walk),
    decreases walk.len() - n,
{
    if n < walk.len() {
        lemma_prefix_weighs_less(walk, n + 1);
        assert(walk.take(n + 1).drop_last() =~= walk.take(n));
    } else {
        assert(walk.take(n) =~= walk);
    }
}

/// Where a walk first stands at `end`: the least index of an edge that
/// ends there, looked for from `from` on.
proof fn lemma_first_arrival(walk: Seq<Edge>, end: u16, from: int) -> (at: int)
    requires
        0 <= from < walk.len(),
        walk.last().exit == end,
        forall|i: int| 0 <= i < from ==> (#[trigger] walk[i]).exit != end,
    ensures
        from <= at < walk.len(),
        walk[at].exit == end,
        forall|i: int| 0 <= i < at ==> (#[trigger] walk[i]).exit != end,
    decreases walk.len() - from,
{
    if walk[from].exit == end {
        from
    } else {
        lemma_first_arrival(walk, end, from + 1)
    }
}

/// A walk that takes an edge twice can leave out what lies between: where
/// there is a walk there is one that takes no edge twice.
pub proof fn lemma_walk_without_repeats(
    edges: Seq<Edge>,
    start: u16,
    end: u16,
    walk: Seq<Edge>,
) -> (simple: Seq<Edge>)
    requires
        unique_ids(edges),
        is_any_walk(edges, start, end, walk),
    ensures
        is_walk_between(edges, start, end, simple),
        total_weight(simple) <= total_weight(walk),
    decreases walk.len(),
{
    if unique_ids(walk) {
        walk
    } else {
        let (i, j) = choose|i: int, j: int|
            0 <= i < j < walk.len() && walk[i].id == walk[j].id;
        assert(walk[i] == walk[j]) by {
            assert(edges.contains(walk[i]));
            assert(edges.contains(walk[j]));
            let a = choose|a: int| 0 <= a < edges.len() && edges[a] == walk[i];
            let b = choose|b: int| 0 <= b < edges.len() && edges[b] == walk[j];
            if a < b {
                assert(edges[a].id != edges[b].id);
            } else if b < a {
                assert(edges[b].id != edges[a].id);
            }
        }
        let shorter = walk.take(i) + walk.skip(j);
        assert forall|k: int| 0 <= k < shorter.len() implies edges.contains(
            #[trigger] shorter[k],
        ) by {
            if k < i {
                assert(shorter[k] == walk[k]);
            } else {
                assert(shorter[k] == walk[j + (k - i)]);
            }
        }
        assert forall|k: int| 0 <= k < shorter.len() - 1 implies (#[trigger] shorter[k]).exit
            == shorter[k + 1].entry by {
            if k < i - 1 {
                assert(walk[k].exit == walk[k + 1].entry);
            } else if k == i - 1 {
                assert(walk[k].exit == walk[k + 1].entry);
                assert(shorter[k + 1] == walk[j]);
            } else {
                assert(shorter[k] == walk[j + (k - i)]);
                assert(shorter[k + 1] == walk[j + (k - i) + 1]);
                assert(walk[j + (k - i)].exit == walk[j + (k - i) + 1].entry);
            }
        }
        assert(shorter[0].entry == start) by {
            if i == 0 {
                assert(shorter[0] == walk[j]);
            } else {
                assert(shorter[0] == walk[0]);
            }
        }
        assert(shorter.last() == walk.last());
        assert(total_weight(shorter) <= total_weight(walk)) by {
            let between = walk.subrange(i, j);
            assert(walk =~= walk.take(i) + between + walk.skip(j));
            lemma_weight_of_joined(walk.take(i), between);
            lemma_weight_of_joined(walk.take(i) + between, walk.skip(j));
            lemma_weight_of_joined(walk.take(i), walk.skip(j));
        }
        lemma_walk_without_repeats(edges, start, end, shorter)
    }
}

/// Every walk from `start` to `end`, whatever it repeats and however often
/// it passes through `end`, holds a route, which weighs no more.
pub proof fn lemma_walk_holds_route(
    edges: Seq<Edge>,
    start: u16,
    end: u16,
    any: Seq<Edge>,
) -> (route: Seq<Edge>)
    requires
        unique_ids(edges),
        is_any_walk(edges, start, end, any),
    ensures
        is_route(edges, start, end, route),
        total_weight(route) <= total_weight(any),
{
    let walk = lemma_walk_without_repeats(edges, start, end, any);
    let at = lemma_first_arrival(walk, end, 0);
    let head = walk.take(at + 1);
    assert forall|i: int| 0 <= i < head.len() implies edges.contains(#[trigger] head[i]) by {
        assert(edges.contains(walk[i]));
    }
    assert forall|i: int| 0 <= i < head.len() - 1 implies (#[trigger] head[i]).exit == head[i
        + 1].entry && head[i].exit != end by {
        assert(walk[i].exit == walk[i + 1].entry);
    }
    assert forall|i: int, j: int| 0 <= i < j < head.len() implies head[i].id != head[j].id by {
        assert(walk[i].id != walk[j].id);
    }
    lemma_prefix_weighs_less(walk, at + 1);
    head
}

/// Stopping at the first arrival and taking no edge twice loses nothing:
/// the lightest routes weigh no more than any walk from `start` to `end`.
pub proof fn law_no_walk_is_lighter(
    edges: Seq<Edge>,
    start: u16,
    end: u16,
    route: Seq<Edge>,
    any: Seq<Edge>,
)
    requires
        unique_ids(edges),
        is_shortest_route(edges, start, end, route),
        is_any_walk(edges, start, end, any),
    ensures
        total_weight(route) <= total_weight(any),
{
    let held = lemma_walk_holds_route(edges, start, end, any);
}

/// A search fails with "no path" exactly when the identifiers are unique
/// and the graph holds no walk from `start` to `end`, of whatever kind; it
/// never succeeds with nothing to show.
pub proof fn law_no_path_is_reported(
    edges: Seq<Edge>,
    start: u16,
    end: u16,
    r: Result<Report, PathError>,
)
    requires
        is_outcome_of(edges, start, end, r),
        unique_ids(edges),
    ensures
        r == Err::<Report, PathError>(PathError::NoPath) <==> forall|walk: Seq<Edge>|
            !is_any_walk(edges, start, end, walk),
        r matches Ok(report) ==> report.shortest@.len() > 0 && report.found@.len() > 0,
{
    if exists|walk: Seq<Edge>| is_any_walk(edges, start, end, walk) {
        let any = choose|walk: Seq<Edge>| is_any_walk(edges, start, end, walk);
        let held = lemma_walk_holds_route(edges, start, end, any);
    }
    if exists|route: Seq<Edge>| is_route(edges, start, end, route) {
        let route = choose|route: Seq<Edge>| is_route(edges, start, end, route);
        assert(is_any_walk(edges, start, end, route));
    }
}

/// A search settles within as many generations as the graph has edges:
/// by then every walk of the frontier has arrived, the frontier holds the
/// routes and nothing else, and further generations change nothing.
pub proof fn law_search_settles(edges: Seq<Edge>, start: u16, end: u16, more: nat)
    requires
        unique_ids(edges),
    ensures
        forall|route: Seq<Edge>|
            is_route(edges, start, end, route) <==> frontier_after(
                edges,
                start,
                end,
                edges.len(),
            ).contains(route),
        frontier_after(edges, start, end, edges.len() + more) == frontier_after(
            edges,
            start,
            end,
            edges.len(),
        ),
{
    let steps = edges.len();
    let walks = frontier_after(edges, start, end, steps);
    lemma_every_generation(edges, start, end, steps);
    assert forall|i: int| 0 <= i < walks.len() implies arrives(#[trigger] walks[i], end) by {
        assert(is_trail(edges, start, end, walks[i]));
        lemma_walk_fits(edges, walks[i]);
    }
    lemma_converged(edges, start, end, walks, steps as int + 1);
    lemma_settled_frontier_stays(edges, start, end, steps, more);
    assert forall|route: Seq<Edge>| walks.contains(route) implies is_route(
        edges,
        start,
        end,
        route,
    ) by {
        let i = choose|i: int| 0 <= i < walks.len() && walks[i] == route;
        assert(is_route(edges, start, end, walks[i]));
    }
}

} // verus!
