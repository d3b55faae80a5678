//! The enumerator: it grows walks from the start location one edge per
//! generation until each has reached the end location or has been given up.

use vstd::prelude::*;
use crate::edge::{
    entries_of, first_repeated_id, holds_location, listed_entries, unique_ids, verify_edges, Edge,
    PathError,
};
use crate::frontier::{
    alive, all_wf, enters_at, extend_by, extensions, fresh_for, frontier_after, grown, grown_all,
    grows, seeds_of, single, still_searching, trails_of,
};
use crate::generation::{
    frontier_ok, lemma_converged, lemma_first_generation, lemma_generation_step,
    lemma_settled_frontier_stays,
};
use crate::path::{has_id, Path};
use crate::route::{arrives, in_discovery_order, is_route, is_trail, lemma_walk_fits};
use crate::sift::lemma_filter_members;

verus! {

/// The edges that can follow `edge`: those whose entry is its exit, in list
/// order.
pub fn get_possible_new_connections(edge: &Edge, purged_edges: &[Edge]) -> (connections: Vec<Edge>)
    ensures
        connections@ == purged_edges@.filter(enters_at(edge.exit)),
{
    let mut connection_vec: Vec<Edge> = Vec::new();
    let mut k: usize = 0;
    proof {
        reveal(Seq::filter);
        assert(purged_edges@.take(0).len() == 0);
    }
    while k < purged_edges.len()
        invariant
            k <= purged_edges@.len(),
            connection_vec@ == purged_edges@.take(k as int).filter(enters_at(edge.exit)),
        decreases purged_edges@.len() - k,
    {
        let poss_conn = purged_edges[k];
        proof {
            purged_edges@.take(k as int).lemma_filter_push(poss_conn, enters_at(edge.exit));
            assert(purged_edges@.take(k as int).push(poss_conn) =~= purged_edges@.take(k + 1));
        }
        if edge.exit == poss_conn.entry {
            connection_vec.push(poss_conn);
        }
        k += 1;
    }
    assert(purged_edges@.take(k as int) =~= purged_edges@);
    connection_vec
}

/// The first generation: one path of a single edge for every edge that can
/// be entered at `start`, in list order.
pub fn seed_paths(start: u16, edges: &[Edge]) -> (seeds: Vec<Path>)
    ensures
        all_wf(seeds@),
        trails_of(seeds@) == seeds_of(edges@, start),
{
    let mut vector_of_paths: Vec<Path> = Vec::new();
    let mut k: usize = 0;
    proof {
        reveal(Seq::filter);
        assert(edges@.take(0).len() == 0);
        assert(trails_of(vector_of_paths@) =~= seeds_of(edges@.take(0), start));
    }
    while k < edges.len()
        invariant
            k <= edges@.len(),
            all_wf(vector_of_paths@),
            trails_of(vector_of_paths@) == seeds_of(edges@.take(k as int), start),
        decreases edges@.len() - k,
    {
        let edge = edges[k];
        let ghost before = trails_of(vector_of_paths@);
        proof {
            edges@.take(k as int).lemma_filter_push(edge, enters_at(start));
            assert(edges@.take(k as int).push(edge) =~= edges@.take(k + 1));
        }
        if edge.entry == start {
            let mut path = Path::new();
            assert(!has_id(path@, edge.id));
            path.append(edge);
            vector_of_paths.push(path);
            proof {
                assert(path@ =~= single()(edge));
                assert(trails_of(vector_of_paths@) =~= before.push(single()(edge)));
                assert(seeds_of(edges@.take(k + 1), start) =~= before.push(single()(edge)));
            }
        }
        k += 1;
    }
    assert(edges@.take(k as int) =~= edges@);
    vector_of_paths
}

/// One generation of growth. A path that has arrived at `end` is carried
/// over as it is, and so is one that no edge can follow; every other path
/// is replaced by its extensions, one for each adjacent edge that it does
/// not hold yet.
pub fn extend_frontier(frontier: &Vec<Path>, edges: &[Edge], end: u16) -> (next: Vec<Path>)
    requires
        all_wf(frontier@),
    ensures
        all_wf(next@),
        trails_of(next@) == grown_all(edges@, end, trails_of(frontier@)),
{
    let mut vector_of_paths_tmp: Vec<Path> = Vec::new();
    let ghost prior = trails_of(frontier@);
    let mut i: usize = 0;
    proof {
        assert(prior.take(0).len() == 0);
        assert(trails_of(vector_of_paths_tmp@) =~= grown_all(edges@, end, prior.take(0)));
    }
    while i < frontier.len()
        invariant
            i <= frontier@.len(),
            prior == trails_of(frontier@),
            all_wf(frontier@),
            all_wf(vector_of_paths_tmp@),
            trails_of(vector_of_paths_tmp@) == grown_all(edges@, end, prior.take(i as int)),
        decreases frontier@.len() - i,
    {
        let subpath = &frontier[i];
        let ghost before = trails_of(vector_of_paths_tmp@);
        proof {
            assert(subpath.wf());
            assert(subpath@ == prior[i as int]);
            assert(prior.take(i + 1).drop_last() =~= prior.take(i as int));
            assert(prior.take(i + 1).last() == subpath@);
            assert(grown_all(edges@, end, prior.take(i + 1)) == before + grown(
                edges@,
                end,
                subpath@,
            ));
        }
        if subpath.is_empty() || subpath.last().exit == end {
            vector_of_paths_tmp.push(subpath.clone());
            assert(trails_of(vector_of_paths_tmp@) =~= before + seq![subpath@]);
        } else {
            let new_conns = get_possible_new_connections(subpath.last(), edges);
            proof {
                lemma_filter_members(edges@, enters_at(subpath@.last().exit));
            }
            if new_conns.is_empty() {
                vector_of_paths_tmp.push(subpath.clone());
                proof {
                    assert(trails_of(vector_of_paths_tmp@) =~= before + seq![subpath@]);
                    if grows(edges@, end, subpath@) {
                        let k = choose|k: int|
                            0 <= k < edges@.len() && (#[trigger] edges@[k]).entry
                                == subpath@.last().exit;
                        assert(edges@.contains(edges@[k]));
                        assert(enters_at(subpath@.last().exit)(edges@[k]));
                        assert(new_conns@.contains(edges@[k]));
                    }
                }
            } else {
                proof {
                    assert(new_conns@.contains(new_conns@[0]));
                    let k = choose|k: int| 0 <= k < edges@.len() && edges@[k] == new_conns@[0];
                    assert(edges@[k].entry == subpath@.last().exit);
                    assert(grows(edges@, end, subpath@));
                    reveal(Seq::filter);
                    assert(new_conns@.take(0).len() == 0);
                    assert(trails_of(vector_of_paths_tmp@) =~= before + new_conns@.take(0).filter(
                        fresh_for(subpath@),
                    ).map_values(extend_by(subpath@)));
                }
                let mut a: usize = 0;
                while a < new_conns.len()
                    invariant
                        a <= new_conns@.len(),
                        subpath.wf(),
                        all_wf(vector_of_paths_tmp@),
                        trails_of(vector_of_paths_tmp@) == before + new_conns@.take(
                            a as int,
                        ).filter(fresh_for(subpath@)).map_values(extend_by(subpath@)),
                    decreases new_conns@.len() - a,
                {
                    let new_connection = new_conns[a];
                    let ghost grown_so_far = trails_of(vector_of_paths_tmp@);
                    let ghost taken = new_conns@.take(a as int).filter(fresh_for(subpath@));
                    proof {
                        new_conns@.take(a as int).lemma_filter_push(
                            new_connection,
                            fresh_for(subpath@),
                        );
                        assert(new_conns@.take(a as int).push(new_connection) =~= new_conns@.take(
                            a + 1,
                        ));
                    }
                    if !subpath.contains_id(new_connection.id) {
                        let mut subpath_tmp = subpath.clone();
                        subpath_tmp.append(new_connection);
                        vector_of_paths_tmp.push(subpath_tmp);
                        proof {
                            let added = extend_by(subpath@)(new_connection);
                            assert(trails_of(vector_of_paths_tmp@) =~= grown_so_far.push(added));
                            assert(taken.push(new_connection).map_values(extend_by(subpath@))
                                =~= taken.map_values(extend_by(subpath@)).push(added));
                            assert(grown_so_far.push(added) =~= before + taken.push(
                                new_connection,
                            ).map_values(extend_by(subpath@)));
                        }
                    }
                    a += 1;
                }
                proof {
                    assert(new_conns@.take(a as int) =~= new_conns@);
                    assert(grown(edges@, end, subpath@) == extensions(edges@, subpath@));
                }
            }
        }
        i += 1;
    }
    assert(prior.take(i as int) =~= prior);
    vector_of_paths_tmp
}

/// The dead-end policy: removes the paths that have not arrived at `end`
/// and stand at a location that is not among `node_entries`, the entry
/// locations of the graph. The flag says whether a path is left that has
/// not arrived yet, so that the search has to go on.
pub fn drop_dead_ends(paths: &Vec<Path>, node_entries: &[u16], end: u16) -> (r: (Vec<Path>, bool))
    requires
        all_wf(paths@),
    ensures
        all_wf(r.0@),
        trails_of(r.0@) == trails_of(paths@).filter(alive(node_entries@, end)),
        r.1 <==> still_searching(trails_of(r.0@), end),
{
    let mut kept: Vec<Path> = Vec::new();
    let mut searching = false;
    let ghost grown = trails_of(paths@);
    let ghost test = alive(node_entries@, end);
    let mut index: usize = 0;
    proof {
        reveal(Seq::filter);
        assert(grown.take(0).len() == 0);
        assert(trails_of(kept@) =~= grown.take(0).filter(test));
    }
    while index < paths.len()
        invariant
            index <= paths@.len(),
            grown == trails_of(paths@),
            test == alive(node_entries@, end),
            all_wf(paths@),
            all_wf(kept@),
            trails_of(kept@) == grown.take(index as int).filter(test),
            searching <==> still_searching(trails_of(kept@), end),
        decreases paths@.len() - index,
    {
        let subvector = &paths[index];
        let ghost before = trails_of(kept@);
        proof {
            assert(subvector.wf());
            assert(subvector@ == grown[index as int]);
            grown.take(index as int).lemma_filter_push(subvector@, test);
            assert(grown.take(index as int).push(subvector@) =~= grown.take(index + 1));
        }
        if !subvector.is_empty() {
            let exit = subvector.last().exit;
            if exit == end {
                kept.push(subvector.clone());
                proof {
                    let after = trails_of(kept@);
                    assert(after =~= before.push(subvector@));
                    if still_searching(before, end) {
                        let j = choose|j: int|
                            0 <= j < before.len() && (#[trigger] before[j]).last().exit != end;
                        assert(after[j].last().exit != end);
                    }
                    if still_searching(after, end) {
                        let j = choose|j: int|
                            0 <= j < after.len() && (#[trigger] after[j]).last().exit != end;
                        assert(before[j].last().exit != end);
                    }
                }
            } else {
                let is_deadend = !holds_location(node_entries, exit);
                if !is_deadend {
                    searching = true;
                    kept.push(subvector.clone());
                    proof {
                        let after = trails_of(kept@);
                        assert(after =~= before.push(subvector@));
                        assert(after[after.len() - 1].last().exit != end);
                    }
                }
            }
        }
        index += 1;
    }
    assert(grown.take(index as int) =~= grown);
    (kept, searching)
}

/// The list holds exactly the routes from `start` to `end`, each once, in
/// the order of their discovery.
pub open spec fn lists_routes(edges: Seq<Edge>, start: u16, end: u16, paths: Seq<Path>) -> bool {
    &&& all_wf(paths)
    &&& forall|i: int|
        0 <= i < paths.len() ==> is_route(edges, start, end, #[trigger] trails_of(paths)[i])
    &&& forall|route: Seq<Edge>| #[trigger]
        is_route(edges, start, end, route) ==> trails_of(paths).contains(route)
    &&& in_discovery_order(edges, trails_of(paths))
}

/// Runs the generations until no path is left that is still on its way;
/// where no edge can be entered at `start` it runs none. There are never
/// more generations than edges.
fn search_routes(start: u16, end: u16, edges: &[Edge]) -> (found: Vec<Path>)
    requires
        unique_ids(edges@),
        edges@.len() > 0,
    ensures
        lists_routes(edges@, start, end, found@),
        trails_of(found@) == frontier_after(edges@, start, end, edges@.len()),
{
    let node_entries = entries_of(edges);
    let mut vector_of_paths = seed_paths(start, edges);
    let ghost mut steps: nat = 0;
    proof {
        lemma_first_generation(edges@, start, end);
    }
    if vector_of_paths.len() == 0 {
        proof {
            lemma_converged(edges@, start, end, trails_of(vector_of_paths@), 1);
            lemma_settled_frontier_stays(edges@, start, end, 0, edges@.len());
        }
        return vector_of_paths;
    }
    loop
        invariant_except_break
            steps < edges@.len(),
        invariant
            unique_ids(edges@),
            node_entries@ == listed_entries(edges@),
            all_wf(vector_of_paths@),
            steps <= edges@.len(),
            trails_of(vector_of_paths@) == frontier_after(edges@, start, end, steps),
            frontier_ok(edges@, start, end, trails_of(vector_of_paths@), steps as int + 1),
        ensures
            !still_searching(trails_of(vector_of_paths@), end),
        decreases edges@.len() - steps,
    {
        proof {
            lemma_generation_step(
                edges@,
                start,
                end,
                trails_of(vector_of_paths@),
                steps as int + 1,
            );
            steps = steps + 1;
        }
        let vector_of_paths_tmp = extend_frontier(&vector_of_paths, edges, end);
        let (kept, searching) = drop_dead_ends(&vector_of_paths_tmp, node_entries.as_slice(), end);
        vector_of_paths = kept;
        if !searching {
            break ;
        }
        proof {
            let walks = trails_of(vector_of_paths@);
            let j = choose|j: int| 0 <= j < walks.len() && (#[trigger] walks[j]).last().exit != end;
            assert(is_trail(edges@, start, end, walks[j]));
            assert(walks[j].len() == steps + 1);
            lemma_walk_fits(edges@, walks[j]);
        }
    }
    proof {
        let walks = trails_of(vector_of_paths@);
        assert forall|i: int| 0 <= i < walks.len() implies arrives(#[trigger] walks[i], end) by {
            assert(is_trail(edges@, start, end, walks[i]));
        }
        lemma_converged(edges@, start, end, walks, steps as int + 1);
        lemma_settled_frontier_stays(
            edges@,
            start,
            end,
            steps,
            (edges@.len() - steps) as nat,
        );
    }
    vector_of_paths
}

/// Every route from `start` to `end`: the walks that set out from `start`
/// along adjacent edges, take no edge twice and stop when they first reach
/// `end`. They come in the order of their discovery. The identifiers are
/// checked first; a graph without a route is reported as such.
pub fn enumerate_paths(start: u16, end: u16, edges: &[Edge]) -> (r: Result<Vec<Path>, PathError>)
    ensures
        r is Ok <==> unique_ids(edges@) && exists|route: Seq<Edge>|
            is_route(edges@, start, end, route),
        r == Err::<Vec<Path>, PathError>(PathError::NoPath) <==> unique_ids(edges@) && forall|
            route: Seq<Edge>,
        |
            !is_route(edges@, start, end, route),
        match r {
            Ok(paths) => lists_routes(edges@, start, end, paths@) && trails_of(paths@)
                == frontier_after(edges@, start, end, edges@.len()),
            Err(PathError::InvalidInput(id)) => first_repeated_id(edges@, id),
            Err(PathError::NoPath) => true,
        },
{
    match verify_edges(edges) {
        Err(e) => {
            return Err(e);
        },
        Ok(_) => {},
    }
    if edges.len() == 0 {
        assert forall|route: Seq<Edge>| !is_route(edges@, start, end, route) by {
            if is_route(edges@, start, end, route) {
                assert(edges@.contains(route[0]));
            }
        }
        return Err(PathError::NoPath);
    }
    let vector_of_paths = search_routes(start, end, edges);
    if vector_of_paths.len() == 0 {
        assert forall|route: Seq<Edge>| !is_route(edges@, start, end, route) by {
            if is_route(edges@, start, end, route) {
                assert(trails_of(vector_of_paths@).contains(route));
            }
        }
        return Err(PathError::NoPath);
    }
    assert(is_route(edges@, start, end, trails_of(vector_of_paths@)[0]));
    Ok(vector_of_paths)
}

} // verus!
