use edge_paths::edge::{entries_of, Edge, PathError};
use edge_paths::path::Path;
use edge_paths::search::{
    drop_dead_ends, enumerate_paths, extend_frontier, get_possible_new_connections, seed_paths,
};
use edge_paths::select::{least_weight, select_shortest};
use edge_paths::shortest::{search_report, shortest_paths};

fn link(id: u16, entry: u16, exit: u16, weight: u64) -> Edge {
    Edge { id, entry, exit, weight }
}

fn ids_of_each(paths: &[Path]) -> Vec<Vec<u16>> {
    paths.iter().map(|p| p.edge_ids().clone()).collect()
}

#[test]
fn linear_chain_has_one_path() {
    let edges = vec![link(1, 0, 5, 3), link(2, 5, 10, 4)];
    let paths = shortest_paths(0, 10, edges.clone()).unwrap();
    assert_eq!(paths.len(), 1);
    assert_eq!(paths[0].edges(), &edges);
    assert_eq!(paths[0].weight(), 7);
}

#[test]
fn ties_are_all_returned() {
    let edges = vec![link(1, 0, 5, 1), link(2, 5, 10, 1), link(3, 0, 7, 1), link(4, 7, 10, 1)];
    let paths = shortest_paths(0, 10, edges).unwrap();
    assert_eq!(ids_of_each(&paths), vec![vec![1, 2], vec![3, 4]]);
    assert_eq!(paths[0].weight(), 2);
    assert_eq!(paths[1].weight(), 2);
}

#[test]
fn dead_end_edge_is_pruned_and_never_taken() {
    let edges = vec![link(1, 0, 5, 1), link(2, 5, 10, 1), link(3, 5, 7, 1)];
    let report = search_report(0, 10, edges).unwrap();
    assert_eq!(report.purged, vec![link(1, 0, 5, 1), link(2, 5, 10, 1)]);
    for path in report.found.iter().chain(report.shortest.iter()) {
        assert!(!path.edge_ids().contains(&3));
    }
    assert_eq!(ids_of_each(&report.shortest), vec![vec![1, 2]]);
}

#[test]
fn no_walk_from_start_to_end_is_no_path() {
    let edges = vec![link(1, 0, 5, 1), link(2, 6, 10, 1)];
    assert_eq!(shortest_paths(0, 10, edges.clone()).unwrap_err(), PathError::NoPath);
    assert_eq!(enumerate_paths(0, 10, &edges).unwrap_err(), PathError::NoPath);
    assert!(matches!(search_report(0, 10, edges), Err(PathError::NoPath)));
}

#[test]
fn empty_edge_list_is_no_path() {
    assert_eq!(shortest_paths(0, 10, Vec::new()).unwrap_err(), PathError::NoPath);
    assert_eq!(enumerate_paths(0, 10, &[]).unwrap_err(), PathError::NoPath);
}

#[test]
fn no_edge_at_start_is_no_path() {
    let edges = vec![link(1, 5, 10, 1), link(2, 10, 5, 1)];
    assert_eq!(enumerate_paths(0, 10, &edges).unwrap_err(), PathError::NoPath);
    assert_eq!(shortest_paths(0, 10, edges).unwrap_err(), PathError::NoPath);
}

#[test]
fn duplicate_identifier_is_invalid_input() {
    let edges = vec![link(1, 0, 5, 1), link(2, 5, 10, 1), link(1, 0, 10, 1)];
    assert_eq!(shortest_paths(0, 10, edges.clone()).unwrap_err(), PathError::InvalidInput(1));
    assert_eq!(enumerate_paths(0, 10, &edges).unwrap_err(), PathError::InvalidInput(1));
    assert!(matches!(search_report(0, 10, edges), Err(PathError::InvalidInput(1))));
}

#[test]
fn first_repeated_identifier_is_the_one_reported() {
    let edges = vec![
        link(4, 0, 5, 1),
        link(9, 5, 10, 1),
        link(7, 0, 10, 1),
        link(9, 1, 2, 1),
        link(4, 2, 3, 1),
    ];
    assert_eq!(shortest_paths(0, 10, edges).unwrap_err(), PathError::InvalidInput(9));
}

#[test]
fn cycle_terminates_without_repeating_an_edge() {
    let edges = vec![link(1, 0, 5, 1), link(2, 5, 0, 1), link(3, 5, 10, 1)];
    let found = enumerate_paths(0, 10, &edges).unwrap();
    assert_eq!(ids_of_each(&found), vec![vec![1, 3]]);
    for path in &found {
        let mut ids = path.edge_ids().clone();
        ids.sort();
        ids.dedup();
        assert_eq!(ids.len(), path.len());
    }
}

#[test]
fn cycle_alone_is_no_path() {
    let edges = vec![link(1, 0, 5, 1), link(2, 5, 0, 1)];
    assert_eq!(enumerate_paths(0, 10, &edges).unwrap_err(), PathError::NoPath);
    assert_eq!(shortest_paths(0, 10, edges).unwrap_err(), PathError::NoPath);
}

#[test]
fn loop_through_the_graph_is_walked_once() {
    // 0 -> 5 -> 7 -> 5 -> 10: the loop 5 -> 7 -> 5 may be taken, each edge once.
    let edges = vec![link(1, 0, 5, 1), link(2, 5, 7, 1), link(3, 7, 5, 1), link(4, 5, 10, 1)];
    let found = enumerate_paths(0, 10, &edges).unwrap();
    assert_eq!(ids_of_each(&found), vec![vec![1, 2, 3, 4], vec![1, 4]]);
    let shortest = select_shortest(10, &found);
    assert_eq!(ids_of_each(&shortest), vec![vec![1, 4]]);
}

#[test]
fn reported_weight_is_the_sum_of_the_edge_weights() {
    let edges = vec![
        link(1, 0, 1, 5),
        link(2, 1, 2, 7),
        link(3, 2, 9, 11),
        link(4, 0, 2, 100),
        link(5, 1, 9, 2),
    ];
    let found = enumerate_paths(0, 9, &edges).unwrap();
    assert_eq!(ids_of_each(&found), vec![vec![1, 2, 3], vec![1, 5], vec![4, 3]]);
    let weights: Vec<u128> = found.iter().map(|p| p.weight()).collect();
    assert_eq!(weights, vec![23, 7, 111]);
    for path in &found {
        let sum: u128 = path.edges().iter().map(|e| e.weight as u128).sum();
        assert_eq!(path.weight(), sum);
    }
    let shortest = shortest_paths(0, 9, edges).unwrap();
    assert_eq!(ids_of_each(&shortest), vec![vec![1, 5]]);
    assert_eq!(shortest[0].weight(), 7);
}

#[test]
fn weights_beyond_sixty_four_bits_are_summed_exactly() {
    let edges = vec![link(1, 0, 1, u64::MAX), link(2, 1, 2, u64::MAX), link(3, 2, 3, 2)];
    let shortest = shortest_paths(0, 3, edges).unwrap();
    assert_eq!(shortest.len(), 1);
    assert_eq!(shortest[0].weight(), 2 * (u64::MAX as u128) + 2);
}

#[test]
fn zero_weight_ties_are_included() {
    let edges = vec![link(1, 0, 1, 0), link(2, 1, 9, 0), link(3, 0, 9, 0)];
    let shortest = shortest_paths(0, 9, edges).unwrap();
    assert_eq!(ids_of_each(&shortest), vec![vec![1, 2], vec![3]]);
}

#[test]
fn route_stops_where_it_first_reaches_the_end() {
    // The end location has an outgoing edge that leads back to it.
    let edges = vec![link(1, 0, 10, 5), link(2, 10, 5, 0), link(3, 5, 10, 0)];
    let found = enumerate_paths(0, 10, &edges).unwrap();
    assert_eq!(ids_of_each(&found), vec![vec![1]]);
    assert_eq!(found[0].weight(), 5);
}

#[test]
fn start_equal_to_end_takes_at_least_one_edge() {
    let edges = vec![link(1, 3, 4, 1), link(2, 4, 3, 1), link(3, 3, 3, 9)];
    let found = enumerate_paths(3, 3, &edges).unwrap();
    assert_eq!(ids_of_each(&found), vec![vec![1, 2], vec![3]]);
    let shortest = shortest_paths(3, 3, edges).unwrap();
    assert_eq!(ids_of_each(&shortest), vec![vec![1, 2]]);
}

#[test]
fn parallel_edges_give_distinct_paths() {
    let edges = vec![link(1, 0, 9, 4), link(2, 0, 9, 4), link(3, 0, 9, 5)];
    let found = enumerate_paths(0, 9, &edges).unwrap();
    assert_eq!(ids_of_each(&found), vec![vec![1], vec![2], vec![3]]);
    let shortest = select_shortest(9, &found);
    assert_eq!(ids_of_each(&shortest), vec![vec![1], vec![2]]);
}

#[test]
fn enumerator_gives_up_dead_ends_of_an_unpruned_graph() {
    // Edge 3 leads to 7, where nothing can be entered.
    let edges = vec![link(1, 0, 5, 1), link(2, 5, 10, 1), link(3, 5, 7, 1), link(4, 0, 8, 1)];
    let found = enumerate_paths(0, 10, &edges).unwrap();
    assert_eq!(ids_of_each(&found), vec![vec![1, 2]]);
}

#[test]
fn found_paths_come_in_discovery_order() {
    let edges = vec![
        link(1, 0, 1, 1),
        link(2, 0, 2, 1),
        link(3, 2, 9, 1),
        link(4, 1, 9, 1),
        link(5, 1, 2, 1),
    ];
    let found = enumerate_paths(0, 9, &edges).unwrap();
    assert_eq!(ids_of_each(&found), vec![vec![1, 4], vec![1, 5, 3], vec![2, 3]]);
    let shortest = shortest_paths(0, 9, edges).unwrap();
    assert_eq!(ids_of_each(&shortest), vec![vec![1, 4], vec![2, 3]]);
}

#[test]
fn connections_are_the_edges_entered_at_the_exit() {
    let edges = vec![link(1, 0, 5, 1), link(2, 5, 10, 1), link(3, 7, 5, 1), link(4, 5, 7, 1)];
    let next = get_possible_new_connections(&edges[0], &edges);
    assert_eq!(next, vec![link(2, 5, 10, 1), link(4, 5, 7, 1)]);
    let none = get_possible_new_connections(&edges[1], &edges);
    assert_eq!(none, Vec::<Edge>::new());
}

#[test]
fn selection_leaves_out_paths_that_have_not_arrived() {
    let mut short_of_end = Path::new();
    short_of_end.append(link(1, 0, 5, 1));
    let mut there = Path::new();
    there.append(link(2, 0, 7, 4));
    there.append(link(3, 7, 10, 4));
    let mut there_too = Path::new();
    there_too.append(link(4, 0, 10, 8));
    let mut heavier = Path::new();
    heavier.append(link(5, 0, 10, 9));
    let paths = vec![short_of_end, Path::new(), there, heavier, there_too];
    assert_eq!(least_weight(10, &paths), Some(8));
    let shortest = select_shortest(10, &paths);
    assert_eq!(ids_of_each(&shortest), vec![vec![2, 3], vec![4]]);
    assert_eq!(shortest[0].weight(), 8);
    assert_eq!(shortest[1].weight(), 8);
}

#[test]
fn selection_of_nothing_arrived_is_empty() {
    let mut short_of_end = Path::new();
    short_of_end.append(link(1, 0, 5, 1));
    let paths = vec![short_of_end];
    assert_eq!(least_weight(10, &paths), None);
    assert!(select_shortest(10, &paths).is_empty());
    assert!(select_shortest(10, &Vec::new()).is_empty());
}

#[test]
fn report_holds_pruned_edges_all_routes_and_the_lightest() {
    let edges = vec![
        link(1, 0, 5, 2),
        link(2, 5, 10, 2),
        link(3, 5, 7, 1),
        link(4, 7, 10, 2),
        link(5, 6, 10, 1),
        link(6, 7, 11, 1),
    ];
    let report = search_report(0, 10, edges).unwrap();
    assert_eq!(
        report.purged,
        vec![link(1, 0, 5, 2), link(2, 5, 10, 2), link(3, 5, 7, 1), link(4, 7, 10, 2)]
    );
    assert_eq!(ids_of_each(&report.found), vec![vec![1, 2], vec![1, 3, 4]]);
    assert_eq!(ids_of_each(&report.shortest), vec![vec![1, 2]]);
    assert_eq!(report.shortest[0].weight(), 4);
}

fn path_of(edges: &[Edge]) -> Path {
    let mut path = Path::new();
    for edge in edges {
        path.append(*edge);
    }
    path
}

#[test]
fn seeds_are_the_edges_at_the_start() {
    let edges = vec![link(1, 0, 5, 1), link(2, 5, 10, 1), link(3, 0, 10, 2), link(4, 7, 0, 1)];
    let seeds = seed_paths(0, &edges);
    assert_eq!(ids_of_each(&seeds), vec![vec![1], vec![3]]);
    assert_eq!(seeds[0].weight(), 1);
    assert_eq!(seeds[1].weight(), 2);
    assert!(seed_paths(9, &edges).is_empty());
}

#[test]
fn generation_extends_by_every_edge_not_yet_taken() {
    let edges = vec![link(1, 0, 5, 1), link(2, 5, 7, 2), link(3, 7, 5, 4), link(4, 5, 10, 8)];
    let frontier = vec![path_of(&[edges[0]])];
    let next = extend_frontier(&frontier, &edges, 10);
    assert_eq!(ids_of_each(&next), vec![vec![1, 2], vec![1, 4]]);
    assert_eq!(next[0].weight(), 3);
    assert_eq!(next[1].weight(), 9);
    // Back at 5, edge 2 is taken already: only edge 4 is left.
    let later = extend_frontier(&vec![path_of(&[edges[0], edges[1], edges[2]])], &edges, 10);
    assert_eq!(ids_of_each(&later), vec![vec![1, 2, 3, 4]]);
}

#[test]
fn generation_carries_over_what_has_arrived_or_cannot_go_on() {
    let edges = vec![link(1, 0, 10, 1), link(2, 10, 3, 1), link(3, 0, 8, 1)];
    let frontier = vec![path_of(&[edges[0]]), path_of(&[edges[2]]), Path::new()];
    let next = extend_frontier(&frontier, &edges, 10);
    // The first has arrived; nothing is entered at 8; the last has no edge.
    assert_eq!(ids_of_each(&next), vec![vec![1], vec![3], vec![]]);
}

#[test]
fn generation_drops_a_path_whose_every_next_edge_is_taken() {
    let edges = vec![link(1, 0, 5, 1), link(2, 5, 0, 1)];
    let next = extend_frontier(&vec![path_of(&edges)], &edges, 10);
    assert!(next.is_empty());
}

#[test]
fn dead_end_policy_keeps_arrived_and_extensible_paths() {
    let arrived = path_of(&[link(1, 0, 10, 1)]);
    let on_its_way = path_of(&[link(2, 0, 5, 1)]);
    let stuck = path_of(&[link(3, 0, 8, 1)]);
    let paths = vec![stuck, arrived, Path::new(), on_its_way];
    let (kept, searching) = drop_dead_ends(&paths, &[0, 5, 0], 10);
    assert_eq!(ids_of_each(&kept), vec![vec![1], vec![2]]);
    assert!(searching);
    let (kept, searching) = drop_dead_ends(&paths, &[0, 0], 10);
    assert_eq!(ids_of_each(&kept), vec![vec![1]]);
    assert!(!searching);
    let (kept, searching) = drop_dead_ends(&Vec::new(), &[0, 5], 10);
    assert!(kept.is_empty());
    assert!(!searching);
}

#[test]
fn as_many_generations_as_edges_give_what_the_enumerator_returns() {
    let edges = vec![
        link(1, 0, 5, 1),
        link(2, 5, 7, 1),
        link(3, 7, 5, 1),
        link(4, 5, 10, 1),
        link(5, 7, 10, 1),
        link(6, 5, 8, 1),
    ];
    let node_entries = entries_of(&edges);
    let mut frontier = seed_paths(0, &edges);
    let mut settled_after = 0;
    for step in 1..=edges.len() {
        let grown = extend_frontier(&frontier, &edges, 10);
        let (kept, searching) = drop_dead_ends(&grown, &node_entries, 10);
        frontier = kept;
        if !searching && settled_after == 0 {
            settled_after = step;
        }
    }
    assert_eq!(settled_after, 3);
    let found = enumerate_paths(0, 10, &edges).unwrap();
    assert_eq!(ids_of_each(&frontier), ids_of_each(&found));
    assert_eq!(ids_of_each(&found), vec![vec![1, 2, 3, 4], vec![1, 2, 5], vec![1, 4]]);
}
