use edge_paths::edge::{entries_of, exits_of, holds_location, verify_edges, Edge, PathError};
use edge_paths::normalize::{is_dead_end, is_unreachable, normalize, prune_pass};

fn arc(id: u16, entry: u16, exit: u16) -> Edge {
    Edge { id, entry, exit, weight: 1 }
}

#[test]
fn unreachable_branch_is_removed_before_search() {
    // Nothing ends at 6, and 6 is not the start.
    let edges = vec![arc(1, 0, 5), arc(2, 5, 10), arc(3, 6, 10)];
    assert_eq!(prune_pass(0, 10, &edges), vec![arc(1, 0, 5), arc(2, 5, 10)]);
    assert_eq!(normalize(0, 10, edges).unwrap(), vec![arc(1, 0, 5), arc(2, 5, 10)]);
}

#[test]
fn dead_end_is_removed() {
    let edges = vec![arc(1, 0, 5), arc(2, 5, 10), arc(3, 5, 7)];
    assert_eq!(prune_pass(0, 10, &edges), vec![arc(1, 0, 5), arc(2, 5, 10)]);
}

#[test]
fn pruning_repeats_until_nothing_changes() {
    // A dead-end chain 7 -> 11 -> 20 -> 25 comes apart from its far end.
    let edges = vec![
        arc(1, 0, 5),
        arc(2, 5, 10),
        arc(3, 5, 7),
        arc(4, 7, 11),
        arc(5, 11, 20),
        arc(6, 20, 25),
    ];
    let once = prune_pass(0, 10, &edges);
    assert_eq!(
        once,
        vec![arc(1, 0, 5), arc(2, 5, 10), arc(3, 5, 7), arc(4, 7, 11), arc(5, 11, 20)]
    );
    let twice = prune_pass(0, 10, &once);
    assert_eq!(twice, vec![arc(1, 0, 5), arc(2, 5, 10), arc(3, 5, 7), arc(4, 7, 11)]);
    assert_eq!(normalize(0, 10, edges).unwrap(), vec![arc(1, 0, 5), arc(2, 5, 10)]);
}

#[test]
fn pass_over_a_fixed_point_changes_nothing() {
    let edges = vec![
        arc(1, 0, 5),
        arc(2, 5, 10),
        arc(3, 5, 7),
        arc(4, 7, 11),
        arc(5, 49, 50),
        arc(6, 50, 10),
        arc(7, 7, 5),
    ];
    let left = normalize(0, 10, edges).unwrap();
    assert_eq!(left, vec![arc(1, 0, 5), arc(2, 5, 10), arc(3, 5, 7), arc(7, 7, 5)]);
    assert_eq!(prune_pass(0, 10, &left), left);
    assert_eq!(normalize(0, 10, left.clone()).unwrap(), left);
}

#[test]
fn edge_from_start_to_end_is_never_removed() {
    let edges = vec![arc(1, 0, 10), arc(2, 3, 4), arc(3, 8, 9)];
    assert_eq!(prune_pass(0, 10, &edges), vec![arc(1, 0, 10)]);
    assert_eq!(normalize(0, 10, edges).unwrap(), vec![arc(1, 0, 10)]);
}

#[test]
fn start_edge_is_not_removed_for_where_it_comes_from() {
    // Nothing ends at the start 0; edge 1 stays, for it leads on to edge 2.
    let edges = vec![arc(1, 0, 5), arc(2, 5, 10)];
    assert_eq!(prune_pass(0, 10, &edges), edges);
}

#[test]
fn end_edge_is_not_removed_for_where_it_leads() {
    // Nothing is entered at the end 10; edge 2 stays, for edge 1 leads to it.
    let edges = vec![arc(1, 0, 5), arc(2, 5, 10)];
    assert_eq!(normalize(0, 10, edges.clone()).unwrap(), edges);
}

#[test]
fn start_edge_into_a_dead_end_is_removed() {
    let edges = vec![arc(1, 0, 7), arc(2, 0, 10)];
    assert_eq!(prune_pass(0, 10, &edges), vec![arc(2, 0, 10)]);
}

#[test]
fn self_loop_supports_itself() {
    // The loop at 6 is entered where it ends, so no pass removes it.
    let edges = vec![arc(1, 0, 10), arc(2, 6, 6)];
    assert_eq!(normalize(0, 10, edges.clone()).unwrap(), edges);
}

#[test]
fn nothing_left_is_no_path() {
    let edges = vec![arc(1, 1, 2), arc(2, 2, 3)];
    // Edge 1 cannot be reached, and edge 2 leads nowhere.
    assert_eq!(prune_pass(0, 10, &edges), Vec::<Edge>::new());
    assert_eq!(normalize(0, 10, edges).unwrap_err(), PathError::NoPath);
    assert_eq!(normalize(0, 10, Vec::new()).unwrap_err(), PathError::NoPath);
}

#[test]
fn duplicate_identifier_stops_the_normalizer() {
    let edges = vec![arc(1, 0, 5), arc(2, 5, 10), arc(2, 5, 10)];
    assert_eq!(normalize(0, 10, edges.clone()).unwrap_err(), PathError::InvalidInput(2));
    assert_eq!(verify_edges(&edges), Err(PathError::InvalidInput(2)));
}

#[test]
fn unique_identifiers_pass_the_check() {
    assert_eq!(verify_edges(&[arc(1, 0, 5), arc(2, 0, 5), arc(3, 0, 5)]), Ok(()));
    assert_eq!(verify_edges(&[]), Ok(()));
}

#[test]
fn entries_and_exits_are_collected_in_order() {
    let edges = vec![arc(1, 0, 5), arc(2, 5, 10), arc(3, 5, 7)];
    assert_eq!(entries_of(&edges), vec![0, 5, 5]);
    assert_eq!(exits_of(&edges), vec![5, 10, 7]);
    assert!(holds_location(&[0, 5, 5], 5));
    assert!(!holds_location(&[0, 5, 5], 7));
    assert!(!holds_location(&[], 0));
}

#[test]
fn dead_end_and_unreachable_are_told_apart() {
    let edges = vec![arc(1, 0, 5), arc(2, 5, 10), arc(3, 5, 7), arc(4, 6, 10), arc(5, 6, 7)];
    let node_entries = entries_of(&edges);
    let node_exits = exits_of(&edges);
    let dead: Vec<bool> = edges.iter().map(|e| is_dead_end(e, &node_entries, 10)).collect();
    let cut_off: Vec<bool> = edges.iter().map(|e| is_unreachable(e, &node_exits, 0)).collect();
    assert_eq!(dead, vec![false, false, true, false, true]);
    assert_eq!(cut_off, vec![false, false, false, true, true]);
}

#[test]
fn start_and_end_are_exempt_on_their_own_side_only() {
    // 0 -> 7 sets out from the start, yet leads nowhere; 6 -> 10 ends at
    // the end, yet comes from nowhere.
    let edges = vec![arc(1, 0, 7), arc(2, 6, 10)];
    let node_entries = entries_of(&edges);
    let node_exits = exits_of(&edges);
    assert!(is_dead_end(&edges[0], &node_entries, 10));
    assert!(!is_unreachable(&edges[0], &node_exits, 0));
    assert!(!is_dead_end(&edges[1], &node_entries, 10));
    assert!(is_unreachable(&edges[1], &node_exits, 0));
    assert_eq!(normalize(0, 10, edges).unwrap_err(), PathError::NoPath);
}
