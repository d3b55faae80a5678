use edge_paths::edge::PathError;
use edge_paths::path::Path;
use edge_paths::samples::{
    matthiaskrgr_edges, prolog1_edges, prolog3_edges, random_edges, test_matthiaskrgr,
    test_prolog1, test_prolog2, test_prolog3, test_prolog4, test_prolog5, test_prolog6,
    test_prolog7, test_prolog8,
};
use edge_paths::shortest::{search_report, Report};

fn taken(paths: &[Path]) -> Vec<Vec<u16>> {
    paths.iter().map(|p| p.edge_ids().clone()).collect()
}

fn kept_ids(report: &Report) -> Vec<u16> {
    report.purged.iter().map(|e| e.id).collect()
}

#[test]
fn matthiaskrgr_graph_has_two_lightest_routes() {
    let report = test_matthiaskrgr().unwrap();
    assert_eq!(kept_ids(&report), vec![1, 2, 3, 4, 14, 15, 16, 17, 18, 19]);
    assert_eq!(
        taken(&report.found),
        vec![
            vec![1, 2],
            vec![1, 3, 4],
            vec![1, 3, 19, 2],
            vec![1, 3, 19, 16, 17, 18],
            vec![1, 16, 17, 18],
            vec![14, 15],
        ]
    );
    assert_eq!(taken(&report.shortest), vec![vec![1, 2], vec![14, 15]]);
    assert_eq!(report.shortest[0].weight(), 2);
    assert_eq!(report.shortest[1].weight(), 2);
}

#[test]
fn matthiaskrgr_graph_is_as_listed() {
    let edges = matthiaskrgr_edges();
    assert_eq!(edges.len(), 19);
    assert_eq!((edges[0].id, edges[0].entry, edges[0].exit, edges[0].weight), (1, 0, 5, 1));
    assert_eq!((edges[18].id, edges[18].entry, edges[18].exit, edges[18].weight), (19, 7, 5, 1));
    assert_eq!(prolog1_edges().len(), 4);
    assert_eq!(prolog3_edges().len(), 10);
}

#[test]
fn prolog1_takes_the_direct_branch() {
    let report = test_prolog1().unwrap();
    assert_eq!(kept_ids(&report), vec![1, 2, 3, 4]);
    assert_eq!(taken(&report.found), vec![vec![1, 2], vec![1, 3, 4]]);
    assert_eq!(taken(&report.shortest), vec![vec![1, 2]]);
    assert_eq!(report.shortest[0].weight(), 2);
}

#[test]
fn prolog2_takes_the_direct_branch() {
    let report = test_prolog2().unwrap();
    assert_eq!(taken(&report.found), vec![vec![1, 2], vec![1, 3, 4]]);
    assert_eq!(taken(&report.shortest), vec![vec![1, 2]]);
}

#[test]
fn prolog3_loses_what_cannot_be_reached() {
    let report = test_prolog3().unwrap();
    assert_eq!(kept_ids(&report), vec![1, 2, 8, 10]);
    assert_eq!(taken(&report.found), vec![vec![1, 2], vec![1, 10, 8]]);
    assert_eq!(taken(&report.shortest), vec![vec![1, 2]]);
}

#[test]
fn prolog4_takes_the_short_cut() {
    let report = test_prolog4().unwrap();
    assert_eq!(kept_ids(&report), vec![1, 3, 4, 5]);
    assert_eq!(taken(&report.found), vec![vec![1, 3, 4], vec![1, 5]]);
    assert_eq!(taken(&report.shortest), vec![vec![1, 5]]);
    assert_eq!(report.shortest[0].weight(), 2);
}

#[test]
fn prolog5_takes_the_shorter_way_out() {
    let report = test_prolog5().unwrap();
    assert_eq!(kept_ids(&report), vec![1, 2, 3, 4, 5]);
    assert_eq!(taken(&report.found), vec![vec![1, 4], vec![3, 2, 5]]);
    assert_eq!(taken(&report.shortest), vec![vec![1, 4]]);
}

#[test]
fn prolog6_returns_both_parallel_endings() {
    let report = test_prolog6().unwrap();
    assert_eq!(kept_ids(&report), vec![1, 3, 4, 5]);
    assert_eq!(taken(&report.shortest), vec![vec![1, 3, 4], vec![1, 3, 5]]);
    assert_eq!(report.shortest[0].weight(), 3);
}

#[test]
fn prolog7_returns_both_routes() {
    let report = test_prolog7().unwrap();
    assert_eq!(kept_ids(&report), vec![1, 2, 5, 6]);
    assert_eq!(taken(&report.shortest), vec![vec![1, 5], vec![2, 6]]);
}

#[test]
fn prolog8_takes_the_short_cut() {
    let report = test_prolog8().unwrap();
    assert_eq!(kept_ids(&report), vec![1, 2, 3, 4, 5]);
    assert_eq!(taken(&report.found), vec![vec![1, 3, 2, 5], vec![1, 4, 5]]);
    assert_eq!(taken(&report.shortest), vec![vec![1, 4, 5]]);
    assert_eq!(report.shortest[0].weight(), 3);
}

#[test]
fn random_edges_are_numbered_and_stay_in_range() {
    let edges = random_edges(300, 10, 20);
    assert_eq!(edges.len(), 300);
    for (k, edge) in edges.iter().enumerate() {
        assert_eq!(edge.id as usize, k);
        assert!(10 <= edge.entry && edge.entry < 20);
        assert!(10 <= edge.exit && edge.exit < 20);
        assert_eq!(edge.weight, 1);
    }
    // Six hundred draws from ten locations do not all give the same one.
    assert!(edges.iter().any(|e| e.entry != edges[0].entry || e.exit != edges[0].entry));
}

#[test]
fn random_edges_of_an_empty_range_are_none() {
    assert!(random_edges(5, 7, 7).is_empty());
    assert!(random_edges(5, 9, 3).is_empty());
    assert!(random_edges(0, 0, 50).is_empty());
}

#[test]
fn random_graph_without_the_end_location_has_no_path() {
    // No location below three is location 76. Few edges, so that the
    // search stays small.
    let edges = random_edges(6, 0, 3);
    assert!(matches!(search_report(0, 76, edges), Err(PathError::NoPath)));
}

#[test]
fn random_graph_weights_are_sums() {
    let edges = random_edges(8, 0, 4);
    match search_report(0, 3, edges) {
        Ok(report) => {
            for path in report.found.iter().chain(report.shortest.iter()) {
                let sum: u128 = path.edges().iter().map(|e| e.weight as u128).sum();
                assert_eq!(path.weight(), sum);
                let mut ids = path.edge_ids().clone();
                ids.sort();
                ids.dedup();
                assert_eq!(ids.len(), path.len());
                assert_eq!(path.edges()[0].entry, 0);
                assert_eq!(path.last().exit, 3);
            }
            let least = report.found.iter().map(|p| p.weight()).min().unwrap();
            assert!(report.shortest.iter().all(|p| p.weight() == least));
            let ties = report.found.iter().filter(|p| p.weight() == least).count();
            assert_eq!(report.shortest.len(), ties);
        }
        Err(e) => assert_eq!(e, PathError::NoPath),
    }
}
