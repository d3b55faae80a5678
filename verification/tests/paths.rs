use edge_paths::edge::Edge;
use edge_paths::path::Path;

#[test]
fn new_path_is_empty() {
    let path = Path::new();
    assert!(path.is_empty());
    assert_eq!(path.len(), 0);
    assert_eq!(path.weight(), 0);
    assert_eq!(path.edges(), &Vec::<Edge>::new());
    assert_eq!(path.edge_ids(), &Vec::<u16>::new());
}

#[test]
fn append_keeps_order_weight_and_identifiers() {
    let first = Edge { id: 4, entry: 0, exit: 5, weight: 3 };
    let second = Edge { id: 2, entry: 5, exit: 10, weight: 9 };
    let mut path = Path::new();
    path.append(first);
    assert_eq!(path.last(), &first);
    path.append(second);
    assert_eq!(path.len(), 2);
    assert!(!path.is_empty());
    assert_eq!(path.edges(), &vec![first, second]);
    assert_eq!(path.edge_ids(), &vec![4, 2]);
    assert_eq!(path.weight(), 12);
    assert_eq!(path.last(), &second);
    assert!(path.contains_id(4));
    assert!(path.contains_id(2));
    assert!(!path.contains_id(3));
}

#[test]
fn clone_does_not_follow_later_changes() {
    let first = Edge { id: 1, entry: 0, exit: 5, weight: 3 };
    let second = Edge { id: 2, entry: 5, exit: 10, weight: 9 };
    let mut path = Path::new();
    path.append(first);
    let copy = path.clone();
    path.append(second);
    assert_eq!(copy.edges(), &vec![first]);
    assert_eq!(copy.edge_ids(), &vec![1]);
    assert_eq!(copy.weight(), 3);
    assert_eq!(path.weight(), 12);
}
