use durt::sum_node_sizes;

#[test]
fn no_nodes_sum_to_zero() {
    let nodes: Vec<Option<u64>> = vec![];
    assert_eq!(sum_node_sizes(&nodes), 0);
}

#[test]
fn readable_nodes_all_count() {
    let nodes = vec![Some(10), Some(20), Some(30)];
    assert_eq!(sum_node_sizes(&nodes), 60);
}

#[test]
fn unreadable_nodes_are_excluded() {
    let nodes = vec![Some(10), None, Some(30), None];
    assert_eq!(sum_node_sizes(&nodes), 40);
}

#[test]
fn symlink_contributes_its_own_length() {
    // A walk over a directory holding one regular file of 1000 bytes and one
    // symlink whose own stored target string is 12 bytes long: the link is
    // never dereferenced, so its own length counts, not its target's.
    let regular_file: Option<u64> = Some(1000);
    let symlink_own_length: Option<u64> = Some(12);
    let nodes = vec![regular_file, symlink_own_length];
    assert_eq!(sum_node_sizes(&nodes), 1012);
}
