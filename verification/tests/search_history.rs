use ktsteg::search_encoding_tree::{SearchHistory, SearchNode};

#[test]
fn expand_search_retains_parents_and_spawns_children() {
    let mut history = SearchHistory::new();
    history.set_weights(vec![5u64; 256]);
    let root = vec![SearchNode::new(None, 0, 0, 0)];
    let children = history.expand_search(&root, 1, 2, 0b1010_0000);
    assert_eq!(children.len(), 4);
    for child in &children {
        assert_eq!(child.parent_index, Some(0));
        assert_eq!(child.weight, 5);
    }
    let saved = history.get(0);
    assert_eq!(saved.parent_index, None);
    assert_eq!(saved.encoded_byte, 0);
}

#[test]
fn expand_search_skips_nodes_over_the_threshold() {
    let mut history = SearchHistory::new();
    history.set_weights(vec![1u64; 256]);
    let frontier = vec![
        SearchNode::new(None, 1, 0, 0),
        SearchNode::new(None, 2, 0, 50),
        SearchNode::new(None, 3, 0, 10),
    ];
    let children = history.expand_search(&frontier, 10, 1, 0);
    // two parents within the threshold, two freedom values each
    assert_eq!(children.len(), 4);
    for child in &children {
        assert!(child.weight >= 1);
    }
}
