use workload_model::schema::merge::{merge, Tree};

fn map(entries: Vec<(u64, Tree)>) -> Tree {
    Tree::Mapping(entries)
}

#[test]
fn the_including_document_wins_and_mappings_merge_recursively() {
    let base = map(vec![
        (1, Tree::Other(10)),
        (2, map(vec![(3, Tree::Other(11))])),
        (4, Tree::Other(12)),
    ]);
    let over = map(vec![
        (2, map(vec![(5, Tree::Other(13))])),
        (1, Tree::Other(14)),
        (6, Tree::Other(15)),
    ]);
    let expected = map(vec![
        (2, map(vec![(3, Tree::Other(11)), (5, Tree::Other(13))])),
        (4, Tree::Other(12)),
        (1, Tree::Other(14)),
        (6, Tree::Other(15)),
    ]);
    assert_eq!(merge(base, over), expected);
}

#[test]
fn a_list_or_scalar_replaces_rather_than_merges() {
    // A list is not a mapping: the including document's replaces the base's.
    let base = map(vec![(1, Tree::Other(20))]);
    let over = map(vec![(1, Tree::Other(21))]);
    assert_eq!(merge(base, over), map(vec![(1, Tree::Other(21))]));
    assert_eq!(merge(Tree::Other(1), map(vec![(2, Tree::Other(3))])), map(vec![(2, Tree::Other(3))]));
    assert_eq!(merge(map(vec![(2, Tree::Other(3))]), Tree::Other(1)), Tree::Other(1));
}

#[test]
fn an_empty_including_document_keeps_the_base() {
    let base = map(vec![(1, Tree::Other(1)), (2, Tree::Other(2))]);
    assert_eq!(
        merge(base, map(vec![])),
        map(vec![(1, Tree::Other(1)), (2, Tree::Other(2))])
    );
}
