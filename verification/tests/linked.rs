use k2tree::linked::K2Tree;
use k2tree::value::{duplicate, same};

#[test]
fn linked_node_of_a_grid_without_true() {
    let node = K2Tree::build(&vec![vec![false, false], vec![false, false]], 2);
    assert_eq!(node.get_value(), Some(false));
    assert_eq!(node.get_child_count(), None);
    let node = K2Tree::build(&Vec::new(), 0);
    assert_eq!(node.get_value(), Some(false));
    assert_eq!(node.get_child_count(), None);
}

#[test]
fn linked_node_of_a_grid_of_true() {
    let node = K2Tree::build(&vec![vec![true, true], vec![true, true]], 2);
    assert_eq!(node.get_value(), Some(true));
    assert_eq!(node.get_child_count(), None);
}

#[test]
fn linked_node_of_a_mixed_grid() {
    let node = K2Tree::build(&vec![vec![true, true], vec![true, false]], 2);
    assert_eq!(node.get_value(), None);
    assert_eq!(node.get_child_count(), Some(0));
    assert_eq!(K2Tree::distribute(&vec![vec![true]], 1).len(), 0);
}

#[test]
fn values_are_compared_and_cloned() {
    assert!(same(&3, &3));
    assert!(!same(&3, &4));
    assert!(same(&Some(true), &Some(true)));
    assert!(!same(&None, &Some(false)));
    assert_eq!(duplicate(&41u64), 41);
    assert_eq!(duplicate(&"text".to_string()), "text".to_string());
}
