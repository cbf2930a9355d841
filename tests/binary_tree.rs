use algorithms::trees::binary::{compute_ordering, Edge, Node, Tree};
use std::cmp::Ordering;

#[derive(PartialOrd, Ord, PartialEq, Eq)]
struct Data {
    value: u32,
}

fn assert_edge<'a, T>(edge: &'a Edge<T>, data: T) -> &'a Box<Node<T>>
where
    T: PartialOrd + Ord,
{
    match edge {
        &Some(ref node) if node.data == data => node,
        &Some(_) => panic!("node data does not match"),
        &None => panic!("edge is none"),
    }
}

fn make_edge(data: u32, left: Edge<Data>, right: Edge<Data>) -> Edge<Data> {
    Some(Box::new(Node { data: Data { value: data }, left: left, right: right }))
}

fn make_tree() -> Tree<Data> {
    Tree {
        root: make_edge(
            10,
            make_edge(5, make_edge(4, None, None), make_edge(6, None, make_edge(7, None, None))),
            make_edge(
                15,
                make_edge(12, make_edge(11, None, None), make_edge(14, None, None)),
                make_edge(16, None, None),
            ),
        ),
    }
}

fn ascending(tree: &Tree<Data>) -> Vec<u32> {
    let mut iter = tree.iter();
    let mut values = Vec::new();
    while let Some(node) = iter.next() {
        values.push(node.data.value);
    }
    values
}

fn descending(tree: &Tree<Data>) -> Vec<u32> {
    let mut iter = tree.iter();
    let mut values = Vec::new();
    while let Some(node) = iter.next_back() {
        values.push(node.data.value);
    }
    values
}

#[test]
fn test_find() {
    let tree = make_tree();

    assert_edge(tree.find(&Data { value: 7 }), Data { value: 7 });
    assert_edge(tree.find(&Data { value: 10 }), Data { value: 10 });
    assert_edge(tree.find(&Data { value: 12 }), Data { value: 12 });

    assert!(tree.find(&Data { value: 30 }).is_none());
}

#[test]
fn test_insert() {
    let mut tree = Tree { root: None };

    tree.insert(Data { value: 10 });
    tree.insert(Data { value: 5 });
    tree.insert(Data { value: 15 });
    tree.insert(Data { value: 10 });
    tree.insert(Data { value: 16 });
    tree.insert(Data { value: 3 });

    assert!(
        tree == Tree {
            root: make_edge(
                10,
                make_edge(5, make_edge(3, None, None), None),
                make_edge(15, None, make_edge(16, None, None))
            )
        }
    );
}

#[test]
fn test_delete() {
    let mut tree = make_tree();

    tree.delete(&Data { value: 14 }); // leaf node
    tree.delete(&Data { value: 12 }); // 1 left child
    tree.delete(&Data { value: 6 }); // 1 right child
    tree.delete(&Data { value: 10 }); // 2 children

    let final_tree = Tree {
        root: make_edge(
            7,
            make_edge(5, make_edge(4, None, None), None),
            make_edge(15, make_edge(11, None, None), make_edge(16, None, None)),
        ),
    };

    assert!(tree == final_tree);
}

#[test]
fn test_iterator() {
    let tree = make_tree();

    let values = ascending(&tree);
    assert!(values == [4, 5, 6, 7, 10, 11, 12, 14, 15, 16]);

    let values = descending(&tree);
    assert!(values == [16, 15, 14, 12, 11, 10, 7, 6, 5, 4]);

    let empty_tree: Tree<u32> = Tree { root: None };
    let mut iter = empty_tree.iter();
    let mut values: Vec<&Node<u32>> = Vec::new();
    while let Some(node) = iter.next() {
        values.push(node);
    }
    assert!(values.len() == 0);
}

#[test]
fn delete_listing_after_each_kind_of_node() {
    let mut tree = Tree::new();
    for v in [10, 5, 4, 6, 7, 15, 12, 11, 14, 16] {
        tree.insert(Data { value: v });
    }
    assert_eq!(ascending(&tree), vec![4, 5, 6, 7, 10, 11, 12, 14, 15, 16]);
    tree.delete(&Data { value: 14 });
    assert_eq!(ascending(&tree), vec![4, 5, 6, 7, 10, 11, 12, 15, 16]);
    tree.delete(&Data { value: 12 });
    assert_eq!(ascending(&tree), vec![4, 5, 6, 7, 10, 11, 15, 16]);
    tree.delete(&Data { value: 6 });
    assert_eq!(ascending(&tree), vec![4, 5, 7, 10, 11, 15, 16]);
    tree.delete(&Data { value: 10 });
    assert_eq!(ascending(&tree), vec![4, 5, 7, 11, 15, 16]);
    assert_eq!(tree.root.as_ref().map(|n| n.data.value), Some(7));
}

#[test]
fn delete_of_absent_value_changes_nothing() {
    let mut tree = make_tree();
    tree.delete(&Data { value: 13 });
    assert!(tree == make_tree());
    let mut empty: Tree<u32> = Tree::new();
    empty.delete(&3);
    assert!(empty.root.is_none());
}

#[test]
fn inserted_values_are_found_and_others_are_not() {
    let mut tree: Tree<u32> = Tree::new();
    for v in [8, 3, 12, 1, 5, 9, 14] {
        tree.insert(v);
    }
    tree.delete(&3);
    tree.insert(20);
    tree.delete(&14);
    for v in [8, 12, 1, 5, 9, 20] {
        assert_eq!(tree.find(&v).as_ref().map(|n| n.data), Some(v));
    }
    for v in [3, 14, 0, 2, 100] {
        assert!(tree.find(&v).is_none());
    }
}

#[test]
fn duplicate_insert_keeps_the_in_order_sequence() {
    let mut tree = make_tree();
    let before = ascending(&tree);
    tree.insert(Data { value: 12 });
    tree.insert(Data { value: 4 });
    assert_eq!(ascending(&tree), before);
    assert!(tree == make_tree());
}

#[test]
fn traversals_are_ascending_and_reverse_after_updates() {
    let mut tree: Tree<Data> = Tree::new();
    for v in [50, 20, 80, 10, 30, 70, 90, 25, 35, 75] {
        tree.insert(Data { value: v });
    }
    tree.delete(&Data { value: 20 });
    tree.delete(&Data { value: 80 });
    tree.insert(Data { value: 5 });
    let up = ascending(&tree);
    assert_eq!(up, vec![5, 10, 25, 30, 35, 50, 70, 75, 90]);
    let mut down = descending(&tree);
    down.reverse();
    assert_eq!(down, up);
}

#[test]
fn empty_tree_yields_nothing_from_either_end() {
    let tree: Tree<u32> = Tree::new();
    let mut iter = tree.iter();
    assert!(iter.next_back().is_none());
    assert!(iter.next().is_none());
    assert!(iter.next().is_none());
}

#[test]
fn both_ends_meet_in_the_middle() {
    let tree = make_tree();
    let mut iter = tree.iter();
    let mut seen = Vec::new();
    loop {
        match iter.next() {
            Some(node) => seen.push(node.data.value),
            None => break,
        }
        match iter.next_back() {
            Some(node) => seen.push(node.data.value),
            None => break,
        }
    }
    assert_eq!(seen, vec![4, 16, 5, 15, 6, 14, 7, 12, 10, 11]);
    assert!(iter.next().is_none());
    assert!(iter.next_back().is_none());
}

#[test]
fn compute_ordering_compares_with_the_node() {
    let tree = make_tree();
    assert_eq!(compute_ordering(&tree.root, &Data { value: 3 }), Ordering::Less);
    assert_eq!(compute_ordering(&tree.root, &Data { value: 10 }), Ordering::Equal);
    assert_eq!(compute_ordering(&tree.root, &Data { value: 11 }), Ordering::Greater);
    assert_eq!(compute_ordering(&None::<Box<Node<Data>>>, &Data { value: 11 }), Ordering::Equal);
}

#[test]
fn find_mut_hands_out_the_search_slot() {
    let mut tree = make_tree();
    assert_eq!(tree.find_mut(&Data { value: 12 }).as_ref().map(|n| n.data.value), Some(12));
    let slot = tree.find_mut(&Data { value: 13 });
    assert!(slot.is_none());
    *slot = make_edge(13, None, None);
    assert_eq!(ascending(&tree), vec![4, 5, 6, 7, 10, 11, 12, 13, 14, 15, 16]);
}
