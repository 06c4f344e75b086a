use red_black_tree::{Color, Node, Tree};

/// Checks the subtree in `slot` and returns its black height: links agree,
/// keys lie between `low` and `high`, no red node has a red child, and both
/// sides of every node carry the same number of black nodes.
fn check(
    tree: &Tree,
    slot: Option<usize>,
    parent: Option<usize>,
    low: Option<i32>,
    high: Option<i32>,
    seen: &mut Vec<bool>,
) -> usize {
    let id = match slot {
        Some(id) => id,
        None => return 0,
    };
    assert!(id < tree.len());
    assert!(!seen[id], "node {} is reached twice", id);
    seen[id] = true;
    let node: Node = tree.node(id);
    assert_eq!(node.parent, parent);
    if let Some(low) = low {
        assert!(low <= node.key);
    }
    if let Some(high) = high {
        assert!(node.key <= high);
    }
    if node.color == Color::Red {
        for child in [node.left, node.right] {
            if let Some(child) = child {
                assert_eq!(tree.node(child).color, Color::Black);
            }
        }
    }
    let left = check(tree, node.left, Some(id), low, Some(node.key), seen);
    let right = check(tree, node.right, Some(id), Some(node.key), high, seen);
    assert_eq!(left, right, "black heights differ below node {}", id);
    if node.left.is_none() != node.right.is_none() {
        let only = node.left.or(node.right).unwrap();
        assert_eq!(tree.node(only).color, Color::Red);
    }
    left + if node.color == Color::Black { 1 } else { 0 }
}

fn check_tree(tree: &Tree) -> usize {
    let mut seen = vec![false; tree.len()];
    if let Some(root) = tree.root() {
        assert_eq!(tree.node(root).color, Color::Black);
    } else {
        assert_eq!(tree.len(), 0);
    }
    let height = check(tree, tree.root(), None, None, None, &mut seen);
    assert!(seen.iter().all(|hit| *hit));
    let entries = tree.traverse();
    assert_eq!(entries.len(), tree.len());
    for pair in entries.windows(2) {
        assert!(pair[0].0 <= pair[1].0);
    }
    height
}

fn check_after_each(keys: &[i32]) -> Tree {
    let mut tree = Tree::new();
    check_tree(&tree);
    let mut sorted: Vec<i32> = Vec::new();
    for (count, key) in keys.iter().enumerate() {
        tree.insert(*key);
        assert_eq!(tree.len(), count + 1);
        assert_eq!(tree.node(count).key, *key);
        check_tree(&tree);
        let place = sorted.iter().filter(|other| **other <= *key).count();
        sorted.insert(place, *key);
        let got: Vec<i32> = tree.traverse().iter().map(|entry| entry.0).collect();
        assert_eq!(got, sorted);
    }
    tree
}

fn scrambled(count: usize, modulus: i64) -> Vec<i32> {
    let mut state: i64 = 12345;
    let mut keys = Vec::new();
    for _ in 0..count {
        state = (state * 1103515245 + 12345) % 2147483648;
        keys.push((state % modulus - modulus / 2) as i32);
    }
    keys
}

#[test]
fn ascending_keys_stay_red_black() {
    let keys: Vec<i32> = (0..200).collect();
    let tree = check_after_each(&keys);
    let height = check_tree(&tree);
    assert!(height >= 4 && height <= 8);
}

#[test]
fn descending_keys_stay_red_black() {
    let keys: Vec<i32> = (0..200).rev().collect();
    check_after_each(&keys);
}

#[test]
fn zigzag_keys_stay_red_black() {
    let mut keys = Vec::new();
    for step in 0..100 {
        keys.push(step);
        keys.push(1000 - step);
    }
    check_after_each(&keys);
}

#[test]
fn inward_zigzag_keys_stay_red_black() {
    let mut keys = Vec::new();
    for step in 0..100 {
        keys.push(500 - step * 3);
        keys.push(500 - step * 3 + 1);
        keys.push(500 + step * 3);
        keys.push(500 + step * 3 - 1);
    }
    check_after_each(&keys);
}

#[test]
fn scrambled_keys_stay_red_black() {
    check_after_each(&scrambled(500, 100000));
}

#[test]
fn scrambled_keys_with_many_equals_stay_red_black() {
    check_after_each(&scrambled(500, 16));
}

#[test]
fn equal_keys_alone_stay_red_black() {
    let keys = vec![5; 64];
    let tree = check_after_each(&keys);
    let mut ids = Vec::new();
    listing(&tree, tree.root(), &mut ids);
    let expected: Vec<usize> = (0..64).collect();
    assert_eq!(ids, expected);
}

fn listing(tree: &Tree, slot: Option<usize>, out: &mut Vec<usize>) {
    if let Some(id) = slot {
        let node = tree.node(id);
        listing(tree, node.left, out);
        out.push(id);
        listing(tree, node.right, out);
    }
}

#[test]
fn equal_keys_can_end_up_on_the_left() {
    // After the rotation the first 5 hangs to the left of the second: keys
    // on the left are not greater, but they can be equal.
    let mut tree = Tree::new();
    tree.insert(5);
    tree.insert(5);
    tree.insert(6);
    let root = tree.node(tree.root().unwrap());
    assert_eq!(root.key, 5);
    assert_eq!(tree.node(root.left.unwrap()).key, 5);
    assert_eq!(tree.node(root.right.unwrap()).key, 6);
    check_tree(&tree);
}

#[test]
fn size_counts_the_insertions() {
    let mut tree = Tree::new();
    for count in 0..50 {
        assert_eq!(tree.len(), count);
        assert_eq!(tree.traverse().len(), count);
        tree.insert((count as i32 * 37) % 11);
    }
    assert_eq!(tree.len(), 50);
    assert_eq!(tree.traverse().len(), 50);
}

#[test]
fn keys_of_old_nodes_do_not_change() {
    let keys = scrambled(100, 1000);
    let mut tree = Tree::new();
    for key in &keys {
        tree.insert(*key);
    }
    for (id, key) in keys.iter().enumerate() {
        assert_eq!(tree.node(id).key, *key);
    }
}

#[test]
fn every_node_is_created_red_or_becomes_the_black_root() {
    let mut tree = Tree::new();
    tree.insert(1);
    assert_eq!(tree.node(0).color, Color::Black);
    tree.insert(2);
    assert_eq!(tree.node(1).color, Color::Red);
    assert_eq!(tree.node(1).left, None);
    assert_eq!(tree.node(1).right, None);
}
