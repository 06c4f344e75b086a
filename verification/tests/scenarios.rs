use red_black_tree::{Color, Dir, Node, Tree};

fn build(keys: &[i32]) -> Tree {
    let mut tree = Tree::new();
    for key in keys {
        tree.insert(*key);
    }
    tree
}

fn keys_of(entries: &[(i32, Color)]) -> Vec<i32> {
    entries.iter().map(|entry| entry.0).collect()
}

#[test]
fn empty_tree_has_nothing() {
    let tree = Tree::new();
    assert_eq!(tree.len(), 0);
    assert_eq!(tree.root(), None);
    assert_eq!(tree.traverse(), vec![]);
}

#[test]
fn seeded_keys_come_out_in_order() {
    let tree = build(&[20, 15, 25, 10, 5, 30]);
    assert_eq!(keys_of(&tree.traverse()), vec![5, 10, 15, 20, 25, 30]);
}

#[test]
fn seeded_keys_get_their_colours() {
    let tree = build(&[20, 15, 25, 10, 5, 30]);
    assert_eq!(
        tree.traverse(),
        vec![
            (5, Color::Red),
            (10, Color::Black),
            (15, Color::Red),
            (20, Color::Black),
            (25, Color::Black),
            (30, Color::Red),
        ]
    );
}

#[test]
fn seeded_keys_get_their_shape() {
    let tree = build(&[20, 15, 25, 10, 5, 30]);
    assert_eq!(tree.len(), 6);
    assert_eq!(tree.root(), Some(0));
    let root = tree.node(0);
    assert_eq!(root.key, 20);
    assert_eq!(root.color, Color::Black);
    assert_eq!(root.parent, None);
    assert_eq!(root.left, Some(3));
    assert_eq!(root.right, Some(2));
    assert_eq!(
        tree.node(3),
        Node { key: 10, color: Color::Black, parent: Some(0), left: Some(4), right: Some(1) }
    );
    assert_eq!(
        tree.node(1),
        Node { key: 15, color: Color::Red, parent: Some(3), left: None, right: None }
    );
    assert_eq!(
        tree.node(4),
        Node { key: 5, color: Color::Red, parent: Some(3), left: None, right: None }
    );
    assert_eq!(
        tree.node(2),
        Node { key: 25, color: Color::Black, parent: Some(0), left: None, right: Some(5) }
    );
    assert_eq!(
        tree.node(5),
        Node { key: 30, color: Color::Red, parent: Some(2), left: None, right: None }
    );
}

#[test]
fn one_key_gives_a_black_root_without_children() {
    let tree = build(&[42]);
    assert_eq!(tree.len(), 1);
    assert_eq!(tree.root(), Some(0));
    assert_eq!(
        tree.node(0),
        Node { key: 42, color: Color::Black, parent: None, left: None, right: None }
    );
    assert_eq!(tree.traverse(), vec![(42, Color::Black)]);
}

#[test]
fn two_keys_give_a_black_root_and_a_red_child_on_the_right() {
    let tree = build(&[10, 20]);
    assert_eq!(tree.root(), Some(0));
    assert_eq!(
        tree.node(0),
        Node { key: 10, color: Color::Black, parent: None, left: None, right: Some(1) }
    );
    assert_eq!(
        tree.node(1),
        Node { key: 20, color: Color::Red, parent: Some(0), left: None, right: None }
    );
}

#[test]
fn two_keys_give_a_black_root_and_a_red_child_on_the_left() {
    let tree = build(&[10, 5]);
    assert_eq!(tree.root(), Some(0));
    assert_eq!(
        tree.node(0),
        Node { key: 10, color: Color::Black, parent: None, left: Some(1), right: None }
    );
    assert_eq!(
        tree.node(1),
        Node { key: 5, color: Color::Red, parent: Some(0), left: None, right: None }
    );
}

#[test]
fn red_uncle_is_recoloured_without_a_rotation() {
    let tree = build(&[20, 15, 25, 10]);
    assert_eq!(tree.root(), Some(0));
    assert_eq!(
        tree.traverse(),
        vec![(10, Color::Red), (15, Color::Black), (20, Color::Black), (25, Color::Black)]
    );
    assert_eq!(tree.node(0).left, Some(1));
    assert_eq!(tree.node(0).right, Some(2));
    assert_eq!(tree.node(1).left, Some(3));
}

#[test]
fn line_on_the_left_rotates_the_grandparent_right() {
    let tree = build(&[30, 20, 10]);
    assert_eq!(tree.root(), Some(1));
    assert_eq!(
        tree.node(1),
        Node { key: 20, color: Color::Black, parent: None, left: Some(2), right: Some(0) }
    );
    assert_eq!(
        tree.node(0),
        Node { key: 30, color: Color::Red, parent: Some(1), left: None, right: None }
    );
    assert_eq!(
        tree.node(2),
        Node { key: 10, color: Color::Red, parent: Some(1), left: None, right: None }
    );
}

#[test]
fn line_on_the_right_rotates_the_grandparent_left() {
    let tree = build(&[10, 20, 30]);
    assert_eq!(tree.root(), Some(1));
    assert_eq!(
        tree.node(1),
        Node { key: 20, color: Color::Black, parent: None, left: Some(0), right: Some(2) }
    );
    assert_eq!(
        tree.node(0),
        Node { key: 10, color: Color::Red, parent: Some(1), left: None, right: None }
    );
    assert_eq!(
        tree.node(2),
        Node { key: 30, color: Color::Red, parent: Some(1), left: None, right: None }
    );
}

#[test]
fn triangle_on_the_left_rotates_the_parent_first() {
    let tree = build(&[10, 5, 7]);
    assert_eq!(tree.root(), Some(2));
    assert_eq!(
        tree.node(2),
        Node { key: 7, color: Color::Black, parent: None, left: Some(1), right: Some(0) }
    );
    assert_eq!(
        tree.node(1),
        Node { key: 5, color: Color::Red, parent: Some(2), left: None, right: None }
    );
    assert_eq!(
        tree.node(0),
        Node { key: 10, color: Color::Red, parent: Some(2), left: None, right: None }
    );
    assert_eq!(
        tree.traverse(),
        vec![(5, Color::Red), (7, Color::Black), (10, Color::Red)]
    );
}

#[test]
fn triangle_on_the_right_rotates_the_parent_first() {
    let tree = build(&[10, 15, 12]);
    assert_eq!(tree.root(), Some(2));
    assert_eq!(
        tree.node(2),
        Node { key: 12, color: Color::Black, parent: None, left: Some(0), right: Some(1) }
    );
    assert_eq!(
        tree.node(0),
        Node { key: 10, color: Color::Red, parent: Some(2), left: None, right: None }
    );
    assert_eq!(
        tree.node(1),
        Node { key: 15, color: Color::Red, parent: Some(2), left: None, right: None }
    );
}

#[test]
fn triangle_below_a_black_uncle_keeps_the_subtrees() {
    // 10 black over 5 and 15; 5 red over 2 and 7 after the first recolouring
    // round; then 6 and 8 hang below 7, and 9 makes a triangle whose uncle
    // is a black node with children of its own.
    let tree = build(&[10, 5, 15, 2, 7, 6, 8, 9]);
    assert_eq!(keys_of(&tree.traverse()), vec![2, 5, 6, 7, 8, 9, 10, 15]);
    let root = tree.node(tree.root().unwrap());
    assert_eq!(root.key, 7);
    assert_eq!(root.color, Color::Black);
    let left = tree.node(root.left.unwrap());
    let right = tree.node(root.right.unwrap());
    assert_eq!((left.key, left.color), (5, Color::Red));
    assert_eq!((right.key, right.color), (10, Color::Red));
    assert_eq!(tree.node(left.left.unwrap()).key, 2);
    assert_eq!(tree.node(left.right.unwrap()).key, 6);
    assert_eq!(tree.node(right.left.unwrap()).key, 8);
    assert_eq!(tree.node(right.right.unwrap()).key, 15);
    assert_eq!(tree.node(tree.node(right.left.unwrap()).right.unwrap()).key, 9);
}

#[test]
fn equal_key_goes_to_the_right() {
    let tree = build(&[7, 7]);
    assert_eq!(tree.len(), 2);
    assert_eq!(tree.node(0).right, Some(1));
    assert_eq!(tree.node(0).left, None);
    assert_eq!(tree.traverse(), vec![(7, Color::Black), (7, Color::Red)]);
}

#[test]
fn equal_key_stands_behind_its_equals() {
    let tree = build(&[5, 3, 8, 5]);
    let mut ids = Vec::new();
    collect_ids(&tree, tree.root(), &mut ids);
    assert_eq!(ids, vec![1, 0, 3, 2]);
    assert_eq!(keys_of(&tree.traverse()), vec![3, 5, 5, 8]);
}

#[test]
fn three_equal_keys_keep_their_order_through_a_rotation() {
    let tree = build(&[5, 5, 5]);
    assert_eq!(tree.root(), Some(1));
    assert_eq!(
        tree.node(1),
        Node { key: 5, color: Color::Black, parent: None, left: Some(0), right: Some(2) }
    );
    let mut ids = Vec::new();
    collect_ids(&tree, tree.root(), &mut ids);
    assert_eq!(ids, vec![0, 1, 2]);
    assert_eq!(
        tree.traverse(),
        vec![(5, Color::Red), (5, Color::Black), (5, Color::Red)]
    );
}

fn collect_ids(tree: &Tree, slot: Option<usize>, out: &mut Vec<usize>) {
    if let Some(id) = slot {
        let node = tree.node(id);
        collect_ids(tree, node.left, out);
        out.push(id);
        collect_ids(tree, node.right, out);
    }
}

#[test]
fn direction_names_the_side_of_a_child() {
    let tree = build(&[20, 15, 25, 10, 5, 30]);
    assert_eq!(tree.direction(3), Dir::Left);
    assert_eq!(tree.direction(2), Dir::Right);
    assert_eq!(tree.direction(4), Dir::Left);
    assert_eq!(tree.direction(1), Dir::Right);
    assert_eq!(tree.direction(5), Dir::Right);
}

#[test]
fn opposite_swaps_the_sides() {
    assert_eq!(Dir::Left.opposite(), Dir::Right);
    assert_eq!(Dir::Right.opposite(), Dir::Left);
    assert_eq!(Dir::Left.opposite().opposite(), Dir::Left);
}

#[test]
fn child_picks_the_slot() {
    let node = Node { key: 1, color: Color::Red, parent: None, left: Some(4), right: Some(9) };
    assert_eq!(node.child(Dir::Left), Some(4));
    assert_eq!(node.child(Dir::Right), Some(9));
    let bare = Node { key: 1, color: Color::Red, parent: None, left: None, right: Some(2) };
    assert_eq!(bare.child(Dir::Left), None);
}

#[test]
fn inorder_walks_a_subtree() {
    let tree = build(&[20, 15, 25, 10, 5, 30]);
    let mut out = vec![(0, Color::Black)];
    tree.inorder(Some(3), &mut out);
    assert_eq!(
        out,
        vec![(0, Color::Black), (5, Color::Red), (10, Color::Black), (15, Color::Red)]
    );
    let mut none = Vec::new();
    tree.inorder(None, &mut none);
    assert_eq!(none, vec![]);
}

#[test]
fn traverse_twice_gives_the_same() {
    let tree = build(&[20, 15, 25, 10, 5, 30]);
    let first = tree.traverse();
    let second = tree.traverse();
    assert_eq!(first, second);
    assert_eq!(first.len(), 6);
}

#[test]
fn extreme_keys_are_taken() {
    let tree = build(&[0, i32::MAX, i32::MIN, -1, 1]);
    assert_eq!(keys_of(&tree.traverse()), vec![i32::MIN, -1, 0, 1, i32::MAX]);
}

#[test]
fn inner_grandchild_on_the_left_becomes_the_black_root() {
    let tree = build(&[30, 10, 20]);
    assert_eq!(tree.root(), Some(2));
    assert_eq!(
        tree.traverse(),
        vec![(10, Color::Red), (20, Color::Black), (30, Color::Red)]
    );
}

#[test]
fn red_uncle_below_the_root_leaves_the_links() {
    let mut tree = build(&[1, 2, 3]);
    let root = tree.root();
    let links: Vec<(Option<usize>, Option<usize>, Option<usize>)> =
        (0..3).map(|id| (tree.node(id).parent, tree.node(id).left, tree.node(id).right)).collect();
    tree.insert(4);
    assert_eq!(tree.root(), root);
    assert_eq!(tree.node(0).parent, links[0].0);
    assert_eq!((tree.node(0).left, tree.node(0).right), (links[0].1, links[0].2));
    assert_eq!((tree.node(1).parent, tree.node(1).left, tree.node(1).right), links[1]);
    assert_eq!((tree.node(2).parent, tree.node(2).left), (links[2].0, links[2].1));
    assert_eq!(tree.node(2).right, Some(3));
    assert_eq!(
        tree.traverse(),
        vec![(1, Color::Black), (2, Color::Black), (3, Color::Black), (4, Color::Red)]
    );
}

#[test]
fn five_ascending_keys_get_their_colours() {
    let tree = build(&[1, 2, 3, 4, 5]);
    assert_eq!(
        tree.traverse(),
        vec![
            (1, Color::Black),
            (2, Color::Black),
            (3, Color::Red),
            (4, Color::Black),
            (5, Color::Red),
        ]
    );
}

#[test]
fn seventh_key_makes_a_triangle_on_the_right() {
    let tree = build(&[20, 15, 25, 10, 5, 30, 27]);
    assert_eq!(
        tree.traverse(),
        vec![
            (5, Color::Red),
            (10, Color::Black),
            (15, Color::Red),
            (20, Color::Black),
            (25, Color::Red),
            (27, Color::Black),
            (30, Color::Red),
        ]
    );
    assert_eq!(tree.node(0).right, Some(6));
    assert_eq!(
        tree.node(6),
        Node { key: 27, color: Color::Black, parent: Some(0), left: Some(2), right: Some(5) }
    );
}

#[test]
fn second_key_hangs_below_the_first() {
    for (first, second) in [(10, 5), (10, 10), (10, 11), (i32::MIN, i32::MAX), (0, i32::MIN)] {
        let tree = build(&[first, second]);
        assert_eq!(tree.root(), Some(0));
        let root = tree.node(0);
        assert_eq!((root.key, root.color, root.parent), (first, Color::Black, None));
        if second < first {
            assert_eq!((root.left, root.right), (Some(1), None));
        } else {
            assert_eq!((root.left, root.right), (None, Some(1)));
        }
        assert_eq!(
            tree.node(1),
            Node { key: second, color: Color::Red, parent: Some(0), left: None, right: None }
        );
    }
}
