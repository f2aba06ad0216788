use avl_alloc::rb_tree::{Colour, Direction, Node, NodePtr, RBTree};

fn grow(keys: &[usize]) -> RBTree {
    let mut tree = RBTree::new();
    for (i, k) in keys.iter().enumerate() {
        assert!(tree.insert(*k, 0x1000 * (i + 1)));
    }
    tree
}

fn is_red(tree: &RBTree, link: NodePtr) -> bool {
    match link {
        None => false,
        Some(at) => tree.get(at).unwrap().colour == Colour::Red,
    }
}

/// Checks the order and the red-black rules below `link`; collects the
/// keys in order and returns the black height.
fn audit(tree: &RBTree, link: NodePtr, out: &mut Vec<usize>) -> usize {
    match link {
        None => 0,
        Some(at) => {
            let n = tree.get(at).unwrap();
            if n.colour == Colour::Red {
                assert!(!is_red(tree, n.left));
                assert!(!is_red(tree, n.right));
            }
            let left = audit(tree, n.left, out);
            out.push(n.key);
            let right = audit(tree, n.right, out);
            assert_eq!(left, right);
            left + if n.colour == Colour::Black { 1 } else { 0 }
        }
    }
}

fn sorted_keys(tree: &RBTree) -> Vec<usize> {
    let mut out = Vec::new();
    assert!(!is_red(tree, tree.root()));
    audit(tree, tree.root(), &mut out);
    for w in out.windows(2) {
        assert!(w[0] < w[1]);
    }
    out
}

#[test]
fn flip_turns_a_direction_around() {
    assert_eq!(Direction::Left.flip(), Direction::Right);
    assert_eq!(Direction::Right.flip(), Direction::Left);
    assert_eq!(Direction::Left.flip().flip(), Direction::Left);
}

#[test]
fn a_larger_key_lies_to_the_right() {
    assert_eq!(Direction::from(true), Direction::Right);
    assert_eq!(Direction::from(false), Direction::Left);
}

#[test]
fn a_new_node_is_a_red_leaf() {
    assert_eq!(Node::new(7), Node { key: 7, colour: Colour::Red, left: None, right: None });
}

#[test]
fn links_are_read_and_written_by_direction() {
    let mut n = Node::new(7);
    n.set_link(Direction::Left, Some(0x1000));
    assert_eq!(n.link(Direction::Left), Some(0x1000));
    assert_eq!(n.link(Direction::Right), None);
    n.set_link(Direction::Right, Some(0x2000));
    assert_eq!(n.left, Some(0x1000));
    assert_eq!(n.right, Some(0x2000));
    n.set_link(Direction::Left, None);
    assert_eq!(n, Node { key: 7, colour: Colour::Red, left: None, right: Some(0x2000) });
}

#[test]
fn new_tree_is_empty() {
    let tree = RBTree::new();
    assert_eq!(tree.root(), None);
    assert_eq!(tree.get(0x1000), None);
}

#[test]
fn first_key_becomes_a_black_root() {
    let tree = grow(&[10]);
    assert_eq!(tree.root(), Some(0x1000));
    assert_eq!(
        tree.get(0x1000),
        Some(Node { key: 10, colour: Colour::Black, left: None, right: None })
    );
}

#[test]
fn second_key_hangs_red_below_the_root() {
    let tree = grow(&[10, 20]);
    let root = tree.get(tree.root().unwrap()).unwrap();
    assert_eq!(root.key, 10);
    assert_eq!(root.left, None);
    let right = tree.get(root.right.unwrap()).unwrap();
    assert_eq!(right, Node { key: 20, colour: Colour::Red, left: None, right: None });
}

#[test]
fn ascending_keys_rotate_once() {
    let tree = grow(&[10, 20, 30]);
    let root = tree.get(tree.root().unwrap()).unwrap();
    assert_eq!(root.key, 20);
    assert_eq!(root.colour, Colour::Black);
    let left = tree.get(root.left.unwrap()).unwrap();
    let right = tree.get(root.right.unwrap()).unwrap();
    assert_eq!(left, Node { key: 10, colour: Colour::Red, left: None, right: None });
    assert_eq!(right, Node { key: 30, colour: Colour::Red, left: None, right: None });
}

#[test]
fn an_inner_grandchild_rotates_twice() {
    let tree = grow(&[10, 30, 20]);
    let root = tree.get(tree.root().unwrap()).unwrap();
    assert_eq!(root.key, 20);
    assert_eq!(root.colour, Colour::Black);
    assert_eq!(tree.get(root.left.unwrap()).unwrap().key, 10);
    assert_eq!(tree.get(root.right.unwrap()).unwrap().key, 30);
    let mirrored = grow(&[30, 10, 20]);
    let root = mirrored.get(mirrored.root().unwrap()).unwrap();
    assert_eq!(root.key, 20);
    assert_eq!(mirrored.get(root.left.unwrap()).unwrap().key, 10);
    assert_eq!(mirrored.get(root.right.unwrap()).unwrap().key, 30);
}

#[test]
fn two_red_children_change_colour_with_their_parent() {
    let tree = grow(&[20, 10, 30, 5]);
    let root = tree.get(tree.root().unwrap()).unwrap();
    assert_eq!(root.key, 20);
    assert_eq!(root.colour, Colour::Black);
    let left = tree.get(root.left.unwrap()).unwrap();
    let right = tree.get(root.right.unwrap()).unwrap();
    assert_eq!(left.colour, Colour::Black);
    assert_eq!(right.colour, Colour::Black);
    let leaf = tree.get(left.left.unwrap()).unwrap();
    assert_eq!(leaf, Node { key: 5, colour: Colour::Red, left: None, right: None });
    assert_eq!(sorted_keys(&tree), vec![5, 10, 20, 30]);
}

#[test]
fn a_key_that_is_there_stays_with_its_node() {
    let mut tree = grow(&[20, 10, 30]);
    assert!(tree.insert(10, 0x9000));
    assert_eq!(sorted_keys(&tree), vec![10, 20, 30]);
    let root = tree.get(tree.root().unwrap()).unwrap();
    assert_eq!(root.left, Some(0x2000));
    // the second node exists, outside the tree
    assert_eq!(
        tree.get(0x9000),
        Some(Node { key: 10, colour: Colour::Red, left: None, right: None })
    );
}

#[test]
fn insert_refuses_null_and_taken_addresses() {
    let mut tree = grow(&[20]);
    assert!(!tree.insert(5, 0));
    assert!(!tree.insert(5, 0x1000));
    assert_eq!(sorted_keys(&tree), vec![20]);
    assert_eq!(tree.get(0x1000).unwrap().key, 20);
}

#[test]
fn many_keys_keep_the_red_black_rules() {
    let mut tree = RBTree::new();
    let mut expected: Vec<usize> = Vec::new();
    let mut x: usize = 2024;
    for i in 0..600usize {
        x = (x * 1103515245 + 12345) % 2147483648;
        let k = x % 1000;
        assert!(tree.insert(k, 0x1000 * (i + 1)));
        if !expected.contains(&k) {
            expected.push(k);
        }
        let mut sorted = expected.clone();
        sorted.sort();
        assert_eq!(sorted_keys(&tree), sorted);
    }
}

#[test]
fn sorted_input_stays_shallow() {
    let mut tree = RBTree::new();
    for i in 0..1024usize {
        assert!(tree.insert(i, 0x1000 * (i + 1)));
    }
    let mut out = Vec::new();
    let black = audit(&tree, tree.root(), &mut out);
    assert_eq!(out.len(), 1024);
    // 1024 keys need a black height of at least 5 and allow at most 10
    assert!(black >= 5 && black <= 10);
}

#[test]
fn pop_on_an_empty_tree_finds_nothing() {
    let mut tree = RBTree::new();
    assert_eq!(tree.pop(0), None);
    assert_eq!(tree.root(), None);
}

#[test]
fn pop_takes_the_exact_key() {
    let mut tree = grow(&[20, 10, 30]);
    assert_eq!(tree.pop(10), Some(0x2000));
    assert_eq!(sorted_keys(&tree), vec![20, 30]);
    assert_eq!(
        tree.get(0x2000),
        Some(Node { key: 10, colour: Colour::Red, left: None, right: None })
    );
}

#[test]
fn pop_takes_the_next_larger_key() {
    let mut tree = grow(&[20, 10, 30, 25]);
    assert_eq!(tree.pop(21), Some(0x4000));
    assert_eq!(sorted_keys(&tree), vec![10, 20, 30]);
    assert_eq!(tree.pop(11), Some(0x1000));
    assert_eq!(sorted_keys(&tree), vec![10, 30]);
}

#[test]
fn pop_comes_back_to_a_candidate_above() {
    let mut tree = grow(&[20, 10]);
    // 15 does not fit below 10; the root is the lower bound
    assert_eq!(tree.pop(15), Some(0x1000));
    assert_eq!(sorted_keys(&tree), vec![10]);
    assert_eq!(tree.root(), Some(0x2000));
    assert_eq!(tree.get(0x2000).unwrap().colour, Colour::Black);
}

#[test]
fn pop_without_a_larger_key_finds_nothing() {
    let mut tree = grow(&[20, 10, 30]);
    assert_eq!(tree.pop(31), None);
    assert_eq!(sorted_keys(&tree), vec![10, 20, 30]);
}

#[test]
fn pop_of_a_node_with_two_children_promotes_the_successor() {
    let mut tree = grow(&[20, 10, 30, 25, 35]);
    assert_eq!(tree.pop(20), Some(0x1000));
    // 25 was the leftmost key to the right of 20
    let root = tree.get(tree.root().unwrap()).unwrap();
    assert_eq!(root.key, 25);
    assert_eq!(root.colour, Colour::Black);
    assert_eq!(sorted_keys(&tree), vec![10, 25, 30, 35]);
    let gone = tree.get(0x1000).unwrap();
    assert_eq!(gone, Node { key: 20, colour: Colour::Red, left: None, right: None });
}

#[test]
fn pop_of_a_black_leaf_evens_out_with_a_rotation() {
    // 10 is a black leaf, and its sibling 30 has the red child 40
    let mut tree = grow(&[20, 10, 30, 40]);
    assert_eq!(tree.pop(10), Some(0x2000));
    let root = tree.get(tree.root().unwrap()).unwrap();
    assert_eq!(root.key, 30);
    assert_eq!(root.colour, Colour::Black);
    let left = tree.get(root.left.unwrap()).unwrap();
    let right = tree.get(root.right.unwrap()).unwrap();
    assert_eq!(left, Node { key: 20, colour: Colour::Black, left: None, right: None });
    assert_eq!(right, Node { key: 40, colour: Colour::Black, left: None, right: None });
}

#[test]
fn pop_of_a_black_leaf_evens_out_with_a_double_rotation() {
    // 10 is a black leaf, and its sibling 30 has the red child 25 on the near side
    let mut tree = grow(&[20, 10, 30, 25]);
    assert_eq!(tree.pop(10), Some(0x2000));
    let root = tree.get(tree.root().unwrap()).unwrap();
    assert_eq!(root.key, 25);
    assert_eq!(root.colour, Colour::Black);
    assert_eq!(tree.get(root.left.unwrap()).unwrap().key, 20);
    assert_eq!(tree.get(root.right.unwrap()).unwrap().key, 30);
    assert_eq!(sorted_keys(&tree), vec![20, 25, 30]);
}

#[test]
fn pop_of_a_black_leaf_turns_a_black_sibling_red() {
    let mut tree = grow(&[20, 10, 30, 40]);
    assert_eq!(tree.pop(40), Some(0x4000));
    // now 10 and 30 are black leaves below 20
    assert_eq!(tree.pop(10), Some(0x2000));
    let root = tree.get(tree.root().unwrap()).unwrap();
    assert_eq!(root.key, 20);
    assert_eq!(root.colour, Colour::Black);
    assert_eq!(root.left, None);
    let right = tree.get(root.right.unwrap()).unwrap();
    assert_eq!(right, Node { key: 30, colour: Colour::Red, left: None, right: None });
}

#[test]
fn pop_until_the_tree_is_empty() {
    let mut tree = grow(&[5, 3, 8, 1, 4, 7, 9, 2, 6]);
    for expected in 1..=9usize {
        let at = tree.pop(0).unwrap();
        assert_eq!(tree.get(at).unwrap().key, expected);
        let left: Vec<usize> = ((expected + 1)..=9).collect();
        assert_eq!(sorted_keys(&tree), left);
    }
    assert_eq!(tree.pop(0), None);
    assert_eq!(tree.root(), None);
}

#[test]
fn inserts_and_pops_keep_the_red_black_rules() {
    let mut tree = RBTree::new();
    let mut expected: Vec<usize> = Vec::new();
    let mut x: usize = 777;
    for i in 0..900usize {
        x = (x * 1103515245 + 12345) % 2147483648;
        let k = x % 300;
        assert!(tree.insert(k, 0x1000 * (i + 1)));
        if !expected.contains(&k) {
            expected.push(k);
        }
        if i % 2 == 1 {
            x = (x * 1103515245 + 12345) % 2147483648;
            let want = x % 320;
            let best = expected.iter().copied().filter(|j| *j >= want).min();
            let got = tree.pop(want).map(|at| tree.get(at).unwrap().key);
            assert_eq!(got, best);
            if let Some(b) = best {
                expected.retain(|j| *j != b);
            }
        }
        let mut sorted = expected.clone();
        sorted.sort();
        assert_eq!(sorted_keys(&tree), sorted);
    }
}
