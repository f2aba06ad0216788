use avl_alloc::avl_tree::{AVLTree, AvlHeader, Node, NodePtr};

fn chunk(address: usize, capacity: usize) -> Node {
    Node {
        header: AvlHeader { size: capacity, height: 1, left: None, right: None },
        data: address + 32,
    }
}

/// Places one chunk per capacity at distinct addresses and inserts them in
/// the order given. The chunk of capacity `c` lives at `0x1000 * (i + 1)`.
fn build(capacities: &[usize]) -> AVLTree {
    let mut tree = AVLTree::new();
    for (i, c) in capacities.iter().enumerate() {
        let address = 0x1000 * (i + 1);
        assert!(tree.place(address, chunk(address, *c)));
        tree.insert_node(address);
    }
    tree
}

fn capacity(tree: &AVLTree, link: NodePtr) -> Option<usize> {
    link.map(|at| tree.get(at).unwrap().header.size)
}

fn height(tree: &AVLTree, link: NodePtr) -> i32 {
    match link {
        None => 0,
        Some(at) => tree.get(at).unwrap().header.height,
    }
}

/// Checks order, balance, recorded heights and the absence of self-links
/// below `link`; returns the capacities in order.
fn check(tree: &AVLTree, link: NodePtr, out: &mut Vec<usize>) {
    if let Some(at) = link {
        let n = tree.get(at).unwrap();
        assert_ne!(n.header.left, Some(at));
        assert_ne!(n.header.right, Some(at));
        check(tree, n.header.left, out);
        out.push(n.header.size);
        check(tree, n.header.right, out);
        let lh = height(tree, n.header.left);
        let rh = height(tree, n.header.right);
        assert!((lh - rh).abs() <= 1);
        assert_eq!(n.header.height, lh.max(rh) + 1);
    }
}

fn keys(tree: &AVLTree) -> Vec<usize> {
    let mut out = Vec::new();
    check(tree, tree.root(), &mut out);
    for w in out.windows(2) {
        assert!(w[0] < w[1]);
    }
    out
}

#[test]
fn new_index_is_empty() {
    let mut tree = AVLTree::new();
    assert_eq!(tree.root(), None);
    assert_eq!(tree.remove(0), None);
    assert_eq!(tree.get(0x1000), None);
}

#[test]
fn place_refuses_null_and_taken_addresses() {
    let mut tree = AVLTree::new();
    assert!(!tree.place(0, chunk(0, 10)));
    assert!(tree.place(0x1000, chunk(0x1000, 10)));
    assert!(!tree.place(0x1000, chunk(0x1000, 20)));
    assert_eq!(tree.get(0x1000).unwrap().header.size, 10);
}

#[test]
fn place_writes_a_bare_leaf() {
    let mut tree = AVLTree::new();
    let stale = Node {
        header: AvlHeader { size: 7, height: 9, left: Some(0x5000), right: Some(0x1000) },
        data: 0x1234,
    };
    assert!(tree.place(0x1000, stale));
    let n = tree.get(0x1000).unwrap();
    assert_eq!(
        n,
        Node { header: AvlHeader { size: 7, height: 1, left: None, right: None }, data: 0x1234 }
    );
    assert_eq!(tree.root(), None);
}

#[test]
fn insert_ten_twenty_five_one() {
    let tree = build(&[10, 20, 5, 1]);
    let root = tree.get(tree.root().unwrap()).unwrap();
    assert_eq!(root.header.size, 10);
    assert_eq!(root.header.height, 3);
    let left = tree.get(root.header.left.unwrap()).unwrap();
    assert_eq!(left.header.size, 5);
    assert_eq!(left.header.height, 2);
    assert_eq!(left.header.right, None);
    let leftmost = tree.get(left.header.left.unwrap()).unwrap();
    assert_eq!(leftmost.header.size, 1);
    assert_eq!(leftmost.header.height, 1);
    assert_eq!(leftmost.header.left, None);
    assert_eq!(leftmost.header.right, None);
    let right = tree.get(root.header.right.unwrap()).unwrap();
    assert_eq!(right.header.size, 20);
    assert_eq!(right.header.height, 1);
    assert_eq!(keys(&tree), vec![1, 5, 10, 20]);
}

#[test]
fn ascending_inserts_rotate_left() {
    let tree = build(&[1, 2, 3]);
    assert_eq!(capacity(&tree, tree.root()), Some(2));
    let root = tree.get(tree.root().unwrap()).unwrap();
    assert_eq!(root.header.height, 2);
    assert_eq!(capacity(&tree, root.header.left), Some(1));
    assert_eq!(capacity(&tree, root.header.right), Some(3));
    assert_eq!(keys(&tree), vec![1, 2, 3]);
}

#[test]
fn descending_inserts_rotate_right() {
    let tree = build(&[3, 2, 1]);
    assert_eq!(capacity(&tree, tree.root()), Some(2));
    let root = tree.get(tree.root().unwrap()).unwrap();
    assert_eq!(capacity(&tree, root.header.left), Some(1));
    assert_eq!(capacity(&tree, root.header.right), Some(3));
}

#[test]
fn left_right_case_rotates_twice() {
    let tree = build(&[30, 10, 20]);
    assert_eq!(capacity(&tree, tree.root()), Some(20));
    let root = tree.get(tree.root().unwrap()).unwrap();
    assert_eq!(root.header.height, 2);
    assert_eq!(capacity(&tree, root.header.left), Some(10));
    assert_eq!(capacity(&tree, root.header.right), Some(30));
}

#[test]
fn right_left_case_rotates_twice() {
    let tree = build(&[10, 30, 20]);
    assert_eq!(capacity(&tree, tree.root()), Some(20));
    let root = tree.get(tree.root().unwrap()).unwrap();
    assert_eq!(capacity(&tree, root.header.left), Some(10));
    assert_eq!(capacity(&tree, root.header.right), Some(30));
}

#[test]
fn equal_capacity_is_left_out() {
    let mut tree = build(&[10, 20]);
    assert!(tree.place(0x9000, chunk(0x9000, 20)));
    tree.insert_node(0x9000);
    assert_eq!(keys(&tree), vec![10, 20]);
    let dropped = tree.get(0x9000).unwrap();
    assert_eq!(dropped.header.left, None);
    assert_eq!(dropped.header.right, None);
    // the slot still belongs to the chunk that was there first
    assert_eq!(tree.remove(20), Some(0x2000));
    assert_eq!(tree.remove(20), None);
}

#[test]
fn inserting_a_member_again_changes_nothing() {
    let mut tree = build(&[10, 20, 5]);
    tree.insert_node(0x1000);
    tree.insert_node(0x3000);
    assert_eq!(keys(&tree), vec![5, 10, 20]);
    assert_eq!(capacity(&tree, tree.root()), Some(10));
}

#[test]
fn remove_takes_the_smallest_that_fits() {
    let mut tree = build(&[10, 5]);
    // 7 does not fit in 5; the search comes back to 10
    assert_eq!(tree.remove(7), Some(0x1000));
    assert_eq!(keys(&tree), vec![5]);
}

#[test]
fn remove_prefers_the_tighter_candidate() {
    let mut tree = build(&[40, 20, 60, 10, 30, 50, 70]);
    assert_eq!(tree.remove(21), Some(0x5000));
    assert_eq!(keys(&tree), vec![10, 20, 40, 50, 60, 70]);
    assert_eq!(tree.remove(21), Some(0x1000));
    assert_eq!(keys(&tree), vec![10, 20, 50, 60, 70]);
}

#[test]
fn remove_without_a_fit_returns_nothing() {
    let mut tree = build(&[10, 20, 5, 1]);
    assert_eq!(tree.remove(21), None);
    assert_eq!(keys(&tree), vec![1, 5, 10, 20]);
    let root = tree.get(tree.root().unwrap()).unwrap();
    assert_eq!(root.header.size, 10);
    assert_eq!(root.header.height, 3);
}

#[test]
fn remove_exact_match() {
    let mut tree = build(&[10, 20, 5, 1]);
    assert_eq!(tree.remove(5), Some(0x3000));
    assert_eq!(keys(&tree), vec![1, 10, 20]);
    let root = tree.get(tree.root().unwrap()).unwrap();
    assert_eq!(root.header.size, 10);
    assert_eq!(root.header.height, 2);
    assert_eq!(capacity(&tree, root.header.left), Some(1));
}

#[test]
fn remove_a_leaf() {
    let mut tree = build(&[10, 5, 20]);
    assert_eq!(tree.remove(20), Some(0x3000));
    assert_eq!(keys(&tree), vec![5, 10]);
    let root = tree.get(tree.root().unwrap()).unwrap();
    assert_eq!(root.header.right, None);
    assert_eq!(root.header.height, 2);
}

#[test]
fn remove_the_only_node() {
    let mut tree = build(&[10]);
    assert_eq!(tree.remove(1), Some(0x1000));
    assert_eq!(tree.root(), None);
    assert_eq!(tree.remove(1), None);
}

#[test]
fn remove_a_node_with_one_child() {
    let mut tree = build(&[10, 5, 20, 1]);
    // 5 has the single child 1
    assert_eq!(tree.remove(5), Some(0x2000));
    let root = tree.get(tree.root().unwrap()).unwrap();
    assert_eq!(root.header.size, 10);
    let left = tree.get(root.header.left.unwrap()).unwrap();
    assert_eq!(left.header.size, 1);
    assert_eq!(left.header.height, 1);
    assert_eq!(left.header.left, None);
    assert_eq!(left.header.right, None);
    assert_eq!(keys(&tree), vec![1, 10, 20]);
}

#[test]
fn remove_a_node_with_two_children() {
    let mut tree = build(&[10, 5, 20]);
    let before = tree.get(0x1000).unwrap();
    assert_eq!(tree.remove(10), Some(0x1000));
    // the in-order successor now stands where 10 stood
    assert_eq!(tree.root(), Some(0x3000));
    let root = tree.get(0x3000).unwrap();
    assert_eq!(root.header.size, 20);
    assert_eq!(root.header.height, 2);
    assert_eq!(root.header.left, Some(0x2000));
    assert_eq!(root.header.right, None);
    // the node taken out still stands for the same memory
    let after = tree.get(0x1000).unwrap();
    assert_eq!(after.header.size, before.header.size);
    assert_eq!(after.data, before.data);
    assert_eq!(after.header.left, None);
    assert_eq!(after.header.right, None);
    assert_eq!(keys(&tree), vec![5, 20]);
}

#[test]
fn successor_keeps_its_own_right_subtree() {
    let mut tree = build(&[10, 5, 20, 1, 30]);
    assert_eq!(tree.remove(10), Some(0x1000));
    assert_eq!(capacity(&tree, tree.root()), Some(20));
    let root = tree.get(tree.root().unwrap()).unwrap();
    assert_eq!(capacity(&tree, root.header.right), Some(30));
    assert_eq!(capacity(&tree, root.header.left), Some(5));
    assert_eq!(keys(&tree), vec![1, 5, 20, 30]);
}

#[test]
fn remove_with_a_deep_successor() {
    let mut tree = build(&[50, 30, 70, 20, 40, 60, 80, 65]);
    assert_eq!(tree.remove(50), Some(0x1000));
    // 60 was the leftmost node below 70
    assert_eq!(capacity(&tree, tree.root()), Some(60));
    let root = tree.get(tree.root().unwrap()).unwrap();
    assert_eq!(root.header.height, 3);
    let right = tree.get(root.header.right.unwrap()).unwrap();
    assert_eq!(right.header.size, 70);
    assert_eq!(capacity(&tree, right.header.left), Some(65));
    assert_eq!(capacity(&tree, right.header.right), Some(80));
    assert_eq!(keys(&tree), vec![20, 30, 40, 60, 65, 70, 80]);
    let gone = tree.get(0x1000).unwrap();
    assert_eq!(gone.header.size, 50);
    assert_eq!(gone.data, 0x1000 + 32);
    assert_eq!(gone.header.left, None);
    assert_eq!(gone.header.right, None);
    assert_eq!(gone.header.height, 1);
}

#[test]
fn removal_rebalances_on_the_way_up() {
    let mut tree = build(&[40, 20, 60, 10, 30, 50, 5]);
    // taking out 50 and 60 leaves the right side two levels short
    assert_eq!(tree.remove(50), Some(0x6000));
    assert_eq!(tree.remove(60), Some(0x3000));
    assert_eq!(capacity(&tree, tree.root()), Some(20));
    let root = tree.get(tree.root().unwrap()).unwrap();
    assert_eq!(root.header.height, 3);
    assert_eq!(capacity(&tree, root.header.left), Some(10));
    assert_eq!(capacity(&tree, root.header.right), Some(40));
    assert_eq!(keys(&tree), vec![5, 10, 20, 30, 40]);
}

#[test]
fn a_removed_chunk_can_come_back() {
    let mut tree = build(&[10, 5, 20, 1, 30]);
    assert_eq!(tree.remove(10), Some(0x1000));
    tree.insert_node(0x1000);
    assert_eq!(keys(&tree), vec![1, 5, 10, 20, 30]);
    assert_eq!(tree.remove(10), Some(0x1000));
}

#[test]
fn many_inserts_and_removals_keep_the_tree_in_order() {
    let mut tree = AVLTree::new();
    let mut expected: Vec<usize> = Vec::new();
    let mut x: usize = 12345;
    for i in 0..400usize {
        x = (x * 1103515245 + 12345) % 2147483648;
        let c = x % 500 + 1;
        let address = 0x1000 * (i + 1);
        assert!(tree.place(address, chunk(address, c)));
        tree.insert_node(address);
        if !expected.contains(&c) {
            expected.push(c);
        }
        if i % 3 == 2 {
            x = (x * 1103515245 + 12345) % 2147483648;
            let want = x % 520;
            let best = expected.iter().copied().filter(|k| *k >= want).min();
            let got = tree.remove(want);
            assert_eq!(capacity(&tree, got), best);
            if let Some(b) = best {
                expected.retain(|k| *k != b);
            }
        }
        let mut sorted = expected.clone();
        sorted.sort();
        assert_eq!(keys(&tree), sorted);
        // no header, in the tree or outside it, points at itself
        for j in 0..=i {
            let address = 0x1000 * (j + 1);
            let n = tree.get(address).unwrap();
            assert_ne!(n.header.left, Some(address));
            assert_ne!(n.header.right, Some(address));
        }
    }
    while let Some(at) = tree.remove(0) {
        let n = tree.get(at).unwrap();
        assert_eq!(n.header.size, expected.iter().copied().min().unwrap());
        expected.retain(|k| *k != n.header.size);
        keys(&tree);
    }
    assert!(expected.is_empty());
    assert_eq!(tree.root(), None);
}

#[test]
fn swap_header_details_trades_links_and_height_only() {
    let mut a = Node {
        header: AvlHeader { size: 10, height: 3, left: Some(0x2000), right: Some(0x3000) },
        data: 0x1020,
    };
    let mut b = Node {
        header: AvlHeader { size: 20, height: 1, left: None, right: Some(0x5000) },
        data: 0x4020,
    };
    a.swap_header_details(&mut b);
    assert_eq!(
        a,
        Node {
            header: AvlHeader { size: 10, height: 1, left: None, right: Some(0x5000) },
            data: 0x1020
        }
    );
    assert_eq!(
        b,
        Node {
            header: AvlHeader { size: 20, height: 3, left: Some(0x2000), right: Some(0x3000) },
            data: 0x4020
        }
    );
}
