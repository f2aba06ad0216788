use avl_alloc::avl_tree::{AVLTree, AvlHeader, Node};
use avl_alloc::common::{Layout, HEADER_SIZE, PAGE_SIZE};
use avl_alloc::large_allocator::{Allocation, LargeAllocator, Reallocation};

fn layout(size: usize, align: usize) -> Layout {
    Layout::from_size_align(size, align).unwrap()
}

/// Serves a request the way a caller with a page allocator would: a miss
/// is answered with a mapping at `address`.
fn serve(tree: &mut AVLTree, size: usize, address: usize) -> (usize, bool) {
    let l = layout(size, 8);
    match tree.allocate(l) {
        Allocation::Reused(ptr) => (ptr, false),
        Allocation::Fresh(length) => {
            assert_eq!(length % PAGE_SIZE, 0);
            (tree.install(address, l).unwrap(), true)
        }
    }
}

#[test]
fn constants() {
    assert_eq!(PAGE_SIZE, 4096);
    assert_eq!(HEADER_SIZE, 32);
}

#[test]
fn layout_accepts_powers_of_two() {
    for align in [1usize, 2, 4, 8, 16, 32, 64, 4096, 1 << 20] {
        let l = Layout::from_size_align(100, align).unwrap();
        assert_eq!(l.size(), 100);
        assert_eq!(l.align(), align);
    }
}

#[test]
fn layout_refuses_other_alignments() {
    assert_eq!(Layout::from_size_align(100, 0), None);
    assert_eq!(Layout::from_size_align(100, 3), None);
    assert_eq!(Layout::from_size_align(100, 24), None);
    assert_eq!(Layout::from_size_align(100, 4097), None);
}

#[test]
fn layout_refuses_sizes_that_overflow() {
    let max = isize::MAX as usize;
    assert!(Layout::from_size_align(max, 1).is_some());
    assert_eq!(Layout::from_size_align(max + 1, 1), None);
    assert!(Layout::from_size_align(max - 7, 8).is_some());
    assert_eq!(Layout::from_size_align(max - 6, 8), None);
    assert_eq!(Layout::from_size_align(usize::MAX, 8), None);
}

#[test]
fn data_begins_behind_the_header() {
    for align in [1usize, 2, 4, 8, 16, 32] {
        assert_eq!(layout(64, align).data_offset(), 32);
    }
    assert_eq!(layout(64, 64).data_offset(), 64);
    assert_eq!(layout(64, 4096).data_offset(), 4096);
}

#[test]
fn mapped_length_is_whole_pages() {
    assert_eq!(layout(0, 8).mapped_length(), 4096);
    assert_eq!(layout(64, 8).mapped_length(), 4096);
    assert_eq!(layout(4064, 8).mapped_length(), 4096);
    assert_eq!(layout(4065, 8).mapped_length(), 8192);
    assert_eq!(layout(8160, 8).mapped_length(), 8192);
    assert_eq!(layout(8161, 8).mapped_length(), 12288);
    assert_eq!(layout(4000, 64).mapped_length(), 4096);
    assert_eq!(layout(4033, 64).mapped_length(), 8192);
    assert_eq!(layout(1, 4096).mapped_length(), 8192);
}

#[test]
fn node_new_fills_the_header() {
    let n = Node::new(0x7000, layout(64, 8));
    assert_eq!(
        n,
        Node {
            header: AvlHeader { size: 4096 - 32, height: 1, left: None, right: None },
            data: 0x7000 + 32
        }
    );
    let wide = Node::new(0x7000, layout(5000, 128));
    assert_eq!(wide.header.size, 8192 - 32);
    assert_eq!(wide.data, 0x7000 + 128);
}

#[test]
fn first_allocation_maps_one_page() {
    let mut tree = AVLTree::new();
    let l = layout(64, 8);
    assert_eq!(tree.allocate(l), Allocation::Fresh(4096));
    let ptr = tree.install(0x10000, l).unwrap();
    assert_eq!(ptr, 0x10000 + HEADER_SIZE);
    let node = tree.get(ptr - HEADER_SIZE).unwrap();
    assert_eq!(node.header.size, 4096 - HEADER_SIZE);
    assert_eq!(node.data, ptr);
    // a fresh chunk is handed out, not free
    assert_eq!(tree.root(), None);
    assert!(tree.owns(ptr));
}

#[test]
fn freed_chunk_is_reused_before_anything_is_mapped() {
    let mut tree = AVLTree::new();
    let l = layout(64, 8);
    assert_eq!(tree.allocate(l), Allocation::Fresh(4096));
    let ptr = tree.install(0x10000, l).unwrap();
    let capacity = tree.get(ptr - HEADER_SIZE).unwrap().header.size;
    assert_eq!(capacity, 4064);

    tree.dealloc(ptr);
    assert_eq!(tree.root(), Some(0x10000));

    assert_eq!(tree.allocate(layout(100, 8)), Allocation::Reused(ptr));
    assert_eq!(tree.root(), None);

    // one byte more than the chunk holds: at least two fresh pages
    let big = layout(capacity + 1, 8);
    assert_eq!(tree.allocate(big), Allocation::Fresh(8192));
    let other = tree.install(0x20000, big).unwrap();
    assert_ne!(other, ptr);
    assert_eq!(tree.get(other - HEADER_SIZE).unwrap().header.size, 8192 - 32);
}

#[test]
fn reuse_returns_the_same_pointer() {
    let mut tree = AVLTree::new();
    let (first, mapped) = serve(&mut tree, 3000, 0x10000);
    assert!(mapped);
    tree.dealloc(first);
    let (second, mapped_again) = serve(&mut tree, 4064, 0x20000);
    assert!(!mapped_again);
    assert_eq!(second, first);
}

#[test]
fn a_tighter_free_chunk_wins_over_the_one_just_freed() {
    let mut tree = AVLTree::new();
    let (small, _) = serve(&mut tree, 64, 0x10000);
    tree.dealloc(small);
    let (large, mapped) = serve(&mut tree, 5000, 0x20000);
    assert!(mapped);
    tree.dealloc(large);
    // the smaller free chunk is the best fit, not the chunk freed last
    assert_eq!(tree.allocate(layout(100, 8)), Allocation::Reused(small));
}

#[test]
fn freeing_a_second_chunk_of_the_same_capacity_leaves_it_outside() {
    let mut tree = AVLTree::new();
    let (a, _) = serve(&mut tree, 64, 0x10000);
    let (b, _) = serve(&mut tree, 64, 0x20000);
    tree.dealloc(a);
    tree.dealloc(b);
    assert_eq!(tree.allocate(layout(64, 8)), Allocation::Reused(a));
    assert_eq!(tree.allocate(layout(64, 8)), Allocation::Fresh(4096));
}

#[test]
fn freeing_twice_changes_nothing() {
    let mut tree = AVLTree::new();
    let (a, _) = serve(&mut tree, 64, 0x10000);
    tree.dealloc(a);
    tree.dealloc(a);
    assert_eq!(tree.allocate(layout(64, 8)), Allocation::Reused(a));
    assert_eq!(tree.allocate(layout(64, 8)), Allocation::Fresh(4096));
}

#[test]
fn reuse_ignores_the_alignment_asked_for() {
    let mut tree = AVLTree::new();
    let (a, _) = serve(&mut tree, 64, 0x10000);
    tree.dealloc(a);
    assert_eq!(tree.allocate(layout(64, 4096)), Allocation::Reused(a));
}

#[test]
fn install_refuses_what_cannot_be_a_mapping() {
    let mut tree = AVLTree::new();
    let l = layout(64, 8);
    assert_eq!(tree.install(0, l), None);
    assert_eq!(tree.install(0x10010, l), None);
    assert_eq!(tree.install(usize::MAX - 4095, l), None);
    assert_eq!(tree.install(0x10000, l), Some(0x10020));
    assert_eq!(tree.install(0x10000, l), None);
    assert_eq!(tree.get(0x10010), None);
}

#[test]
fn install_accepts_the_last_page_that_fits() {
    let mut tree = AVLTree::new();
    let top = (usize::MAX - 4095) - 4096;
    assert_eq!(tree.install(top, layout(5000, 8)), None);
    assert_eq!(tree.install(top, layout(64, 8)), Some(top + 32));
    assert_eq!(tree.install(top - 4096, layout(8161, 8)), None);
    assert_eq!(tree.install(top - 4096, layout(5000, 8)), Some(top - 4096 + 32));
}

#[test]
fn an_over_aligned_chunk_cannot_be_found_from_its_data() {
    let mut tree = AVLTree::new();
    let ptr = tree.install(0x10000, layout(64, 64)).unwrap();
    assert_eq!(ptr, 0x10000 + 64);
    assert!(!tree.owns(ptr));
    assert_eq!(tree.get(0x10000).unwrap().data, ptr);
}

#[test]
fn owns_tells_data_addresses_apart() {
    let mut tree = AVLTree::new();
    let ptr = tree.install(0x10000, layout(64, 8)).unwrap();
    assert!(tree.owns(ptr));
    assert!(!tree.owns(ptr + 8));
    assert!(!tree.owns(0x10000));
    assert!(!tree.owns(0));
    assert!(!tree.owns(31));
    tree.dealloc(ptr);
    assert!(tree.owns(ptr));
}

#[test]
fn realloc_keeps_a_chunk_that_is_large_enough() {
    let mut tree = AVLTree::new();
    let (ptr, _) = serve(&mut tree, 64, 0x10000);
    assert_eq!(tree.realloc(ptr, layout(64, 8), 4064), Reallocation::InPlace(ptr));
    assert_eq!(tree.realloc(ptr, layout(64, 8), 1), Reallocation::InPlace(ptr));
    assert_eq!(tree.root(), None);
}

#[test]
fn realloc_asks_for_a_mapping_when_nothing_fits() {
    let mut tree = AVLTree::new();
    let (ptr, _) = serve(&mut tree, 64, 0x10000);
    assert_eq!(
        tree.realloc(ptr, layout(64, 8), 4065),
        Reallocation::Fresh { length: 8192, copy: 4064 }
    );
    // the old chunk is untouched until the replacement is there
    assert_eq!(tree.root(), None);
    let to = tree.install_replacement(ptr, 0x20000, layout(4065, 8)).unwrap();
    assert_eq!(to, 0x20020);
    assert_eq!(tree.root(), Some(0x10000));
    assert_eq!(tree.allocate(layout(10, 8)), Allocation::Reused(ptr));
}

#[test]
fn realloc_moves_into_a_free_chunk() {
    let mut tree = AVLTree::new();
    let (small, _) = serve(&mut tree, 64, 0x10000);
    let (large, _) = serve(&mut tree, 6000, 0x20000);
    tree.dealloc(large);
    assert_eq!(
        tree.realloc(small, layout(64, 8), 5000),
        Reallocation::Moved { to: large, copy: 4064 }
    );
    // the old chunk went back to the pool
    assert_eq!(tree.root(), Some(0x10000));
    assert_eq!(tree.allocate(layout(1, 8)), Allocation::Reused(small));
}

#[test]
fn realloc_is_absent_when_the_size_cannot_be_laid_out() {
    let mut tree = AVLTree::new();
    let (ptr, _) = serve(&mut tree, 64, 0x10000);
    assert_eq!(tree.realloc(ptr, layout(64, 8), usize::MAX), Reallocation::Absent);
    assert_eq!(tree.root(), None);
    assert!(tree.owns(ptr));
    assert_eq!(tree.get(0x10000).unwrap().header.size, 4064);
}

#[test]
fn a_replacement_that_cannot_be_installed_leaves_the_old_chunk_alone() {
    let mut tree = AVLTree::new();
    let (ptr, _) = serve(&mut tree, 64, 0x10000);
    assert_eq!(tree.install_replacement(ptr, 0x10000, layout(5000, 8)), None);
    assert_eq!(tree.install_replacement(ptr, 0, layout(5000, 8)), None);
    assert_eq!(tree.root(), None);
    assert!(tree.owns(ptr));
}

#[test]
fn capacity_covers_the_request() {
    let mut tree = AVLTree::new();
    for (i, size) in [0usize, 1, 4063, 4064, 4065, 10000, 123456].iter().enumerate() {
        let l = layout(*size, 16);
        let ptr = tree.install(0x100000 * (i + 1), l).unwrap();
        let node = tree.get(ptr - HEADER_SIZE).unwrap();
        assert!(node.header.size >= *size);
        assert_eq!((node.header.size + HEADER_SIZE) % PAGE_SIZE, 0);
        assert!(node.header.size + HEADER_SIZE < *size + HEADER_SIZE + PAGE_SIZE);
    }
}
