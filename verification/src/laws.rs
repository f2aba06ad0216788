//! What holds of the chunk index in every state that its operations can
//! reach, and of its operations in sequence.

use vstd::prelude::*;
use crate::avl_tree::AVLTree;
use crate::avl_tree::Node;
use crate::avl_tree::NodePtr;
use crate::avl_tree::is_leaf;
use crate::avl_tree::link_height;
use crate::avl_tree::models;
use crate::avl_tree::lemma_cells_known;
use crate::avl_tree::lemma_heights_below;
use crate::avl_tree::lemma_link_height;
use crate::avl_tree::no_self_link;
use crate::common::HEADER_SIZE;
use crate::common::data_offset;
use crate::common::is_power_of_two;
use crate::common::lemma_small_alignment;
use crate::large_allocator::Allocation;
use crate::large_allocator::LargeAllocator;
use crate::large_allocator::best_fit;
use crate::large_allocator::no_fit;
use crate::large_allocator::released;
use crate::large_allocator::with_chunk;
use crate::shape::Shape;

verus! {

/// The heights recorded at `at` and in its two children agree: the children
/// differ by at most one, and `at` records one more than the taller.
pub open spec fn balanced_at(heap: Map<usize, Node>, at: usize) -> bool {
    let left = link_height(heap, heap[at].header.left);
    let right = link_height(heap, heap[at].header.right);
    &&& -1 <= left - right <= 1
    &&& heap[at].header.height == 1 + if left >= right {
        left
    } else {
        right
    }
}

proof fn lemma_balance_below(heap: Map<usize, Node>, link: NodePtr, t: Shape)
    requires
        models(heap, link, t),
        t.balanced(),
    ensures
        forall|c: usize| #[trigger] t.cells().contains(c) ==> balanced_at(heap, c),
    decreases t,
{
    match t {
        Shape::Empty => {},
        Shape::Fork { left, at, key, right } => {
            lemma_balance_below(heap, heap[at].header.left, *left);
            lemma_balance_below(heap, heap[at].header.right, *right);
            lemma_link_height(heap, heap[at].header.left, *left);
            lemma_link_height(heap, heap[at].header.right, *right);
            assert forall|c: usize| #[trigger] t.cells().contains(c) implies balanced_at(
                heap,
                c,
            ) by {
                if c == at {
                } else if left.cells().contains(c) {
                } else {
                    assert(right.cells().contains(c));
                }
            }
        },
    }
}

/// In a well-formed index every node of the tree records the height of
/// its subtree, and the heights of its two subtrees differ by at most one.
pub proof fn lemma_balance(tree: AVLTree)
    requires
        tree.wf(),
    ensures
        forall|a: usize| #[trigger] tree.shape().cells().contains(a) ==> balanced_at(tree.heap(), a),
{
    lemma_balance_below(tree.heap(), tree.root_link(), tree.shape());
}

proof fn lemma_order_below(heap: Map<usize, Node>, link: NodePtr, t: Shape, a: usize)
    requires
        models(heap, link, t),
        t.ordered(),
        t.cells().contains(a),
    ensures
        t.subtree(a) is Fork,
        t.subtree(a)->at == a,
        models(heap, Some(a), t.subtree(a)),
        t.subtree(a).ordered(),
        forall|c: usize| #[trigger]
            t.subtree(a).lhs().cells().contains(c) ==> heap[c].header.size < heap[a].header.size,
        forall|c: usize| #[trigger]
            t.subtree(a).rhs().cells().contains(c) ==> heap[a].header.size < heap[c].header.size,
    decreases t,
{
    match t {
        Shape::Empty => {},
        Shape::Fork { left, at, key, right } => {
            if at == a {
                lemma_cells_known(heap, heap[at].header.left, *left);
                lemma_cells_known(heap, heap[at].header.right, *right);
            } else if left.cells().contains(a) {
                lemma_order_below(heap, heap[at].header.left, *left, a);
            } else {
                lemma_order_below(heap, heap[at].header.right, *right, a);
            }
        },
    }
}

/// In a well-formed index, below every node of the tree each capacity to
/// the left is smaller than the node's own and each capacity to the right
/// is larger.
pub proof fn lemma_ordering(tree: AVLTree, a: usize)
    requires
        tree.wf(),
        tree.shape().cells().contains(a),
    ensures
        models(tree.heap(), Some(a), tree.shape().subtree(a)),
        forall|c: usize| #[trigger]
            tree.shape().subtree(a).lhs().cells().contains(c) ==> tree.heap()[c].header.size
                < tree.heap()[a].header.size,
        forall|c: usize| #[trigger]
            tree.shape().subtree(a).rhs().cells().contains(c) ==> tree.heap()[a].header.size
                < tree.heap()[c].header.size,
{
    lemma_order_below(tree.heap(), tree.root_link(), tree.shape(), a);
}

/// In a well-formed index no header, in the tree or outside it, has a link
/// that leads back to itself.
pub proof fn lemma_no_self_links(tree: AVLTree)
    requires
        tree.wf(),
    ensures
        forall|a: usize| #[trigger] tree.heap().contains_key(a) ==> no_self_link(tree.heap(), a),
{
    lemma_heights_below(tree.heap(), tree.root_link(), tree.shape());
    assert forall|a: usize| #[trigger] tree.heap().contains_key(a) implies no_self_link(
        tree.heap(),
        a,
    ) by {
        if !tree.shape().cells().contains(a) {
            assert(is_leaf(tree.heap()[a]));
        }
    }
}

/// A data address that the store knows leads back, by the fixed offset, to
/// a header that names this very address as its data.
pub proof fn lemma_round_trip(tree: AVLTree, ptr: usize)
    requires
        tree.chunks().contains_key(ptr),
    ensures
        ptr >= HEADER_SIZE,
        tree.heap().contains_key((ptr - HEADER_SIZE) as usize),
        tree.heap()[(ptr - HEADER_SIZE) as usize].data == ptr,
        tree.heap()[(ptr - HEADER_SIZE) as usize].header.size == tree.chunks()[ptr],
{
}

/// Where the alignment asked for is no larger than the header, the data
/// address that `install` returns is known to the store from then on, as
/// the address right behind the new header.
pub proof fn lemma_fresh_round_trip<A: LargeAllocator>(
    before: A,
    after: A,
    address: usize,
    size: usize,
    align: usize,
    ptr: usize,
)
    requires
        is_power_of_two(align),
        align <= HEADER_SIZE,
        ptr == address + data_offset(align),
        after.chunks() == with_chunk(before.chunks(), address, size, align),
    ensures
        ptr - HEADER_SIZE == address,
        after.chunks().contains_key(ptr),
{
    lemma_small_alignment(align);
}

/// When a chunk has been given back and a request follows that the chunk
/// can hold, the request is served with that same chunk and nothing is
/// mapped, provided that no other free chunk competes: none whose capacity
/// lies between the request and the capacity of the chunk given back.
pub proof fn lemma_reuse_over_remap<A: LargeAllocator>(
    handed: A,
    freed: A,
    ptr: usize,
    size: usize,
    step: Allocation,
)
    requires
        handed.chunks().contains_key(ptr),
        size <= handed.chunks()[ptr],
        forall|k: usize|
            handed.pool().contains_key(k) ==> !(size <= k && k <= handed.chunks()[ptr]),
        freed.chunks() == handed.chunks(),
        freed.pool() == released(handed.pool(), handed.chunks()[ptr], ptr),
        match step {
            Allocation::Reused(q) => {
                &&& freed.chunks().contains_key(q)
                &&& best_fit(freed.pool(), size, freed.chunks()[q])
                &&& freed.pool()[freed.chunks()[q]] == q
            },
            Allocation::Fresh(length) => no_fit(freed.pool(), size),
        },
    ensures
        step == Allocation::Reused(ptr),
{
    let capacity = handed.chunks()[ptr];
    assert(!handed.pool().contains_key(capacity));
    assert(freed.pool().contains_key(capacity));
    match step {
        Allocation::Reused(q) => {
            let best = freed.chunks()[q];
            if best != capacity {
                assert(handed.pool().contains_key(best));
            }
        },
        Allocation::Fresh(length) => {},
    }
}

} // verus!
