//! The chunk index: an AVL tree of chunk headers keyed by capacity, without
//! parent links. Headers live in a table keyed by their address, and every
//! link is such an address.

use vstd::prelude::*;
use std::collections::HashMap;
use crate::shape::Shape;
use crate::shape::fork;
use crate::shape::height_limit;
use crate::shape::lemma_height_bound;
use crate::shape::lemma_height_nonnegative;
use crate::shape::lemma_index_parts;
use crate::shape::lemma_insert;
use crate::shape::lemma_rebalance;
use crate::shape::lemma_rotate_left;
use crate::shape::lemma_rotate_right;
use crate::shape::lemma_swap_min_size;
use crate::common::Layout;
use crate::common::HEADER_SIZE;
use crate::common::PAGE_SIZE;
use crate::common::data_offset;
use crate::common::mapped_length;
use crate::large_allocator::Allocation;
use crate::large_allocator::LargeAllocator;
use crate::large_allocator::Reallocation;
use crate::large_allocator::released;
use crate::large_allocator::with_chunk;
use crate::laws::lemma_no_self_links;
use crate::shape::lemma_descend;
use crate::shape::lemma_fit;
use crate::shape::lemma_heir;
use crate::shape::lemma_remove;

verus! {

broadcast use vstd::std_specs::hash::group_hash_axioms;

/// A link to a header: its address, or nothing.
pub type NodePtr = Option<usize>;

/// The bookkeeping at the start of every chunk.
#[derive(Clone, Copy, Debug, PartialEq, Eq)]
pub struct AvlHeader {
    /// Usable bytes of the chunk.
    pub size: usize,
    /// Height of the subtree below this header: 1 for a leaf.
    pub height: i32,
    pub left: NodePtr,
    pub right: NodePtr,
}

/// One chunk of mapped memory: its header and the address of its first
/// usable byte.
#[derive(Clone, Copy, Debug, PartialEq, Eq)]
pub struct Node {
    pub header: AvlHeader,
    pub data: usize,
}

/// The chunk index. `root` is the top of the tree of free chunks; `memory`
/// holds the header of every chunk ever placed, free or handed out.
pub struct AVLTree {
    root: NodePtr,
    memory: HashMap<usize, Node>,
    shape: Ghost<Shape>,
}

/// What is left to do after a node has been cut out of its place.
#[derive(Clone, Copy, Debug, PartialEq, Eq)]
pub enum DeleteAction {
    /// The removal is complete.
    NoAction,
    /// The node traded places with its in-order successor and now sits in
    /// the successor's old slot: search the right subtree and delete again.
    SearchDelete,
}

/// Where a node hangs: the tree has no parent links, so every walk carries
/// this tag along instead.
#[derive(Clone, Copy, Debug, PartialEq, Eq)]
pub enum SearchDirection {
    /// It is the left child of the header at this address.
    Left(usize),
    /// It is the right child of the header at this address.
    Right(usize),
    /// It is the root of the tree.
    Root,
}

/// The height recorded behind a link: 0 for no node.
pub open spec fn link_height(heap: Map<usize, Node>, link: NodePtr) -> int {
    match link {
        None => 0,
        Some(at) => heap[at].header.height as int,
    }
}

/// The headers reachable from `link` spell out exactly the outline `t`,
/// recorded heights included.
pub open spec fn models(heap: Map<usize, Node>, link: NodePtr, t: Shape) -> bool
    decreases t,
{
    match t {
        Shape::Empty => link is None,
        Shape::Fork { left, at, key, right } => {
            &&& link == Some(at)
            &&& heap.contains_key(at)
            &&& heap[at].header.size == key
            &&& heap[at].header.height == t.height()
            &&& models(heap, heap[at].header.left, *left)
            &&& models(heap, heap[at].header.right, *right)
        },
    }
}

/// The header at `at` sits over the subtrees `left` and `right`, in search
/// order; its own recorded height may be stale.
pub open spec fn joins(heap: Map<usize, Node>, at: usize, left: Shape, right: Shape) -> bool {
    &&& heap.contains_key(at)
    &&& models(heap, heap[at].header.left, left)
    &&& models(heap, heap[at].header.right, right)
    &&& fork(left, at, heap[at].header.size, right).ordered()
}

/// No chunk appears or disappears, none changes its capacity or its data
/// address, and only the headers in `cells` change at all.
pub open spec fn touched_only(
    before: Map<usize, Node>,
    after: Map<usize, Node>,
    cells: Set<usize>,
) -> bool {
    &&& after.dom() == before.dom()
    &&& forall|a: usize| #[trigger]
        before.contains_key(a) ==> {
            &&& after[a].header.size == before[a].header.size
            &&& after[a].data == before[a].data
            &&& !cells.contains(a) ==> after[a] == before[a]
        }
}

/// A header with no children, as every chunk outside the tree has it.
pub open spec fn is_leaf(n: Node) -> bool {
    &&& n.header.left is None
    &&& n.header.right is None
    &&& n.header.height == 1
}

/// `n` with another recorded height.
pub open spec fn with_height(n: Node, height: i32) -> Node {
    Node { header: AvlHeader { height, ..n.header }, ..n }
}

/// `n` with another left link.
pub open spec fn with_left(n: Node, left: NodePtr) -> Node {
    Node { header: AvlHeader { left, ..n.header }, ..n }
}

/// `n` with another right link.
pub open spec fn with_right(n: Node, right: NodePtr) -> Node {
    Node { header: AvlHeader { right, ..n.header }, ..n }
}

pub proof fn lemma_link_height(heap: Map<usize, Node>, link: NodePtr, t: Shape)
    requires
        models(heap, link, t),
    ensures
        link_height(heap, link) == t.height(),
        link is Some ==> heap.contains_key(link.unwrap()),
        link is Some <==> t is Fork,
        t.height() >= 0,
{
    lemma_height_nonnegative(t);
}

/// Every header of a modelled tree is in the table, under a key of the tree.
pub proof fn lemma_cells_known(heap: Map<usize, Node>, link: NodePtr, t: Shape)
    requires
        models(heap, link, t),
    ensures
        forall|c: usize| #[trigger]
            t.cells().contains(c) ==> heap.contains_key(c) && t.index().contains_key(
                heap[c].header.size,
            ),
    decreases t,
{
    match t {
        Shape::Empty => {},
        Shape::Fork { left, at, key, right } => {
            lemma_cells_known(heap, heap[at].header.left, *left);
            lemma_cells_known(heap, heap[at].header.right, *right);
            lemma_index_parts(*left, at, key, *right);
            assert(t == fork(*left, at, key, *right));
            assert forall|c: usize| #[trigger] t.cells().contains(c) implies heap.contains_key(c)
                && t.index().contains_key(heap[c].header.size) by {
                if c == at {
                } else if left.cells().contains(c) {
                    assert(left.index().contains_key(heap[c].header.size));
                } else {
                    assert(right.cells().contains(c));
                    assert(right.index().contains_key(heap[c].header.size));
                }
            }
        },
    }
}

/// A header whose capacity is not a key of the tree is not in the tree.
pub proof fn lemma_not_in(heap: Map<usize, Node>, link: NodePtr, t: Shape, a: usize)
    requires
        models(heap, link, t),
        !t.index().contains_key(heap[a].header.size),
    ensures
        !t.cells().contains(a),
{
    lemma_cells_known(heap, link, t);
}

/// A tree is untouched by changes to headers outside it.
pub proof fn lemma_frame(
    before: Map<usize, Node>,
    after: Map<usize, Node>,
    cells: Set<usize>,
    link: NodePtr,
    t: Shape,
)
    requires
        models(before, link, t),
        touched_only(before, after, cells),
        forall|c: usize| t.cells().contains(c) ==> !cells.contains(c),
    ensures
        models(after, link, t),
    decreases t,
{
    match t {
        Shape::Empty => {},
        Shape::Fork { left, at, key, right } => {
            assert(t.cells().contains(at));
            assert(before.contains_key(at));
            assert forall|c: usize| left.cells().contains(c) implies !cells.contains(c) by {
                assert(t.cells().contains(c));
            }
            assert forall|c: usize| right.cells().contains(c) implies !cells.contains(c) by {
                assert(t.cells().contains(c));
            }
            lemma_frame(before, after, cells, before[at].header.left, *left);
            lemma_frame(before, after, cells, before[at].header.right, *right);
        },
    }
}

/// In a search-ordered join, the root and its two subtrees share no header.
pub proof fn lemma_joins_apart(heap: Map<usize, Node>, at: usize, left: Shape, right: Shape)
    requires
        joins(heap, at, left, right),
    ensures
        !left.cells().contains(at),
        !right.cells().contains(at),
        forall|c: usize| left.cells().contains(c) ==> !right.cells().contains(c),
{
    lemma_cells_known(heap, heap[at].header.left, left);
    lemma_cells_known(heap, heap[at].header.right, right);
}

/// No link of the header at `at` leads back to `at`.
pub open spec fn no_self_link(heap: Map<usize, Node>, at: usize) -> bool {
    &&& heap[at].header.left != Some(at)
    &&& heap[at].header.right != Some(at)
}

/// Every header of a modelled tree records a height of at least one and
/// at most the height of the tree, and each of its links leads to a header
/// that records a smaller height. So no link of it leads back to itself,
/// nor to a header that records a height as large as its own.
pub proof fn lemma_heights_below(heap: Map<usize, Node>, link: NodePtr, t: Shape)
    requires
        models(heap, link, t),
    ensures
        forall|c: usize| #[trigger]
            t.cells().contains(c) ==> {
                &&& 1 <= heap[c].header.height <= t.height()
                &&& 0 <= link_height(heap, heap[c].header.left) < heap[c].header.height
                &&& 0 <= link_height(heap, heap[c].header.right) < heap[c].header.height
                &&& no_self_link(heap, c)
            },
    decreases t,
{
    match t {
        Shape::Empty => {},
        Shape::Fork { left, at, key, right } => {
            lemma_heights_below(heap, heap[at].header.left, *left);
            lemma_heights_below(heap, heap[at].header.right, *right);
            lemma_link_height(heap, heap[at].header.left, *left);
            lemma_link_height(heap, heap[at].header.right, *right);
            assert forall|c: usize| #[trigger] t.cells().contains(c) implies {
                &&& 1 <= heap[c].header.height <= t.height()
                &&& 0 <= link_height(heap, heap[c].header.left) < heap[c].header.height
                &&& 0 <= link_height(heap, heap[c].header.right) < heap[c].header.height
                &&& no_self_link(heap, c)
            } by {
                if c == at {
                } else if left.cells().contains(c) {
                } else {
                    assert(right.cells().contains(c));
                }
            }
        },
    }
}

/// The header through which a tag reaches its node, if it is not the root.
pub open spec fn hinge(dir: SearchDirection) -> Set<usize> {
    match dir {
        SearchDirection::Left(p) => set![p],
        SearchDirection::Right(p) => set![p],
        SearchDirection::Root => Set::empty(),
    }
}

/// The link that a tag names.
pub open spec fn slot_of(heap: Map<usize, Node>, root: NodePtr, dir: SearchDirection) -> NodePtr {
    match dir {
        SearchDirection::Left(p) => heap[p].header.left,
        SearchDirection::Right(p) => heap[p].header.right,
        SearchDirection::Root => root,
    }
}

/// The tag names a header of the table that lies outside `cells`.
pub open spec fn anchored(heap: Map<usize, Node>, dir: SearchDirection, cells: Set<usize>) -> bool {
    match dir {
        SearchDirection::Left(p) => heap.contains_key(p) && !cells.contains(p),
        SearchDirection::Right(p) => heap.contains_key(p) && !cells.contains(p),
        SearchDirection::Root => true,
    }
}

/// Between two states only the headers in `cells` changed, and the one
/// link that `dir` names.
pub open spec fn moved(
    before: Map<usize, Node>,
    before_root: NodePtr,
    after: Map<usize, Node>,
    after_root: NodePtr,
    dir: SearchDirection,
    cells: Set<usize>,
) -> bool {
    &&& touched_only(before, after, cells.union(hinge(dir)))
    &&& match dir {
        SearchDirection::Left(p) => after_root == before_root && after[p] == with_left(
            before[p],
            after[p].header.left,
        ),
        SearchDirection::Right(p) => after_root == before_root && after[p] == with_right(
            before[p],
            after[p].header.right,
        ),
        SearchDirection::Root => true,
    }
}

/// `n` with the links and the height of `other`, keeping its own capacity
/// and data address.
pub open spec fn wearing(n: Node, other: Node) -> Node {
    Node {
        header: AvlHeader {
            size: n.header.size,
            height: other.header.height,
            left: other.header.left,
            right: other.header.right,
        },
        data: n.data,
    }
}

/// A bare leaf with the capacity and data address of `n`.
pub open spec fn detached(n: Node) -> Node {
    Node { header: AvlHeader { size: n.header.size, height: 1, left: None, right: None }, data: n.data }
}

/// A tree is the same in two tables that agree on its headers.
pub proof fn lemma_same_cells(
    before: Map<usize, Node>,
    after: Map<usize, Node>,
    link: NodePtr,
    t: Shape,
)
    requires
        models(before, link, t),
        forall|c: usize| #[trigger]
            t.cells().contains(c) ==> after.contains_key(c) && after[c] == before[c],
    ensures
        models(after, link, t),
    decreases t,
{
    match t {
        Shape::Empty => {},
        Shape::Fork { left, at, key, right } => {
            assert(t.cells().contains(at));
            assert forall|c: usize| #[trigger] left.cells().contains(c) implies after.contains_key(
                c,
            ) && after[c] == before[c] by {
                assert(t.cells().contains(c));
            }
            assert forall|c: usize| #[trigger] right.cells().contains(c) implies after.contains_key(
                c,
            ) && after[c] == before[c] by {
                assert(t.cells().contains(c));
            }
            lemma_same_cells(before, after, before[at].header.left, *left);
            lemma_same_cells(before, after, before[at].header.right, *right);
        },
    }
}

/// In an ordered tree every key leads to a header of the tree that
/// records that key as its capacity.
pub proof fn lemma_index_known(heap: Map<usize, Node>, link: NodePtr, t: Shape)
    requires
        models(heap, link, t),
        t.ordered(),
    ensures
        forall|k: usize| #[trigger]
            t.index().contains_key(k) ==> t.cells().contains(t.index()[k]) && heap.contains_key(
                t.index()[k],
            ) && heap[t.index()[k]].header.size == k,
    decreases t,
{
    match t {
        Shape::Empty => {},
        Shape::Fork { left, at, key, right } => {
            lemma_index_known(heap, heap[at].header.left, *left);
            lemma_index_known(heap, heap[at].header.right, *right);
            lemma_index_parts(*left, at, key, *right);
            assert(t == fork(*left, at, key, *right));
            assert forall|k: usize| #[trigger] t.index().contains_key(k) implies t.cells().contains(
                t.index()[k],
            ) && heap.contains_key(t.index()[k]) && heap[t.index()[k]].header.size == k by {
                if k == key {
                } else if right.index().contains_key(k) {
                    assert(t.index()[k] == right.index()[k]);
                } else {
                    assert(left.index().contains_key(k));
                    assert(t.index()[k] == left.index()[k]);
                }
            }
        },
    }
}

/// Where the leftmost node of a modelled tree is, and what its header says.
pub proof fn lemma_min_known(heap: Map<usize, Node>, link: NodePtr, t: Shape)
    requires
        models(heap, link, t),
        t is Fork,
    ensures
        t.cells().contains(t.min_at()),
        heap.contains_key(t.min_at()),
        heap[t.min_at()].header.size == t.min_key(),
        heap[t.min_at()].header.left is None,
        t.lhs() is Fork ==> {
            &&& t.cells().contains(t.min_parent())
            &&& heap.contains_key(t.min_parent())
            &&& heap[t.min_parent()].header.left == Some(t.min_at())
        },
    decreases t,
{
    reveal_with_fuel(models, 2);
    match t {
        Shape::Empty => {},
        Shape::Fork { left, at, key, right } => {
            if *left is Fork {
                lemma_min_known(heap, heap[at].header.left, *left);
                assert(t.cells().contains(left.min_at()));
                if left.lhs() is Fork {
                    assert(t.cells().contains(left.min_parent()));
                }
            }
        },
    }
}

/// The tree below `link` after its leftmost node `S` has handed its place
/// to `target`: the parent of `S` now points at `target`, and `target`
/// carries what `S` carried.
pub proof fn lemma_swap_models(
    h0: Map<usize, Node>,
    h1: Map<usize, Node>,
    link: NodePtr,
    r: Shape,
    target: usize,
    key: usize,
)
    requires
        models(h0, link, r),
        r.ordered(),
        r.lhs() is Fork,
        !r.cells().contains(target),
        h1.contains_key(target),
        h1[target] == (Node {
            header: AvlHeader { size: key, ..h0[r.min_at()].header },
            data: h1[target].data,
        }),
        h1.contains_key(r.min_parent()),
        h1[r.min_parent()] == with_left(h0[r.min_parent()], Some(target)),
        forall|c: usize| #[trigger]
            r.cells().contains(c) && c != r.min_at() && c != r.min_parent() ==> h1.contains_key(c)
                && h1[c] == h0[c],
    ensures
        models(h1, link, r.swap_min(target, key)),
    decreases r,
{
    reveal_with_fuel(models, 3);
    reveal_with_fuel(Shape::ordered, 2);
    let at = r->at;
    let xk = r->key;
    let rl = r.lhs();
    let rr = r.rhs();
    assert(r == fork(rl, at, xk, rr));
    lemma_index_parts(rl, at, xk, rr);
    lemma_cells_known(h0, h0[at].header.left, rl);
    lemma_cells_known(h0, h0[at].header.right, rr);
    lemma_min_known(h0, h0[at].header.left, rl);
    lemma_swap_min_size(r, target, key);
    lemma_swap_min_size(rl, target, key);
    assert(!rl.cells().contains(at));
    assert(!rr.cells().contains(at));
    assert forall|c: usize| rr.cells().contains(c) implies !rl.cells().contains(c) by {}
    assert forall|c: usize| #[trigger] rr.cells().contains(c) implies h1.contains_key(c) && h1[c]
        == h0[c] by {
        assert(r.cells().contains(c));
    }
    lemma_same_cells(h0, h1, h0[at].header.right, rr);
    if rl.lhs() is Empty {
        let s = rl->at;
        let sr = rl.rhs();
        assert(rl == fork(Shape::Empty, s, rl->key, sr));
        lemma_index_parts(Shape::Empty, s, rl->key, sr);
        lemma_cells_known(h0, h0[s].header.right, sr);
        assert(!sr.cells().contains(s));
        assert forall|c: usize| #[trigger] sr.cells().contains(c) implies h1.contains_key(c)
            && h1[c] == h0[c] by {
            assert(rl.cells().contains(c));
            assert(r.cells().contains(c));
        }
        lemma_same_cells(h0, h1, h0[s].header.right, sr);
        let low = fork(Shape::Empty, target, key, sr);
        assert(rl.swap_min(target, key) == low);
        assert(models(h1, Some(target), low));
        assert(r.swap_min(target, key) == fork(low, at, xk, rr));
        assert(r.min_parent() == at);
        assert(h1[at] == with_left(h0[at], Some(target)));
        assert(fork(low, at, xk, rr).height() == r.height());
        assert(models(h1, h1[at].header.right, rr));
        assert(models(h1, Some(at), fork(low, at, xk, rr)));
    } else {
        assert(r.min_at() == rl.min_at());
        assert(r.min_parent() == rl.min_parent());
        assert(r.cells().contains(at));
        assert(rl.cells().contains(rl.min_at()));
        assert(rl.cells().contains(rl.min_parent()));
        assert(h1.contains_key(at) && h1[at] == h0[at]);
        assert forall|c: usize| #[trigger]
            rl.cells().contains(c) && c != rl.min_at() && c != rl.min_parent() implies h1.contains_key(
            c,
        ) && h1[c] == h0[c] by {
            assert(r.cells().contains(c));
        }
        assert(!rl.cells().contains(target)) by {
            if rl.cells().contains(target) {
                assert(r.cells().contains(target));
            }
        }
        lemma_swap_models(h0, h1, h0[at].header.left, rl, target, key);
        let low = rl.swap_min(target, key);
        assert(r.swap_min(target, key) == fork(low, at, xk, rr));
        assert(fork(low, at, xk, rr).height() == r.height());
        assert(models(h1, h1[at].header.left, low));
        assert(models(h1, h1[at].header.right, rr));
        assert(models(h1, Some(at), fork(low, at, xk, rr)));
    }
}

/// The header written at the start of a fresh mapping at `address` that
/// serves `size` bytes at alignment `align`.
pub open spec fn fresh_node(address: usize, size: usize, align: usize) -> Node {
    Node {
        header: AvlHeader {
            size: (mapped_length(size, align) - HEADER_SIZE) as usize,
            height: 1,
            left: None,
            right: None,
        },
        data: (address + data_offset(align)) as usize,
    }
}

impl Node {
    /// The header for a fresh mapping at `address` made for `layout`. The
    /// capacity is what was mapped minus the header, which is more than
    /// was asked for; the data begins behind the header, at the alignment
    /// asked for.
    pub fn new(address: usize, layout: Layout) -> (node: Node)
        requires
            address + mapped_length(layout.spec_size(), layout.spec_align()) <= usize::MAX,
        ensures
            node == fresh_node(address, layout.spec_size(), layout.spec_align()),
            is_leaf(node),
            layout.spec_size() <= node.header.size,
    {
        let length = layout.mapped_length();
        let offset = layout.data_offset();
        let header = AvlHeader { size: length - HEADER_SIZE, height: 1, left: None, right: None };
        Node { header, data: address + offset }
    }

    /// Trades the links and the recorded height with `other`. Each of the
    /// two keeps its capacity and its data address, so each still stands
    /// for the memory it stood for.
    pub fn swap_header_details(&mut self, other: &mut Node)
        ensures
            *final(self) == wearing(*old(self), *old(other)),
            *final(other) == wearing(*old(other), *old(self)),
    {
        let left = self.header.left;
        let right = self.header.right;
        let height = self.header.height;
        self.header.left = other.header.left;
        self.header.right = other.header.right;
        self.header.height = other.header.height;
        other.header.left = left;
        other.header.right = right;
        other.header.height = height;
    }
}

/// Whether a link leads to the header at `at`.
fn points_to(link: NodePtr, at: usize) -> (yes: bool)
    ensures
        yes == (link == Some(at)),
{
    match link {
        Some(a) => a == at,
        None => false,
    }
}

impl View for AVLTree {
    type V = Map<usize, usize>;

    /// The free chunks: capacity to header address.
    open spec fn view(&self) -> Map<usize, usize> {
        self.shape().index()
    }
}

impl AVLTree {
    /// Every header placed so far, by address.
    pub closed spec fn heap(&self) -> Map<usize, Node> {
        self.memory@
    }

    /// The link to the top of the tree.
    pub closed spec fn root_link(&self) -> NodePtr {
        self.root
    }

    /// The outline of the tree of free chunks.
    pub closed spec fn shape(&self) -> Shape {
        self.shape@
    }

    /// The tree is a search tree by capacity, AVL-balanced with exact
    /// recorded heights, and every chunk outside it is a bare leaf.
    pub open spec fn wf(&self) -> bool {
        &&& !self.heap().contains_key(0)
        &&& models(self.heap(), self.root_link(), self.shape())
        &&& self.shape().ordered()
        &&& self.shape().balanced()
        &&& forall|a: usize| #[trigger]
            self.heap().contains_key(a) && !self.shape().cells().contains(a) ==> is_leaf(
                self.heap()[a],
            )
    }

    /// An index with no chunks.
    pub fn new() -> (tree: Self)
        ensures
            tree.wf(),
            tree.heap() == Map::<usize, Node>::empty(),
            tree.shape() == Shape::Empty,
            tree.root_link() is None,
    {
        AVLTree { root: None, memory: HashMap::new(), shape: Ghost(Shape::Empty) }
    }

    fn node(&self, at: usize) -> (n: Node)
        requires
            self.heap().contains_key(at),
        ensures
            n == self.heap()[at],
    {
        let found = self.memory.get(&at);
        *found.unwrap()
    }

    fn store(&mut self, at: usize, n: Node)
        requires
            old(self).heap().contains_key(at),
            n.header.size == old(self).heap()[at].header.size,
            n.data == old(self).heap()[at].data,
        ensures
            final(self).heap() == old(self).heap().insert(at, n),
            touched_only(old(self).heap(), final(self).heap(), set![at]),
            final(self).root_link() == old(self).root_link(),
            final(self).shape() == old(self).shape(),
    {
        self.memory.insert(at, n);
        assert(self.heap().dom() =~= old(self).heap().dom());
    }

    fn set_left(&mut self, at: usize, left: NodePtr)
        requires
            old(self).heap().contains_key(at),
        ensures
            final(self).heap() == old(self).heap().insert(at, with_left(old(self).heap()[at], left)),
            touched_only(old(self).heap(), final(self).heap(), set![at]),
            final(self).root_link() == old(self).root_link(),
            final(self).shape() == old(self).shape(),
    {
        let mut n = self.node(at);
        n.header.left = left;
        self.store(at, n);
    }

    fn set_right(&mut self, at: usize, right: NodePtr)
        requires
            old(self).heap().contains_key(at),
        ensures
            final(self).heap() == old(self).heap().insert(
                at,
                with_right(old(self).heap()[at], right),
            ),
            touched_only(old(self).heap(), final(self).heap(), set![at]),
            final(self).root_link() == old(self).root_link(),
            final(self).shape() == old(self).shape(),
    {
        let mut n = self.node(at);
        n.header.right = right;
        self.store(at, n);
    }

    /// The recorded height behind a link.
    fn height(&self, node: NodePtr) -> (h: i32)
        requires
            node is Some ==> self.heap().contains_key(node.unwrap()),
        ensures
            h == link_height(self.heap(), node),
    {
        match node {
            None => 0,
            Some(at) => self.node(at).header.height,
        }
    }

    /// Records at `at` one more than the taller of its two subtrees.
    fn update_height(&mut self, at: usize, Ghost(l): Ghost<Shape>, Ghost(r): Ghost<Shape>)
        requires
            old(self).heap().contains_key(at),
            models(old(self).heap(), old(self).heap()[at].header.left, l),
            models(old(self).heap(), old(self).heap()[at].header.right, r),
            l.height() <= height_limit(),
            r.height() <= height_limit(),
        ensures
            final(self).heap() == old(self).heap().insert(
                at,
                with_height(
                    old(self).heap()[at],
                    fork(l, at, old(self).heap()[at].header.size, r).height() as i32,
                ),
            ),
            final(self).heap()[at].header.height == fork(
                l,
                at,
                old(self).heap()[at].header.size,
                r,
            ).height(),
            touched_only(old(self).heap(), final(self).heap(), set![at]),
            final(self).root_link() == old(self).root_link(),
            final(self).shape() == old(self).shape(),
    {
        let mut n = self.node(at);
        proof {
            lemma_link_height(self.heap(), n.header.left, l);
            lemma_link_height(self.heap(), n.header.right, r);
        }
        let lh = self.height(n.header.left);
        let rh = self.height(n.header.right);
        n.header.height = if lh >= rh {
            lh + 1
        } else {
            rh + 1
        };
        self.store(at, n);
    }

    /// Left height minus right height, as recorded in the two children.
    fn balance_factor(&self, at: usize, Ghost(l): Ghost<Shape>, Ghost(r): Ghost<Shape>) -> (b:
        i32)
        requires
            self.heap().contains_key(at),
            models(self.heap(), self.heap()[at].header.left, l),
            models(self.heap(), self.heap()[at].header.right, r),
            l.height() <= height_limit(),
            r.height() <= height_limit(),
        ensures
            b == l.height() - r.height(),
    {
        let n = self.node(at);
        proof {
            lemma_link_height(self.heap(), n.header.left, l);
            lemma_link_height(self.heap(), n.header.right, r);
        }
        self.height(n.header.left) - self.height(n.header.right)
    }

    /// Promotes the left child of `ptr` and returns it; `ptr` becomes its
    /// right child and takes over the child's former right subtree.
    fn rotate_right(
        &mut self,
        ptr: usize,
        Ghost(ll): Ghost<Shape>,
        Ghost(lr): Ghost<Shape>,
        Ghost(r): Ghost<Shape>,
    ) -> (top: usize)
        requires
            old(self).heap().contains_key(ptr),
            old(self).heap()[ptr].header.left is Some,
            joins(old(self).heap(), old(self).heap()[ptr].header.left.unwrap(), ll, lr),
            models(old(self).heap(), old(self).heap()[ptr].header.right, r),
            ({
                let h = old(self).heap();
                let lat = h[ptr].header.left.unwrap();
                fork(fork(ll, lat, h[lat].header.size, lr), ptr, h[ptr].header.size, r).ordered()
            }),
            ll.height() < height_limit(),
            lr.height() < height_limit(),
            r.height() < height_limit(),
        ensures
            top == old(self).heap()[ptr].header.left.unwrap(),
            models(
                final(self).heap(),
                Some(top),
                fork(
                    ll,
                    top,
                    old(self).heap()[top].header.size,
                    fork(lr, ptr, old(self).heap()[ptr].header.size, r),
                ),
            ),
            touched_only(old(self).heap(), final(self).heap(), set![ptr, top]),
            final(self).root_link() == old(self).root_link(),
            final(self).shape() == old(self).shape(),
    {
        let ghost h0 = self.heap();
        let node = self.node(ptr);
        let left_ptr = node.header.left.unwrap();
        let left = self.node(left_ptr);
        let left_right = left.header.right;
        let ghost key = node.header.size;
        let ghost lkey = left.header.size;
        let ghost l = fork(ll, left_ptr, lkey, lr);
        let ghost low = fork(lr, ptr, key, r);
        proof {
            lemma_index_parts(ll, left_ptr, lkey, lr);
            lemma_index_parts(l, ptr, key, r);
            assert(l.index().contains_key(lkey));
            assert forall|k: usize| lr.index().contains_key(k) implies k < key by {
                assert(l.index().contains_key(k));
            }
            assert forall|k: usize| ll.index().contains_key(k) implies k < key by {
                assert(l.index().contains_key(k));
            }
            lemma_not_in(h0, left.header.left, ll, ptr);
            lemma_not_in(h0, left.header.right, lr, ptr);
            lemma_not_in(h0, node.header.right, r, ptr);
            lemma_not_in(h0, left.header.left, ll, left_ptr);
            lemma_not_in(h0, left.header.right, lr, left_ptr);
            lemma_not_in(h0, node.header.right, r, left_ptr);
            lemma_height_nonnegative(ll);
            lemma_height_nonnegative(lr);
            lemma_height_nonnegative(r);
        }
        self.set_left(ptr, left_right);
        let ghost h1 = self.heap();
        proof {
            lemma_frame(h0, h1, set![ptr], left_right, lr);
            lemma_frame(h0, h1, set![ptr], node.header.right, r);
            lemma_frame(h0, h1, set![ptr], left.header.left, ll);
        }
        self.update_height(ptr, Ghost(lr), Ghost(r));
        let ghost h2 = self.heap();
        proof {
            lemma_frame(h1, h2, set![ptr], left_right, lr);
            lemma_frame(h1, h2, set![ptr], node.header.right, r);
            lemma_frame(h1, h2, set![ptr], left.header.left, ll);
            assert(models(h2, Some(ptr), low));
        }
        self.set_right(left_ptr, Some(ptr));
        let ghost h3 = self.heap();
        proof {
            assert forall|c: usize| low.cells().contains(c) implies !set![left_ptr].contains(
                c,
            ) by {}
            lemma_frame(h2, h3, set![left_ptr], Some(ptr), low);
            lemma_frame(h2, h3, set![left_ptr], left.header.left, ll);
        }
        self.update_height(left_ptr, Ghost(ll), Ghost(low));
        let ghost h4 = self.heap();
        proof {
            assert forall|c: usize| low.cells().contains(c) implies !set![left_ptr].contains(
                c,
            ) by {}
            lemma_frame(h3, h4, set![left_ptr], Some(ptr), low);
            lemma_frame(h3, h4, set![left_ptr], left.header.left, ll);
        }
        left_ptr
    }

    /// Mirror image of `rotate_right`: promotes the right child of `ptr`.
    fn rotate_left(
        &mut self,
        ptr: usize,
        Ghost(l): Ghost<Shape>,
        Ghost(rl): Ghost<Shape>,
        Ghost(rr): Ghost<Shape>,
    ) -> (top: usize)
        requires
            old(self).heap().contains_key(ptr),
            old(self).heap()[ptr].header.right is Some,
            joins(old(self).heap(), old(self).heap()[ptr].header.right.unwrap(), rl, rr),
            models(old(self).heap(), old(self).heap()[ptr].header.left, l),
            ({
                let h = old(self).heap();
                let rat = h[ptr].header.right.unwrap();
                fork(l, ptr, h[ptr].header.size, fork(rl, rat, h[rat].header.size, rr)).ordered()
            }),
            l.height() < height_limit(),
            rl.height() < height_limit(),
            rr.height() < height_limit(),
        ensures
            top == old(self).heap()[ptr].header.right.unwrap(),
            models(
                final(self).heap(),
                Some(top),
                fork(
                    fork(l, ptr, old(self).heap()[ptr].header.size, rl),
                    top,
                    old(self).heap()[top].header.size,
                    rr,
                ),
            ),
            touched_only(old(self).heap(), final(self).heap(), set![ptr, top]),
            final(self).root_link() == old(self).root_link(),
            final(self).shape() == old(self).shape(),
    {
        let ghost h0 = self.heap();
        let node = self.node(ptr);
        let right_ptr = node.header.right.unwrap();
        let right = self.node(right_ptr);
        let right_left = right.header.left;
        let ghost key = node.header.size;
        let ghost rkey = right.header.size;
        let ghost r = fork(rl, right_ptr, rkey, rr);
        let ghost low = fork(l, ptr, key, rl);
        proof {
            lemma_index_parts(rl, right_ptr, rkey, rr);
            lemma_index_parts(l, ptr, key, r);
            assert(r.index().contains_key(rkey));
            assert forall|k: usize| rl.index().contains_key(k) implies key < k by {
                assert(r.index().contains_key(k));
            }
            assert forall|k: usize| rr.index().contains_key(k) implies key < k by {
                assert(r.index().contains_key(k));
            }
            lemma_not_in(h0, right.header.left, rl, ptr);
            lemma_not_in(h0, right.header.right, rr, ptr);
            lemma_not_in(h0, node.header.left, l, ptr);
            lemma_not_in(h0, right.header.left, rl, right_ptr);
            lemma_not_in(h0, right.header.right, rr, right_ptr);
            lemma_not_in(h0, node.header.left, l, right_ptr);
            lemma_height_nonnegative(rl);
            lemma_height_nonnegative(rr);
            lemma_height_nonnegative(l);
        }
        self.set_right(ptr, right_left);
        let ghost h1 = self.heap();
        proof {
            lemma_frame(h0, h1, set![ptr], right_left, rl);
            lemma_frame(h0, h1, set![ptr], node.header.left, l);
            lemma_frame(h0, h1, set![ptr], right.header.right, rr);
        }
        self.update_height(ptr, Ghost(l), Ghost(rl));
        let ghost h2 = self.heap();
        proof {
            lemma_frame(h1, h2, set![ptr], right_left, rl);
            lemma_frame(h1, h2, set![ptr], node.header.left, l);
            lemma_frame(h1, h2, set![ptr], right.header.right, rr);
            assert(models(h2, Some(ptr), low));
        }
        self.set_left(right_ptr, Some(ptr));
        let ghost h3 = self.heap();
        proof {
            assert forall|c: usize| low.cells().contains(c) implies !set![right_ptr].contains(
                c,
            ) by {}
            lemma_frame(h2, h3, set![right_ptr], Some(ptr), low);
            lemma_frame(h2, h3, set![right_ptr], right.header.right, rr);
        }
        self.update_height(right_ptr, Ghost(low), Ghost(rr));
        let ghost h4 = self.heap();
        proof {
            assert forall|c: usize| low.cells().contains(c) implies !set![right_ptr].contains(
                c,
            ) by {}
            lemma_frame(h3, h4, set![right_ptr], Some(ptr), low);
            lemma_frame(h3, h4, set![right_ptr], right.header.right, rr);
        }
        right_ptr
    }

    /// Restores the balance at `ptr` after one of its subtrees changed height
    /// by at most one level, and returns the top of the subtree.
    fn rebalance(&mut self, ptr: usize, Ghost(l): Ghost<Shape>, Ghost(r): Ghost<Shape>) -> (top:
        usize)
        requires
            joins(old(self).heap(), ptr, l, r),
            l.balanced(),
            r.balanced(),
            -2 <= l.height() - r.height() <= 2,
        ensures
            models(
                final(self).heap(),
                Some(top),
                Shape::rebalance(l, ptr, old(self).heap()[ptr].header.size, r),
            ),
            touched_only(
                old(self).heap(),
                final(self).heap(),
                l.cells().union(r.cells()).insert(ptr),
            ),
            final(self).root_link() == old(self).root_link(),
            final(self).shape() == old(self).shape(),
    {
        let ghost h0 = self.heap();
        let ghost key = h0[ptr].header.size;
        let ghost all = l.cells().union(r.cells()).insert(ptr);
        proof {
            lemma_joins_apart(h0, ptr, l, r);
            lemma_height_bound(l);
            lemma_height_bound(r);
            lemma_index_parts(l, ptr, key, r);
        }
        self.update_height(ptr, Ghost(l), Ghost(r));
        let ghost h1 = self.heap();
        proof {
            lemma_frame(h0, h1, set![ptr], h0[ptr].header.left, l);
            lemma_frame(h0, h1, set![ptr], h0[ptr].header.right, r);
            assert(models(h1, Some(ptr), fork(l, ptr, key, r)));
        }
        let balance = self.balance_factor(ptr, Ghost(l), Ghost(r));
        if balance > 1 {
            let left_ptr = self.node(ptr).header.left.unwrap();
            let ghost ll = l.lhs();
            let ghost lr = l.rhs();
            let ghost lkey = h1[left_ptr].header.size;
            proof {
                lemma_height_nonnegative(r);
                assert(l == fork(ll, left_ptr, lkey, lr));
                assert(l.ordered());
                assert(ll.ordered() && lr.ordered());
                assert(ll.balanced() && lr.balanced());
                lemma_height_bound(ll);
                lemma_height_bound(lr);
                assert(l.cells().contains(left_ptr));
            }
            let inner_balance = self.balance_factor(left_ptr, Ghost(ll), Ghost(lr));
            if inner_balance < 0 {
                let ghost lrl = lr.lhs();
                let ghost lrr = lr.rhs();
                proof {
                    lemma_height_nonnegative(ll);
                    lemma_height_nonnegative(lr);
                    assert(lr is Fork);
                    assert(models(h1, h1[left_ptr].header.right, lr));
                    assert(h1[left_ptr].header.right == Some(lr->at));
                    assert(lr == fork(lrl, lr->at, lr->key, lrr));
                    assert(lr.cells().contains(lr->at));
                    assert(lrl.ordered() && lrr.ordered());
                    assert(lrl.balanced() && lrr.balanced());
                    lemma_height_bound(lrl);
                    lemma_height_bound(lrr);
                    lemma_rotate_left(l);
                }
                let inner = self.rotate_left(left_ptr, Ghost(ll), Ghost(lrl), Ghost(lrr));
                let ghost h2 = self.heap();
                let ghost l2 = l.rotate_left();
                proof {
                    assert(lr.cells().contains(inner));
                    assert(l.cells().contains(inner));
                    assert forall|c: usize| r.cells().contains(c) implies !set![
                        left_ptr,
                        inner,
                    ].contains(c) by {}
                    lemma_frame(h1, h2, set![left_ptr, inner], h1[ptr].header.right, r);
                    assert(h2[ptr] == h1[ptr]);
                }
                self.set_left(ptr, Some(inner));
                let ghost h3 = self.heap();
                proof {
                    assert forall|c: usize| l2.cells().contains(c) implies !set![ptr].contains(
                        c,
                    ) by {}
                    lemma_frame(h2, h3, set![ptr], Some(inner), l2);
                    lemma_frame(h2, h3, set![ptr], h1[ptr].header.right, r);
                    lemma_index_parts(l2, ptr, key, r);
                    assert(fork(l2, ptr, key, r).ordered());
                    lemma_height_nonnegative(lrl);
                    lemma_height_nonnegative(lrr);
                    assert(l2.lhs() == fork(ll, left_ptr, lkey, lrl));
                    assert(l2.lhs().height() < height_limit());
                    assert(l2 == fork(l2.lhs(), inner, h3[inner].header.size, l2.rhs()));
                }
                let top = self.rotate_right(ptr, Ghost(l2.lhs()), Ghost(l2.rhs()), Ghost(r));
                proof {
                    assert(touched_only(h0, self.heap(), all));
                }
                top
            } else {
                let top = self.rotate_right(ptr, Ghost(ll), Ghost(lr), Ghost(r));
                proof {
                    assert(touched_only(h0, self.heap(), all));
                }
                top
            }
        } else if balance < -1 {
            let right_ptr = self.node(ptr).header.right.unwrap();
            let ghost rl = r.lhs();
            let ghost rr = r.rhs();
            let ghost rkey = h1[right_ptr].header.size;
            proof {
                lemma_height_nonnegative(l);
                assert(r == fork(rl, right_ptr, rkey, rr));
                assert(r.ordered());
                assert(rl.ordered() && rr.ordered());
                assert(rl.balanced() && rr.balanced());
                lemma_height_bound(rl);
                lemma_height_bound(rr);
                assert(r.cells().contains(right_ptr));
            }
            let inner_balance = self.balance_factor(right_ptr, Ghost(rl), Ghost(rr));
            if inner_balance > 0 {
                let ghost rll = rl.lhs();
                let ghost rlr = rl.rhs();
                proof {
                    lemma_height_nonnegative(rr);
                    lemma_height_nonnegative(rl);
                    assert(rl is Fork);
                    assert(models(h1, h1[right_ptr].header.left, rl));
                    assert(h1[right_ptr].header.left == Some(rl->at));
                    assert(rl == fork(rll, rl->at, rl->key, rlr));
                    assert(rl.cells().contains(rl->at));
                    assert(rll.ordered() && rlr.ordered());
                    assert(rll.balanced() && rlr.balanced());
                    lemma_height_bound(rll);
                    lemma_height_bound(rlr);
                    lemma_rotate_right(r);
                }
                let inner = self.rotate_right(right_ptr, Ghost(rll), Ghost(rlr), Ghost(rr));
                let ghost h2 = self.heap();
                let ghost r2 = r.rotate_right();
                proof {
                    assert(rl.cells().contains(inner));
                    assert(r.cells().contains(inner));
                    assert forall|c: usize| l.cells().contains(c) implies !set![
                        right_ptr,
                        inner,
                    ].contains(c) by {}
                    lemma_frame(h1, h2, set![right_ptr, inner], h1[ptr].header.left, l);
                    assert(h2[ptr] == h1[ptr]);
                }
                self.set_right(ptr, Some(inner));
                let ghost h3 = self.heap();
                proof {
                    assert forall|c: usize| r2.cells().contains(c) implies !set![ptr].contains(
                        c,
                    ) by {}
                    lemma_frame(h2, h3, set![ptr], Some(inner), r2);
                    lemma_frame(h2, h3, set![ptr], h1[ptr].header.left, l);
                    lemma_index_parts(l, ptr, key, r2);
                    assert(fork(l, ptr, key, r2).ordered());
                    lemma_height_nonnegative(rll);
                    lemma_height_nonnegative(rlr);
                    assert(r2.rhs() == fork(rlr, right_ptr, rkey, rr));
                    assert(r2.rhs().height() < height_limit());
                    assert(r2 == fork(r2.lhs(), inner, h3[inner].header.size, r2.rhs()));
                }
                let top = self.rotate_left(ptr, Ghost(l), Ghost(r2.lhs()), Ghost(r2.rhs()));
                proof {
                    assert(touched_only(h0, self.heap(), all));
                }
                top
            } else {
                let top = self.rotate_left(ptr, Ghost(l), Ghost(rl), Ghost(rr));
                proof {
                    assert(touched_only(h0, self.heap(), all));
                }
                top
            }
        } else {
            proof {
                assert(touched_only(h0, h1, all));
            }
            ptr
        }
    }

    /// Links the chunk at `value` below `node` by capacity and returns the
    /// top of the rebalanced subtree. A chunk whose capacity is already
    /// present is left out, and the subtree stays as it is.
    fn reinsert_node(&mut self, node: NodePtr, value: usize, Ghost(t): Ghost<Shape>) -> (top:
        usize)
        requires
            old(self).heap().contains_key(value),
            models(old(self).heap(), node, t),
            t.ordered(),
            t.balanced(),
            !t.index().contains_key(old(self).heap()[value].header.size) ==> is_leaf(
                old(self).heap()[value],
            ),
        ensures
            models(
                final(self).heap(),
                Some(top),
                t.insert(value, old(self).heap()[value].header.size),
            ),
            touched_only(
                old(self).heap(),
                final(self).heap(),
                t.insert(value, old(self).heap()[value].header.size).cells(),
            ),
            final(self).root_link() == old(self).root_link(),
            final(self).shape() == old(self).shape(),
        decreases t,
    {
        let ghost h0 = self.heap();
        let ghost k = h0[value].header.size;
        proof {
            lemma_insert(t, value, k);
        }
        match node {
            None => {
                proof {
                    reveal_with_fuel(Shape::height, 2);
                    assert(Shape::Empty.index() =~= Map::<usize, usize>::empty());
                }
                value
            },
            Some(ptr) => {
                let n = self.node(ptr);
                let v = self.node(value);
                let ghost l = t.lhs();
                let ghost r = t.rhs();
                let ghost key = n.header.size;
                proof {
                    assert(t == fork(l, ptr, key, r));
                    lemma_index_parts(l, ptr, key, r);
                    lemma_joins_apart(h0, ptr, l, r);
                }
                if v.header.size < n.header.size {
                    proof {
                        lemma_insert(l, value, k);
                        assert(!r.index().contains_key(k));
                    }
                    let sub = self.reinsert_node(n.header.left, value, Ghost(l));
                    let ghost h1 = self.heap();
                    let ghost l2 = l.insert(value, k);
                    proof {
                        lemma_not_in(h0, n.header.right, r, value);
                        assert forall|c: usize| r.cells().contains(c) implies !l2.cells().contains(
                            c,
                        ) by {}
                        lemma_frame(h0, h1, l2.cells(), n.header.right, r);
                        assert(h1[ptr] == h0[ptr]);
                    }
                    self.set_left(ptr, Some(sub));
                    let ghost h2 = self.heap();
                    proof {
                        assert forall|c: usize| l2.cells().contains(c) implies !set![ptr].contains(
                            c,
                        ) by {}
                        lemma_frame(h1, h2, set![ptr], Some(sub), l2);
                        lemma_frame(h1, h2, set![ptr], n.header.right, r);
                        lemma_index_parts(l2, ptr, key, r);
                        assert(fork(l2, ptr, key, r).ordered());
                        lemma_rebalance(l2, ptr, key, r);
                    }
                    let top = self.rebalance(ptr, Ghost(l2), Ghost(r));
                    proof {
                        assert(t.insert(value, k) == Shape::rebalance(l2, ptr, key, r));
                        assert(touched_only(h0, self.heap(), t.insert(value, k).cells()));
                    }
                    top
                } else if v.header.size > n.header.size {
                    proof {
                        lemma_insert(r, value, k);
                        assert(!l.index().contains_key(k));
                    }
                    let sub = self.reinsert_node(n.header.right, value, Ghost(r));
                    let ghost h1 = self.heap();
                    let ghost r2 = r.insert(value, k);
                    proof {
                        lemma_not_in(h0, n.header.left, l, value);
                        assert forall|c: usize| l.cells().contains(c) implies !r2.cells().contains(
                            c,
                        ) by {}
                        lemma_frame(h0, h1, r2.cells(), n.header.left, l);
                        assert(h1[ptr] == h0[ptr]);
                    }
                    self.set_right(ptr, Some(sub));
                    let ghost h2 = self.heap();
                    proof {
                        assert forall|c: usize| r2.cells().contains(c) implies !set![ptr].contains(
                            c,
                        ) by {}
                        lemma_frame(h1, h2, set![ptr], Some(sub), r2);
                        lemma_frame(h1, h2, set![ptr], n.header.left, l);
                        lemma_index_parts(l, ptr, key, r2);
                        assert(fork(l, ptr, key, r2).ordered());
                        lemma_rebalance(l, ptr, key, r2);
                    }
                    let top = self.rebalance(ptr, Ghost(l), Ghost(r2));
                    proof {
                        assert(t.insert(value, k) == Shape::rebalance(l, ptr, key, r2));
                        assert(touched_only(h0, self.heap(), t.insert(value, k).cells()));
                    }
                    top
                } else {
                    proof {
                        assert(t.index().contains_key(k));
                    }
                    ptr
                }
            },
        }
    }

    /// Puts the chunk at `value` into the index under its capacity. If a
    /// chunk of the same capacity is already there, the index keeps that one
    /// and `value` stays outside.
    pub fn insert_node(&mut self, value: usize)
        requires
            old(self).wf(),
            old(self).heap().contains_key(value),
        ensures
            final(self).wf(),
            final(self).shape() == old(self).shape().insert(
                value,
                old(self).heap()[value].header.size,
            ),
            final(self)@ == (if old(self)@.contains_key(old(self).heap()[value].header.size) {
                old(self)@
            } else {
                old(self)@.insert(old(self).heap()[value].header.size, value)
            }),
            touched_only(old(self).heap(), final(self).heap(), final(self).shape().cells()),
            forall|a: usize| #[trigger]
                final(self).heap().contains_key(a) ==> no_self_link(final(self).heap(), a),
    {
        let ghost t = self.shape@;
        let ghost h0 = self.heap();
        let ghost k = h0[value].header.size;
        proof {
            lemma_insert(t, value, k);
            if !t.index().contains_key(k) {
                lemma_not_in(h0, self.root, t, value);
            }
        }
        let top = self.reinsert_node(self.root, value, Ghost(t));
        self.root = Some(top);
        self.shape = Ghost(t.insert(value, k));
        proof {
            assert forall|a: usize| #[trigger]
                self.heap().contains_key(a) && !self.shape().cells().contains(a) implies is_leaf(
                self.heap()[a],
            ) by {
                assert(h0.contains_key(a));
                assert(!t.cells().contains(a));
            }
            lemma_no_self_links(*self);
        }
    }

    /// The link that `dir` names.
    pub open spec fn slot(&self, dir: SearchDirection) -> NodePtr {
        slot_of(self.heap(), self.root_link(), dir)
    }

    /// Reads the link that `dir` names.
    fn child_at(&self, dir: SearchDirection) -> (link: NodePtr)
        requires
            anchored(self.heap(), dir, Set::empty()),
        ensures
            link == self.slot(dir),
    {
        match dir {
            SearchDirection::Left(p) => self.node(p).header.left,
            SearchDirection::Right(p) => self.node(p).header.right,
            SearchDirection::Root => self.root,
        }
    }

    /// Writes the link that `dir` names.
    fn relink(&mut self, dir: SearchDirection, link: NodePtr)
        requires
            anchored(old(self).heap(), dir, Set::empty()),
        ensures
            final(self).slot(dir) == link,
            moved(
                old(self).heap(),
                old(self).root_link(),
                final(self).heap(),
                final(self).root_link(),
                dir,
                Set::empty(),
            ),
            final(self).shape() == old(self).shape(),
    {
        match dir {
            SearchDirection::Left(p) => self.set_left(p, link),
            SearchDirection::Right(p) => self.set_right(p, link),
            SearchDirection::Root => {
                self.root = link;
            },
        }
    }

    /// Walks left from `node` to the leftmost header below it, keeping
    /// track of the header just above. Returns the leftmost header and
    /// that parent, which is `parent` itself if `node` has no left child.
    fn get_min(&self, node: usize, parent: usize, Ghost(r): Ghost<Shape>) -> (found: (
        usize,
        usize,
    ))
        requires
            models(self.heap(), Some(node), r),
        ensures
            found.0 == r.min_at(),
            found.1 == (if r.lhs() is Empty {
                parent
            } else {
                r.min_parent()
            }),
    {
        let mut current = node;
        let mut above = parent;
        let ghost mut cur = r;
        let mut next = self.node(current).header.left;
        while next.is_some()
            invariant
                models(self.heap(), Some(current), cur),
                cur is Fork,
                next == self.heap()[current].header.left,
                cur.min_at() == r.min_at(),
                (if cur.lhs() is Empty {
                    above
                } else {
                    cur.min_parent()
                }) == (if r.lhs() is Empty {
                    parent
                } else {
                    r.min_parent()
                }),
            decreases cur.height(),
        {
            proof {
                reveal_with_fuel(models, 2);
                lemma_height_nonnegative(cur.lhs());
                lemma_height_nonnegative(cur.rhs());
                assert(models(self.heap(), next, cur.lhs()));
                assert(cur.lhs() is Fork);
                assert(cur.min_at() == cur.lhs().min_at());
            }
            above = current;
            current = next.unwrap();
            proof {
                cur = cur.lhs();
            }
            next = self.node(current).header.left;
        }
        proof {
            reveal_with_fuel(models, 2);
            assert(models(self.heap(), next, cur.lhs()));
            assert(cur.lhs() is Empty);
        }
        (current, above)
    }

    /// Trades the places of `target_node` and `successor_node` in the tree:
    /// the two headers exchange links and height, and the link named by
    /// `parent` is turned to the successor. If the successor was the
    /// target's own child, the link that the exchange leaves pointing at
    /// the successor itself is replaced by what the successor held there.
    /// Otherwise the successor's former parent is turned to the target,
    /// which then sits in the successor's old slot. On return no header
    /// that was handled has a link that leads back to itself.
    fn swap_nodes(
        &mut self,
        target_node: usize,
        successor_node: usize,
        successor_parent: usize,
        parent: SearchDirection,
    ) -> (action: DeleteAction)
        requires
            old(self).heap().contains_key(target_node),
            old(self).heap().contains_key(successor_node),
            old(self).heap().contains_key(successor_parent),
            target_node != successor_node,
            successor_parent != successor_node,
            anchored(
                old(self).heap(),
                parent,
                set![target_node, successor_node, successor_parent],
            ),
            successor_parent != target_node ==> old(self).heap()[successor_parent].header.left
                == Some(successor_node),
            no_self_link(old(self).heap(), successor_node),
            no_self_link(old(self).heap(), successor_parent),
            old(self).heap()[successor_node].header.left != Some(target_node),
            old(self).heap()[successor_node].header.right != Some(target_node),
            !(old(self).heap()[target_node].header.left == Some(successor_node) && old(
                self,
            ).heap()[target_node].header.right == Some(successor_node)),
            successor_parent != target_node ==> old(self).heap()[target_node].header.left != Some(
                successor_node,
            ) && old(self).heap()[target_node].header.right != Some(successor_node),
        ensures
            no_self_link(final(self).heap(), target_node),
            no_self_link(final(self).heap(), successor_node),
            no_self_link(final(self).heap(), successor_parent),
            final(self).slot(parent) == Some(successor_node),
            moved(
                old(self).heap(),
                old(self).root_link(),
                final(self).heap(),
                final(self).root_link(),
                parent,
                set![target_node, successor_node, successor_parent],
            ),
            final(self).shape() == old(self).shape(),
            final(self).heap()[target_node] == wearing(
                old(self).heap()[target_node],
                old(self).heap()[successor_node],
            ),
            successor_parent == target_node ==> {
                let t0 = old(self).heap()[target_node];
                let s0 = old(self).heap()[successor_node];
                &&& action == DeleteAction::NoAction
                &&& final(self).heap()[successor_node] == (if t0.header.right == Some(
                    successor_node,
                ) {
                    with_right(wearing(s0, t0), s0.header.right)
                } else {
                    with_left(wearing(s0, t0), s0.header.left)
                })
            },
            successor_parent != target_node ==> {
                let t0 = old(self).heap()[target_node];
                let s0 = old(self).heap()[successor_node];
                let above = old(self).heap()[successor_parent];
                &&& action == DeleteAction::SearchDelete
                &&& final(self).heap()[successor_node] == wearing(s0, t0)
                &&& final(self).heap()[successor_parent] == with_left(above, Some(target_node))
            },
    {
        let ghost h0 = self.heap();
        let mut target = self.node(target_node);
        let mut successor = self.node(successor_node);
        target.swap_header_details(&mut successor);
        self.store(target_node, target);
        self.store(successor_node, successor);
        self.relink(parent, Some(successor_node));
        if successor_parent == target_node {
            if points_to(successor.header.right, successor_node) {
                self.set_right(successor_node, target.header.right);
            } else {
                self.set_left(successor_node, target.header.left);
            }
            DeleteAction::NoAction
        } else {
            self.set_left(successor_parent, Some(target_node));
            DeleteAction::SearchDelete
        }
    }

    /// Makes the header at `at` a bare leaf again.
    fn detach(&mut self, at: usize)
        requires
            old(self).heap().contains_key(at),
        ensures
            final(self).heap() == old(self).heap().insert(at, detached(old(self).heap()[at])),
            touched_only(old(self).heap(), final(self).heap(), set![at]),
            final(self).root_link() == old(self).root_link(),
            final(self).shape() == old(self).shape(),
    {
        let mut n = self.node(at);
        n.header.left = None;
        n.header.right = None;
        n.header.height = 1;
        self.store(at, n);
    }

    /// Rebalances at `at` and hangs the resulting subtree where `parent`
    /// says.
    fn settle(
        &mut self,
        at: usize,
        parent: SearchDirection,
        Ghost(l): Ghost<Shape>,
        Ghost(r): Ghost<Shape>,
    )
        requires
            joins(old(self).heap(), at, l, r),
            l.balanced(),
            r.balanced(),
            -2 <= l.height() - r.height() <= 2,
            anchored(old(self).heap(), parent, l.cells().union(r.cells()).insert(at)),
        ensures
            models(
                final(self).heap(),
                final(self).slot(parent),
                Shape::rebalance(l, at, old(self).heap()[at].header.size, r),
            ),
            moved(
                old(self).heap(),
                old(self).root_link(),
                final(self).heap(),
                final(self).root_link(),
                parent,
                l.cells().union(r.cells()).insert(at),
            ),
            final(self).shape() == old(self).shape(),
    {
        let ghost h0 = self.heap();
        let ghost all = l.cells().union(r.cells()).insert(at);
        let ghost rest = Shape::rebalance(l, at, h0[at].header.size, r);
        proof {
            lemma_rebalance(l, at, h0[at].header.size, r);
        }
        let top = self.rebalance(at, Ghost(l), Ghost(r));
        let ghost h1 = self.heap();
        self.relink(parent, Some(top));
        proof {
            assert forall|c: usize| rest.cells().contains(c) implies !Set::<usize>::empty().union(
                hinge(parent),
            ).contains(c) by {}
            lemma_frame(h1, self.heap(), Set::<usize>::empty().union(hinge(parent)), Some(top), rest);
        }
    }

    /// Cuts the header at `root_node` out of its place, which `parent`
    /// names. A leaf is simply unlinked. Otherwise its only child, or else
    /// its in-order successor, takes the place by an exchange of links; if
    /// that successor lay deeper than the right child, `root_node` now
    /// occupies the successor's old slot and the caller has to search the
    /// right subtree and delete again. A leaf that is cut out keeps its
    /// header as it was; in an exchange the two headers trade links and
    /// recorded height and nothing else, and no other header changes but
    /// the successor's former parent.
    fn delete_node(&mut self, root_node: usize, parent: SearchDirection, Ghost(t): Ghost<Shape>) -> (action:
        DeleteAction)
        requires
            models(old(self).heap(), Some(root_node), t),
            t.ordered(),
            t.balanced(),
            old(self).slot(parent) == Some(root_node),
            anchored(old(self).heap(), parent, t.cells()),
        ensures
            moved(
                old(self).heap(),
                old(self).root_link(),
                final(self).heap(),
                final(self).root_link(),
                parent,
                t.cells(),
            ),
            final(self).shape() == old(self).shape(),
            t.lhs() is Empty && t.rhs() is Empty ==> {
                &&& action == DeleteAction::NoAction
                &&& final(self).slot(parent) is None
                &&& final(self).heap()[root_node] == old(self).heap()[root_node]
                &&& moved(
                    old(self).heap(),
                    old(self).root_link(),
                    final(self).heap(),
                    final(self).root_link(),
                    parent,
                    Set::empty(),
                )
            },
            t.lhs() is Fork || t.rhs() is Fork ==> {
                let s = t.heir_at();
                let q = t.heir_parent();
                let h = final(self).heap();
                let t0 = old(self).heap()[root_node];
                let s0 = old(self).heap()[s];
                &&& final(self).slot(parent) == Some(s)
                &&& h.contains_key(s)
                &&& s != root_node
                &&& h[s].header.size == t.heir_key()
                &&& h[s].header.height == t0.header.height
                &&& h[root_node] == wearing(t0, s0)
                &&& h[s] == (if t.successor_is_deep() {
                    wearing(s0, t0)
                } else if t0.header.right == Some(s) {
                    with_right(wearing(s0, t0), s0.header.right)
                } else {
                    with_left(wearing(s0, t0), s0.header.left)
                })
                &&& t.successor_is_deep() ==> h[q] == with_left(
                    old(self).heap()[q],
                    Some(root_node),
                )
                &&& moved(
                    old(self).heap(),
                    old(self).root_link(),
                    final(self).heap(),
                    final(self).root_link(),
                    parent,
                    set![root_node, s, q],
                )
                &&& no_self_link(h, root_node)
                &&& no_self_link(h, s)
                &&& no_self_link(h, q)
                &&& models(h, h[s].header.left, t.heir_left())
                &&& models(h, h[s].header.right, t.heir_right())
                &&& action == (if t.successor_is_deep() {
                    DeleteAction::SearchDelete
                } else {
                    DeleteAction::NoAction
                })
            },
    {
        let ghost h0 = self.heap();
        let ghost l = t.lhs();
        let ghost r = t.rhs();
        let ghost key = t->key;
        let n = self.node(root_node);
        proof {
            reveal_with_fuel(models, 2);
            assert(t == fork(l, root_node, key, r));
            lemma_index_parts(l, root_node, key, r);
            lemma_joins_apart(h0, root_node, l, r);
            lemma_cells_known(h0, n.header.left, l);
            lemma_cells_known(h0, n.header.right, r);
            lemma_height_nonnegative(l);
            lemma_height_nonnegative(r);
            lemma_heights_below(h0, Some(root_node), t);
            lemma_heights_below(h0, n.header.left, l);
            lemma_heights_below(h0, n.header.right, r);
            lemma_link_height(h0, n.header.left, l);
            lemma_link_height(h0, n.header.right, r);
            assert(t.cells().contains(root_node));
        }
        if n.header.left.is_none() && n.header.right.is_none() {
            self.relink(parent, None);
            DeleteAction::NoAction
        } else if n.header.left.is_some() && n.header.right.is_some() {
            let right_child = n.header.right.unwrap();
            proof {
                lemma_heir(t);
                lemma_min_known(h0, n.header.right, r);
                assert(r.cells().contains(r.min_at()));
                assert(t.cells().contains(r.min_at()));
                if r.lhs() is Fork {
                    assert(t.cells().contains(r.min_parent()));
                }
            }
            let (successor, successor_parent) = self.get_min(right_child, root_node, Ghost(r));
            proof {
                assert(r.cells().contains(successor));
                assert(h0[successor].header.height < h0[root_node].header.height);
                assert(l.cells().contains(n.header.left.unwrap()));
                assert(!r.cells().contains(n.header.left.unwrap()));
                if r.lhs() is Fork {
                    reveal_with_fuel(models, 2);
                    assert(models(h0, h0[right_child].header.left, r.lhs()));
                    assert(h0[right_child].header.left is Some);
                    assert(r.cells().contains(successor_parent));
                    assert(t.cells().contains(successor_parent));
                }
                assert(t.cells().contains(successor));
            }
            let action = self.swap_nodes(root_node, successor, successor_parent, parent);
            proof {
                let h1 = self.heap();
                let rr = r.rhs();
                assert forall|c: usize| #[trigger] l.cells().contains(c) implies h1.contains_key(c)
                    && h1[c] == h0[c] by {
                    assert(t.cells().contains(c));
                }
                lemma_same_cells(h0, h1, n.header.left, l);
                if r.lhs() is Empty {
                    assert(r == fork(Shape::Empty, successor, r->key, rr));
                    lemma_index_parts(Shape::Empty, successor, r->key, rr);
                    lemma_cells_known(h0, h0[successor].header.right, rr);
                    assert forall|c: usize| #[trigger] rr.cells().contains(c) implies h1.contains_key(
                        c,
                    ) && h1[c] == h0[c] by {
                        assert(r.cells().contains(c));
                        assert(t.cells().contains(c));
                    }
                    lemma_same_cells(h0, h1, h0[successor].header.right, rr);
                } else {
                    assert forall|c: usize| #[trigger]
                        r.cells().contains(c) && c != r.min_at() && c != r.min_parent() implies h1.contains_key(
                        c,
                    ) && h1[c] == h0[c] by {
                        assert(t.cells().contains(c));
                    }
                    lemma_swap_models(h0, h1, n.header.right, r, root_node, key);
                }
                assert(successor != root_node);
                assert(h1[successor].header.size == t.heir_key());
                assert(self.slot(parent) == Some(successor));
                assert(models(h1, h1[successor].header.left, t.heir_left()));
                assert(models(h1, h1[successor].header.right, t.heir_right()));
            }
            action
        } else {
            let successor = match n.header.left {
                Some(left) => left,
                None => n.header.right.unwrap(),
            };
            proof {
                lemma_heir(t);
                reveal_with_fuel(Shape::balanced, 2);
                reveal_with_fuel(Shape::height, 2);
                if r is Empty {
                    lemma_height_nonnegative(l.lhs());
                    lemma_height_nonnegative(l.rhs());
                    assert(l.cells().contains(successor));
                } else {
                    lemma_height_nonnegative(r.lhs());
                    lemma_height_nonnegative(r.rhs());
                    assert(r.cells().contains(successor));
                }
                assert(t.cells().contains(successor));
            }
            let action = self.swap_nodes(root_node, successor, root_node, parent);
            proof {
                reveal_with_fuel(models, 3);
                let h1 = self.heap();
                assert(successor == t.heir_at());
                assert(t.heir_left() is Empty);
                assert(t.heir_right() is Empty);
                assert(h0[successor].header.left is None);
                assert(h0[successor].header.right is None);
                assert(h1[successor].header.left is None);
                assert(h1[successor].header.right is None);
                assert(h1[successor].header.size == t.heir_key());
            }
            action
        }
    }

    /// Takes the header at `root_node` out of the tree: cuts it out, runs
    /// the second search where the successor lay deep, and rebalances the
    /// node that took its place.
    fn evict(&mut self, root_node: usize, parent: SearchDirection, Ghost(t): Ghost<Shape>)
        requires
            models(old(self).heap(), Some(root_node), t),
            t.ordered(),
            t.balanced(),
            old(self).slot(parent) == Some(root_node),
            anchored(old(self).heap(), parent, t.cells()),
        ensures
            models(final(self).heap(), final(self).slot(parent), t.remove(t->key)),
            moved(
                old(self).heap(),
                old(self).root_link(),
                final(self).heap(),
                final(self).root_link(),
                parent,
                t.cells(),
            ),
            final(self).shape() == old(self).shape(),
            is_leaf(final(self).heap()[root_node]),
        decreases t.size(), 0int,
    {
        let ghost h0 = self.heap();
        let ghost root0 = self.root_link();
        let ghost key = t->key;
        let ghost l = t.lhs();
        let ghost r = t.rhs();
        proof {
            assert(t == fork(l, root_node, key, r));
            assert(t.cells().contains(root_node));
        }
        let right_child = self.node(root_node).header.right;
        let action = self.delete_node(root_node, parent, Ghost(t));
        let ghost h1 = self.heap();
        let ghost mut a = t.heir_left();
        let ghost mut b = t.heir_right();
        let ghost s = t.heir_at();
        proof {
            if l is Fork || r is Fork {
                lemma_heir(t);
                lemma_not_in(h1, h1[s].header.left, a, s);
                lemma_not_in(h1, h1[s].header.right, b, s);
                lemma_not_in(h1, h1[s].header.left, a, root_node);
            }
        }
        match action {
            DeleteAction::SearchDelete => {
                let successor = self.child_at(parent).unwrap();
                proof {
                    assert(models(h0, right_child, r));
                    assert(right_child == Some(r->at));
                    assert(h1[s].header.right == Some(b->at));
                }
                self.remove_node(
                    right_child.unwrap(),
                    self.node(root_node).header.size,
                    SearchDirection::Right(successor),
                    Ghost(b),
                );
                proof {
                    let h2 = self.heap();
                    lemma_cells_known(h1, h1[s].header.left, a);
                    lemma_cells_known(h1, h1[s].header.right, b);
                    assert forall|c: usize| a.cells().contains(c) implies !b.cells().union(
                        hinge(SearchDirection::Right(s)),
                    ).contains(c) by {
                        assert(a.index().contains_key(h1[c].header.size));
                        if b.cells().contains(c) {
                            assert(b.index().contains_key(h1[c].header.size));
                        }
                    }
                    lemma_frame(
                        h1,
                        h2,
                        b.cells().union(hinge(SearchDirection::Right(s))),
                        h1[s].header.left,
                        a,
                    );
                    b = b.remove(key);
                    lemma_not_in(h2, h2[s].header.right, b, s);
                    assert(moved(h0, root0, h2, self.root_link(), parent, t.cells()));
                }
            },
            DeleteAction::NoAction => {},
        }
        let ghost h2 = self.heap();
        let ghost root2 = self.root_link();
        proof {
            assert(moved(h0, root0, h2, root2, parent, t.cells()));
            if l is Fork || r is Fork {
                lemma_not_in(h2, h2[s].header.right, b, root_node);
            }
        }
        self.detach(root_node);
        let ghost h3 = self.heap();
        match self.child_at(parent) {
            Some(top) => {
                proof {
                    lemma_frame(h2, h3, set![root_node], h2[s].header.left, a);
                    lemma_frame(h2, h3, set![root_node], h2[s].header.right, b);
                    assert(joins(h3, top, a, b));
                }
                self.settle(top, parent, Ghost(a), Ghost(b));
                proof {
                    assert(moved(h0, root0, self.heap(), self.root_link(), parent, t.cells()));
                }
            },
            None => {
                proof {
                    assert(t.remove(key) == Shape::Empty);
                    assert(moved(h0, root0, self.heap(), self.root_link(), parent, t.cells()));
                }
            },
        }
    }

    /// Best-fit search below `root_node`, which hangs where `parent` says,
    /// for the smallest chunk of at least `size` bytes; the chunk found is
    /// taken out of the tree. A node that is large enough is a candidate,
    /// and the search goes on to its left for a tighter one; a node that is
    /// too small sends the search to its right. Every node on the way back
    /// is rebalanced and hung back in through its tag.
    fn remove_node(
        &mut self,
        root_node: usize,
        size: usize,
        parent: SearchDirection,
        Ghost(t): Ghost<Shape>,
    ) -> (result: NodePtr)
        requires
            models(old(self).heap(), Some(root_node), t),
            t.ordered(),
            t.balanced(),
            old(self).slot(parent) == Some(root_node),
            anchored(old(self).heap(), parent, t.cells()),
        ensures
            models(final(self).heap(), final(self).slot(parent), t.remove(size)),
            moved(
                old(self).heap(),
                old(self).root_link(),
                final(self).heap(),
                final(self).root_link(),
                parent,
                t.cells(),
            ),
            final(self).shape() == old(self).shape(),
            result == (match t.fit(size) {
                Some(best) => Some(t.index()[best]),
                None => None,
            }),
            result matches Some(found) ==> is_leaf(final(self).heap()[found]),
        decreases t.size(), 1int,
    {
        let ghost h0 = self.heap();
        let ghost root0 = self.root_link();
        let ghost key = t->key;
        let ghost l = t.lhs();
        let ghost r = t.rhs();
        let n = self.node(root_node);
        proof {
            assert(t == fork(l, root_node, key, r));
            assert(t.cells().contains(root_node));
            lemma_index_parts(l, root_node, key, r);
            lemma_joins_apart(h0, root_node, l, r);
            lemma_fit(l, size);
            lemma_fit(r, size);
            lemma_remove(l, size);
            lemma_remove(r, size);
            lemma_index_known(h0, n.header.left, l);
            lemma_index_known(h0, n.header.right, r);
            lemma_index_known(h0, Some(root_node), t);
            lemma_cells_known(h0, n.header.left, l);
            lemma_cells_known(h0, n.header.right, r);
            lemma_link_height(h0, n.header.left, l);
            lemma_link_height(h0, n.header.right, r);
            assert(n.header.left is None ==> l.remove(size) == l && l.fit(size) is None);
            assert(n.header.right is None ==> r.remove(size) == r && r.fit(size) is None);
        }
        let mut result: NodePtr = None;
        if size < n.header.size {
            match n.header.left {
                Some(node) => {
                    result =
                    self.remove_node(node, size, SearchDirection::Left(root_node), Ghost(l));
                },
                None => {},
            }
            let ghost h1 = self.heap();
            proof {
                assert forall|c: usize| r.cells().contains(c) implies !l.cells().union(
                    hinge(SearchDirection::Left(root_node)),
                ).contains(c) by {}
                lemma_frame(
                    h0,
                    h1,
                    l.cells().union(hinge(SearchDirection::Left(root_node))),
                    n.header.right,
                    r,
                );
            }
            match result {
                Some(found) => {
                    proof {
                        lemma_descend(t, size);
                        let l2 = l.remove(size);
                        lemma_not_in(h1, h1[root_node].header.left, l2, found);
                        lemma_not_in(h1, h1[root_node].header.left, l2, root_node);
                        assert(joins(h1, root_node, l2, r));
                    }
                    self.settle(root_node, parent, Ghost(l.remove(size)), Ghost(r));
                    proof {
                        assert(moved(h0, root0, self.heap(), self.root_link(), parent, t.cells()));
                    }
                },
                None => {
                    proof {
                        assert(l.remove(size) == l);
                        assert(models(h1, Some(root_node), t));
                        assert(t.remove(size) == t.remove(key));
                        assert(t.fit(size) == Some(key));
                    }
                    self.evict(root_node, parent, Ghost(t));
                    result = Some(root_node);
                    proof {
                        assert(moved(h0, root0, self.heap(), self.root_link(), parent, t.cells()));
                    }
                },
            }
        } else if size > n.header.size {
            match n.header.right {
                Some(node) => {
                    result =
                    self.remove_node(node, size, SearchDirection::Right(root_node), Ghost(r));
                },
                None => {},
            }
            let ghost h1 = self.heap();
            proof {
                lemma_descend(t, size);
                let r2 = r.remove(size);
                assert forall|c: usize| l.cells().contains(c) implies !r.cells().union(
                    hinge(SearchDirection::Right(root_node)),
                ).contains(c) by {}
                lemma_frame(
                    h0,
                    h1,
                    r.cells().union(hinge(SearchDirection::Right(root_node))),
                    n.header.left,
                    l,
                );
                lemma_not_in(h1, h1[root_node].header.right, r2, root_node);
                if result is Some {
                    lemma_not_in(h1, h1[root_node].header.right, r2, result.unwrap());
                }
                assert(joins(h1, root_node, l, r2));
            }
            self.settle(root_node, parent, Ghost(l), Ghost(r.remove(size)));
            proof {
                assert(moved(h0, root0, self.heap(), self.root_link(), parent, t.cells()));
            }
        } else {
            proof {
                assert(t.fit(size) == Some(key));
            }
            self.evict(root_node, parent, Ghost(t));
            result = Some(root_node);
        }
        result
    }

    /// Takes the best fit for `value` bytes out of the index: the free
    /// chunk of the smallest capacity that is at least `value`. Returns its
    /// header address, or nothing if every free chunk is smaller.
    pub fn remove(&mut self, value: usize) -> (found: NodePtr)
        requires
            old(self).wf(),
        ensures
            final(self).wf(),
            final(self).shape() == old(self).shape().remove(value),
            touched_only(old(self).heap(), final(self).heap(), old(self).shape().cells()),
            found is None <==> forall|k: usize| old(self)@.contains_key(k) ==> k < value,
            found is None ==> final(self)@ == old(self)@,
            found matches Some(at) ==> {
                let best = old(self).heap()[at].header.size;
                &&& old(self).heap().contains_key(at)
                &&& old(self)@.contains_key(best)
                &&& old(self)@[best] == at
                &&& value <= best
                &&& forall|k: usize| old(self)@.contains_key(k) && value <= k ==> best <= k
                &&& final(self)@ == old(self)@.remove(best)
                &&& !final(self).shape().cells().contains(at)
                &&& is_leaf(final(self).heap()[at])
            },
            forall|a: usize| #[trigger]
                final(self).heap().contains_key(a) ==> no_self_link(final(self).heap(), a),
    {
        let ghost t = self.shape@;
        let ghost h0 = self.heap();
        proof {
            lemma_fit(t, value);
            lemma_remove(t, value);
            lemma_index_known(h0, self.root, t);
        }
        match self.root {
            Some(node) => {
                let found = self.remove_node(node, value, SearchDirection::Root, Ghost(t));
                self.shape = Ghost(t.remove(value));
                proof {
                    let rest = t.remove(value);
                    assert(old(self)@ == t.index());
                    assert(self@ == rest.index());
                    if t.fit(value) is Some {
                        let best = t.fit(value).unwrap();
                        assert(t.index().contains_key(best) && value <= best);
                        assert(found == Some(t.index()[best]));
                    } else {
                        assert(found is None);
                    }
                    if found is Some {
                        lemma_not_in(self.heap(), self.root, rest, found.unwrap());
                    }
                    assert forall|a: usize| #[trigger]
                        self.heap().contains_key(a) && !rest.cells().contains(a) implies is_leaf(
                        self.heap()[a],
                    ) by {
                        assert(h0.contains_key(a));
                        if t.cells().contains(a) {
                            assert(found == Some(a));
                        }
                    }
                    lemma_no_self_links(*self);
                }
                found
            },
            None => {
                proof {
                    assert(t.index() =~= Map::<usize, usize>::empty());
                    lemma_no_self_links(*self);
                }
                None
            },
        }
    }

    /// The header at `at`, if a chunk begins there.
    pub fn get(&self, at: usize) -> (node: Option<Node>)
        ensures
            node == (if self.heap().contains_key(at) {
                Some(self.heap()[at])
            } else {
                None
            }),
    {
        match self.memory.get(&at) {
            Some(n) => Some(*n),
            None => None,
        }
    }

    /// The link to the top of the tree of free chunks.
    pub fn root(&self) -> (link: NodePtr)
        ensures
            link == self.root_link(),
    {
        self.root
    }

    /// Whether `ptr` is the data address of a chunk that can be found from
    /// it: a header sits `HEADER_SIZE` bytes before it and names `ptr` as
    /// its data.
    pub fn owns(&self, ptr: usize) -> (yes: bool)
        ensures
            yes == self.chunks().contains_key(ptr),
    {
        if ptr < HEADER_SIZE {
            return false;
        }
        match self.memory.get(&(ptr - HEADER_SIZE)) {
            Some(n) => n.data == ptr,
            None => false,
        }
    }

    /// Writes the header of a chunk at `address`, as a bare leaf outside
    /// the tree, with the capacity and the data address of `node`. Refuses
    /// the null address and an address at which a chunk begins already.
    pub fn place(&mut self, address: usize, node: Node) -> (placed: bool)
        requires
            old(self).wf(),
        ensures
            final(self).wf(),
            final(self).shape() == old(self).shape(),
            final(self).root_link() == old(self).root_link(),
            placed <==> address != 0 && !old(self).heap().contains_key(address),
            placed ==> final(self).heap() == old(self).heap().insert(address, detached(node)),
            !placed ==> final(self).heap() == old(self).heap(),
    {
        if address == 0 || self.memory.contains_key(&address) {
            return false;
        }
        let ghost h0 = self.heap();
        let mut n = node;
        n.header.left = None;
        n.header.right = None;
        n.header.height = 1;
        self.memory.insert(address, n);
        proof {
            lemma_cells_known(h0, self.root, self.shape@);
            lemma_same_cells(h0, self.heap(), self.root, self.shape@);
        }
        true
    }
}

impl LargeAllocator for AVLTree {
    /// The index is well formed, and the data of every free chunk begins
    /// right behind its header.
    open spec fn valid(&self) -> bool {
        &&& self.wf()
        &&& forall|a: usize| #[trigger]
            self.shape().cells().contains(a) ==> self.heap()[a].data == a + HEADER_SIZE
    }

    open spec fn pool(&self) -> Map<usize, usize> {
        Map::new(|k: usize| self@.contains_key(k), |k: usize| self.heap()[self@[k]].data)
    }

    open spec fn chunks(&self) -> Map<usize, usize> {
        Map::new(
            |p: usize|
                p >= HEADER_SIZE && self.heap().contains_key((p - HEADER_SIZE) as usize)
                    && self.heap()[(p - HEADER_SIZE) as usize].data == p,
            |p: usize| self.heap()[(p - HEADER_SIZE) as usize].header.size,
        )
    }

    open spec fn headers(&self) -> Set<usize> {
        self.heap().dom()
    }

    fn allocate(&mut self, layout: Layout) -> (step: Allocation)
        ensures
            final(self).shape() == old(self).shape().remove(layout.spec_size()),
            touched_only(old(self).heap(), final(self).heap(), old(self).shape().cells()),
    {
        let ghost t = self.shape();
        let ghost h0 = self.heap();
        proof {
            lemma_remove(t, layout.spec_size());
            lemma_fit(t, layout.spec_size());
            lemma_index_known(h0, self.root_link(), t);
            lemma_cells_known(h0, self.root_link(), t);
        }
        let found = self.remove(layout.size());
        proof {
            assert forall|a: usize| #[trigger] self.shape().cells().contains(a) implies self.heap()[a].data
                == a + HEADER_SIZE by {
                assert(t.cells().contains(a));
                assert(h0.contains_key(a));
            }
        }
        match found {
            None => {
                proof {
                    assert(self.pool() =~= old(self).pool());
                    assert(self.chunks() =~= old(self).chunks());
                }
                Allocation::Fresh(layout.mapped_length())
            },
            Some(node) => {
                let ptr = self.node(node).data;
                proof {
                    let best = h0[node].header.size;
                    assert(t.cells().contains(node));
                    assert(ptr == node + HEADER_SIZE);
                    assert(old(self).chunks().contains_key(ptr));
                    assert(old(self).chunks()[ptr] == best);
                    assert(self.chunks() =~= old(self).chunks());
                    assert(self.pool() =~= old(self).pool().remove(best)) by {
                        assert forall|k: usize| self@.contains_key(k) implies self.heap()[self@[k]].data
                            == h0[old(self)@[k]].data by {
                            assert(t.index().contains_key(k));
                        }
                    }
                }
                Allocation::Reused(ptr)
            },
        }
    }

    fn install(&mut self, address: usize, layout: Layout) -> (ptr: Option<usize>)
        ensures
            final(self).shape() == old(self).shape(),
            final(self).root_link() == old(self).root_link(),
            ptr is Some ==> final(self).heap() == old(self).heap().insert(
                address,
                fresh_node(address, layout.spec_size(), layout.spec_align()),
            ),
            ptr is None ==> final(self).heap() == old(self).heap(),
    {
        if address == 0 || address % PAGE_SIZE != 0 {
            return None;
        }
        let length = layout.mapped_length();
        if length > usize::MAX - address {
            return None;
        }
        let node = Node::new(address, layout);
        let ghost h0 = self.heap();
        if self.place(address, node) {
            proof {
                lemma_cells_known(h0, self.root_link(), self.shape());
                lemma_index_known(h0, self.root_link(), self.shape());
                assert(self.pool() =~= old(self).pool());
                assert(self.headers() =~= old(self).headers().insert(address));
                assert(self.chunks() =~= with_chunk(
                    old(self).chunks(),
                    address,
                    layout.spec_size(),
                    layout.spec_align(),
                ));
            }
            Some(node.data)
        } else {
            None
        }
    }

    fn dealloc(&mut self, ptr: usize)
        ensures
            final(self).shape() == old(self).shape().insert(
                (ptr - HEADER_SIZE) as usize,
                old(self).chunks()[ptr],
            ),
            touched_only(old(self).heap(), final(self).heap(), final(self).shape().cells()),
    {
        let address = ptr - HEADER_SIZE;
        let ghost t = self.shape();
        let ghost h0 = self.heap();
        proof {
            assert(h0.contains_key(address));
            lemma_insert(t, address, h0[address].header.size);
            lemma_index_known(h0, self.root_link(), t);
            lemma_cells_known(h0, self.root_link(), t);
        }
        self.insert_node(address);
        proof {
            assert forall|a: usize| #[trigger] self.shape().cells().contains(a) implies self.heap()[a].data
                == a + HEADER_SIZE by {
                if a != address {
                    assert(t.cells().contains(a));
                }
                assert(h0.contains_key(a));
            }
            assert(self.chunks() =~= old(self).chunks());
            assert(self.pool() =~= released(old(self).pool(), old(self).chunks()[ptr], ptr)) by {
                assert forall|k: usize| t.index().contains_key(k) implies self.heap()[t.index()[k]].data
                    == h0[t.index()[k]].data by {}
            }
        }
    }

    fn realloc(&mut self, ptr: usize, layout: Layout, new_size: usize) -> (step: Reallocation)
        ensures
            final(self).shape() == (if step is Moved {
                old(self).shape().remove(new_size).insert(
                    (ptr - HEADER_SIZE) as usize,
                    old(self).chunks()[ptr],
                )
            } else {
                old(self).shape()
            }),
            step is InPlace || step is Absent ==> final(self).heap() == old(self).heap(),
            touched_only(
                old(self).heap(),
                final(self).heap(),
                old(self).shape().cells().insert((ptr - HEADER_SIZE) as usize),
            ),
    {
        let address = ptr - HEADER_SIZE;
        let node = self.node(address);
        let ghost t = self.shape();
        let ghost h0 = self.heap();
        if node.header.size >= new_size {
            return Reallocation::InPlace(ptr);
        }
        match Layout::from_size_align(new_size, layout.align()) {
            None => Reallocation::Absent,
            Some(new_layout) => {
                match self.allocate(new_layout) {
                    Allocation::Reused(to) => {
                        let ghost h1 = self.heap();
                        let ghost rest = self.shape();
                        self.dealloc(ptr);
                        proof {
                            lemma_fit(t, new_size);
                            lemma_remove(t, new_size);
                            lemma_insert(rest, address, node.header.size);
                            assert forall|c: usize|
                                self.shape().cells().contains(c) implies t.cells().insert(
                                address,
                            ).contains(c) by {
                                if c != address {
                                    assert(rest.cells().contains(c));
                                }
                            }
                            assert(touched_only(h0, self.heap(), t.cells().insert(address)));
                        }
                        Reallocation::Moved { to, copy: node.header.size }
                    },
                    Allocation::Fresh(length) => {
                        proof {
                            lemma_fit(old(self).shape(), new_size);
                            lemma_remove(old(self).shape(), new_size);
                            if old(self).shape().fit(new_size) is Some {
                                let best = old(self).shape().fit(new_size).unwrap();
                                assert(old(self)@.contains_key(best));
                                assert(old(self).pool().contains_key(best));
                            }
                        }
                        Reallocation::Fresh { length, copy: node.header.size }
                    },
                }
            },
        }
    }

    fn install_replacement(&mut self, ptr: usize, address: usize, layout: Layout) -> (to: Option<
        usize,
    >)
        ensures
            to is None ==> final(self).heap() == old(self).heap() && final(self).shape() == old(
                self,
            ).shape(),
            to is Some ==> {
                let fresh = fresh_node(address, layout.spec_size(), layout.spec_align());
                &&& final(self).shape() == old(self).shape().insert(
                    (ptr - HEADER_SIZE) as usize,
                    old(self).chunks()[ptr],
                )
                &&& final(self).heap()[address] == fresh
                &&& !final(self).shape().cells().contains(address)
                &&& touched_only(
                    old(self).heap().insert(address, fresh),
                    final(self).heap(),
                    final(self).shape().cells(),
                )
            },
    {
        let ghost t = self.shape();
        let ghost h0 = self.heap();
        match self.install(address, layout) {
            Some(to) => {
                proof {
                    assert(self.chunks().contains_key(ptr));
                }
                let ghost h1 = self.heap();
                self.dealloc(ptr);
                proof {
                    let old_address = (ptr - HEADER_SIZE) as usize;
                    lemma_cells_known(h0, old(self).root_link(), t);
                    lemma_insert(t, old_address, h0[old_address].header.size);
                    assert(!t.cells().contains(address));
                    assert(old_address != address);
                    assert(!self.shape().cells().contains(address));
                    assert(h1.contains_key(address));
                }
                Some(to)
            },
            None => None,
        }
    }
}

} // verus!
