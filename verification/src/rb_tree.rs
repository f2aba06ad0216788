//! A red-black tree of keys, kept in a table of nodes like the chunk index
//! but independent of it. Insertion mends on the way back up from the new
//! leaf; removal takes out the lower bound of a key and evens out the black
//! heights on the way back up.

use vstd::prelude::*;
use std::collections::HashMap;
use crate::rb_shape::Outline;
use crate::rb_shape::branch;
use crate::rb_shape::lemma_insert;
use crate::rb_shape::lemma_key_parts;
use crate::rb_shape::lemma_mend;
use crate::rb_shape::lemma_single_rotation;
use crate::rb_shape::lemma_double_rotation;
use crate::rb_shape::lemma_black_height_fork;
use crate::rb_shape::lemma_fit;
use crate::rb_shape::lemma_level_core;
use crate::rb_shape::lemma_painted;
use crate::rb_shape::lemma_remove;
use crate::rb_shape::lemma_repainted_child;
use crate::rb_shape::lemma_swap_min;
use crate::rb_shape::lemma_swap_min_size;
use crate::rb_shape::lemma_unlink;

verus! {

broadcast use vstd::std_specs::hash::group_hash_axioms;

/// The colour of a node.
#[derive(Clone, Copy, Debug, PartialEq, Eq)]
pub enum Colour {
    Red,
    Black,
}

/// One of the two sides of a node.
#[derive(Clone, Copy, Debug, PartialEq, Eq)]
pub enum Direction {
    Left,
    Right,
}

impl Direction {
    /// The other side.
    pub fn flip(self) -> (other: Self)
        ensures
            other == self.flipped(),
    {
        match self {
            Direction::Left => Direction::Right,
            Direction::Right => Direction::Left,
        }
    }

    /// The other side.
    pub open spec fn flipped(self) -> Self {
        match self {
            Direction::Left => Direction::Right,
            Direction::Right => Direction::Left,
        }
    }

    /// `Right` for `true`, `Left` for `false`: the side on which a larger
    /// key is looked for.
    pub fn from(value: bool) -> (dir: Self)
        ensures
            dir == (if value {
                Direction::Right
            } else {
                Direction::Left
            }),
    {
        if value {
            Direction::Right
        } else {
            Direction::Left
        }
    }
}

/// A link to a node: its address, or nothing.
pub type NodePtr = Option<usize>;

/// A node of the tree.
#[derive(Clone, Copy, Debug, PartialEq, Eq)]
pub struct Node {
    pub key: usize,
    pub colour: Colour,
    pub left: NodePtr,
    pub right: NodePtr,
}

impl Node {
    /// A red node without children.
    pub fn new(key: usize) -> (node: Node)
        ensures
            node == (Node { key, colour: Colour::Red, left: None, right: None }),
    {
        Node { key, colour: Colour::Red, left: None, right: None }
    }

    /// The link on the side `dir`.
    pub open spec fn spec_link(&self, dir: Direction) -> NodePtr {
        match dir {
            Direction::Left => self.left,
            Direction::Right => self.right,
        }
    }

    /// The link on the side `dir`.
    #[verifier::when_used_as_spec(spec_link)]
    pub fn link(&self, dir: Direction) -> (link: NodePtr)
        ensures
            link == self.spec_link(dir),
    {
        match dir {
            Direction::Left => self.left,
            Direction::Right => self.right,
        }
    }

    /// Sets the link on the side `dir`.
    pub fn set_link(&mut self, dir: Direction, node: NodePtr)
        ensures
            final(self).spec_link(dir) == node,
            final(self).spec_link(dir.flipped()) == old(self).spec_link(dir.flipped()),
            final(self).key == old(self).key,
            final(self).colour == old(self).colour,
    {
        match dir {
            Direction::Left => {
                self.left = node;
            },
            Direction::Right => {
                self.right = node;
            },
        }
    }
}

/// The nodes reachable from `link` spell out exactly the outline `t`.
pub open spec fn models(heap: Map<usize, Node>, link: NodePtr, t: Outline) -> bool
    decreases t,
{
    match t {
        Outline::Empty => link is None,
        Outline::Fork { left, at, key, colour, right } => {
            &&& link == Some(at)
            &&& heap.contains_key(at)
            &&& heap[at].key == key
            &&& heap[at].colour == colour
            &&& models(heap, heap[at].left, *left)
            &&& models(heap, heap[at].right, *right)
        },
    }
}

/// No node appears or disappears, none changes its key, and only the nodes
/// in `cells` change at all.
pub open spec fn touched_only(
    before: Map<usize, Node>,
    after: Map<usize, Node>,
    cells: Set<usize>,
) -> bool {
    &&& after.dom() == before.dom()
    &&& forall|a: usize| #[trigger]
        before.contains_key(a) ==> {
            &&& after[a].key == before[a].key
            &&& !cells.contains(a) ==> after[a] == before[a]
        }
}

/// A red node without children.
pub open spec fn is_red_leaf(n: Node) -> bool {
    &&& n.colour == Colour::Red
    &&& n.left is None
    &&& n.right is None
}

/// Whether a link leads to a red node.
pub open spec fn red_behind(heap: Map<usize, Node>, link: NodePtr) -> bool {
    link is Some && heap[link.unwrap()].colour == Colour::Red
}

/// Every node of a modelled tree is in the table, under a key of the tree.
pub proof fn lemma_cells_known(heap: Map<usize, Node>, link: NodePtr, t: Outline)
    requires
        models(heap, link, t),
    ensures
        forall|c: usize| #[trigger]
            t.cells().contains(c) ==> heap.contains_key(c) && t.keys().contains(heap[c].key),
    decreases t,
{
    match t {
        Outline::Empty => {},
        Outline::Fork { left, at, key, colour, right } => {
            lemma_cells_known(heap, heap[at].left, *left);
            lemma_cells_known(heap, heap[at].right, *right);
            lemma_key_parts(*left, at, key, colour, *right);
            assert(t == branch(*left, at, key, colour, *right));
            assert forall|c: usize| #[trigger] t.cells().contains(c) implies heap.contains_key(c)
                && t.keys().contains(heap[c].key) by {
                if c == at {
                } else if left.cells().contains(c) {
                    assert(left.keys().contains(heap[c].key));
                } else {
                    assert(right.cells().contains(c));
                    assert(right.keys().contains(heap[c].key));
                }
            }
        },
    }
}

/// A node whose key is not a key of the tree is not in the tree.
pub proof fn lemma_not_in(heap: Map<usize, Node>, link: NodePtr, t: Outline, a: usize)
    requires
        models(heap, link, t),
        !t.keys().contains(heap[a].key),
    ensures
        !t.cells().contains(a),
{
    lemma_cells_known(heap, link, t);
}

/// A tree is the same in two tables that agree on its nodes.
pub proof fn lemma_same_cells(
    before: Map<usize, Node>,
    after: Map<usize, Node>,
    link: NodePtr,
    t: Outline,
)
    requires
        models(before, link, t),
        forall|c: usize| #[trigger]
            t.cells().contains(c) ==> after.contains_key(c) && after[c] == before[c],
    ensures
        models(after, link, t),
    decreases t,
{
    match t {
        Outline::Empty => {},
        Outline::Fork { left, at, key, colour, right } => {
            assert(t.cells().contains(at));
            assert forall|c: usize| #[trigger] left.cells().contains(c) implies after.contains_key(
                c,
            ) && after[c] == before[c] by {
                assert(t.cells().contains(c));
            }
            assert forall|c: usize| #[trigger] right.cells().contains(c) implies after.contains_key(
                c,
            ) && after[c] == before[c] by {
                assert(t.cells().contains(c));
            }
            lemma_same_cells(before, after, before[at].left, *left);
            lemma_same_cells(before, after, before[at].right, *right);
        },
    }
}

/// What hangs on either side of a modelled node, and that the node and
/// its two subtrees share no node.
pub proof fn lemma_sides(heap: Map<usize, Node>, at: usize, t: Outline)
    requires
        models(heap, Some(at), t),
        t.ordered(),
    ensures
        t is Fork,
        t == branch(t.lhs(), at, heap[at].key, heap[at].colour, t.rhs()),
        models(heap, heap[at].left, t.lhs()),
        models(heap, heap[at].right, t.rhs()),
        forall|dir: Direction| #[trigger]
            models(heap, heap[at].spec_link(dir), t.child(dir)),
        t.lhs().ordered(),
        t.rhs().ordered(),
        !t.lhs().cells().contains(at),
        !t.rhs().cells().contains(at),
        forall|c: usize| t.lhs().cells().contains(c) ==> !t.rhs().cells().contains(c),
        forall|k: usize| t.lhs().keys().contains(k) ==> k < heap[at].key,
        forall|k: usize| t.rhs().keys().contains(k) ==> heap[at].key < k,
{
    lemma_cells_known(heap, heap[at].left, t.lhs());
    lemma_cells_known(heap, heap[at].right, t.rhs());
    assert forall|dir: Direction| #[trigger]
        models(heap, heap[at].spec_link(dir), t.child(dir)) by {
        match dir {
            Direction::Left => {},
            Direction::Right => {},
        }
    }
}

/// In an ordered tree the node that holds a key of the tree is a node of
/// the tree and records that key.
pub proof fn lemma_locate_known(heap: Map<usize, Node>, link: NodePtr, t: Outline, key: usize)
    requires
        models(heap, link, t),
        t.ordered(),
        t.keys().contains(key),
    ensures
        t.cells().contains(t.locate(key)),
        heap.contains_key(t.locate(key)),
        heap[t.locate(key)].key == key,
    decreases t,
{
    match t {
        Outline::Empty => {},
        Outline::Fork { left, at, key: k, colour, right } => {
            lemma_key_parts(*left, at, k, colour, *right);
            assert(t == branch(*left, at, k, colour, *right));
            if key == k {
            } else if key < k {
                assert(!right.keys().contains(key));
                lemma_locate_known(heap, heap[at].left, *left, key);
            } else {
                assert(!left.keys().contains(key));
                lemma_locate_known(heap, heap[at].right, *right, key);
            }
        },
    }
}

/// Where the leftmost node of a modelled tree is, and what it holds.
pub proof fn lemma_min_known(heap: Map<usize, Node>, link: NodePtr, t: Outline)
    requires
        models(heap, link, t),
        t is Fork,
    ensures
        t.cells().contains(t.min_at()),
        heap.contains_key(t.min_at()),
        heap[t.min_at()].key == t.min_key(),
        heap[t.min_at()].left is None,
        t.lhs() is Fork ==> {
            &&& t.cells().contains(t.min_parent())
            &&& heap.contains_key(t.min_parent())
            &&& heap[t.min_parent()].left == Some(t.min_at())
        },
    decreases t,
{
    reveal_with_fuel(models, 2);
    match t {
        Outline::Empty => {},
        Outline::Fork { left, at, key, colour, right } => {
            if *left is Fork {
                lemma_min_known(heap, heap[at].left, *left);
                assert(t.cells().contains(left.min_at()));
                if left.lhs() is Fork {
                    assert(t.cells().contains(left.min_parent()));
                }
            }
        },
    }
}

/// The tree below `link` after its leftmost node has handed its place to
/// `target`: the parent of the leftmost node now points at `target`, and
/// `target` carries the colour and the right subtree that the leftmost
/// node carried.
pub proof fn lemma_swap_models(
    h0: Map<usize, Node>,
    h1: Map<usize, Node>,
    link: NodePtr,
    r: Outline,
    target: usize,
    key: usize,
)
    requires
        models(h0, link, r),
        r.ordered(),
        r.lhs() is Fork,
        !r.cells().contains(target),
        h1.contains_key(target),
        h1[target] == (Node { key, left: None, ..h0[r.min_at()] }),
        h1.contains_key(r.min_parent()),
        h1[r.min_parent()] == (Node { left: Some(target), ..h0[r.min_parent()] }),
        forall|c: usize| #[trigger]
            r.cells().contains(c) && c != r.min_at() && c != r.min_parent() ==> h1.contains_key(c)
                && h1[c] == h0[c],
    ensures
        models(h1, link, r.swap_min(target, key)),
    decreases r,
{
    reveal_with_fuel(models, 3);
    reveal_with_fuel(Outline::ordered, 2);
    let at = r->at;
    let xk = r->key;
    let rl = r.lhs();
    let rr = r.rhs();
    assert(r == branch(rl, at, xk, r->colour, rr));
    lemma_key_parts(rl, at, xk, r->colour, rr);
    lemma_cells_known(h0, h0[at].left, rl);
    lemma_cells_known(h0, h0[at].right, rr);
    lemma_min_known(h0, h0[at].left, rl);
    assert(!rl.cells().contains(at));
    assert(!rr.cells().contains(at));
    assert forall|c: usize| rr.cells().contains(c) implies !rl.cells().contains(c) by {}
    assert forall|c: usize| #[trigger] rr.cells().contains(c) implies h1.contains_key(c) && h1[c]
        == h0[c] by {
        assert(r.cells().contains(c));
    }
    lemma_same_cells(h0, h1, h0[at].right, rr);
    if rl.lhs() is Empty {
        let s = rl->at;
        let sr = rl.rhs();
        assert(rl == branch(Outline::Empty, s, rl->key, rl->colour, sr));
        lemma_key_parts(Outline::Empty, s, rl->key, rl->colour, sr);
        lemma_cells_known(h0, h0[s].right, sr);
        assert(!sr.cells().contains(s));
        assert forall|c: usize| #[trigger] sr.cells().contains(c) implies h1.contains_key(c)
            && h1[c] == h0[c] by {
            assert(rl.cells().contains(c));
            assert(r.cells().contains(c));
        }
        lemma_same_cells(h0, h1, h0[s].right, sr);
        let low = branch(Outline::Empty, target, key, rl->colour, sr);
        assert(rl.swap_min(target, key) == low);
        assert(models(h1, Some(target), low));
        assert(r.swap_min(target, key) == branch(low, at, xk, r->colour, rr));
        assert(r.min_parent() == at);
        assert(models(h1, h1[at].right, rr));
        assert(models(h1, Some(at), branch(low, at, xk, r->colour, rr)));
    } else {
        assert(r.min_at() == rl.min_at());
        assert(r.min_parent() == rl.min_parent());
        assert(r.cells().contains(at));
        assert(rl.cells().contains(rl.min_at()));
        assert(rl.cells().contains(rl.min_parent()));
        assert(h1.contains_key(at) && h1[at] == h0[at]);
        assert forall|c: usize| #[trigger]
            rl.cells().contains(c) && c != rl.min_at() && c != rl.min_parent() implies h1.contains_key(
            c,
        ) && h1[c] == h0[c] by {
            assert(r.cells().contains(c));
        }
        assert(!rl.cells().contains(target)) by {
            if rl.cells().contains(target) {
                assert(r.cells().contains(target));
            }
        }
        lemma_swap_models(h0, h1, h0[at].left, rl, target, key);
        let low = rl.swap_min(target, key);
        assert(r.swap_min(target, key) == branch(low, at, xk, r->colour, rr));
        assert(models(h1, h1[at].left, low));
        assert(models(h1, h1[at].right, rr));
        assert(models(h1, Some(at), branch(low, at, xk, r->colour, rr)));
    }
}

/// The tree: its root and the table of its nodes, by address.
pub struct RBTree {
    root: NodePtr,
    memory: HashMap<usize, Node>,
    shape: Ghost<Outline>,
}

impl View for RBTree {
    type V = Set<usize>;

    /// The keys in the tree.
    open spec fn view(&self) -> Set<usize> {
        self.shape().keys()
    }
}

impl RBTree {
    /// Every node placed so far, by address.
    pub closed spec fn heap(&self) -> Map<usize, Node> {
        self.memory@
    }

    /// The link to the root.
    pub closed spec fn root_link(&self) -> NodePtr {
        self.root
    }

    /// The outline of the tree.
    pub closed spec fn shape(&self) -> Outline {
        self.shape@
    }

    /// The tree is a search tree by key that obeys the red-black rules,
    /// with a black root.
    pub open spec fn wf(&self) -> bool {
        &&& !self.heap().contains_key(0)
        &&& models(self.heap(), self.root_link(), self.shape())
        &&& self.shape().ordered()
        &&& self.shape().red_black()
        &&& !self.shape().red()
    }

    /// A tree without nodes.
    pub fn new() -> (tree: Self)
        ensures
            tree.wf(),
            tree.heap() == Map::<usize, Node>::empty(),
            tree.shape() == Outline::Empty,
            tree.root_link() is None,
    {
        RBTree { root: None, memory: HashMap::new(), shape: Ghost(Outline::Empty) }
    }

    /// The node at `at`, if there is one.
    pub fn get(&self, at: usize) -> (node: Option<Node>)
        ensures
            node == (if self.heap().contains_key(at) {
                Some(self.heap()[at])
            } else {
                None
            }),
    {
        match self.memory.get(&at) {
            Some(n) => Some(*n),
            None => None,
        }
    }

    /// The link to the root.
    pub fn root(&self) -> (link: NodePtr)
        ensures
            link == self.root_link(),
    {
        self.root
    }

    fn node(&self, at: usize) -> (n: Node)
        requires
            self.heap().contains_key(at),
        ensures
            n == self.heap()[at],
    {
        let found = self.memory.get(&at);
        *found.unwrap()
    }

    fn store(&mut self, at: usize, n: Node)
        requires
            old(self).heap().contains_key(at),
            n.key == old(self).heap()[at].key,
        ensures
            final(self).heap() == old(self).heap().insert(at, n),
            touched_only(old(self).heap(), final(self).heap(), set![at]),
            final(self).root_link() == old(self).root_link(),
            final(self).shape() == old(self).shape(),
    {
        self.memory.insert(at, n);
        assert(self.heap().dom() =~= old(self).heap().dom());
    }

    fn set_link(&mut self, at: usize, dir: Direction, link: NodePtr)
        requires
            old(self).heap().contains_key(at),
        ensures
            final(self).heap() == old(self).heap().insert(at, final(self).heap()[at]),
            final(self).heap()[at].spec_link(dir) == link,
            final(self).heap()[at].spec_link(dir.flipped()) == old(self).heap()[at].spec_link(
                dir.flipped(),
            ),
            final(self).heap()[at].key == old(self).heap()[at].key,
            final(self).heap()[at].colour == old(self).heap()[at].colour,
            touched_only(old(self).heap(), final(self).heap(), set![at]),
            final(self).root_link() == old(self).root_link(),
            final(self).shape() == old(self).shape(),
    {
        let mut n = self.node(at);
        n.set_link(dir, link);
        self.store(at, n);
    }

    fn set_colour(&mut self, at: usize, colour: Colour)
        requires
            old(self).heap().contains_key(at),
        ensures
            final(self).heap() == old(self).heap().insert(
                at,
                Node { colour, ..old(self).heap()[at] },
            ),
            touched_only(old(self).heap(), final(self).heap(), set![at]),
            final(self).root_link() == old(self).root_link(),
            final(self).shape() == old(self).shape(),
    {
        let mut n = self.node(at);
        n.colour = colour;
        self.store(at, n);
    }

    /// Whether `node` leads to a red node.
    fn is_red(&self, node: NodePtr) -> (red: bool)
        requires
            node is Some ==> self.heap().contains_key(node.unwrap()),
        ensures
            red == red_behind(self.heap(), node),
    {
        match node {
            None => false,
            Some(at) => match self.node(at).colour {
                Colour::Red => true,
                Colour::Black => false,
            },
        }
    }

    /// Turns the subtree at `ptr` towards `dir` and returns its new top:
    /// the child on the other side, now black, with `ptr` below it, now red.
    fn single_rotation(&mut self, ptr: usize, dir: Direction, Ghost(t): Ghost<Outline>) -> (top:
        usize)
        requires
            models(old(self).heap(), Some(ptr), t),
            t.ordered(),
            t.child(dir.flipped()) is Fork,
        ensures
            models(final(self).heap(), Some(top), t.single_rotation(dir)),
            touched_only(old(self).heap(), final(self).heap(), t.cells()),
            final(self).root_link() == old(self).root_link(),
            final(self).shape() == old(self).shape(),
    {
        let ghost h0 = self.heap();
        let opposite = dir.flip();
        let ghost sub = t.child(opposite);
        proof {
            lemma_sides(h0, ptr, t);
            assert(models(h0, h0[ptr].spec_link(opposite), sub));
        }
        let child = self.node(ptr).link(opposite).unwrap();
        proof {
            lemma_sides(h0, child, sub);
            lemma_cells_known(h0, h0[child].left, sub.lhs());
            lemma_cells_known(h0, h0[child].right, sub.rhs());
            lemma_cells_known(h0, h0[ptr].left, t.lhs());
            lemma_cells_known(h0, h0[ptr].right, t.rhs());
            lemma_key_parts(sub.lhs(), child, h0[child].key, h0[child].colour, sub.rhs());
            assert(sub.keys().contains(h0[child].key));
            assert(sub.cells().contains(child));
            assert(t.cells().contains(child));
            assert(t.cells().contains(ptr));
        }
        let moved = self.node(child).link(dir);
        self.set_link(ptr, opposite, moved);
        self.set_colour(ptr, Colour::Red);
        self.set_colour(child, Colour::Black);
        self.set_link(child, dir, Some(ptr));
        proof {
            let h1 = self.heap();
            let key = h0[ptr].key;
            match dir {
                Direction::Right => {
                    let ll = sub.lhs();
                    let lr = sub.rhs();
                    let r = t.rhs();
                    assert forall|k: usize| lr.keys().contains(k) implies k < key by {
                        assert(sub.keys().contains(k));
                    }
                    assert forall|k: usize| ll.keys().contains(k) implies k < key by {
                        assert(sub.keys().contains(k));
                    }
                    assert forall|c: usize| #[trigger] ll.cells().contains(c) implies h1.contains_key(
                        c,
                    ) && h1[c] == h0[c] by {}
                    assert forall|c: usize| #[trigger] lr.cells().contains(c) implies h1.contains_key(
                        c,
                    ) && h1[c] == h0[c] by {}
                    assert forall|c: usize| #[trigger] r.cells().contains(c) implies h1.contains_key(
                        c,
                    ) && h1[c] == h0[c] by {}
                    lemma_same_cells(h0, h1, h0[child].left, ll);
                    lemma_same_cells(h0, h1, h0[child].right, lr);
                    lemma_same_cells(h0, h1, h0[ptr].right, r);
                    assert(models(h1, Some(ptr), branch(lr, ptr, key, Colour::Red, r)));
                },
                Direction::Left => {
                    let rl = sub.lhs();
                    let rr = sub.rhs();
                    let l = t.lhs();
                    assert forall|k: usize| rl.keys().contains(k) implies key < k by {
                        assert(sub.keys().contains(k));
                    }
                    assert forall|k: usize| rr.keys().contains(k) implies key < k by {
                        assert(sub.keys().contains(k));
                    }
                    assert forall|c: usize| #[trigger] rl.cells().contains(c) implies h1.contains_key(
                        c,
                    ) && h1[c] == h0[c] by {}
                    assert forall|c: usize| #[trigger] rr.cells().contains(c) implies h1.contains_key(
                        c,
                    ) && h1[c] == h0[c] by {}
                    assert forall|c: usize| #[trigger] l.cells().contains(c) implies h1.contains_key(
                        c,
                    ) && h1[c] == h0[c] by {}
                    lemma_same_cells(h0, h1, h0[child].left, rl);
                    lemma_same_cells(h0, h1, h0[child].right, rr);
                    lemma_same_cells(h0, h1, h0[ptr].left, l);
                    assert(models(h1, Some(ptr), branch(l, ptr, key, Colour::Red, rl)));
                },
            }
        }
        child
    }

    /// Turns the far child of `ptr` away from `dir`, then the subtree at
    /// `ptr` towards `dir`, and returns its new top.
    fn double_rotation(&mut self, ptr: usize, dir: Direction, Ghost(t): Ghost<Outline>) -> (top:
        usize)
        requires
            models(old(self).heap(), Some(ptr), t),
            t.ordered(),
            t.child(dir.flipped()) is Fork,
            t.child(dir.flipped()).child(dir) is Fork,
        ensures
            models(final(self).heap(), Some(top), t.double_rotation(dir)),
            touched_only(old(self).heap(), final(self).heap(), t.cells()),
            final(self).root_link() == old(self).root_link(),
            final(self).shape() == old(self).shape(),
    {
        let ghost h0 = self.heap();
        let opposite = dir.flip();
        let ghost sub = t.child(opposite);
        proof {
            lemma_sides(h0, ptr, t);
            assert(models(h0, h0[ptr].spec_link(opposite), sub));
            assert(models(h0, h0[ptr].spec_link(dir), t.child(dir)));
            lemma_single_rotation(sub, opposite);
            lemma_cells_known(h0, h0[ptr].spec_link(opposite), sub);
            lemma_cells_known(h0, h0[ptr].spec_link(dir), t.child(dir));
        }
        let child = self.node(ptr).link(opposite).unwrap();
        let grand_child = self.single_rotation(child, opposite, Ghost(sub));
        let ghost h1 = self.heap();
        self.set_link(ptr, opposite, Some(grand_child));
        let ghost h2 = self.heap();
        let ghost inner = sub.single_rotation(opposite);
        let ghost mid = t.with_child(opposite, inner);
        proof {
            assert(h1[ptr] == h0[ptr]);
            assert forall|c: usize| #[trigger] inner.cells().contains(c) implies h2.contains_key(c)
                && h2[c] == h1[c] by {}
            lemma_same_cells(h1, h2, Some(grand_child), inner);
            assert forall|c: usize| #[trigger] t.child(dir).cells().contains(c) implies h2.contains_key(
                c,
            ) && h2[c] == h0[c] by {
                match dir {
                    Direction::Left => {},
                    Direction::Right => {},
                }
            }
            lemma_same_cells(h0, h2, h0[ptr].spec_link(dir), t.child(dir));
            match dir {
                Direction::Left => {
                    assert(models(h2, Some(ptr), mid));
                    assert(mid.cells() =~= t.cells());
                    assert(mid.ordered());
                },
                Direction::Right => {
                    assert(models(h2, Some(ptr), mid));
                    assert(mid.cells() =~= t.cells());
                    assert(mid.ordered());
                },
            }
        }
        self.single_rotation(ptr, dir, Ghost(mid))
    }

    /// Links the node at `value` below `node` by key and returns the top of
    /// the mended subtree. A node whose key is there already stays outside.
    fn insert_helper(&mut self, node: NodePtr, value: usize, Ghost(t): Ghost<Outline>) -> (top:
        usize)
        requires
            old(self).heap().contains_key(value),
            models(old(self).heap(), node, t),
            t.ordered(),
            t.red_black(),
            !t.keys().contains(old(self).heap()[value].key) ==> is_red_leaf(
                old(self).heap()[value],
            ),
        ensures
            models(final(self).heap(), Some(top), t.insert(value, old(self).heap()[value].key)),
            touched_only(
                old(self).heap(),
                final(self).heap(),
                t.insert(value, old(self).heap()[value].key).cells(),
            ),
            final(self).root_link() == old(self).root_link(),
            final(self).shape() == old(self).shape(),
        decreases t,
    {
        let ghost h0 = self.heap();
        let ghost k = h0[value].key;
        proof {
            lemma_insert(t, value, k);
        }
        match node {
            None => value,
            Some(ptr) => {
                let n = self.node(ptr);
                let v = self.node(value);
                if n.key == v.key {
                    return ptr;
                }
                let dir = Direction::from(n.key < v.key);
                let far = dir.flip();
                let ghost sub = t.child(dir);
                let ghost other = t.child(far);
                proof {
                    lemma_sides(h0, ptr, t);
                    lemma_key_parts(t.lhs(), ptr, n.key, n.colour, t.rhs());
                    assert(models(h0, h0[ptr].spec_link(dir), sub));
                    assert(models(h0, h0[ptr].spec_link(far), other));
                    lemma_insert(sub, value, k);
                    lemma_cells_known(h0, h0[ptr].spec_link(dir), sub);
                    lemma_cells_known(h0, h0[ptr].spec_link(far), other);
                    match dir {
                        Direction::Left => {},
                        Direction::Right => {},
                    }
                    assert(!other.keys().contains(k));
                }
                let child = self.insert_helper(n.link(dir), value, Ghost(sub));
                let ghost h1 = self.heap();
                let ghost grown = sub.insert(value, k);
                self.set_link(ptr, dir, Some(child));
                let ghost h2 = self.heap();
                let ghost mid = t.with_child(dir, grown);
                proof {
                    lemma_not_in(h0, h0[ptr].spec_link(far), other, value);
                    assert forall|c: usize| #[trigger] other.cells().contains(c) implies h2.contains_key(
                        c,
                    ) && h2[c] == h0[c] by {
                        match dir {
                            Direction::Left => {},
                            Direction::Right => {},
                        }
                    }
                    lemma_same_cells(h0, h2, h0[ptr].spec_link(far), other);
                    lemma_cells_known(h1, Some(child), grown);
                    assert forall|c: usize| #[trigger] grown.cells().contains(c) implies h2.contains_key(
                        c,
                    ) && h2[c] == h1[c] by {
                        assert(grown.keys().contains(h1[c].key));
                        match dir {
                            Direction::Left => {},
                            Direction::Right => {},
                        }
                    }
                    lemma_same_cells(h1, h2, Some(child), grown);
                    assert(h1[ptr] == h0[ptr]);
                    match dir {
                        Direction::Left => {
                            lemma_key_parts(grown, ptr, n.key, n.colour, other);
                            assert(mid == branch(grown, ptr, n.key, n.colour, other));
                            assert(models(h2, Some(ptr), mid));
                            assert(mid.ordered());
                        },
                        Direction::Right => {
                            lemma_key_parts(other, ptr, n.key, n.colour, grown);
                            assert(mid == branch(other, ptr, n.key, n.colour, grown));
                            assert(models(h2, Some(ptr), mid));
                            assert(mid.ordered());
                        },
                    }
                    assert(t.insert(value, k) == mid.mend(dir));
                    lemma_mend(mid, dir);
                    lemma_sides(h2, ptr, mid);
                    lemma_sides(h2, child, grown);
                    assert(mid.child(dir) == grown);
                    assert(mid.child(far) == other);
                    assert(grown.cells().contains(child));
                    assert(mid.cells().contains(ptr));
                    assert(mid.cells().contains(child));
                    assert(touched_only(h0, h2, mid.cells()));
                }
                if self.is_red(Some(child)) {
                    let c = self.node(child);
                    let sibling = self.node(ptr).link(far);
                    proof {
                        assert(models(h2, sibling, other));
                        assert(models(h2, c.spec_link(dir), grown.child(dir)));
                        assert(models(h2, c.spec_link(far), grown.child(far)));
                        lemma_cells_known(h2, sibling, other);
                        lemma_cells_known(h2, c.spec_link(dir), grown.child(dir));
                        lemma_cells_known(h2, c.spec_link(far), grown.child(far));
                    }
                    if self.is_red(sibling) {
                        self.set_colour(ptr, Colour::Red);
                        self.set_colour(child, Colour::Black);
                        self.set_colour(sibling.unwrap(), Colour::Black);
                        proof {
                            let h3 = self.heap();
                            let s = sibling.unwrap();
                            lemma_sides(h2, s, other);
                            lemma_key_parts(other.lhs(), s, h2[s].key, h2[s].colour, other.rhs());
                            lemma_key_parts(grown.lhs(), child, h2[child].key, h2[child].colour, grown.rhs());
                            assert(other.cells().contains(s));
                            assert(mid.cells().contains(s));
                            assert(s != child && s != ptr && child != ptr);
                            lemma_cells_known(h2, h2[s].left, other.lhs());
                            lemma_cells_known(h2, h2[s].right, other.rhs());
                            lemma_cells_known(h2, h2[child].left, grown.lhs());
                            lemma_cells_known(h2, h2[child].right, grown.rhs());
                            assert forall|x: usize| #[trigger]
                                grown.lhs().cells().contains(x) implies h3.contains_key(x) && h3[x]
                                == h2[x] by {
                                assert(grown.cells().contains(x));
                            }
                            assert forall|x: usize| #[trigger]
                                grown.rhs().cells().contains(x) implies h3.contains_key(x) && h3[x]
                                == h2[x] by {
                                assert(grown.cells().contains(x));
                            }
                            assert forall|x: usize| #[trigger]
                                other.lhs().cells().contains(x) implies h3.contains_key(x) && h3[x]
                                == h2[x] by {
                                assert(other.cells().contains(x));
                            }
                            assert forall|x: usize| #[trigger]
                                other.rhs().cells().contains(x) implies h3.contains_key(x) && h3[x]
                                == h2[x] by {
                                assert(other.cells().contains(x));
                            }
                            lemma_same_cells(h2, h3, h2[child].left, grown.lhs());
                            lemma_same_cells(h2, h3, h2[child].right, grown.rhs());
                            lemma_same_cells(h2, h3, h2[s].left, other.lhs());
                            lemma_same_cells(h2, h3, h2[s].right, other.rhs());
                            assert(models(h3, Some(child), grown.painted(Colour::Black)));
                            assert(models(h3, Some(s), other.painted(Colour::Black)));
                            match dir {
                                Direction::Left => {
                                    assert(models(h3, Some(ptr), mid.mend(dir)));
                                },
                                Direction::Right => {
                                    assert(models(h3, Some(ptr), mid.mend(dir)));
                                },
                            }
                            assert(touched_only(h0, h3, mid.cells()));
                        }
                        ptr
                    } else if self.is_red(c.link(dir)) {
                        proof {
                            assert(far.flipped() == dir);
                        }
                        let top = self.single_rotation(ptr, far, Ghost(mid));
                        proof {
                            assert(touched_only(h0, self.heap(), mid.cells()));
                        }
                        top
                    } else if self.is_red(c.link(far)) {
                        proof {
                            assert(far.flipped() == dir);
                        }
                        let top = self.double_rotation(ptr, far, Ghost(mid));
                        proof {
                            assert(touched_only(h0, self.heap(), mid.cells()));
                        }
                        top
                    } else {
                        ptr
                    }
                } else {
                    ptr
                }
            },
        }
    }

    /// Puts `key` into the tree, in a new node at `address`. A key that is
    /// there already stays with its node, and the new node stays outside
    /// the tree. Refuses the null address and an address that holds a node
    /// already.
    pub fn insert(&mut self, key: usize, address: usize) -> (placed: bool)
        requires
            old(self).wf(),
        ensures
            final(self).wf(),
            placed <==> address != 0 && !old(self).heap().contains_key(address),
            placed ==> {
                &&& final(self)@ == old(self)@.insert(key)
                &&& final(self).shape() == old(self).shape().insert(address, key).painted(
                    Colour::Black,
                )
                &&& final(self).heap().dom() == old(self).heap().dom().insert(address)
                &&& final(self).heap()[address].key == key
                &&& forall|a: usize| #[trigger]
                    old(self).heap().contains_key(a) ==> final(self).heap()[a].key
                        == old(self).heap()[a].key
            },
            !placed ==> {
                &&& final(self).heap() == old(self).heap()
                &&& final(self).shape() == old(self).shape()
                &&& final(self).root_link() == old(self).root_link()
            },
    {
        if address == 0 || self.memory.contains_key(&address) {
            return false;
        }
        let ghost t = self.shape@;
        let ghost h0 = self.heap();
        self.memory.insert(address, Node::new(key));
        let ghost h1 = self.heap();
        proof {
            lemma_cells_known(h0, self.root, t);
            lemma_same_cells(h0, h1, self.root, t);
            lemma_insert(t, address, key);
        }
        let top = self.insert_helper(self.root, address, Ghost(t));
        let ghost h2 = self.heap();
        self.root = Some(top);
        self.set_colour(top, Colour::Black);
        self.shape = Ghost(t.insert(address, key).painted(Colour::Black));
        proof {
            let h3 = self.heap();
            let grown = t.insert(address, key);
            let black = grown.painted(Colour::Black);
            lemma_sides(h2, top, grown);
            lemma_cells_known(h2, h2[top].left, grown.lhs());
            lemma_cells_known(h2, h2[top].right, grown.rhs());
            assert forall|c: usize| #[trigger] grown.lhs().cells().contains(c) implies h3.contains_key(
                c,
            ) && h3[c] == h2[c] by {}
            assert forall|c: usize| #[trigger] grown.rhs().cells().contains(c) implies h3.contains_key(
                c,
            ) && h3[c] == h2[c] by {}
            lemma_same_cells(h2, h3, h2[top].left, grown.lhs());
            lemma_same_cells(h2, h3, h2[top].right, grown.rhs());
            assert(black == branch(grown.lhs(), top, h2[top].key, Colour::Black, grown.rhs()));
            assert(models(h3, Some(top), black));
            lemma_key_parts(grown.lhs(), top, h2[top].key, Colour::Black, grown.rhs());
            lemma_key_parts(grown.lhs(), top, h2[top].key, h2[top].colour, grown.rhs());
            assert(black.keys() =~= grown.keys());
            assert(black.ordered());
            assert(black.red_black());
            assert(h3.dom() =~= h0.dom().insert(address));
            assert(h1.contains_key(address));
            assert(h2.contains_key(address));
            assert(h3[address].key == key);
            assert(self@ == old(self)@.insert(key));
            assert forall|a: usize| #[trigger] h0.contains_key(a) implies h3[a].key
                == h0[a].key by {
                assert(h1.contains_key(a));
                assert(h2.contains_key(a));
            }
        }
        true
    }

    /// Gives the node at `at` another colour.
    fn paint(&mut self, at: usize, colour: Colour, Ghost(t): Ghost<Outline>)
        requires
            models(old(self).heap(), Some(at), t),
            t.ordered(),
        ensures
            models(final(self).heap(), Some(at), t.painted(colour)),
            final(self).heap() == old(self).heap().insert(
                at,
                Node { colour, ..old(self).heap()[at] },
            ),
            touched_only(old(self).heap(), final(self).heap(), set![at]),
            final(self).root_link() == old(self).root_link(),
            final(self).shape() == old(self).shape(),
    {
        let ghost h0 = self.heap();
        self.set_colour(at, colour);
        proof {
            let h1 = self.heap();
            lemma_sides(h0, at, t);
            lemma_cells_known(h0, h0[at].left, t.lhs());
            lemma_cells_known(h0, h0[at].right, t.rhs());
            assert forall|c: usize| #[trigger] t.lhs().cells().contains(c) implies h1.contains_key(
                c,
            ) && h1[c] == h0[c] by {}
            assert forall|c: usize| #[trigger] t.rhs().cells().contains(c) implies h1.contains_key(
                c,
            ) && h1[c] == h0[c] by {}
            lemma_same_cells(h0, h1, h0[at].left, t.lhs());
            lemma_same_cells(h0, h1, h0[at].right, t.rhs());
        }
    }

    /// Gives the child of `at` on the side `dir` another colour.
    fn paint_child(&mut self, at: usize, dir: Direction, colour: Colour, Ghost(t): Ghost<Outline>)
        requires
            models(old(self).heap(), Some(at), t),
            t.ordered(),
            t.child(dir) is Fork,
        ensures
            models(
                final(self).heap(),
                Some(at),
                t.with_child(dir, t.child(dir).painted(colour)),
            ),
            touched_only(old(self).heap(), final(self).heap(), t.cells()),
            final(self).heap()[at] == old(self).heap()[at],
            final(self).root_link() == old(self).root_link(),
            final(self).shape() == old(self).shape(),
    {
        let ghost h0 = self.heap();
        let ghost sub = t.child(dir);
        let ghost other = t.child(dir.flipped());
        proof {
            lemma_sides(h0, at, t);
            assert(models(h0, h0[at].spec_link(dir), sub));
            assert(models(h0, h0[at].spec_link(dir.flipped()), other));
            lemma_sides(h0, h0[at].spec_link(dir).unwrap(), sub);
            lemma_cells_known(h0, h0[at].spec_link(dir.flipped()), other);
            lemma_cells_known(h0, h0[at].spec_link(dir), sub);
        }
        let child = self.node(at).link(dir).unwrap();
        self.paint(child, colour, Ghost(sub));
        proof {
            let h1 = self.heap();
            assert(sub.cells().contains(child));
            match dir {
                Direction::Left => {
                    assert forall|c: usize| #[trigger] other.cells().contains(c) implies h1.contains_key(
                        c,
                    ) && h1[c] == h0[c] by {}
                    lemma_same_cells(h0, h1, h0[at].right, other);
                    assert(t.cells().contains(child));
                },
                Direction::Right => {
                    assert forall|c: usize| #[trigger] other.cells().contains(c) implies h1.contains_key(
                        c,
                    ) && h1[c] == h0[c] by {}
                    lemma_same_cells(h0, h1, h0[at].left, other);
                    assert(t.cells().contains(child));
                },
            }
        }
    }

    /// Makes up for a missing black node below `ptr` on the side `dir`,
    /// where the sibling on the other side is black. Returns the top of the
    /// subtree and whether the subtree as a whole is still one short.
    fn level_core(&mut self, ptr: usize, dir: Direction, Ghost(p): Ghost<Outline>) -> (res: (
        usize,
        bool,
    ))
        requires
            models(old(self).heap(), Some(ptr), p),
            p.ordered(),
            p.child(dir.flipped()) is Fork,
            !p.child(dir.flipped()).red(),
            p.child(dir.flipped()).red_black(),
            p.child(dir.flipped()).black_height() > 0,
        ensures
            models(final(self).heap(), Some(res.0), p.level_core(dir).0),
            res.1 == p.level_core(dir).1,
            touched_only(old(self).heap(), final(self).heap(), p.cells()),
            final(self).root_link() == old(self).root_link(),
            final(self).shape() == old(self).shape(),
    {
        let ghost h0 = self.heap();
        let far = dir.flip();
        let ghost sibling = p.child(far);
        proof {
            lemma_sides(h0, ptr, p);
            assert(models(h0, h0[ptr].spec_link(far), sibling));
            lemma_sides(h0, h0[ptr].spec_link(far).unwrap(), sibling);
            lemma_cells_known(h0, h0[ptr].spec_link(far), sibling);
            assert(dir.flipped().flipped() == dir);
        }
        let n = self.node(ptr);
        let s = n.link(far).unwrap();
        let sn = self.node(s);
        proof {
            lemma_cells_known(h0, sn.left, sibling.lhs());
            lemma_cells_known(h0, sn.right, sibling.rhs());
            assert(models(h0, sn.spec_link(far), sibling.child(far)));
            assert(models(h0, sn.spec_link(dir), sibling.child(dir)));
        }
        if !self.is_red(sn.left) && !self.is_red(sn.right) {
            let short = match n.colour {
                Colour::Red => false,
                Colour::Black => true,
            };
            self.paint(ptr, Colour::Black, Ghost(p));
            proof {
                lemma_painted(p, Colour::Black);
            }
            self.paint_child(ptr, far, Colour::Red, Ghost(p.painted(Colour::Black)));
            (ptr, short)
        } else {
            let save = n.colour;
            let ghost turned = if sibling.child(far).red() {
                p.single_rotation(dir)
            } else {
                p.double_rotation(dir)
            };
            let top = if self.is_red(sn.link(far)) {
                proof {
                    lemma_single_rotation(p, dir);
                }
                self.single_rotation(ptr, dir, Ghost(p))
            } else {
                proof {
                    reveal_with_fuel(Outline::red_black, 2);
                    assert(sibling.child(dir).red());
                    lemma_double_rotation(p, dir);
                }
                self.double_rotation(ptr, dir, Ghost(p))
            };
            proof {
                lemma_repainted_child(turned, Direction::Left, Colour::Black);
            }
            self.paint_child(top, Direction::Left, Colour::Black, Ghost(turned));
            let ghost one = turned.with_child(Direction::Left, turned.lhs().painted(Colour::Black));
            proof {
                lemma_repainted_child(one, Direction::Right, Colour::Black);
            }
            self.paint_child(top, Direction::Right, Colour::Black, Ghost(one));
            let ghost both = one.with_child(Direction::Right, one.rhs().painted(Colour::Black));
            proof {
                assert(both == turned.black_children());
                assert(touched_only(h0, self.heap(), p.cells()));
            }
            self.paint(top, save, Ghost(both));
            proof {
                assert(both.cells().contains(top)) by {
                    lemma_cells_known(self.heap(), Some(top), both.painted(save));
                    lemma_painted(both, save);
                    assert(both.painted(save).cells().contains(top));
                }
                assert(touched_only(h0, self.heap(), p.cells()));
            }
            (top, false)
        }
    }

    /// Makes up for a missing black node below `ptr` on the side `dir`.
    /// A red sibling is first rotated to the top. Returns the top of the
    /// subtree and whether the subtree as a whole is still one short.
    fn level(&mut self, ptr: usize, dir: Direction, Ghost(p): Ghost<Outline>) -> (res: (
        usize,
        bool,
    ))
        requires
            models(old(self).heap(), Some(ptr), p),
            p.ordered(),
            p.child(dir).red_black(),
            !p.child(dir).red(),
            p.child(dir.flipped()).red_black(),
            p.child(dir.flipped()).black_height() == p.child(dir).black_height() + 1,
            p.red() ==> !p.child(dir.flipped()).red(),
        ensures
            models(final(self).heap(), Some(res.0), p.level(dir).0),
            res.1 == p.level(dir).1,
            touched_only(old(self).heap(), final(self).heap(), p.cells()),
            final(self).root_link() == old(self).root_link(),
            final(self).shape() == old(self).shape(),
    {
        let ghost h0 = self.heap();
        let far = dir.flip();
        let ghost sibling = p.child(far);
        proof {
            lemma_sides(h0, ptr, p);
            assert(models(h0, h0[ptr].spec_link(far), sibling));
            lemma_black_height_fork(sibling);
            lemma_cells_known(h0, h0[ptr].spec_link(far), sibling);
            assert(dir.flipped().flipped() == dir);
        }
        let s = self.node(ptr).link(far);
        if self.is_red(s) {
            let ghost top_shape = p.single_rotation(dir);
            let ghost low = top_shape.child(dir);
            proof {
                reveal_with_fuel(Outline::red_black, 3);
                reveal_with_fuel(Outline::black_height, 3);
                reveal_with_fuel(Outline::ordered, 2);
                lemma_single_rotation(p, dir);
                match dir {
                    Direction::Left => {
                        lemma_black_height_fork(sibling.lhs());
                    },
                    Direction::Right => {
                        lemma_black_height_fork(sibling.rhs());
                    },
                }
                assert(low.ordered());
            }
            let top = self.single_rotation(ptr, dir, Ghost(p));
            let ghost h1 = self.heap();
            proof {
                lemma_sides(h1, top, top_shape);
                assert(models(h1, h1[top].spec_link(dir), low));
                assert(models(h1, h1[top].spec_link(far), top_shape.child(far)));
                match dir {
                    Direction::Left => {
                        assert(h1[top].spec_link(dir) == Some(ptr));
                    },
                    Direction::Right => {
                        assert(h1[top].spec_link(dir) == Some(ptr));
                    },
                }
                lemma_cells_known(h1, Some(ptr), low);
                lemma_cells_known(h1, h1[top].spec_link(far), top_shape.child(far));
            }
            let (fixed, short) = self.level_core(ptr, dir, Ghost(low));
            let ghost h2 = self.heap();
            self.set_link(top, dir, Some(fixed));
            proof {
                let h3 = self.heap();
                let below = low.level_core(dir).0;
                lemma_level_core(low, dir);
                lemma_cells_known(h2, Some(fixed), below);
                assert forall|c: usize| #[trigger] below.cells().contains(c) implies h3.contains_key(
                    c,
                ) && h3[c] == h2[c] by {
                    assert(low.cells().contains(c));
                    match dir {
                        Direction::Left => {},
                        Direction::Right => {},
                    }
                }
                lemma_same_cells(h2, h3, Some(fixed), below);
                assert forall|c: usize| #[trigger]
                    top_shape.child(far).cells().contains(c) implies h3.contains_key(c) && h3[c]
                    == h1[c] by {
                    match dir {
                        Direction::Left => {},
                        Direction::Right => {},
                    }
                }
                lemma_same_cells(h1, h3, h1[top].spec_link(far), top_shape.child(far));
                assert(h2[top] == h1[top]);
                match dir {
                    Direction::Left => {
                        assert(models(h3, Some(top), top_shape.with_child(dir, below)));
                        assert(top_shape.cells().contains(top));
                    },
                    Direction::Right => {
                        assert(models(h3, Some(top), top_shape.with_child(dir, below)));
                        assert(top_shape.cells().contains(top));
                    },
                }
                assert(touched_only(h0, h3, p.cells()));
            }
            (top, short)
        } else {
            self.level_core(ptr, dir, Ghost(p))
        }
    }

    /// What `ptr` makes of the subtree that has come back on its side `dir`
    /// from a removal: nothing, unless it has come back short.
    fn settle(&mut self, ptr: usize, dir: Direction, short: bool, Ghost(p): Ghost<Outline>) -> (res: (
        usize,
        bool,
    ))
        requires
            models(old(self).heap(), Some(ptr), p),
            p.ordered(),
            short ==> {
                &&& p.child(dir).red_black()
                &&& !p.child(dir).red()
                &&& p.child(dir.flipped()).red_black()
                &&& p.child(dir.flipped()).black_height() == p.child(dir).black_height() + 1
                &&& p.red() ==> !p.child(dir.flipped()).red()
            },
        ensures
            models(final(self).heap(), Some(res.0), p.settle(dir, short).0),
            res.1 == p.settle(dir, short).1,
            touched_only(old(self).heap(), final(self).heap(), p.cells()),
            final(self).root_link() == old(self).root_link(),
            final(self).shape() == old(self).shape(),
    {
        if short {
            self.level(ptr, dir, Ghost(p))
        } else {
            (ptr, false)
        }
    }

    /// Walks left from `node` to the leftmost node below it, keeping track
    /// of the node just above. Returns the leftmost node and that parent,
    /// which is `parent` itself if `node` has no left child.
    fn get_min(&self, node: usize, parent: usize, Ghost(r): Ghost<Outline>) -> (found: (
        usize,
        usize,
    ))
        requires
            models(self.heap(), Some(node), r),
        ensures
            found.0 == r.min_at(),
            found.1 == (if r.lhs() is Empty {
                parent
            } else {
                r.min_parent()
            }),
    {
        let mut current = node;
        let mut above = parent;
        let ghost mut cur = r;
        let mut next = self.node(current).left;
        while next.is_some()
            invariant
                models(self.heap(), Some(current), cur),
                cur is Fork,
                next == self.heap()[current].left,
                cur.min_at() == r.min_at(),
                (if cur.lhs() is Empty {
                    above
                } else {
                    cur.min_parent()
                }) == (if r.lhs() is Empty {
                    parent
                } else {
                    r.min_parent()
                }),
            decreases cur.size(),
        {
            proof {
                reveal_with_fuel(models, 2);
                assert(models(self.heap(), next, cur.lhs()));
                assert(cur.lhs() is Fork);
                assert(cur.min_at() == cur.lhs().min_at());
            }
            above = current;
            current = next.unwrap();
            proof {
                cur = cur.lhs();
            }
            next = self.node(current).left;
        }
        proof {
            reveal_with_fuel(models, 2);
            assert(models(self.heap(), next, cur.lhs()));
            assert(cur.lhs() is Empty);
        }
        (current, above)
    }

    /// Takes the node at `ptr` out of the subtree of which it is the top.
    /// With at most one child, the child takes its place. With two, the
    /// in-order successor takes the place and the colour of `ptr`, `ptr`
    /// takes the successor's slot and colour, and is then taken out of the
    /// right subtree. Returns the top of what is left, and whether it is
    /// one black node short.
    fn extract_node(&mut self, ptr: usize, Ghost(t): Ghost<Outline>) -> (res: (NodePtr, bool))
        requires
            models(old(self).heap(), Some(ptr), t),
            t.ordered(),
            t.red_black(),
        ensures
            models(final(self).heap(), res.0, t.remove(t->key).0),
            res.1 == t.remove(t->key).1,
            touched_only(old(self).heap(), final(self).heap(), t.cells()),
            is_red_leaf(final(self).heap()[ptr]),
            final(self).root_link() == old(self).root_link(),
            final(self).shape() == old(self).shape(),
        decreases t.size(), 0int,
    {
        let ghost h0 = self.heap();
        let ghost l = t.lhs();
        let ghost r = t.rhs();
        let n = self.node(ptr);
        proof {
            lemma_sides(h0, ptr, t);
            lemma_cells_known(h0, n.left, l);
            lemma_cells_known(h0, n.right, r);
            lemma_key_parts(l, ptr, n.key, n.colour, r);
            lemma_remove(t, n.key);
            assert(t.cells().contains(ptr));
        }
        if n.left.is_none() || n.right.is_none() {
            let child = if n.left.is_none() {
                n.right
            } else {
                n.left
            };
            let ghost sub = if l is Empty {
                r
            } else {
                l
            };
            proof {
                lemma_unlink(t);
                reveal_with_fuel(models, 2);
                assert(models(h0, child, sub));
                if sub is Fork {
                    assert(t.cells().contains(child.unwrap()));
                }
            }
            let short = match n.colour {
                Colour::Red => false,
                Colour::Black => if self.is_red(child) {
                    self.paint(child.unwrap(), Colour::Black, Ghost(sub));
                    false
                } else {
                    true
                },
            };
            self.store(ptr, Node::new(n.key));
            proof {
                let rest = t.remove(n.key).0;
                lemma_not_in(h0, child, sub, ptr);
                lemma_painted(sub, Colour::Black);
                let h1 = self.heap();
                if rest is Fork {
                    assert(rest.cells().contains(child.unwrap()));
                    assert(h1[child.unwrap()].left is None);
                    assert(h1[child.unwrap()].right is None);
                    assert(models(h1, h1[child.unwrap()].left, rest.lhs()));
                    assert(models(h1, h1[child.unwrap()].right, rest.rhs()));
                }
            }
            (child, short)
        } else {
            let right_child = n.right.unwrap();
            proof {
                lemma_min_known(h0, n.right, r);
                assert forall|j: usize| r.keys().contains(j) implies n.key < j by {}
                lemma_swap_min(r, ptr, n.key);
                lemma_swap_min_size(r, ptr, n.key);
                assert(t.cells().contains(r.min_at()));
                if r.lhs() is Fork {
                    assert(t.cells().contains(r.min_parent()));
                }
            }
            let (heir, heir_parent) = self.get_min(right_child, ptr, Ghost(r));
            let h = self.node(heir);
            self.store(ptr, Node { key: n.key, colour: h.colour, left: None, right: h.right });
            let below = if heir_parent == ptr {
                ptr
            } else {
                self.set_link(heir_parent, Direction::Left, Some(ptr));
                right_child
            };
            self.store(heir, Node { key: h.key, colour: n.colour, left: n.left, right: Some(below) });
            let ghost h1 = self.heap();
            let ghost swapped = r.swap_min(ptr, n.key);
            proof {
                assert(heir != ptr);
                assert forall|c: usize| #[trigger] l.cells().contains(c) implies h1.contains_key(c)
                    && h1[c] == h0[c] by {
                    assert(t.cells().contains(c));
                }
                lemma_same_cells(h0, h1, n.left, l);
                if r.lhs() is Empty {
                    reveal_with_fuel(models, 2);
                    let rr = r.rhs();
                    assert(r == branch(Outline::Empty, heir, h.key, h.colour, rr));
                    lemma_key_parts(Outline::Empty, heir, h.key, h.colour, rr);
                    lemma_cells_known(h0, h.right, rr);
                    assert forall|c: usize| #[trigger] rr.cells().contains(c) implies h1.contains_key(
                        c,
                    ) && h1[c] == h0[c] by {
                        assert(r.cells().contains(c));
                    }
                    lemma_same_cells(h0, h1, h.right, rr);
                    assert(swapped == branch(Outline::Empty, ptr, n.key, h.colour, rr));
                    assert(models(h1, Some(below), swapped));
                } else {
                    assert(heir_parent != heir) by {
                        assert(h0[heir].left is None);
                    }
                    assert forall|c: usize| #[trigger]
                        r.cells().contains(c) && c != r.min_at() && c != r.min_parent() implies h1.contains_key(
                        c,
                    ) && h1[c] == h0[c] by {}
                    lemma_swap_models(h0, h1, n.right, r, ptr, n.key);
                    assert(models(h1, Some(below), swapped));
                }
                lemma_not_in(h1, Some(below), swapped, heir);
                assert(touched_only(h0, h1, t.cells()));
                assert(swapped.size() < t.size()) by {
                    reveal_with_fuel(Outline::size, 2);
                }
            }
            let (sub, short, found) = self.pop_helper(Some(below), n.key, Ghost(swapped));
            let ghost h2 = self.heap();
            self.set_link(heir, Direction::Right, sub);
            let ghost h3 = self.heap();
            let ghost rest = swapped.remove(n.key).0;
            let ghost mid = branch(l, heir, h.key, n.colour, rest);
            proof {
                lemma_remove(swapped, n.key);
                lemma_cells_known(h1, Some(below), swapped);
                lemma_cells_known(h1, n.left, l);
                lemma_cells_known(h2, sub, rest);
                assert forall|c: usize| #[trigger] l.cells().contains(c) implies h3.contains_key(c)
                    && h3[c] == h1[c] by {
                    assert(l.keys().contains(h1[c].key));
                    if swapped.cells().contains(c) {
                        assert(swapped.keys().contains(h1[c].key));
                    }
                }
                lemma_same_cells(h1, h3, n.left, l);
                assert forall|c: usize| #[trigger] rest.cells().contains(c) implies h3.contains_key(
                    c,
                ) && h3[c] == h2[c] by {
                    assert(swapped.cells().contains(c));
                }
                lemma_same_cells(h2, h3, sub, rest);
                assert(h2[heir] == h1[heir]);
                assert(models(h3, Some(heir), mid));
                lemma_key_parts(l, heir, h.key, n.colour, rest);
                assert(rest.keys() =~= r.keys().remove(h.key));
                assert forall|j: usize| l.keys().contains(j) implies j < h.key by {
                    assert(r.keys().contains(h.key));
                }
                assert forall|j: usize| rest.keys().contains(j) implies h.key < j by {
                    assert(r.keys().contains(j));
                }
                assert(mid.ordered());
                assert(t.remove(n.key) == mid.settle(Direction::Right, short));
                assert forall|c: usize| #[trigger] mid.cells().contains(c) implies t.cells().contains(
                    c,
                ) by {
                    if rest.cells().contains(c) {
                        assert(swapped.cells().contains(c));
                    }
                }
                assert(found == Some(ptr));
                lemma_not_in(h3, Some(heir), mid, ptr);
                assert(touched_only(h0, h3, t.cells()));
            }
            let (top, still) = self.settle(heir, Direction::Right, short, Ghost(mid));
            proof {
                assert(touched_only(h0, self.heap(), t.cells()));
            }
            (Some(top), still)
        }
    }

    /// Searches below `node` for the smallest key that is at least `key`
    /// and takes its node out. Returns the top of what is left, whether it
    /// is one black node short, and the node taken out.
    fn pop_helper(&mut self, node: NodePtr, key: usize, Ghost(t): Ghost<Outline>) -> (res: (
        NodePtr,
        bool,
        NodePtr,
    ))
        requires
            models(old(self).heap(), node, t),
            t.ordered(),
            t.red_black(),
        ensures
            models(final(self).heap(), res.0, t.remove(key).0),
            res.1 == t.remove(key).1,
            res.2 == (match t.fit(key) {
                Some(best) => Some(t.locate(best)),
                None => None,
            }),
            res.2 matches Some(found) ==> is_red_leaf(final(self).heap()[found]),
            touched_only(old(self).heap(), final(self).heap(), t.cells()),
            final(self).root_link() == old(self).root_link(),
            final(self).shape() == old(self).shape(),
        decreases t.size(), 1int,
    {
        let ghost h0 = self.heap();
        match node {
            None => (None, false, None),
            Some(ptr) => {
                let n = self.node(ptr);
                let ghost l = t.lhs();
                let ghost r = t.rhs();
                proof {
                    lemma_sides(h0, ptr, t);
                    lemma_cells_known(h0, n.left, l);
                    lemma_cells_known(h0, n.right, r);
                    lemma_key_parts(l, ptr, n.key, n.colour, r);
                    lemma_fit(l, key);
                    lemma_fit(r, key);
                    lemma_fit(t, key);
                    lemma_remove(l, key);
                    lemma_remove(r, key);
                    lemma_remove(t, key);
                    reveal_with_fuel(Outline::red_black, 2);
                    assert(t.cells().contains(ptr));
                }
                if key > n.key {
                    let (sub, short, found) = self.pop_helper(n.right, key, Ghost(r));
                    let ghost h1 = self.heap();
                    self.set_link(ptr, Direction::Right, sub);
                    let ghost h2 = self.heap();
                    let ghost rest = r.remove(key).0;
                    let ghost mid = t.with_child(Direction::Right, rest);
                    proof {
                        lemma_cells_known(h1, sub, rest);
                        assert forall|c: usize| #[trigger] rest.cells().contains(c) implies h2.contains_key(
                            c,
                        ) && h2[c] == h1[c] by {
                            assert(r.cells().contains(c));
                        }
                        lemma_same_cells(h1, h2, sub, rest);
                        assert forall|c: usize| #[trigger] l.cells().contains(c) implies h2.contains_key(
                            c,
                        ) && h2[c] == h0[c] by {}
                        lemma_same_cells(h0, h2, n.left, l);
                        assert(h1[ptr] == h0[ptr]);
                        assert(mid == branch(l, ptr, n.key, n.colour, rest));
                        assert(models(h2, Some(ptr), mid));
                        lemma_key_parts(l, ptr, n.key, n.colour, rest);
                        assert(mid.ordered());
                        assert(touched_only(h0, h2, t.cells()));
                        if found is Some {
                            lemma_locate_known(h0, n.right, r, r.fit(key).unwrap());
                            lemma_not_in(h2, Some(ptr), mid, found.unwrap());
                        }
                    }
                    let (top, still) = self.settle(ptr, Direction::Right, short, Ghost(mid));
                    proof {
                        assert(touched_only(h0, self.heap(), t.cells()));
                    }
                    (Some(top), still, found)
                } else {
                    if key < n.key {
                        let (sub, short, found) = self.pop_helper(n.left, key, Ghost(l));
                        if found.is_some() {
                            let ghost h1 = self.heap();
                            self.set_link(ptr, Direction::Left, sub);
                            let ghost h2 = self.heap();
                            let ghost rest = l.remove(key).0;
                            let ghost mid = t.with_child(Direction::Left, rest);
                            proof {
                                lemma_cells_known(h1, sub, rest);
                                assert forall|c: usize| #[trigger]
                                    rest.cells().contains(c) implies h2.contains_key(c) && h2[c]
                                    == h1[c] by {
                                    assert(l.cells().contains(c));
                                }
                                lemma_same_cells(h1, h2, sub, rest);
                                assert forall|c: usize| #[trigger]
                                    r.cells().contains(c) implies h2.contains_key(c) && h2[c]
                                    == h0[c] by {}
                                lemma_same_cells(h0, h2, n.right, r);
                                assert(h1[ptr] == h0[ptr]);
                                assert(mid == branch(rest, ptr, n.key, n.colour, r));
                                assert(models(h2, Some(ptr), mid));
                                lemma_key_parts(rest, ptr, n.key, n.colour, r);
                                assert(mid.ordered());
                                assert(touched_only(h0, h2, t.cells()));
                                lemma_locate_known(h0, n.left, l, l.fit(key).unwrap());
                                lemma_not_in(h2, Some(ptr), mid, found.unwrap());
                            }
                            let (top, still) = self.settle(ptr, Direction::Left, short, Ghost(mid));
                            proof {
                                assert(touched_only(h0, self.heap(), t.cells()));
                            }
                            return (Some(top), still, found);
                        }
                        proof {
                            let h1 = self.heap();
                            assert(l.remove(key).0 == l);
                            lemma_cells_known(h1, sub, l);
                            reveal_with_fuel(models, 2);
                            assert(sub == n.left);
                            assert forall|c: usize| #[trigger] r.cells().contains(c) implies h1.contains_key(
                                c,
                            ) && h1[c] == h0[c] by {}
                            lemma_same_cells(h0, h1, n.right, r);
                            assert(models(h1, Some(ptr), t));
                            assert(t.remove(key) == t.remove(n.key));
                        }
                    }
                    let (top, short) = self.extract_node(ptr, Ghost(t));
                    proof {
                        assert(t.fit(key) == Some(n.key));
                        assert(touched_only(h0, self.heap(), t.cells()));
                    }
                    (top, short, Some(ptr))
                }
            },
        }
    }

    /// Takes the node with the smallest key that is at least `key` out of
    /// the tree and returns its address, or nothing if every key is
    /// smaller. The node taken out stays in the table as a red leaf.
    pub fn pop(&mut self, key: usize) -> (found: NodePtr)
        requires
            old(self).wf(),
        ensures
            final(self).wf(),
            final(self).shape() == old(self).shape().remove(key).0.painted(Colour::Black),
            touched_only(old(self).heap(), final(self).heap(), old(self).shape().cells()),
            found is None <==> forall|k: usize| old(self)@.contains(k) ==> k < key,
            found is None ==> final(self)@ == old(self)@,
            found matches Some(at) ==> {
                let best = old(self).heap()[at].key;
                &&& old(self).heap().contains_key(at)
                &&& old(self).shape().cells().contains(at)
                &&& old(self)@.contains(best)
                &&& key <= best
                &&& forall|k: usize| old(self)@.contains(k) && key <= k ==> best <= k
                &&& final(self)@ == old(self)@.remove(best)
                &&& !final(self).shape().cells().contains(at)
                &&& is_red_leaf(final(self).heap()[at])
            },
    {
        let ghost t = self.shape@;
        let ghost h0 = self.heap();
        proof {
            lemma_fit(t, key);
            lemma_remove(t, key);
            if t.fit(key) is Some {
                lemma_locate_known(h0, self.root, t, t.fit(key).unwrap());
            }
        }
        let (top, short, found) = self.pop_helper(self.root, key, Ghost(t));
        let ghost rest = t.remove(key).0;
        self.root = top;
        proof {
            lemma_painted(rest, Colour::Black);
        }
        match top {
            Some(at) => {
                self.paint(at, Colour::Black, Ghost(rest));
            },
            None => {},
        }
        self.shape = Ghost(rest.painted(Colour::Black));
        proof {
            let black = rest.painted(Colour::Black);
            assert(black.red_black()) by {
                reveal_with_fuel(Outline::red_black, 2);
            }
            assert(old(self)@ == t.keys());
            assert(self@ == rest.keys());
            if found is Some {
                lemma_not_in(self.heap(), self.root, black, found.unwrap());
            }
            if rest is Fork {
                lemma_cells_known(self.heap(), self.root, black);
                assert(black.cells().contains(top.unwrap()));
                assert(t.cells().contains(top.unwrap()));
            }
            assert(touched_only(h0, self.heap(), t.cells()));
        }
        found
    }
}

} // verus!
