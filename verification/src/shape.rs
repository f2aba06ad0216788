//! The outline of a chunk tree: which header sits where, and with which
//! capacity. Everything here is ghost; the executable tree proves that its
//! headers spell out one of these outlines.

use vstd::prelude::*;
use vstd::arithmetic::power2::pow2;
use vstd::arithmetic::power2::lemma_pow2_unfold;
use vstd::arithmetic::power2::lemma2_to64;

verus! {

/// A binary tree of header addresses (`at`) labelled with capacities (`key`).
pub enum Shape {
    Empty,
    Fork { left: Box<Shape>, at: usize, key: usize, right: Box<Shape> },
}

/// The tree with the given root and subtrees.
pub open spec fn fork(left: Shape, at: usize, key: usize, right: Shape) -> Shape {
    Shape::Fork { left: Box::new(left), at, key, right: Box::new(right) }
}

/// The fewest nodes a balanced tree of height `h` can have.
pub open spec fn min_nodes(h: nat) -> nat
    decreases h,
{
    if h == 0 {
        0
    } else if h == 1 {
        1
    } else {
        1 + min_nodes((h - 1) as nat) + min_nodes((h - 2) as nat)
    }
}

/// No balanced tree over distinct `usize` keys is this tall.
pub open spec fn height_limit() -> int {
    130
}

impl Shape {
    /// The left subtree (empty for an empty tree).
    pub open spec fn lhs(self) -> Shape {
        match self {
            Shape::Fork { left, .. } => *left,
            Shape::Empty => Shape::Empty,
        }
    }

    /// The right subtree (empty for an empty tree).
    pub open spec fn rhs(self) -> Shape {
        match self {
            Shape::Fork { right, .. } => *right,
            Shape::Empty => Shape::Empty,
        }
    }

    /// 0 for the empty tree, 1 for a leaf.
    pub open spec fn height(self) -> int
        decreases self,
    {
        match self {
            Shape::Empty => 0,
            Shape::Fork { left, right, .. } => 1 + if left.height() >= right.height() {
                left.height()
            } else {
                right.height()
            },
        }
    }

    /// The number of nodes.
    pub open spec fn size(self) -> nat
        decreases self,
    {
        match self {
            Shape::Empty => 0,
            Shape::Fork { left, right, .. } => 1 + left.size() + right.size(),
        }
    }

    /// Capacity to header address, for every node.
    pub open spec fn index(self) -> Map<usize, usize>
        decreases self,
    {
        match self {
            Shape::Empty => Map::empty(),
            Shape::Fork { left, at, key, right } => left.index().union_prefer_right(
                right.index(),
            ).insert(key, at),
        }
    }

    /// The header addresses of all nodes.
    pub open spec fn cells(self) -> Set<usize>
        decreases self,
    {
        match self {
            Shape::Empty => Set::empty(),
            Shape::Fork { left, at, right, .. } => left.cells().union(right.cells()).insert(at),
        }
    }

    /// Search-tree order: at every node, everything to the left is strictly
    /// smaller and everything to the right strictly larger.
    pub open spec fn ordered(self) -> bool
        decreases self,
    {
        match self {
            Shape::Empty => true,
            Shape::Fork { left, key, right, .. } => {
                &&& left.ordered()
                &&& right.ordered()
                &&& forall|k: usize| left.index().contains_key(k) ==> k < key
                &&& forall|k: usize| right.index().contains_key(k) ==> key < k
            },
        }
    }

    /// Left height minus right height.
    pub open spec fn factor(self) -> int {
        self.lhs().height() - self.rhs().height()
    }

    /// AVL balance: at every node the two subtree heights differ by at most 1.
    pub open spec fn balanced(self) -> bool
        decreases self,
    {
        match self {
            Shape::Empty => true,
            Shape::Fork { left, right, .. } => {
                &&& left.balanced()
                &&& right.balanced()
                &&& -1 <= left.height() - right.height() <= 1
            },
        }
    }

    /// Promotes the left child; the old root becomes its right child and
    /// adopts the left child's former right subtree.
    pub open spec fn rotate_right(self) -> Shape {
        match self {
            Shape::Fork { left, at, key, right } => match *left {
                Shape::Fork { left: ll, at: lat, key: lkey, right: lr } => fork(
                    *ll,
                    lat,
                    lkey,
                    fork(*lr, at, key, *right),
                ),
                Shape::Empty => self,
            },
            Shape::Empty => self,
        }
    }

    /// Mirror image of [`Shape::rotate_right`].
    pub open spec fn rotate_left(self) -> Shape {
        match self {
            Shape::Fork { left, at, key, right } => match *right {
                Shape::Fork { left: rl, at: rat, key: rkey, right: rr } => fork(
                    fork(*left, at, key, *rl),
                    rat,
                    rkey,
                    *rr,
                ),
                Shape::Empty => self,
            },
            Shape::Empty => self,
        }
    }

    /// The subtree rooted at (`at`, `key`) over `left` and `right`, after the
    /// rotations that a height difference of two calls for.
    pub open spec fn rebalance(left: Shape, at: usize, key: usize, right: Shape) -> Shape {
        let balance = left.height() - right.height();
        if balance > 1 {
            let inner = if left.factor() < 0 {
                left.rotate_left()
            } else {
                left
            };
            fork(inner, at, key, right).rotate_right()
        } else if balance < -1 {
            let inner = if right.factor() > 0 {
                right.rotate_right()
            } else {
                right
            };
            fork(left, at, key, inner).rotate_left()
        } else {
            fork(left, at, key, right)
        }
    }

    /// Descent by key; an equal key leaves the tree as it is.
    pub open spec fn insert(self, at: usize, key: usize) -> Shape
        decreases self,
    {
        match self {
            Shape::Empty => fork(Shape::Empty, at, key, Shape::Empty),
            Shape::Fork { left, at: a, key: k, right } => if key < k {
                Shape::rebalance(left.insert(at, key), a, k, *right)
            } else if key > k {
                Shape::rebalance(*left, a, k, right.insert(at, key))
            } else {
                self
            },
        }
    }

    /// The subtree whose root is the node at `at`.
    pub open spec fn subtree(self, at: usize) -> Shape
        decreases self,
    {
        match self {
            Shape::Empty => Shape::Empty,
            Shape::Fork { left, at: a, right, .. } => if a == at {
                self
            } else if left.cells().contains(at) {
                left.subtree(at)
            } else {
                right.subtree(at)
            },
        }
    }

    /// The smallest key that is at least `size`, if there is one.
    pub open spec fn fit(self, size: usize) -> Option<usize>
        decreases self,
    {
        match self {
            Shape::Empty => None,
            Shape::Fork { left, key, right, .. } => if size > key {
                right.fit(size)
            } else if size == key {
                Some(key)
            } else {
                match left.fit(size) {
                    Some(k) => Some(k),
                    None => Some(key),
                }
            },
        }
    }

    /// The key of the leftmost node.
    pub open spec fn min_key(self) -> usize
        decreases self,
    {
        match self {
            Shape::Empty => 0,
            Shape::Fork { left, key, .. } => if *left is Empty {
                key
            } else {
                left.min_key()
            },
        }
    }

    /// The address of the leftmost node.
    pub open spec fn min_at(self) -> usize
        decreases self,
    {
        match self {
            Shape::Empty => 0,
            Shape::Fork { left, at, .. } => if *left is Empty {
                at
            } else {
                left.min_at()
            },
        }
    }

    /// The address of the node whose left child is the leftmost node, in a
    /// tree whose root is not itself the leftmost.
    pub open spec fn min_parent(self) -> usize
        decreases self,
    {
        match self {
            Shape::Empty => 0,
            Shape::Fork { left, at, .. } => if left.lhs() is Empty {
                at
            } else {
                left.min_parent()
            },
        }
    }

    /// The same tree with (`at`, `key`) standing where the leftmost node stood.
    pub open spec fn swap_min(self, at: usize, key: usize) -> Shape
        decreases self,
    {
        match self {
            Shape::Empty => Shape::Empty,
            Shape::Fork { left, at: a, key: k, right } => if *left is Empty {
                fork(Shape::Empty, at, key, *right)
            } else {
                fork(left.swap_min(at, key), a, k, *right)
            },
        }
    }

    /// Whether the root has two children and its in-order successor lies
    /// below its right child.
    pub open spec fn successor_is_deep(self) -> bool {
        self.lhs() is Fork && self.rhs() is Fork && self.rhs().lhs() is Fork
    }

    /// The address of the node that takes the root's place when the root is
    /// cut out: its only child, or else its in-order successor.
    pub open spec fn heir_at(self) -> usize {
        if self.rhs() is Empty {
            self.lhs()->at
        } else if self.lhs() is Empty {
            self.rhs()->at
        } else {
            self.rhs().min_at()
        }
    }

    /// The address of the node from which that node hung before: the root
    /// itself, unless the successor lies deep.
    pub open spec fn heir_parent(self) -> usize {
        if self.successor_is_deep() {
            self.rhs().min_parent()
        } else {
            self->at
        }
    }

    /// The key of that node.
    pub open spec fn heir_key(self) -> usize {
        if self.rhs() is Empty {
            self.lhs()->key
        } else if self.lhs() is Empty {
            self.rhs()->key
        } else {
            self.rhs().min_key()
        }
    }

    /// What hangs to the left of that node once it has taken the place.
    pub open spec fn heir_left(self) -> Shape {
        if self.rhs() is Empty {
            self.lhs().lhs()
        } else if self.lhs() is Empty {
            self.rhs().lhs()
        } else {
            self.lhs()
        }
    }

    /// What hangs to the right of that node once it has taken the place.
    /// With a deep successor this is the whole right subtree, in which the
    /// old root now stands in the successor's slot.
    pub open spec fn heir_right(self) -> Shape {
        if self.rhs() is Empty {
            self.lhs().rhs()
        } else if self.lhs() is Empty {
            self.rhs().rhs()
        } else if self.rhs().lhs() is Empty {
            self.rhs().rhs()
        } else {
            self.rhs().swap_min(self->at, self->key)
        }
    }

    /// The tree after the best fit for `size` has been taken out: the
    /// search goes left of every node that is large enough and right of
    /// every node that is too small; the node found gives its place to its
    /// only child or to its in-order successor, and every node on the way
    /// back up is rebalanced. Without a fit the tree stays as it is.
    pub open spec fn remove(self, size: usize) -> Shape
        decreases self.size(),
    {
        match self {
            Shape::Empty => Shape::Empty,
            Shape::Fork { left, at, key, right } => if size > key {
                Shape::rebalance(*left, at, key, right.remove(size))
            } else if size < key && left.fit(size) is Some {
                Shape::rebalance(left.remove(size), at, key, *right)
            } else if *left is Empty && *right is Empty {
                Shape::Empty
            } else if *right is Empty {
                *left
            } else if *left is Empty {
                *right
            } else if right.lhs() is Empty {
                Shape::rebalance(*left, right.min_at(), right.min_key(), right.rhs())
            } else {
                proof {
                    lemma_swap_min_size(*right, at, key);
                }
                Shape::rebalance(
                    *left,
                    right.min_at(),
                    right.min_key(),
                    right.swap_min(at, key).remove(key),
                )
            },
        }
    }
}

/// The keys of a tree are its root's key and the keys of its two subtrees.
pub proof fn lemma_index_parts(left: Shape, at: usize, key: usize, right: Shape)
    ensures
        fork(left, at, key, right).index().contains_key(key),
        forall|k: usize| #[trigger]
            fork(left, at, key, right).index().contains_key(k) <==> (k == key
                || left.index().contains_key(k) || right.index().contains_key(k)),
{
}

pub proof fn lemma_height_nonnegative(t: Shape)
    ensures
        t.height() >= 0,
        t.height() == 0 <==> t is Empty,
    decreases t,
{
    match t {
        Shape::Empty => {},
        Shape::Fork { left, right, .. } => {
            lemma_height_nonnegative(*left);
            lemma_height_nonnegative(*right);
        },
    }
}

pub proof fn lemma_rotate_right(t: Shape)
    requires
        t is Fork,
        t.lhs() is Fork,
        t.ordered(),
    ensures
        t.rotate_right().ordered(),
        t.rotate_right().index() == t.index(),
        t.rotate_right().cells() == t.cells(),
        t.rotate_right().size() == t.size(),
{
    reveal_with_fuel(Shape::ordered, 3);
    reveal_with_fuel(Shape::index, 3);
    reveal_with_fuel(Shape::cells, 3);
    reveal_with_fuel(Shape::size, 3);
    let l = t.lhs();
    let r = t.rhs();
    let ll = l.lhs();
    let lr = l.rhs();
    let key = t->key;
    let lkey = l->key;
    let low = fork(lr, t->at, key, r);
    let rotated = t.rotate_right();
    assert(rotated == fork(ll, l->at, lkey, low));
    assert(l.index().contains_key(lkey));
    assert forall|k: usize| lr.index().contains_key(k) implies k < key by {
        assert(l.index().contains_key(k));
    }
    assert forall|k: usize| ll.index().contains_key(k) implies k < key by {
        assert(l.index().contains_key(k));
    }
    assert(low.ordered());
    assert forall|k: usize| low.index().contains_key(k) implies lkey < k by {
        if lr.index().contains_key(k) {
        } else if k == key {
        } else {
            assert(r.index().contains_key(k));
        }
    }
    assert(rotated.ordered());
    assert forall|k: usize| rotated.index().contains_key(k) <==> t.index().contains_key(k) by {
        if k == key || k == lkey {
        } else if r.index().contains_key(k) {
            assert(low.index().contains_key(k));
        } else if lr.index().contains_key(k) {
            assert(low.index().contains_key(k));
            assert(l.index().contains_key(k));
        } else if ll.index().contains_key(k) {
            assert(l.index().contains_key(k));
        }
    }
    assert forall|k: usize| rotated.index().contains_key(k) implies rotated.index()[k]
        == t.index()[k] by {
        if k == lkey {
            assert(!r.index().contains_key(k));
        } else if k == key {
            assert(low.index().contains_key(k));
        } else if r.index().contains_key(k) {
            assert(low.index().contains_key(k));
        } else if lr.index().contains_key(k) {
            assert(low.index().contains_key(k));
            assert(l.index().contains_key(k));
        } else {
            assert(!low.index().contains_key(k));
            assert(ll.index().contains_key(k));
            assert(l.index().contains_key(k));
        }
    }
    assert(rotated.index() =~= t.index());
    assert(rotated.cells() =~= t.cells());
}

pub proof fn lemma_rotate_left(t: Shape)
    requires
        t is Fork,
        t.rhs() is Fork,
        t.ordered(),
    ensures
        t.rotate_left().ordered(),
        t.rotate_left().index() == t.index(),
        t.rotate_left().cells() == t.cells(),
        t.rotate_left().size() == t.size(),
{
    reveal_with_fuel(Shape::ordered, 3);
    reveal_with_fuel(Shape::index, 3);
    reveal_with_fuel(Shape::cells, 3);
    reveal_with_fuel(Shape::size, 3);
    let l = t.lhs();
    let r = t.rhs();
    let rl = r.lhs();
    let rr = r.rhs();
    let key = t->key;
    let rkey = r->key;
    let low = fork(l, t->at, key, rl);
    let rotated = t.rotate_left();
    assert(rotated == fork(low, r->at, rkey, rr));
    assert(r.index().contains_key(rkey));
    assert forall|k: usize| rl.index().contains_key(k) implies key < k by {
        assert(r.index().contains_key(k));
    }
    assert forall|k: usize| rr.index().contains_key(k) implies key < k by {
        assert(r.index().contains_key(k));
    }
    assert(low.ordered());
    assert forall|k: usize| low.index().contains_key(k) implies k < rkey by {
        if rl.index().contains_key(k) {
        } else if k == key {
        } else {
            assert(l.index().contains_key(k));
        }
    }
    assert(rotated.ordered());
    assert forall|k: usize| rotated.index().contains_key(k) <==> t.index().contains_key(k) by {
        if k == key || k == rkey {
        } else if l.index().contains_key(k) {
            assert(low.index().contains_key(k));
        } else if rl.index().contains_key(k) {
            assert(low.index().contains_key(k));
            assert(r.index().contains_key(k));
        } else if rr.index().contains_key(k) {
            assert(r.index().contains_key(k));
        }
    }
    assert forall|k: usize| rotated.index().contains_key(k) implies rotated.index()[k]
        == t.index()[k] by {
        if k == rkey {
            assert(r.index().contains_key(k));
        } else if k == key {
            assert(low.index().contains_key(k));
            assert(!rr.index().contains_key(k));
        } else if rr.index().contains_key(k) {
            assert(r.index().contains_key(k));
        } else if rl.index().contains_key(k) {
            assert(low.index().contains_key(k));
            assert(r.index().contains_key(k));
        } else {
            assert(l.index().contains_key(k));
            assert(low.index().contains_key(k));
            assert(!r.index().contains_key(k));
        }
    }
    assert(rotated.index() =~= t.index());
    assert(rotated.cells() =~= t.cells());
}

/// What rebalancing keeps and what it restores.
pub proof fn lemma_rebalance(left: Shape, at: usize, key: usize, right: Shape)
    requires
        fork(left, at, key, right).ordered(),
        left.balanced(),
        right.balanced(),
        -2 <= left.height() - right.height() <= 2,
    ensures
        ({
            let before = fork(left, at, key, right);
            let after = Shape::rebalance(left, at, key, right);
            &&& after is Fork
            &&& after.ordered()
            &&& after.balanced()
            &&& after.index() == before.index()
            &&& after.cells() == before.cells()
            &&& after.size() == before.size()
            &&& before.height() - 1 <= after.height() <= before.height()
            &&& (-1 <= left.height() - right.height() <= 1 ==> after == before)
            &&& (left.height() - right.height() == 2 && left.factor() != 0 ==> after.height()
                == before.height() - 1)
            &&& (left.height() - right.height() == -2 && right.factor() != 0 ==> after.height()
                == before.height() - 1)
        }),
{
    let before = fork(left, at, key, right);
    let balance = left.height() - right.height();
    lemma_height_nonnegative(left);
    lemma_height_nonnegative(right);
    if balance > 1 {
        lemma_height_nonnegative(left.lhs());
        lemma_height_nonnegative(left.rhs());
        if left.factor() < 0 {
            let inner = left.rotate_left();
            lemma_height_nonnegative(left.rhs().lhs());
            lemma_height_nonnegative(left.rhs().rhs());
            lemma_rotate_left(left);
            assert(fork(inner, at, key, right).ordered());
            lemma_rotate_right(fork(inner, at, key, right));
            reveal_with_fuel(Shape::height, 4);
            reveal_with_fuel(Shape::balanced, 4);
        } else {
            lemma_rotate_right(before);
            reveal_with_fuel(Shape::height, 3);
            reveal_with_fuel(Shape::balanced, 3);
        }
    } else if balance < -1 {
        lemma_height_nonnegative(right.lhs());
        lemma_height_nonnegative(right.rhs());
        if right.factor() > 0 {
            let inner = right.rotate_right();
            lemma_height_nonnegative(right.lhs().lhs());
            lemma_height_nonnegative(right.lhs().rhs());
            lemma_rotate_right(right);
            assert(fork(left, at, key, inner).ordered());
            lemma_rotate_left(fork(left, at, key, inner));
            reveal_with_fuel(Shape::height, 4);
            reveal_with_fuel(Shape::balanced, 4);
        } else {
            lemma_rotate_left(before);
            reveal_with_fuel(Shape::height, 3);
            reveal_with_fuel(Shape::balanced, 3);
        }
    }
}

/// Insertion keeps order and balance, adds the key unless it is taken, and
/// grows the tree by at most one level.
pub proof fn lemma_insert(t: Shape, at: usize, key: usize)
    requires
        t.ordered(),
        t.balanced(),
    ensures
        ({
            let grown = t.insert(at, key);
            &&& grown is Fork
            &&& grown.ordered()
            &&& grown.balanced()
            &&& t.height() <= grown.height() <= t.height() + 1
            &&& t.index().contains_key(key) ==> grown == t
            &&& !t.index().contains_key(key) ==> {
                &&& grown.index() == t.index().insert(key, at)
                &&& grown.cells() == t.cells().insert(at)
                &&& grown.size() == t.size() + 1
            }
        }),
    decreases t,
{
    match t {
        Shape::Empty => {
            reveal_with_fuel(Shape::size, 2);
            let grown = t.insert(at, key);
            assert(grown == fork(Shape::Empty, at, key, Shape::Empty));
            assert(Shape::Empty.index() =~= Map::<usize, usize>::empty());
            assert(grown.ordered());
            assert(grown.balanced());
            assert(grown.height() == 1);
            assert(grown.index() =~= t.index().insert(key, at));
            assert(grown.cells() =~= t.cells().insert(at));
            assert(grown.size() == 1);
            assert(t.height() == 0);
            assert(!t.index().contains_key(key));
            assert(grown.index() == t.index().insert(key, at));
            assert(grown.cells() == t.cells().insert(at));
            assert(grown.size() == t.size() + 1);
        },
        Shape::Fork { left, at: a, key: k, right } => {
            if key < k {
                lemma_insert(*left, at, key);
                let sub = left.insert(at, key);
                assert(fork(sub, a, k, *right).ordered());
                lemma_rebalance(sub, a, k, *right);
                let grown = t.insert(at, key);
                if !t.index().contains_key(key) {
                    assert(grown.index() =~= t.index().insert(key, at));
                    assert(grown.cells() =~= t.cells().insert(at));
                } else {
                    assert(!right.index().contains_key(key));
                    assert(left.index().contains_key(key));
                    assert(sub == *left);
                    assert(t == fork(*left, a, k, *right));
                }
            } else if key > k {
                lemma_insert(*right, at, key);
                let sub = right.insert(at, key);
                assert(fork(*left, a, k, sub).ordered());
                lemma_rebalance(*left, a, k, sub);
                let grown = t.insert(at, key);
                if !t.index().contains_key(key) {
                    assert(grown.index() =~= t.index().insert(key, at));
                    assert(grown.cells() =~= t.cells().insert(at));
                } else {
                    assert(!left.index().contains_key(key));
                    assert(right.index().contains_key(key));
                    assert(sub == *right);
                    assert(t == fork(*left, a, k, *right));
                }
            }
        },
    }
}

pub proof fn lemma_min_nodes_monotonic(a: nat, b: nat)
    requires
        a <= b,
    ensures
        min_nodes(a) <= min_nodes(b),
    decreases b,
{
    if a < b {
        lemma_min_nodes_monotonic(a, (b - 1) as nat);
    }
}

pub proof fn lemma_min_nodes_doubles(k: nat)
    ensures
        min_nodes(2 * k) + 1 >= pow2(k),
    decreases k,
{
    if k == 0 {
        lemma2_to64();
    } else {
        lemma_min_nodes_doubles((k - 1) as nat);
        lemma_pow2_unfold(k);
        lemma_min_nodes_monotonic((2 * k - 2) as nat, (2 * k - 1) as nat);
    }
}

pub proof fn lemma_size_at_least(t: Shape)
    requires
        t.balanced(),
    ensures
        t.height() >= 0,
        t.size() >= min_nodes(t.height() as nat),
    decreases t,
{
    lemma_height_nonnegative(t);
    match t {
        Shape::Empty => {},
        Shape::Fork { left, right, .. } => {
            lemma_size_at_least(*left);
            lemma_size_at_least(*right);
            let h = t.height();
            if h >= 2 {
                if left.height() >= right.height() {
                    lemma_min_nodes_monotonic((h - 2) as nat, right.height() as nat);
                } else {
                    lemma_min_nodes_monotonic((h - 2) as nat, left.height() as nat);
                }
            }
        },
    }
}

pub proof fn lemma_size_within(t: Shape, lo: int, hi: int)
    requires
        t.ordered(),
        lo <= hi + 1,
        forall|k: usize| t.index().contains_key(k) ==> lo <= k <= hi,
    ensures
        t.size() <= hi - lo + 1,
    decreases t,
{
    match t {
        Shape::Empty => {},
        Shape::Fork { left, key, right, .. } => {
            assert(t.index().contains_key(key));
            assert forall|k: usize| left.index().contains_key(k) implies lo <= k <= key - 1 by {
                assert(t.index().contains_key(k));
            }
            assert forall|k: usize| right.index().contains_key(k) implies key + 1 <= k <= hi by {
                assert(t.index().contains_key(k));
            }
            lemma_size_within(*left, lo, key - 1);
            lemma_size_within(*right, key + 1, hi);
        },
    }
}

/// An ordered, balanced tree is short enough for its heights to be counted
/// in an `i32` with room to spare.
pub proof fn lemma_height_bound(t: Shape)
    requires
        t.ordered(),
        t.balanced(),
    ensures
        0 <= t.height() < height_limit(),
{
    lemma_size_at_least(t);
    lemma_size_within(t, 0, usize::MAX as int);
    if t.height() >= 130 {
        lemma_min_nodes_monotonic(130, t.height() as nat);
        lemma_min_nodes_doubles(65);
        lemma_pow2_unfold(65);
        lemma2_to64();
        assert(usize::MAX <= 0xffff_ffff_ffff_ffff);
    }
}

pub proof fn lemma_swap_min_size(t: Shape, at: usize, key: usize)
    ensures
        t.swap_min(at, key).size() == t.size(),
        t.swap_min(at, key).height() == t.height(),
        t.swap_min(at, key).balanced() == t.balanced(),
        t is Fork <==> t.swap_min(at, key) is Fork,
    decreases t,
{
    match t {
        Shape::Empty => {},
        Shape::Fork { left, right, .. } => {
            if !(*left is Empty) {
                lemma_swap_min_size(*left, at, key);
            }
        },
    }
}

/// `fit` is the lower bound of the keys: the least key that is at least
/// `size`, and nothing exactly when every key is smaller.
pub proof fn lemma_fit(t: Shape, size: usize)
    requires
        t.ordered(),
    ensures
        match t.fit(size) {
            None => forall|k: usize| t.index().contains_key(k) ==> k < size,
            Some(best) => {
                &&& t.index().contains_key(best)
                &&& size <= best
                &&& forall|k: usize| t.index().contains_key(k) && size <= k ==> best <= k
            },
        },
    decreases t,
{
    match t {
        Shape::Empty => {},
        Shape::Fork { left, at, key, right } => {
            lemma_index_parts(*left, at, key, *right);
            assert(t == fork(*left, at, key, *right));
            lemma_fit(*left, size);
            lemma_fit(*right, size);
        },
    }
}

/// What trading the leftmost node for a smaller key does to a tree.
pub proof fn lemma_swap_min(t: Shape, at: usize, key: usize)
    requires
        t is Fork,
        t.ordered(),
        forall|k: usize| t.index().contains_key(k) ==> key < k,
    ensures
        ({
            let swapped = t.swap_min(at, key);
            &&& swapped is Fork
            &&& swapped.ordered()
            &&& swapped.fit(key) == Some(key)
            &&& swapped.index() == t.index().remove(t.min_key()).insert(key, at)
            &&& swapped.index()[key] == at
            &&& t.index().contains_key(t.min_key())
            &&& t.index()[t.min_key()] == t.min_at()
            &&& t.cells().contains(t.min_at())
            &&& forall|k: usize| t.index().contains_key(k) ==> t.min_key() <= k
            &&& forall|c: usize| swapped.cells().contains(c) ==> c == at || t.cells().contains(c)
            &&& forall|c: usize|
                t.cells().contains(c) ==> c == t.min_at() || swapped.cells().contains(c)
        }),
    decreases t,
{
    match t {
        Shape::Empty => {},
        Shape::Fork { left, at: a, key: k, right } => {
            lemma_index_parts(*left, a, k, *right);
            assert(t == fork(*left, a, k, *right));
            let swapped = t.swap_min(at, key);
            if *left is Empty {
                assert(left.index() =~= Map::<usize, usize>::empty());
                lemma_index_parts(Shape::Empty, at, key, *right);
                assert(swapped.index() =~= t.index().remove(k).insert(key, at));
                assert(!right.index().contains_key(k));
            } else {
                assert forall|j: usize| left.index().contains_key(j) implies key < j by {
                    assert(t.index().contains_key(j));
                }
                lemma_swap_min(*left, at, key);
                let inner = left.swap_min(at, key);
                lemma_index_parts(inner, a, k, *right);
                assert(swapped == fork(inner, a, k, *right));
                assert forall|j: usize| inner.index().contains_key(j) implies j < k by {
                    if j != key {
                        assert(left.index().contains_key(j));
                    }
                }
                assert(swapped.ordered());
                let m = left.min_key();
                assert(!right.index().contains_key(m));
                assert(!right.index().contains_key(key));
                assert(swapped.index() =~= t.index().remove(m).insert(key, at));
            }
        },
    }
}

/// One subtree was replaced by a copy from which the key `best` has been
/// taken out and which is at most one level lower; this is what rebalancing
/// the node above then gives.
pub proof fn lemma_shrunk(
    l: Shape,
    at: usize,
    key: usize,
    r: Shape,
    l2: Shape,
    r2: Shape,
    best: usize,
)
    requires
        fork(l, at, key, r).ordered(),
        fork(l, at, key, r).balanced(),
        l2.ordered(),
        l2.balanced(),
        r2.ordered(),
        r2.balanced(),
        (l2 == l && r.index().contains_key(best) && r2.index() == r.index().remove(best)) || (r2
            == r && l.index().contains_key(best) && l2.index() == l.index().remove(best)),
        l.height() - 1 <= l2.height() <= l.height(),
        r.height() - 1 <= r2.height() <= r.height(),
        l2.size() + r2.size() + 1 == l.size() + r.size(),
        forall|c: usize| l2.cells().contains(c) ==> l.cells().contains(c),
        forall|c: usize| r2.cells().contains(c) ==> r.cells().contains(c),
        forall|c: usize|
            l.cells().contains(c) ==> l2.cells().contains(c) || (l.index().contains_key(best) && c
                == l.index()[best]),
        forall|c: usize|
            r.cells().contains(c) ==> r2.cells().contains(c) || (r.index().contains_key(best) && c
                == r.index()[best]),
    ensures
        ({
            let t = fork(l, at, key, r);
            let rest = Shape::rebalance(l2, at, key, r2);
            &&& fork(l2, at, key, r2).ordered()
            &&& -2 <= l2.height() - r2.height() <= 2
            &&& t.index()[best] == (if r.index().contains_key(best) {
                r.index()[best]
            } else {
                l.index()[best]
            })
            &&& rest.ordered()
            &&& rest.balanced()
            &&& t.height() - 1 <= rest.height() <= t.height()
            &&& t.index().contains_key(best)
            &&& rest.index() == t.index().remove(best)
            &&& rest.size() + 1 == t.size()
            &&& forall|c: usize| rest.cells().contains(c) ==> t.cells().contains(c)
            &&& forall|c: usize|
                t.cells().contains(c) ==> c == t.index()[best] || rest.cells().contains(c)
        }),
{
    let t = fork(l, at, key, r);
    let before = fork(l2, at, key, r2);
    lemma_index_parts(l, at, key, r);
    lemma_index_parts(l2, at, key, r2);
    lemma_height_nonnegative(l);
    lemma_height_nonnegative(r);
    lemma_height_nonnegative(l2);
    lemma_height_nonnegative(r2);
    assert(before.ordered());
    lemma_rebalance(l2, at, key, r2);
    assert(best != key);
    if r.index().contains_key(best) {
        assert(!l.index().contains_key(best));
        assert(t.index()[best] == r.index()[best]);
    } else {
        assert(!r.index().contains_key(best));
        assert(t.index()[best] == l.index()[best]);
    }
    assert(before.index() =~= t.index().remove(best));
    let rest = Shape::rebalance(l2, at, key, r2);
    assert(before.cells() =~= l2.cells().union(r2.cells()).insert(at));
    assert(t.cells() =~= l.cells().union(r.cells()).insert(at));
    assert(rest.size() + 1 == t.size());
    assert(t.height() - 1 <= rest.height() <= t.height());
    assert forall|c: usize| rest.cells().contains(c) implies t.cells().contains(c) by {}
    assert forall|c: usize| t.cells().contains(c) implies c == t.index()[best]
        || rest.cells().contains(c) by {}
}

/// A root with at most one child gives its place to that child, or to
/// nothing.
pub proof fn lemma_splice(l: Shape, at: usize, key: usize, r: Shape)
    requires
        fork(l, at, key, r).ordered(),
        fork(l, at, key, r).balanced(),
        l is Empty || r is Empty,
    ensures
        ({
            let t = fork(l, at, key, r);
            let rest = if r is Empty {
                l
            } else {
                r
            };
            &&& rest.ordered()
            &&& rest.balanced()
            &&& rest.height() == t.height() - 1
            &&& rest.index() == t.index().remove(key)
            &&& rest.size() + 1 == t.size()
            &&& forall|c: usize| rest.cells().contains(c) ==> t.cells().contains(c)
            &&& forall|c: usize| t.cells().contains(c) ==> c == at || rest.cells().contains(c)
        }),
{
    reveal_with_fuel(Shape::size, 2);
    reveal_with_fuel(Shape::cells, 2);
    reveal_with_fuel(Shape::height, 2);
    reveal_with_fuel(Shape::index, 2);
    let t = fork(l, at, key, r);
    let rest = if r is Empty {
        l
    } else {
        r
    };
    lemma_index_parts(l, at, key, r);
    lemma_height_nonnegative(l);
    lemma_height_nonnegative(r);
    assert(Shape::Empty.index() =~= Map::<usize, usize>::empty());
    assert(rest.index() =~= t.index().remove(key));
    assert(t.cells() =~= rest.cells().insert(at));
}

/// The root gives its place to its right child, which has no left subtree.
pub proof fn lemma_promote_child(l: Shape, at: usize, key: usize, r: Shape)
    requires
        fork(l, at, key, r).ordered(),
        fork(l, at, key, r).balanced(),
        l is Fork,
        r is Fork,
        r.lhs() is Empty,
    ensures
        ({
            let t = fork(l, at, key, r);
            let rest = Shape::rebalance(l, r.min_at(), r.min_key(), r.rhs());
            &&& r.min_at() == r->at
            &&& r.min_key() == r->key
            &&& fork(l, r.min_at(), r.min_key(), r.rhs()).ordered()
            &&& -2 <= l.height() - r.rhs().height() <= 2
            &&& rest.ordered()
            &&& rest.balanced()
            &&& t.height() - 1 <= rest.height() <= t.height()
            &&& rest.index() == t.index().remove(key)
            &&& rest.size() + 1 == t.size()
            &&& forall|c: usize| rest.cells().contains(c) ==> t.cells().contains(c)
            &&& forall|c: usize| t.cells().contains(c) ==> c == at || rest.cells().contains(c)
        }),
{
    reveal_with_fuel(Shape::ordered, 2);
    reveal_with_fuel(Shape::balanced, 2);
    reveal_with_fuel(Shape::size, 3);
    reveal_with_fuel(Shape::cells, 3);
    reveal_with_fuel(Shape::height, 3);
    let t = fork(l, at, key, r);
    let rr = r.rhs();
    let sa = r->at;
    let sk = r->key;
    assert(r == fork(Shape::Empty, sa, sk, rr));
    assert(Shape::Empty.index() =~= Map::<usize, usize>::empty());
    lemma_index_parts(Shape::Empty, sa, sk, rr);
    lemma_index_parts(l, sa, sk, rr);
    lemma_index_parts(l, at, key, r);
    lemma_height_nonnegative(rr);
    lemma_height_nonnegative(l);
    assert(r.index().contains_key(sk));
    assert forall|k: usize| l.index().contains_key(k) implies k < sk by {}
    assert(fork(l, sa, sk, rr).ordered());
    assert(r.height() == 1 + rr.height());
    lemma_rebalance(l, sa, sk, rr);
    assert(!l.index().contains_key(key));
    assert(!r.index().contains_key(key));
    let before = fork(l, sa, sk, rr);
    let rest = Shape::rebalance(l, sa, sk, rr);
    assert(before.index() =~= t.index().remove(key));
    assert(r.size() == 1 + rr.size());
    assert(rest.size() + 1 == t.size());
    assert(r.cells() =~= rr.cells().insert(sa));
    assert(before.cells() =~= l.cells().union(rr.cells()).insert(sa));
    assert(t.cells() =~= l.cells().union(r.cells()).insert(at));
    assert(t.height() - 1 <= rest.height() <= t.height());
}

/// The root gives its place to its in-order successor, which lies deeper
/// in the right subtree; `r2` is that subtree without the successor.
pub proof fn lemma_promote_deep(l: Shape, at: usize, key: usize, r: Shape, r2: Shape)
    requires
        fork(l, at, key, r).ordered(),
        fork(l, at, key, r).balanced(),
        r is Fork,
        r2.ordered(),
        r2.balanced(),
        r.height() - 1 <= r2.height() <= r.height(),
        r.index().contains_key(r.min_key()),
        r.index()[r.min_key()] == r.min_at(),
        r.cells().contains(r.min_at()),
        forall|k: usize| r.index().contains_key(k) ==> r.min_key() <= k,
        r2.index() == r.index().remove(r.min_key()),
        r2.size() + 1 == r.size(),
        forall|c: usize| r2.cells().contains(c) ==> c == at || r.cells().contains(c),
        forall|c: usize|
            r.cells().contains(c) ==> c == r.min_at() || c == at || r2.cells().contains(c),
    ensures
        ({
            let t = fork(l, at, key, r);
            let rest = Shape::rebalance(l, r.min_at(), r.min_key(), r2);
            &&& fork(l, r.min_at(), r.min_key(), r2).ordered()
            &&& -2 <= l.height() - r2.height() <= 2
            &&& rest.ordered()
            &&& rest.balanced()
            &&& t.height() - 1 <= rest.height() <= t.height()
            &&& rest.index() == t.index().remove(key)
            &&& rest.size() + 1 == t.size()
            &&& forall|c: usize| rest.cells().contains(c) ==> t.cells().contains(c)
            &&& forall|c: usize| t.cells().contains(c) ==> c == at || rest.cells().contains(c)
        }),
{
    let t = fork(l, at, key, r);
    let sa = r.min_at();
    let sk = r.min_key();
    let before = fork(l, sa, sk, r2);
    lemma_index_parts(l, at, key, r);
    lemma_index_parts(l, sa, sk, r2);
    lemma_height_nonnegative(l);
    lemma_height_nonnegative(r);
    lemma_height_nonnegative(r2);
    assert forall|k: usize| l.index().contains_key(k) implies k < sk by {}
    assert forall|k: usize| r2.index().contains_key(k) implies sk < k by {
        assert(r.index().contains_key(k));
    }
    assert(before.ordered());
    lemma_rebalance(l, sa, sk, r2);
    assert(!l.index().contains_key(key));
    assert(!r.index().contains_key(key));
    assert(before.index() =~= t.index().remove(key));
    let rest = Shape::rebalance(l, sa, sk, r2);
    assert(before.cells() =~= l.cells().union(r2.cells()).insert(sa));
    assert(t.cells() =~= l.cells().union(r.cells()).insert(at));
    assert(rest.size() + 1 == t.size());
    assert(t.height() - 1 <= rest.height() <= t.height());
}

/// What taking the displaced node out of the swapped right subtree leaves,
/// told in terms of the right subtree as it was.
pub proof fn lemma_deep_bridge(r: Shape, at: usize, key: usize, r2: Shape)
    requires
        r is Fork,
        r.ordered(),
        forall|k: usize| r.index().contains_key(k) ==> key < k,
        r2.index() == r.swap_min(at, key).index().remove(key),
        forall|c: usize| r2.cells().contains(c) ==> r.swap_min(at, key).cells().contains(c),
        forall|c: usize|
            r.swap_min(at, key).cells().contains(c) ==> c == at || r2.cells().contains(c),
    ensures
        r.index().contains_key(r.min_key()),
        r.index()[r.min_key()] == r.min_at(),
        r.cells().contains(r.min_at()),
        forall|k: usize| r.index().contains_key(k) ==> r.min_key() <= k,
        r2.index() == r.index().remove(r.min_key()),
        forall|c: usize| r2.cells().contains(c) ==> c == at || r.cells().contains(c),
        forall|c: usize|
            r.cells().contains(c) ==> c == r.min_at() || c == at || r2.cells().contains(c),
{
    lemma_swap_min(r, at, key);
    let swapped = r.swap_min(at, key);
    assert(r2.index() =~= r.index().remove(r.min_key()));
    assert forall|c: usize| r2.cells().contains(c) implies c == at || r.cells().contains(c) by {
        assert(swapped.cells().contains(c));
    }
    assert forall|c: usize| r.cells().contains(c) implies c == r.min_at() || c == at
        || r2.cells().contains(c) by {
        if c != r.min_at() {
            assert(swapped.cells().contains(c));
        }
    }
}

/// Removal takes out exactly the best fit, keeps order and balance, and
/// lowers the tree by at most one level.
pub proof fn lemma_remove(t: Shape, size: usize)
    requires
        t.ordered(),
        t.balanced(),
    ensures
        ({
            let rest = t.remove(size);
            &&& rest.ordered()
            &&& rest.balanced()
            &&& t.height() - 1 <= rest.height() <= t.height()
            &&& t.fit(size) is None ==> rest == t
            &&& t.fit(size) matches Some(best) ==> {
                &&& t.index().contains_key(best)
                &&& rest.index() == t.index().remove(best)
                &&& rest.size() + 1 == t.size()
                &&& forall|c: usize| rest.cells().contains(c) ==> t.cells().contains(c)
                &&& forall|c: usize|
                    t.cells().contains(c) ==> c == t.index()[best] || rest.cells().contains(c)
            }
        }),
    decreases t.size(),
{
    lemma_fit(t, size);
    match t {
        Shape::Empty => {},
        Shape::Fork { left, at, key, right } => {
            let l = *left;
            let r = *right;
            assert(t == fork(l, at, key, r));
            let rest = t.remove(size);
            if size > key {
                lemma_remove(r, size);
                if r.fit(size) is None {
                    lemma_rebalance(l, at, key, r);
                } else {
                    lemma_shrunk(l, at, key, r, l, r.remove(size), r.fit(size).unwrap());
                }
            } else if size < key && l.fit(size) is Some {
                lemma_remove(l, size);
                lemma_shrunk(l, at, key, r, l.remove(size), r, l.fit(size).unwrap());
            } else {
                lemma_index_parts(l, at, key, r);
                lemma_height_nonnegative(l);
                lemma_height_nonnegative(r);
                assert(t.fit(size) == Some(key));
                assert(t.index()[key] == at);
                if l is Empty || r is Empty {
                    lemma_splice(l, at, key, r);
                } else if r.lhs() is Empty {
                    lemma_promote_child(l, at, key, r);
                } else {
                    assert forall|k: usize| r.index().contains_key(k) implies key < k by {}
                    lemma_swap_min(r, at, key);
                    lemma_swap_min_size(r, at, key);
                    let swapped = r.swap_min(at, key);
                    lemma_remove(swapped, key);
                    let r2 = swapped.remove(key);
                    lemma_deep_bridge(r, at, key, r2);
                    lemma_promote_deep(l, at, key, r, r2);
                }
            }
        },
    }
}

/// Going on into one subtree: what the node above sees when the search
/// for `size` comes back from there.
pub proof fn lemma_descend(t: Shape, size: usize)
    requires
        t is Fork,
        t.ordered(),
        t.balanced(),
        size > t->key || (size < t->key && t.lhs().fit(size) is Some),
    ensures
        ({
            let l = t.lhs();
            let r = t.rhs();
            let l2 = if size > t->key {
                l
            } else {
                l.remove(size)
            };
            let r2 = if size > t->key {
                r.remove(size)
            } else {
                r
            };
            let sub = if size > t->key {
                r
            } else {
                l
            };
            &&& l.ordered() && l.balanced() && r.ordered() && r.balanced()
            &&& t.fit(size) == sub.fit(size)
            &&& fork(l2, t->at, t->key, r2).ordered()
            &&& l2.balanced()
            &&& r2.balanced()
            &&& -2 <= l2.height() - r2.height() <= 2
            &&& Shape::rebalance(l2, t->at, t->key, r2) == t.remove(size)
            &&& forall|c: usize| l2.cells().contains(c) ==> l.cells().contains(c)
            &&& forall|c: usize| r2.cells().contains(c) ==> r.cells().contains(c)
            &&& sub.fit(size) matches Some(best) ==> {
                &&& sub.index().contains_key(best)
                &&& t.index()[best] == sub.index()[best]
                &&& !l2.index().contains_key(best)
                &&& !r2.index().contains_key(best)
                &&& best != t->key
            }
        }),
{
    let l = t.lhs();
    let r = t.rhs();
    let at = t->at;
    let key = t->key;
    assert(t == fork(l, at, key, r));
    lemma_index_parts(l, at, key, r);
    lemma_height_nonnegative(l);
    lemma_height_nonnegative(r);
    if size > key {
        lemma_remove(r, size);
        lemma_fit(r, size);
        if r.fit(size) is Some {
            lemma_shrunk(l, at, key, r, l, r.remove(size), r.fit(size).unwrap());
        }
    } else {
        lemma_remove(l, size);
        lemma_fit(l, size);
        lemma_shrunk(l, at, key, r, l.remove(size), r, l.fit(size).unwrap());
    }
}

/// Cutting out the root: which node takes its place, and what then hangs
/// below that node.
pub proof fn lemma_heir(t: Shape)
    requires
        t is Fork,
        t.ordered(),
        t.balanced(),
        t.lhs() is Fork || t.rhs() is Fork,
    ensures
        ({
            let a = t.heir_left();
            let b = t.heir_right();
            let s = t.heir_at();
            let sk = t.heir_key();
            let key = t->key;
            &&& t.cells().contains(s)
            &&& t.index().contains_key(sk)
            &&& sk != key
            &&& a.ordered()
            &&& a.balanced()
            &&& b.ordered()
            &&& b.balanced()
            &&& !a.index().contains_key(key)
            &&& !a.index().contains_key(sk)
            &&& !b.index().contains_key(sk)
            &&& forall|c: usize| a.cells().contains(c) ==> t.cells().contains(c)
            &&& forall|c: usize| b.cells().contains(c) ==> t.cells().contains(c)
            &&& forall|k: usize| a.index().contains_key(k) ==> !b.index().contains_key(k)
            &&& !t.successor_is_deep() ==> {
                &&& fork(a, s, sk, b).ordered()
                &&& -2 <= a.height() - b.height() <= 2
                &&& Shape::rebalance(a, s, sk, b) == t.remove(key)
                &&& !b.index().contains_key(key)
            }
            &&& t.successor_is_deep() ==> {
                let b2 = b.remove(key);
                &&& b is Fork
                &&& b->at == t.rhs()->at
                &&& b.size() < t.size()
                &&& b.fit(key) == Some(key)
                &&& b.index()[key] == t->at
                &&& b2.ordered()
                &&& b2.balanced()
                &&& fork(a, s, sk, b2).ordered()
                &&& -2 <= a.height() - b2.height() <= 2
                &&& Shape::rebalance(a, s, sk, b2) == t.remove(key)
                &&& !b2.index().contains_key(key)
                &&& !b2.index().contains_key(sk)
                &&& forall|c: usize| b2.cells().contains(c) ==> t.cells().contains(c)
            }
        }),
{
    reveal_with_fuel(Shape::ordered, 2);
    reveal_with_fuel(Shape::balanced, 2);
    reveal_with_fuel(Shape::height, 2);
    reveal_with_fuel(Shape::cells, 2);
    let l = t.lhs();
    let r = t.rhs();
    let at = t->at;
    let key = t->key;
    assert(t == fork(l, at, key, r));
    lemma_index_parts(l, at, key, r);
    lemma_height_nonnegative(l);
    lemma_height_nonnegative(r);
    if r is Empty {
        lemma_splice(l, at, key, r);
        lemma_height_nonnegative(l.lhs());
        lemma_height_nonnegative(l.rhs());
        lemma_index_parts(l.lhs(), l->at, l->key, l.rhs());
        assert(l == fork(l.lhs(), l->at, l->key, l.rhs()));
        assert(l.lhs().index() =~= Map::<usize, usize>::empty());
        assert(l.rhs().index() =~= Map::<usize, usize>::empty());
        lemma_rebalance(l.lhs(), l->at, l->key, l.rhs());
    } else if l is Empty {
        lemma_splice(l, at, key, r);
        lemma_height_nonnegative(r.lhs());
        lemma_height_nonnegative(r.rhs());
        lemma_index_parts(r.lhs(), r->at, r->key, r.rhs());
        assert(r == fork(r.lhs(), r->at, r->key, r.rhs()));
        assert(r.lhs().index() =~= Map::<usize, usize>::empty());
        assert(r.rhs().index() =~= Map::<usize, usize>::empty());
        lemma_rebalance(r.lhs(), r->at, r->key, r.rhs());
    } else if r.lhs() is Empty {
        lemma_promote_child(l, at, key, r);
        lemma_index_parts(r.lhs(), r->at, r->key, r.rhs());
        assert(r == fork(r.lhs(), r->at, r->key, r.rhs()));
    } else {
        assert forall|k: usize| r.index().contains_key(k) implies key < k by {}
        lemma_swap_min(r, at, key);
        lemma_swap_min_size(r, at, key);
        let b = r.swap_min(at, key);
        lemma_remove(b, key);
        let b2 = b.remove(key);
        lemma_deep_bridge(r, at, key, b2);
        lemma_promote_deep(l, at, key, r, b2);
        assert(b->at == r->at);
        assert(!l.index().contains_key(r.min_key()));
        assert forall|c: usize| b.cells().contains(c) implies t.cells().contains(c) by {}
        assert forall|c: usize| b2.cells().contains(c) implies t.cells().contains(c) by {
            assert(b.cells().contains(c));
        }
    }
}

} // verus!
