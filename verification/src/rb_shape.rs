//! The outline of a red-black tree: which node sits where, with which key
//! and colour. Everything here is ghost.

use vstd::prelude::*;
use crate::rb_tree::Colour;
use crate::rb_tree::Direction;

verus! {

/// A binary tree of node addresses (`at`) with keys and colours.
pub enum Outline {
    Empty,
    Fork { left: Box<Outline>, at: usize, key: usize, colour: Colour, right: Box<Outline> },
}

/// The tree with the given root and subtrees.
pub open spec fn branch(left: Outline, at: usize, key: usize, colour: Colour, right: Outline) -> Outline {
    Outline::Fork { left: Box::new(left), at, key, colour, right: Box::new(right) }
}

impl Outline {
    /// The left subtree (empty for an empty tree).
    pub open spec fn lhs(self) -> Outline {
        match self {
            Outline::Fork { left, .. } => *left,
            Outline::Empty => Outline::Empty,
        }
    }

    /// The right subtree (empty for an empty tree).
    pub open spec fn rhs(self) -> Outline {
        match self {
            Outline::Fork { right, .. } => *right,
            Outline::Empty => Outline::Empty,
        }
    }

    /// The subtree on the side `dir`.
    pub open spec fn child(self, dir: Direction) -> Outline {
        match dir {
            Direction::Left => self.lhs(),
            Direction::Right => self.rhs(),
        }
    }

    /// The same root over another subtree on the side `dir`.
    pub open spec fn with_child(self, dir: Direction, sub: Outline) -> Outline {
        match self {
            Outline::Empty => Outline::Empty,
            Outline::Fork { left, at, key, colour, right } => match dir {
                Direction::Left => branch(sub, at, key, colour, *right),
                Direction::Right => branch(*left, at, key, colour, sub),
            },
        }
    }

    /// The same tree with another colour at the root.
    pub open spec fn painted(self, colour: Colour) -> Outline {
        match self {
            Outline::Empty => Outline::Empty,
            Outline::Fork { left, at, key, right, .. } => branch(*left, at, key, colour, *right),
        }
    }

    /// Whether the root is a red node. An empty tree counts as black.
    pub open spec fn red(self) -> bool {
        match self {
            Outline::Fork { colour, .. } => colour == Colour::Red,
            Outline::Empty => false,
        }
    }

    /// The keys of all nodes.
    pub open spec fn keys(self) -> Set<usize>
        decreases self,
    {
        match self {
            Outline::Empty => Set::empty(),
            Outline::Fork { left, key, right, .. } => left.keys().union(right.keys()).insert(key),
        }
    }

    /// The addresses of all nodes.
    pub open spec fn cells(self) -> Set<usize>
        decreases self,
    {
        match self {
            Outline::Empty => Set::empty(),
            Outline::Fork { left, at, right, .. } => left.cells().union(right.cells()).insert(at),
        }
    }

    /// Search-tree order by key, strict on both sides.
    pub open spec fn ordered(self) -> bool
        decreases self,
    {
        match self {
            Outline::Empty => true,
            Outline::Fork { left, key, right, .. } => {
                &&& left.ordered()
                &&& right.ordered()
                &&& forall|k: usize| left.keys().contains(k) ==> k < key
                &&& forall|k: usize| right.keys().contains(k) ==> key < k
            },
        }
    }

    /// The number of black nodes on the way down the left edge.
    pub open spec fn black_height(self) -> nat
        decreases self,
    {
        match self {
            Outline::Empty => 0,
            Outline::Fork { left, colour, .. } => left.black_height() + if colour
                == Colour::Black {
                1nat
            } else {
                0nat
            },
        }
    }

    /// The two subtrees are red-black trees of the same black height.
    pub open spec fn halves_agree(self) -> bool {
        &&& self.lhs().red_black()
        &&& self.rhs().red_black()
        &&& self.lhs().black_height() == self.rhs().black_height()
    }

    /// The red-black rules: every path from a node down to an empty place
    /// passes the same number of black nodes, and no red node has a red
    /// child.
    pub open spec fn red_black(self) -> bool
        decreases self,
    {
        match self {
            Outline::Empty => true,
            Outline::Fork { left, colour, right, .. } => {
                &&& left.red_black()
                &&& right.red_black()
                &&& left.black_height() == right.black_height()
                &&& colour == Colour::Red ==> !left.red() && !right.red()
            },
        }
    }

    /// The red-black rules, except that a red root may have one red child:
    /// the state of a subtree on the way back up from an insertion.
    pub open spec fn nearly_red_black(self) -> bool {
        &&& self.halves_agree()
        &&& self.red() ==> !(self.lhs().red() && self.rhs().red())
    }

    /// Turns the tree towards `dir`: the child on the other side becomes
    /// the root and turns black, the old root becomes its child on the side
    /// `dir` and turns red.
    pub open spec fn single_rotation(self, dir: Direction) -> Outline {
        match self {
            Outline::Empty => self,
            Outline::Fork { left, at, key, right, .. } => match dir {
                Direction::Right => match *left {
                    Outline::Empty => self,
                    Outline::Fork { left: ll, at: lat, key: lkey, right: lr, .. } => branch(
                        *ll,
                        lat,
                        lkey,
                        Colour::Black,
                        branch(*lr, at, key, Colour::Red, *right),
                    ),
                },
                Direction::Left => match *right {
                    Outline::Empty => self,
                    Outline::Fork { left: rl, at: rat, key: rkey, right: rr, .. } => branch(
                        branch(*left, at, key, Colour::Red, *rl),
                        rat,
                        rkey,
                        Colour::Black,
                        *rr,
                    ),
                },
            },
        }
    }

    /// Turns the child on the far side away from `dir`, then the tree
    /// towards `dir`.
    pub open spec fn double_rotation(self, dir: Direction) -> Outline {
        self.with_child(
            dir.flipped(),
            self.child(dir.flipped()).single_rotation(dir.flipped()),
        ).single_rotation(dir)
    }

    /// What a node does after an insertion below its child on the side
    /// `dir`: with a red child and a red sibling it turns red and both turn
    /// black; with a red child that has a red child of its own it rotates.
    pub open spec fn mend(self, dir: Direction) -> Outline {
        let child = self.child(dir);
        let sibling = self.child(dir.flipped());
        if !child.red() {
            self
        } else if sibling.red() {
            self.with_child(dir, child.painted(Colour::Black)).with_child(
                dir.flipped(),
                sibling.painted(Colour::Black),
            ).painted(Colour::Red)
        } else if child.child(dir).red() {
            self.single_rotation(dir.flipped())
        } else if child.child(dir.flipped()).red() {
            self.double_rotation(dir.flipped())
        } else {
            self
        }
    }

    /// Descent by key to an empty place, where the node (`at`, `key`) goes
    /// in as a red leaf; every node on the way back mends itself. A key
    /// that is there already leaves the tree as it is.
    pub open spec fn insert(self, at: usize, key: usize) -> Outline
        decreases self,
    {
        match self {
            Outline::Empty => branch(Outline::Empty, at, key, Colour::Red, Outline::Empty),
            Outline::Fork { left, key: k, right, .. } => if key == k {
                self
            } else if k < key {
                self.with_child(Direction::Right, right.insert(at, key)).mend(Direction::Right)
            } else {
                self.with_child(Direction::Left, left.insert(at, key)).mend(Direction::Left)
            },
        }
    }

    /// The number of nodes.
    pub open spec fn size(self) -> nat
        decreases self,
    {
        match self {
            Outline::Empty => 0,
            Outline::Fork { left, right, .. } => 1 + left.size() + right.size(),
        }
    }

    /// The colour of the root. An empty tree counts as black.
    pub open spec fn colour_of(self) -> Colour {
        match self {
            Outline::Fork { colour, .. } => colour,
            Outline::Empty => Colour::Black,
        }
    }

    /// The same tree with both children of the root turned black.
    pub open spec fn black_children(self) -> Outline {
        self.with_child(Direction::Left, self.lhs().painted(Colour::Black)).with_child(
            Direction::Right,
            self.rhs().painted(Colour::Black),
        )
    }

    /// The smallest key that is at least `key`, if there is one.
    pub open spec fn fit(self, key: usize) -> Option<usize>
        decreases self,
    {
        match self {
            Outline::Empty => None,
            Outline::Fork { left, key: k, right, .. } => if key > k {
                right.fit(key)
            } else if key == k {
                Some(k)
            } else {
                match left.fit(key) {
                    Some(best) => Some(best),
                    None => Some(k),
                }
            },
        }
    }

    /// The address of the node that holds `key`.
    pub open spec fn locate(self, key: usize) -> usize
        decreases self,
    {
        match self {
            Outline::Empty => 0,
            Outline::Fork { left, at, key: k, right, .. } => if key == k {
                at
            } else if key < k {
                left.locate(key)
            } else {
                right.locate(key)
            },
        }
    }

    /// The key of the leftmost node.
    pub open spec fn min_key(self) -> usize
        decreases self,
    {
        match self {
            Outline::Empty => 0,
            Outline::Fork { left, key, .. } => if *left is Empty {
                key
            } else {
                left.min_key()
            },
        }
    }

    /// The address of the leftmost node.
    pub open spec fn min_at(self) -> usize
        decreases self,
    {
        match self {
            Outline::Empty => 0,
            Outline::Fork { left, at, .. } => if *left is Empty {
                at
            } else {
                left.min_at()
            },
        }
    }

    /// The address of the node whose left child is the leftmost node, in a
    /// tree whose root is not itself the leftmost.
    pub open spec fn min_parent(self) -> usize
        decreases self,
    {
        match self {
            Outline::Empty => 0,
            Outline::Fork { left, at, .. } => if left.lhs() is Empty {
                at
            } else {
                left.min_parent()
            },
        }
    }

    /// The same tree, colours included, with (`at`, `key`) standing where
    /// the leftmost node stood.
    pub open spec fn swap_min(self, at: usize, key: usize) -> Outline
        decreases self,
    {
        match self {
            Outline::Empty => Outline::Empty,
            Outline::Fork { left, at: a, key: k, colour, right } => if *left is Empty {
                branch(Outline::Empty, at, key, colour, *right)
            } else {
                branch(left.swap_min(at, key), a, k, colour, *right)
            },
        }
    }

    /// What a node does when the subtree on its side `dir` has come back one
    /// black node short and its sibling is black: with two black nephews
    /// the sibling turns red and the node black, which leaves the node's
    /// own subtree short if it was black before; with a red nephew a
    /// rotation brings the missing black node over. Returns the subtree and
    /// whether it is still short.
    pub open spec fn level_core(self, dir: Direction) -> (Outline, bool) {
        let sibling = self.child(dir.flipped());
        if !sibling.lhs().red() && !sibling.rhs().red() {
            (
                self.painted(Colour::Black).with_child(
                    dir.flipped(),
                    sibling.painted(Colour::Red),
                ),
                !self.red(),
            )
        } else {
            let turned = if sibling.child(dir.flipped()).red() {
                self.single_rotation(dir)
            } else {
                self.double_rotation(dir)
            };
            (turned.black_children().painted(self.colour_of()), false)
        }
    }

    /// The same with any sibling: a red sibling is first rotated to the
    /// top, which puts a black one in its place.
    pub open spec fn level(self, dir: Direction) -> (Outline, bool) {
        if self.child(dir.flipped()).red() {
            let top = self.single_rotation(dir);
            let below = top.child(dir).level_core(dir);
            (top.with_child(dir, below.0), below.1)
        } else {
            self.level_core(dir)
        }
    }

    /// What a node does when the subtree on its side `dir` comes back from
    /// a removal, short or not.
    pub open spec fn settle(self, dir: Direction, short: bool) -> (Outline, bool) {
        if short {
            self.level(dir)
        } else {
            (self, false)
        }
    }

    /// The tree after the node with the smallest key that is at least `key`
    /// has been taken out, and whether it has come out one black node
    /// short. A node with two children first trades places with its
    /// in-order successor and is then taken out of the right subtree.
    /// Without such a key the tree stays as it is.
    pub open spec fn remove(self, key: usize) -> (Outline, bool)
        decreases self.size(),
    {
        match self {
            Outline::Empty => (Outline::Empty, false),
            Outline::Fork { left, at, key: k, colour, right } => if key > k {
                let sub = right.remove(key);
                self.with_child(Direction::Right, sub.0).settle(Direction::Right, sub.1)
            } else if key < k && left.fit(key) is Some {
                let sub = left.remove(key);
                self.with_child(Direction::Left, sub.0).settle(Direction::Left, sub.1)
            } else if *left is Empty || *right is Empty {
                let child = if *left is Empty {
                    *right
                } else {
                    *left
                };
                if colour == Colour::Red {
                    (child, false)
                } else if child.red() {
                    (child.painted(Colour::Black), false)
                } else {
                    (child, true)
                }
            } else {
                proof {
                    lemma_swap_min_size(*right, at, k);
                }
                let sub = right.swap_min(at, k).remove(k);
                branch(*left, right.min_at(), right.min_key(), colour, sub.0).settle(
                    Direction::Right,
                    sub.1,
                )
            },
        }
    }
}

/// The keys of a tree are its root's key and the keys of its two subtrees.
pub proof fn lemma_key_parts(left: Outline, at: usize, key: usize, colour: Colour, right: Outline)
    ensures
        forall|k: usize| #[trigger]
            branch(left, at, key, colour, right).keys().contains(k) <==> (k == key
                || left.keys().contains(k) || right.keys().contains(k)),
        forall|c: usize| #[trigger]
            branch(left, at, key, colour, right).cells().contains(c) <==> (c == at
                || left.cells().contains(c) || right.cells().contains(c)),
{
}

/// A rotation keeps the keys, the nodes and the order.
pub proof fn lemma_single_rotation(t: Outline, dir: Direction)
    requires
        t.child(dir.flipped()) is Fork,
        t.ordered(),
    ensures
        t.single_rotation(dir).ordered(),
        t.single_rotation(dir).keys() == t.keys(),
        t.single_rotation(dir).cells() == t.cells(),
        t.single_rotation(dir) is Fork,
{
    reveal_with_fuel(Outline::ordered, 3);
    reveal_with_fuel(Outline::keys, 3);
    reveal_with_fuel(Outline::cells, 3);
    let rotated = t.single_rotation(dir);
    let key = t->key;
    match dir {
        Direction::Right => {
            let l = t.lhs();
            assert(l.keys().contains(l->key));
            assert forall|k: usize| l.rhs().keys().contains(k) implies k < key by {
                assert(l.keys().contains(k));
            }
            assert forall|k: usize| rotated.rhs().keys().contains(k) implies l->key < k by {
                if l.rhs().keys().contains(k) {
                } else if k == key {
                } else {
                    assert(t.rhs().keys().contains(k));
                }
            }
        },
        Direction::Left => {
            let r = t.rhs();
            assert(r.keys().contains(r->key));
            assert forall|k: usize| r.lhs().keys().contains(k) implies key < k by {
                assert(r.keys().contains(k));
            }
            assert forall|k: usize| rotated.lhs().keys().contains(k) implies k < r->key by {
                if r.lhs().keys().contains(k) {
                } else if k == key {
                } else {
                    assert(t.lhs().keys().contains(k));
                }
            }
        },
    }
    assert(rotated.keys() =~= t.keys());
    assert(rotated.cells() =~= t.cells());
}

/// A double rotation keeps the keys, the nodes and the order.
pub proof fn lemma_double_rotation(t: Outline, dir: Direction)
    requires
        t.child(dir.flipped()) is Fork,
        t.child(dir.flipped()).child(dir) is Fork,
        t.ordered(),
    ensures
        t.double_rotation(dir).ordered(),
        t.double_rotation(dir).keys() == t.keys(),
        t.double_rotation(dir).cells() == t.cells(),
        t.double_rotation(dir) is Fork,
{
    let far = dir.flipped();
    let inner = t.child(far).single_rotation(far);
    lemma_single_rotation(t.child(far), far);
    let mid = t.with_child(far, inner);
    assert(mid.keys() =~= t.keys()) by {
        reveal_with_fuel(Outline::keys, 2);
    }
    assert(mid.cells() =~= t.cells()) by {
        reveal_with_fuel(Outline::cells, 2);
    }
    assert(mid.ordered()) by {
        reveal_with_fuel(Outline::ordered, 2);
    }
    lemma_single_rotation(mid, dir);
}

/// Mending after an insertion below a black or empty-rooted node, or
/// below a red one whose new child is a red-black tree: the keys stay,
/// the black height stays, and the red-black rules hold again, up to a red
/// root with one red child.
pub proof fn lemma_mend(t: Outline, dir: Direction)
    requires
        t is Fork,
        t.ordered(),
        t.child(dir).nearly_red_black(),
        t.child(dir.flipped()).red_black(),
        t.child(dir).black_height() == t.child(dir.flipped()).black_height(),
        t.red() ==> t.child(dir).red_black() && !t.child(dir.flipped()).red(),
    ensures
        ({
            let m = t.mend(dir);
            &&& m is Fork
            &&& m.ordered()
            &&& m.keys() == t.keys()
            &&& m.cells() == t.cells()
            &&& m.black_height() == t.black_height()
            &&& m.nearly_red_black()
            &&& !t.red() ==> m.red_black()
        }),
{
    reveal_with_fuel(Outline::red_black, 3);
    reveal_with_fuel(Outline::black_height, 3);
    let child = t.child(dir);
    let sibling = t.child(dir.flipped());
    let far = dir.flipped();
    if !child.red() {
    } else if sibling.red() {
        reveal_with_fuel(Outline::ordered, 2);
        reveal_with_fuel(Outline::keys, 2);
        reveal_with_fuel(Outline::cells, 2);
        let m = t.mend(dir);
        assert(m.keys() =~= t.keys());
        assert(m.cells() =~= t.cells());
        match dir {
            Direction::Left => {
                assert(m.lhs().keys() =~= t.lhs().keys());
                assert(m.rhs().keys() =~= t.rhs().keys());
            },
            Direction::Right => {
                assert(m.lhs().keys() =~= t.lhs().keys());
                assert(m.rhs().keys() =~= t.rhs().keys());
            },
        }
    } else if child.child(dir).red() {
        lemma_single_rotation(t, far);
        match dir {
            Direction::Left => {},
            Direction::Right => {},
        }
    } else if child.child(far).red() {
        lemma_double_rotation(t, far);
        match dir {
            Direction::Left => {},
            Direction::Right => {},
        }
    } else {
    }
}

/// Insertion keeps order and black height, adds the key, and leaves a
/// red-black tree, up to a red root with one red child.
pub proof fn lemma_insert(t: Outline, at: usize, key: usize)
    requires
        t.ordered(),
        t.red_black(),
    ensures
        ({
            let grown = t.insert(at, key);
            &&& grown is Fork
            &&& grown.ordered()
            &&& grown.keys() == t.keys().insert(key)
            &&& grown.black_height() == t.black_height()
            &&& grown.nearly_red_black()
            &&& !t.red() ==> grown.red_black()
            &&& t.keys().contains(key) ==> grown.cells() == t.cells()
            &&& !t.keys().contains(key) ==> grown.cells() == t.cells().insert(at)
        }),
    decreases t,
{
    match t {
        Outline::Empty => {
            reveal_with_fuel(Outline::keys, 2);
            reveal_with_fuel(Outline::cells, 2);
            reveal_with_fuel(Outline::ordered, 2);
            reveal_with_fuel(Outline::red_black, 2);
            reveal_with_fuel(Outline::black_height, 2);
            let grown = t.insert(at, key);
            assert(grown.keys() =~= t.keys().insert(key));
            assert(grown.cells() =~= t.cells().insert(at));
        },
        Outline::Fork { left, at: a, key: k, colour, right } => {
            lemma_key_parts(*left, a, k, colour, *right);
            assert(t == branch(*left, a, k, colour, *right));
            if key == k {
                assert(t.keys().insert(key) =~= t.keys());
            } else if k < key {
                lemma_insert(*right, at, key);
                let sub = right.insert(at, key);
                let mid = t.with_child(Direction::Right, sub);
                lemma_key_parts(*left, a, k, colour, sub);
                assert(mid.ordered());
                lemma_mend(mid, Direction::Right);
                assert(mid.keys() =~= t.keys().insert(key));
                if t.keys().contains(key) {
                    assert(!left.keys().contains(key));
                    assert(mid.cells() =~= t.cells());
                } else {
                    assert(mid.cells() =~= t.cells().insert(at));
                }
            } else {
                lemma_insert(*left, at, key);
                let sub = left.insert(at, key);
                let mid = t.with_child(Direction::Left, sub);
                lemma_key_parts(sub, a, k, colour, *right);
                assert(mid.ordered());
                lemma_mend(mid, Direction::Left);
                assert(mid.keys() =~= t.keys().insert(key));
                if t.keys().contains(key) {
                    assert(!right.keys().contains(key));
                    assert(mid.cells() =~= t.cells());
                } else {
                    assert(mid.cells() =~= t.cells().insert(at));
                }
            }
        },
    }
}

/// Trading the leftmost node keeps the size, the colours and the black
/// heights.
pub proof fn lemma_swap_min_size(t: Outline, at: usize, key: usize)
    ensures
        t.swap_min(at, key).size() == t.size(),
        t.swap_min(at, key).black_height() == t.black_height(),
        t.swap_min(at, key).red_black() == t.red_black(),
        t.swap_min(at, key).red() == t.red(),
        t is Fork <==> t.swap_min(at, key) is Fork,
    decreases t,
{
    match t {
        Outline::Empty => {},
        Outline::Fork { left, right, .. } => {
            if !(*left is Empty) {
                lemma_swap_min_size(*left, at, key);
            }
        },
    }
}

/// `fit` is the lower bound of the keys: the least key that is at least
/// `key`, and nothing exactly when every key is smaller.
pub proof fn lemma_fit(t: Outline, key: usize)
    requires
        t.ordered(),
    ensures
        match t.fit(key) {
            None => forall|k: usize| t.keys().contains(k) ==> k < key,
            Some(best) => {
                &&& t.keys().contains(best)
                &&& key <= best
                &&& forall|k: usize| t.keys().contains(k) && key <= k ==> best <= k
            },
        },
    decreases t,
{
    match t {
        Outline::Empty => {},
        Outline::Fork { left, at, key: k, colour, right } => {
            lemma_key_parts(*left, at, k, colour, *right);
            assert(t == branch(*left, at, k, colour, *right));
            lemma_fit(*left, key);
            lemma_fit(*right, key);
        },
    }
}

/// The node that holds a key of the tree is a node of the tree.
pub proof fn lemma_locate(t: Outline, key: usize)
    requires
        t.ordered(),
        t.keys().contains(key),
    ensures
        t.cells().contains(t.locate(key)),
    decreases t,
{
    match t {
        Outline::Empty => {},
        Outline::Fork { left, at, key: k, colour, right } => {
            lemma_key_parts(*left, at, k, colour, *right);
            assert(t == branch(*left, at, k, colour, *right));
            if key == k {
            } else if key < k {
                assert(!right.keys().contains(key));
                lemma_locate(*left, key);
            } else {
                assert(!left.keys().contains(key));
                lemma_locate(*right, key);
            }
        },
    }
}

/// Another colour at the root changes neither keys nor nodes nor order.
pub proof fn lemma_painted(t: Outline, colour: Colour)
    ensures
        t.painted(colour).keys() == t.keys(),
        t.painted(colour).cells() == t.cells(),
        t.painted(colour).ordered() == t.ordered(),
        t.painted(colour).size() == t.size(),
        t.painted(colour).lhs() == t.lhs(),
        t.painted(colour).rhs() == t.rhs(),
        t is Fork <==> t.painted(colour) is Fork,
        forall|k: usize| t.painted(colour).locate(k) == t.locate(k),
{
    assert(t.painted(colour).keys() =~= t.keys());
    assert(t.painted(colour).cells() =~= t.cells());
}

/// What trading the leftmost node for a smaller key does to a tree.
pub proof fn lemma_swap_min(t: Outline, at: usize, key: usize)
    requires
        t is Fork,
        t.ordered(),
        forall|k: usize| t.keys().contains(k) ==> key < k,
    ensures
        ({
            let swapped = t.swap_min(at, key);
            &&& swapped is Fork
            &&& swapped.ordered()
            &&& swapped.fit(key) == Some(key)
            &&& swapped.locate(key) == at
            &&& swapped.keys() == t.keys().remove(t.min_key()).insert(key)
            &&& t.keys().contains(t.min_key())
            &&& t.cells().contains(t.min_at())
            &&& forall|k: usize| t.keys().contains(k) ==> t.min_key() <= k
            &&& forall|c: usize| swapped.cells().contains(c) ==> c == at || t.cells().contains(c)
            &&& forall|c: usize|
                t.cells().contains(c) ==> c == t.min_at() || swapped.cells().contains(c)
        }),
    decreases t,
{
    match t {
        Outline::Empty => {},
        Outline::Fork { left, at: a, key: k, colour, right } => {
            lemma_key_parts(*left, a, k, colour, *right);
            assert(t == branch(*left, a, k, colour, *right));
            let swapped = t.swap_min(at, key);
            assert(t.keys().contains(k));
            assert(key < k);
            if *left is Empty {
                assert(swapped.locate(key) == at);
                assert(swapped.fit(key) == Some(key));
                assert(t.min_at() == a && t.min_key() == k);
                lemma_key_parts(Outline::Empty, at, key, colour, *right);
                assert(swapped.keys() =~= t.keys().remove(k).insert(key));
                assert(!right.keys().contains(k));
            } else {
                assert forall|j: usize| left.keys().contains(j) implies key < j by {
                    assert(t.keys().contains(j));
                }
                lemma_swap_min(*left, at, key);
                let inner = left.swap_min(at, key);
                lemma_key_parts(inner, a, k, colour, *right);
                assert(swapped == branch(inner, a, k, colour, *right));
                assert forall|j: usize| inner.keys().contains(j) implies j < k by {
                    if j != key {
                        assert(left.keys().contains(j));
                    }
                }
                assert(swapped.ordered());
                let m = left.min_key();
                assert(t.min_key() == m && t.min_at() == left.min_at());
                assert(swapped.locate(key) == inner.locate(key));
                assert(inner.fit(key) == Some(key));
                assert(swapped.fit(key) == Some(key));
                assert(!right.keys().contains(m));
                assert(!right.keys().contains(key));
                assert(swapped.keys() =~= t.keys().remove(m).insert(key));
                assert(t.cells().contains(t.min_at()));
            }
        },
    }
}

/// Evening out below a black sibling: the keys stay, the red-black rules
/// hold again, and the black height is made up unless the node was black
/// and had no red nephew to draw on.
pub proof fn lemma_level_core(p: Outline, dir: Direction)
    requires
        p is Fork,
        p.ordered(),
        p.child(dir).red_black(),
        !p.child(dir).red(),
        p.child(dir.flipped()) is Fork,
        p.child(dir.flipped()).red_black(),
        !p.child(dir.flipped()).red(),
        p.child(dir.flipped()).black_height() == p.child(dir).black_height() + 1,
    ensures
        ({
            let (q, short) = p.level_core(dir);
            let full = p.child(dir.flipped()).black_height() + if p.red() {
                0nat
            } else {
                1nat
            };
            &&& q is Fork
            &&& q.ordered()
            &&& q.keys() == p.keys()
            &&& q.cells() == p.cells()
            &&& q.red_black()
            &&& q.red() ==> p.red()
            &&& !short ==> q.black_height() == full
            &&& short ==> q.black_height() + 1 == full && !q.red() && !p.red()
        }),
{
    reveal_with_fuel(Outline::red_black, 3);
    reveal_with_fuel(Outline::black_height, 4);
    reveal_with_fuel(Outline::ordered, 3);
    reveal_with_fuel(Outline::keys, 3);
    reveal_with_fuel(Outline::cells, 3);
    let far = dir.flipped();
    let sibling = p.child(far);
    let (q, short) = p.level_core(dir);
    if !sibling.lhs().red() && !sibling.rhs().red() {
        assert(q.keys() =~= p.keys());
        assert(q.cells() =~= p.cells());
        match dir {
            Direction::Left => {
                assert(q.rhs().keys() =~= p.rhs().keys());
            },
            Direction::Right => {
                assert(q.lhs().keys() =~= p.lhs().keys());
            },
        }
    } else if sibling.child(far).red() {
        lemma_single_rotation(p, dir);
        let turned = p.single_rotation(dir);
        assert(q.keys() =~= turned.keys());
        assert(q.cells() =~= turned.cells());
        match dir {
            Direction::Left => {
                assert(q.lhs().keys() =~= turned.lhs().keys());
                assert(q.rhs().keys() =~= turned.rhs().keys());
            },
            Direction::Right => {
                assert(q.lhs().keys() =~= turned.lhs().keys());
                assert(q.rhs().keys() =~= turned.rhs().keys());
            },
        }
    } else {
        lemma_double_rotation(p, dir);
        let turned = p.double_rotation(dir);
        assert(q.keys() =~= turned.keys());
        assert(q.cells() =~= turned.cells());
        match dir {
            Direction::Left => {
                assert(q.lhs().keys() =~= turned.lhs().keys());
                assert(q.rhs().keys() =~= turned.rhs().keys());
            },
            Direction::Right => {
                assert(q.lhs().keys() =~= turned.lhs().keys());
                assert(q.rhs().keys() =~= turned.rhs().keys());
            },
        }
    }
}

/// A tree with a positive black height has a root.
pub proof fn lemma_black_height_fork(t: Outline)
    requires
        t.black_height() > 0,
    ensures
        t is Fork,
{
}

/// Evening out with any sibling: the keys stay, the red-black rules hold
/// again, and the black height is made up unless the node was black and
/// found nothing red to draw on.
pub proof fn lemma_level(p: Outline, dir: Direction)
    requires
        p is Fork,
        p.ordered(),
        p.child(dir).red_black(),
        !p.child(dir).red(),
        p.child(dir.flipped()).red_black(),
        p.child(dir.flipped()).black_height() == p.child(dir).black_height() + 1,
        p.red() ==> !p.child(dir.flipped()).red(),
    ensures
        ({
            let (q, short) = p.level(dir);
            let full = p.child(dir.flipped()).black_height() + if p.red() {
                0nat
            } else {
                1nat
            };
            &&& q is Fork
            &&& q.ordered()
            &&& q.keys() == p.keys()
            &&& q.cells() == p.cells()
            &&& q.red_black()
            &&& q.red() ==> p.red()
            &&& !short ==> q.black_height() == full
            &&& short ==> q.black_height() + 1 == full && !q.red() && !p.red()
        }),
{
    let far = dir.flipped();
    let sibling = p.child(far);
    lemma_black_height_fork(sibling);
    if sibling.red() {
        reveal_with_fuel(Outline::red_black, 3);
        reveal_with_fuel(Outline::black_height, 3);
        reveal_with_fuel(Outline::ordered, 2);
        lemma_single_rotation(p, dir);
        let top = p.single_rotation(dir);
        let low = top.child(dir);
        match dir {
            Direction::Left => {
                lemma_black_height_fork(sibling.lhs());
            },
            Direction::Right => {
                lemma_black_height_fork(sibling.rhs());
            },
        }
        assert(low.ordered());
        lemma_level_core(low, dir);
        let below = low.level_core(dir);
        let q = top.with_child(dir, below.0);
        match dir {
            Direction::Left => {
                lemma_key_parts(below.0, top->at, top->key, top->colour, top.rhs());
                lemma_key_parts(low, top->at, top->key, top->colour, top.rhs());
                assert(top == branch(low, top->at, top->key, top->colour, top.rhs()));
                assert(q.keys() =~= top.keys());
                assert(q.cells() =~= top.cells());
            },
            Direction::Right => {
                lemma_key_parts(top.lhs(), top->at, top->key, top->colour, below.0);
                lemma_key_parts(top.lhs(), top->at, top->key, top->colour, low);
                assert(top == branch(top.lhs(), top->at, top->key, top->colour, low));
                assert(q.keys() =~= top.keys());
                assert(q.cells() =~= top.cells());
            },
        }
    } else {
        lemma_level_core(p, dir);
    }
}

/// What a node makes of the subtree that comes back on its side `dir`
/// from a removal. `was_red` says whether that subtree had a red root
/// before.
pub proof fn lemma_settle(mid: Outline, dir: Direction, short: bool, was_red: bool)
    requires
        mid is Fork,
        mid.ordered(),
        mid.child(dir).red_black(),
        mid.child(dir.flipped()).red_black(),
        mid.red() ==> !mid.child(dir.flipped()).red() && !was_red,
        mid.child(dir).red() ==> was_red,
        !short ==> mid.child(dir).black_height() == mid.child(dir.flipped()).black_height(),
        short ==> mid.child(dir).black_height() + 1 == mid.child(dir.flipped()).black_height()
            && !mid.child(dir).red(),
    ensures
        ({
            let (q, still) = mid.settle(dir, short);
            let full = mid.child(dir.flipped()).black_height() + if mid.red() {
                0nat
            } else {
                1nat
            };
            &&& q is Fork
            &&& q.ordered()
            &&& q.keys() == mid.keys()
            &&& q.cells() == mid.cells()
            &&& q.red_black()
            &&& q.red() ==> mid.red()
            &&& !still ==> q.black_height() == full
            &&& still ==> q.black_height() + 1 == full && !q.red()
        }),
{
    if short {
        lemma_level(mid, dir);
    } else {
        match dir {
            Direction::Left => {},
            Direction::Right => {},
        }
    }
}

/// Taking out a node with at most one child: the child, if there is one,
/// is a red leaf and takes the place in black; a black node without a
/// child leaves its place one black node short.
pub proof fn lemma_unlink(t: Outline)
    requires
        t is Fork,
        t.ordered(),
        t.red_black(),
        t.lhs() is Empty || t.rhs() is Empty,
    ensures
        ({
            let (q, short) = t.remove(t->key);
            let child = if t.lhs() is Empty {
                t.rhs()
            } else {
                t.lhs()
            };
            &&& (q, short) == (if t.red() {
                (child, false)
            } else if child.red() {
                (child.painted(Colour::Black), false)
            } else {
                (child, true)
            })
            &&& t.red() ==> child is Empty
            &&& child is Fork ==> child.lhs() is Empty && child.rhs() is Empty
            &&& q.ordered()
            &&& q.red_black()
            &&& q.red() ==> t.red()
            &&& !short ==> q.black_height() == t.black_height()
            &&& short ==> q.black_height() + 1 == t.black_height() && !q.red()
            &&& q.keys() == t.keys().remove(t->key)
            &&& forall|c: usize| q.cells().contains(c) ==> t.cells().contains(c)
            &&& forall|c: usize| t.cells().contains(c) ==> c == t->at || q.cells().contains(c)
        }),
{
    reveal_with_fuel(Outline::red_black, 3);
    reveal_with_fuel(Outline::black_height, 3);
    reveal_with_fuel(Outline::ordered, 3);
    reveal_with_fuel(Outline::keys, 3);
    reveal_with_fuel(Outline::cells, 3);
    let (q, short) = t.remove(t->key);
    let child = if t.lhs() is Empty {
        t.rhs()
    } else {
        t.lhs()
    };
    lemma_painted(child, Colour::Black);
    assert(q.keys() =~= t.keys().remove(t->key));
    assert(t.cells() =~= child.cells().insert(t->at));
}

/// Removal takes out exactly the lower bound of `key`, keeps the order and
/// the red-black rules, never turns a black root red, and either keeps the
/// black height or, with a black root, lowers it by one and says so.
pub proof fn lemma_remove(t: Outline, key: usize)
    requires
        t.ordered(),
        t.red_black(),
    ensures
        ({
            let (q, short) = t.remove(key);
            &&& q.ordered()
            &&& q.red_black()
            &&& q.red() ==> t.red()
            &&& !short ==> q.black_height() == t.black_height()
            &&& short ==> q.black_height() + 1 == t.black_height() && !q.red()
            &&& t.fit(key) is None ==> q == t && !short
            &&& t.fit(key) matches Some(best) ==> {
                &&& t.keys().contains(best)
                &&& q.keys() == t.keys().remove(best)
                &&& t.cells().contains(t.locate(best))
                &&& forall|c: usize| q.cells().contains(c) ==> t.cells().contains(c)
                &&& forall|c: usize|
                    t.cells().contains(c) ==> c == t.locate(best) || q.cells().contains(c)
            }
        }),
    decreases t.size(),
{
    lemma_fit(t, key);
    match t {
        Outline::Empty => {},
        Outline::Fork { left, at, key: k, colour, right } => {
            let l = *left;
            let r = *right;
            assert(t == branch(l, at, k, colour, r));
            lemma_key_parts(l, at, k, colour, r);
            lemma_fit(l, key);
            lemma_fit(r, key);
            if key > k {
                lemma_remove(r, key);
                let sub = r.remove(key);
                if r.fit(key) is Some {
                    let best = r.fit(key).unwrap();
                    let mid = t.with_child(Direction::Right, sub.0);
                    lemma_key_parts(l, at, k, colour, sub.0);
                    assert(mid.ordered());
                    lemma_settle(mid, Direction::Right, sub.1, r.red());
                    lemma_locate(t, best);
                    assert(mid.keys() =~= t.keys().remove(best));
                } else {
                    assert(t.with_child(Direction::Right, r) == t);
                }
            } else if key < k && l.fit(key) is Some {
                lemma_remove(l, key);
                let sub = l.remove(key);
                let best = l.fit(key).unwrap();
                let mid = t.with_child(Direction::Left, sub.0);
                lemma_key_parts(sub.0, at, k, colour, r);
                assert(mid.ordered());
                lemma_settle(mid, Direction::Left, sub.1, l.red());
                lemma_locate(t, best);
                assert(mid.keys() =~= t.keys().remove(best));
            } else if l is Empty || r is Empty {
                assert(t.fit(key) == Some(k));
                assert(t.remove(key) == t.remove(k));
                lemma_unlink(t);
            } else {
                assert(t.fit(key) == Some(k));
                assert forall|j: usize| r.keys().contains(j) implies k < j by {}
                lemma_swap_min(r, at, k);
                lemma_swap_min_size(r, at, k);
                let swapped = r.swap_min(at, k);
                lemma_remove(swapped, k);
                let sub = swapped.remove(k);
                let sa = r.min_at();
                let sk = r.min_key();
                let mid = branch(l, sa, sk, colour, sub.0);
                lemma_key_parts(l, sa, sk, colour, sub.0);
                assert(sub.0.keys() =~= r.keys().remove(sk));
                assert forall|j: usize| l.keys().contains(j) implies j < sk by {
                    assert(r.keys().contains(sk));
                }
                assert forall|j: usize| sub.0.keys().contains(j) implies sk < j by {
                    assert(r.keys().contains(j));
                }
                assert(mid.ordered());
                lemma_settle(mid, Direction::Right, sub.1, r.red());
                assert(mid.keys() =~= t.keys().remove(k));
                assert forall|c: usize| mid.cells().contains(c) implies t.cells().contains(c) by {
                    if sub.0.cells().contains(c) {
                        assert(swapped.cells().contains(c));
                    }
                }
                assert forall|c: usize| t.cells().contains(c) implies c == at
                    || mid.cells().contains(c) by {
                    if r.cells().contains(c) && c != sa {
                        assert(swapped.cells().contains(c));
                    }
                }
            }
        },
    }
}

/// Another colour at the root of one subtree changes neither keys nor
/// nodes nor order.
pub proof fn lemma_repainted_child(t: Outline, dir: Direction, colour: Colour)
    requires
        t is Fork,
    ensures
        ({
            let q = t.with_child(dir, t.child(dir).painted(colour));
            &&& q is Fork
            &&& q.ordered() == t.ordered()
            &&& q.keys() == t.keys()
            &&& q.cells() == t.cells()
            &&& q.child(dir.flipped()) == t.child(dir.flipped())
            &&& q.child(dir) == t.child(dir).painted(colour)
            &&& q.colour_of() == t.colour_of()
        }),
{
    let q = t.with_child(dir, t.child(dir).painted(colour));
    lemma_painted(t.child(dir), colour);
    match dir {
        Direction::Left => {},
        Direction::Right => {},
    }
    assert(q.keys() =~= t.keys());
    assert(q.cells() =~= t.cells());
}

} // verus!
