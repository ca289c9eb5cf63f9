//! The abstract shape of a k-d tree: the model that the arena of nodes stands
//! for, and the facts about it that the operations rest on.
use vstd::multiset::Multiset;
use vstd::prelude::*;

use crate::point::{coord, goes_left, sq_dist, Point, Split};

verus! {

broadcast use vstd::multiset::group_multiset_axioms;

/// A k-d tree as a mathematical value. Each node records the handle of the
/// arena slot that holds it, its point, its splitting axis and its subtrees.
pub enum Tree {
    Empty,
    Node { handle: usize, point: Point, split: Split, left: Box<Tree>, right: Box<Tree> },
}

impl Tree {
    /// The handle of the root node, if any.
    pub open spec fn root_handle(self) -> Option<usize> {
        match self {
            Tree::Empty => None,
            Tree::Node { handle, .. } => Some(handle),
        }
    }

    /// Holds of the empty tree and of a tree whose root splits on `s`.
    pub open spec fn splits_on(self, s: Split) -> bool {
        match self {
            Tree::Empty => true,
            Tree::Node { split, .. } => split == s,
        }
    }

    /// The points stored in the tree, with repetition.
    pub open spec fn contents(self) -> Multiset<Point>
        decreases self,
    {
        match self {
            Tree::Empty => Multiset::empty(),
            Tree::Node { point, left, right, .. } => left.contents().add(
                right.contents(),
            ).insert(point),
        }
    }

    /// The handles of all nodes of the tree.
    pub open spec fn handles(self) -> Set<usize>
        decreases self,
    {
        match self {
            Tree::Empty => Set::empty(),
            Tree::Node { handle, left, right, .. } => left.handles().union(
                right.handles(),
            ).insert(handle),
        }
    }

    /// No handle occurs twice.
    pub open spec fn distinct(self) -> bool
        decreases self,
    {
        match self {
            Tree::Empty => true,
            Tree::Node { handle, left, right, .. } => {
                &&& left.distinct()
                &&& right.distinct()
                &&& !left.handles().contains(handle)
                &&& !right.handles().contains(handle)
                &&& left.handles().disjoint(right.handles())
            },
        }
    }

    /// At every node, each point of the left subtree goes left and each point
    /// of the right subtree goes right.
    pub open spec fn is_partitioned(self) -> bool
        decreases self,
    {
        match self {
            Tree::Empty => true,
            Tree::Node { point, split, left, right, .. } => {
                &&& forall|q: Point| #[trigger]
                    left.contents().contains(q) ==> goes_left(point, split, q)
                &&& forall|q: Point| #[trigger]
                    right.contents().contains(q) ==> !goes_left(point, split, q)
                &&& left.is_partitioned()
                &&& right.is_partitioned()
            },
        }
    }

    /// Every child splits on the axis opposite to its parent's.
    pub open spec fn alternates(self) -> bool
        decreases self,
    {
        match self {
            Tree::Empty => true,
            Tree::Node { split, left, right, .. } => {
                &&& left.splits_on(split.spec_opposite())
                &&& right.splits_on(split.spec_opposite())
                &&& left.alternates()
                &&& right.alternates()
            },
        }
    }

    /// The invariant of a tree that an index stands for: distinct handles,
    /// partitioned, alternating axes, and a root that splits on `x`.
    pub open spec fn is_valid(self) -> bool {
        &&& self.distinct()
        &&& self.is_partitioned()
        &&& self.alternates()
        &&& self.splits_on(Split::X)
    }

    /// The subtree on `p`'s side of the root (empty for the empty tree).
    pub open spec fn side(self, p: Point) -> Tree {
        match self {
            Tree::Empty => Tree::Empty,
            Tree::Node { point, split, left, right, .. } => if goes_left(point, split, p) {
                *left
            } else {
                *right
            },
        }
    }

    /// The handle of the node where a descent for `p` stops: the first node
    /// on `p`'s path without a child on `p`'s side.
    pub open spec fn landing(self, p: Point) -> usize
        decreases self,
    {
        match self {
            Tree::Empty => 0,
            Tree::Node { handle, point, split, left, right } => if goes_left(point, split, p) {
                if left.root_handle() is None {
                    handle
                } else {
                    left.landing(p)
                }
            } else {
                if right.root_handle() is None {
                    handle
                } else {
                    right.landing(p)
                }
            },
        }
    }

    /// The tree after `p` is attached, under handle `h`, where a descent for
    /// `p` stops; `s` is the axis it gets when the tree is empty. Below a node
    /// the new node gets the axis opposite to its parent's.
    pub open spec fn with_inserted(self, p: Point, h: usize, s: Split) -> Tree
        decreases self,
    {
        match self {
            Tree::Empty => Tree::Node {
                handle: h,
                point: p,
                split: s,
                left: Box::new(Tree::Empty),
                right: Box::new(Tree::Empty),
            },
            Tree::Node { handle, point, split, left, right } => if goes_left(point, split, p) {
                Tree::Node {
                    handle,
                    point,
                    split,
                    left: Box::new(left.with_inserted(p, h, split.spec_opposite())),
                    right,
                }
            } else {
                Tree::Node {
                    handle,
                    point,
                    split,
                    left,
                    right: Box::new(right.with_inserted(p, h, split.spec_opposite())),
                }
            },
        }
    }

    /// The subtree at which a search for `p` stops: the first node on `p`'s
    /// path that holds `p`, or else the node where the descent runs out.
    pub open spec fn located(self, p: Point) -> Tree
        decreases self,
    {
        match self {
            Tree::Empty => Tree::Empty,
            Tree::Node { point, split, left, right, .. } => if point == p {
                self
            } else if goes_left(point, split, p) {
                if left.root_handle() is None {
                    self
                } else {
                    left.located(p)
                }
            } else {
                if right.root_handle() is None {
                    self
                } else {
                    right.located(p)
                }
            },
        }
    }

    /// The handle of the parent of [`Tree::located`], or `None` when the
    /// search stops at the root.
    pub open spec fn located_parent(self, p: Point) -> Option<usize>
        decreases self,
    {
        match self {
            Tree::Empty => None,
            Tree::Node { handle, point, split, left, right } => if point == p {
                None
            } else if goes_left(point, split, p) {
                if left.root_handle() is None {
                    None
                } else {
                    match left.located_parent(p) {
                        None => Some(handle),
                        Some(x) => Some(x),
                    }
                }
            } else {
                if right.root_handle() is None {
                    None
                } else {
                    match right.located_parent(p) {
                        None => Some(handle),
                        Some(x) => Some(x),
                    }
                }
            },
        }
    }

    /// The tree with the first node on `p`'s path that holds `p` cut off,
    /// together with its whole subtree.
    pub open spec fn detached(self, p: Point) -> Tree
        decreases self,
    {
        match self {
            Tree::Empty => Tree::Empty,
            Tree::Node { handle, point, split, left, right } => if point == p {
                Tree::Empty
            } else if goes_left(point, split, p) {
                Tree::Node { handle, point, split, left: Box::new(left.detached(p)), right }
            } else {
                Tree::Node { handle, point, split, left, right: Box::new(right.detached(p)) }
            },
        }
    }

    /// The handles of the tree in depth-first order: a node, then its left
    /// subtree, then its right subtree.
    pub open spec fn handle_order(self) -> Seq<usize>
        decreases self,
    {
        match self {
            Tree::Empty => Seq::empty(),
            Tree::Node { handle, left, right, .. } => seq![handle] + left.handle_order()
                + right.handle_order(),
        }
    }

    /// The point that a branch-and-bound search for `q` returns: the best of
    /// the subtree on `q`'s side (the node itself when that is empty); then
    /// the best of the other subtree, taken only where the splitting line is
    /// strictly closer than the candidate and that point is strictly closer
    /// still; then the node's own point, which wins ties.
    pub open spec fn nearest(self, q: Point) -> Point
        decreases self,
    {
        match self {
            Tree::Empty => q,
            Tree::Node { point, split, left, right, .. } => {
                let l = left.nearest(q);
                let r = right.nearest(q);
                if goes_left(point, split, q) {
                    search_step(point, split, q, *left, l, *right, r)
                } else {
                    search_step(point, split, q, *right, r, *left, l)
                }
            },
        }
    }

    /// The points of the tree in depth-first order: a node, then its left
    /// subtree, then its right subtree.
    pub open spec fn preorder(self) -> Seq<Point>
        decreases self,
    {
        match self {
            Tree::Empty => Seq::empty(),
            Tree::Node { point, left, right, .. } => seq![point] + left.preorder()
                + right.preorder(),
        }
    }
}

/// One node's step of the nearest-point search: `near` is the subtree on
/// `q`'s side with best point `near_best`, `far` the other one with best
/// point `far_best`.
pub open spec fn search_step(
    point: Point,
    split: Split,
    q: Point,
    near: Tree,
    near_best: Point,
    far: Tree,
    far_best: Point,
) -> Point {
    let candidate = if near is Empty {
        point
    } else {
        near_best
    };
    let d = sq_dist(q, candidate);
    let h = coord(q, split) - coord(point, split);
    let best = if far is Node && d > h * h && sq_dist(q, far_best) < d {
        far_best
    } else {
        candidate
    };
    if sq_dist(q, point) <= sq_dist(q, best) {
        point
    } else {
        best
    }
}

/// What a search for `q` in `t` gives: nothing in an empty tree.
pub open spec fn search(t: Tree, q: Point) -> Option<Point> {
    match t {
        Tree::Empty => None,
        Tree::Node { .. } => Some(t.nearest(q)),
    }
}

/// `t` after `pts` are inserted one by one, in order, the `i`-th under handle
/// `hs[i]`.
pub open spec fn inserted_all(t: Tree, pts: Seq<Point>, hs: Seq<usize>) -> Tree
    decreases pts.len(),
{
    if pts.len() == 0 {
        t
    } else {
        inserted_all(t, pts.drop_last(), hs).with_inserted(
            pts.last(),
            hs[pts.len() - 1],
            Split::X,
        )
    }
}

pub(crate) proof fn lemma_order_len(t: Tree)
    ensures
        t.handle_order().len() == t.preorder().len(),
    decreases t,
{
    match t {
        Tree::Empty => {},
        Tree::Node { left, right, .. } => {
            lemma_order_len(*left);
            lemma_order_len(*right);
        },
    }
}

/// Inserting into a non-empty tree keeps its root.
pub(crate) proof fn lemma_inserted_all_root(t: Tree, pts: Seq<Point>, hs: Seq<usize>)
    requires
        t is Node,
    ensures
        inserted_all(t, pts, hs).root_handle() == t.root_handle(),
    decreases pts.len(),
{
    if pts.len() > 0 {
        lemma_inserted_all_root(t, pts.drop_last(), hs);
        lemma_contents_inserted(inserted_all(t, pts.drop_last(), hs), pts.last(), hs[pts.len() - 1], Split::X);
    }
}

pub(crate) proof fn lemma_contents_inserted(t: Tree, p: Point, h: usize, s: Split)
    ensures
        t.with_inserted(p, h, s).contents() =~= t.contents().insert(p),
        t.with_inserted(p, h, s).handles() =~= t.handles().insert(h),
        t is Node ==> t.with_inserted(p, h, s).root_handle() == t.root_handle(),
        t.splits_on(s) ==> t.with_inserted(p, h, s).splits_on(s),
    decreases t,
{
    match t {
        Tree::Empty => {},
        Tree::Node { point, split, left, right, .. } => {
            lemma_contents_inserted(*left, p, h, split.spec_opposite());
            lemma_contents_inserted(*right, p, h, split.spec_opposite());
        },
    }
}

pub(crate) proof fn lemma_inserted_valid(t: Tree, p: Point, h: usize, s: Split)
    requires
        t.distinct(),
        t.is_partitioned(),
        t.alternates(),
        !t.handles().contains(h),
    ensures
        t.with_inserted(p, h, s).distinct(),
        t.with_inserted(p, h, s).is_partitioned(),
        t.with_inserted(p, h, s).alternates(),
        t is Node ==> t.with_inserted(p, h, s).root_handle() == t.root_handle(),
        t.splits_on(s) ==> t.with_inserted(p, h, s).splits_on(s),
    decreases t,
{
    lemma_contents_inserted(t, p, h, s);
    match t {
        Tree::Empty => {
            assert(Tree::Empty.contents() =~= Multiset::empty());
            assert(Tree::Empty.is_partitioned());
            assert(Tree::Empty.alternates());
            assert(Tree::Empty.distinct());
        },
        Tree::Node { point, split, left, right, .. } => {
            let o = split.spec_opposite();
            if goes_left(point, split, p) {
                lemma_inserted_valid(*left, p, h, o);
                lemma_contents_inserted(*left, p, h, o);
                let nl = left.with_inserted(p, h, o);
                assert forall|q: Point| #[trigger] nl.contents().contains(q) implies goes_left(
                    point,
                    split,
                    q,
                ) by {
                    if q != p {
                        assert(left.contents().contains(q));
                    }
                }
            } else {
                lemma_inserted_valid(*right, p, h, o);
                lemma_contents_inserted(*right, p, h, o);
                let nr = right.with_inserted(p, h, o);
                assert forall|q: Point| #[trigger] nr.contents().contains(q) implies !goes_left(
                    point,
                    split,
                    q,
                ) by {
                    if q != p {
                        assert(right.contents().contains(q));
                    }
                }
            }
        },
    }
}

pub(crate) proof fn lemma_landing_in(t: Tree, p: Point)
    requires
        t is Node,
    ensures
        t.handles().contains(t.landing(p)),
    decreases t,
{
    match t {
        Tree::Empty => {},
        Tree::Node { point, split, left, right, .. } => {
            if goes_left(point, split, p) {
                if left.root_handle() is Some {
                    lemma_landing_in(*left, p);
                }
            } else {
                if right.root_handle() is Some {
                    lemma_landing_in(*right, p);
                }
            }
        },
    }
}

pub(crate) proof fn lemma_preorder_contents(t: Tree)
    ensures
        t.preorder().to_multiset() =~= t.contents(),
    decreases t,
{
    broadcast use vstd::seq_lib::group_to_multiset_ensures;
    match t {
        Tree::Empty => {},
        Tree::Node { point, left, right, .. } => {
            lemma_preorder_contents(*left);
            lemma_preorder_contents(*right);
            vstd::seq_lib::lemma_multiset_commutative(seq![point], left.preorder());
            vstd::seq_lib::lemma_multiset_commutative(
                seq![point] + left.preorder(),
                right.preorder(),
            );
            assert(seq![point].to_multiset() =~= Multiset::empty().insert(point)) by {
                assert(seq![point] =~= Seq::<Point>::empty().push(point));
            }
        },
    }
}

/// A search for `p` stops at a node of the tree, and it holds `p` exactly
/// when the tree does.
pub(crate) proof fn lemma_located(t: Tree, p: Point)
    requires
        t is Node,
        t.is_partitioned(),
    ensures
        t.located(p) is Node,
        t.handles().contains(t.located(p)->handle),
        t.contents().contains(p) <==> t.located(p)->point == p,
        t.located(p)->point == p ==> t.located(p).contents().contains(p),
    decreases t,
{
    match t {
        Tree::Empty => {},
        Tree::Node { point, split, left, right, .. } => {
            if point != p {
                if goes_left(point, split, p) {
                    if left.root_handle() is None {
                        assert(left.contents() =~= Multiset::empty());
                        assert(!right.contents().contains(p));
                    } else {
                        lemma_located(*left, p);
                        assert(!right.contents().contains(p));
                    }
                } else {
                    if right.root_handle() is None {
                        assert(right.contents() =~= Multiset::empty());
                        assert(!left.contents().contains(p));
                    } else {
                        lemma_located(*right, p);
                        assert(!left.contents().contains(p));
                    }
                }
            }
        },
    }
}

/// Cutting off the subtree that holds `p` splits the tree in two: the
/// contents and handles of the rest and of the subtree make up the whole, and
/// the rest is as valid as the whole.
pub(crate) proof fn lemma_detached(t: Tree, p: Point)
    requires
        t is Node,
        t.distinct(),
        t.is_partitioned(),
        t.alternates(),
        t.located(p) is Node,
        t.located(p)->point == p,
    ensures
        t.detached(p).contents().add(t.located(p).contents()) =~= t.contents(),
        t.detached(p).handles().union(t.located(p).handles()) =~= t.handles(),
        t.detached(p).handles().disjoint(t.located(p).handles()),
        t.detached(p).distinct(),
        t.detached(p).is_partitioned(),
        t.detached(p).alternates(),
        t.located(p).distinct(),
        forall|s: Split| t.splits_on(s) ==> #[trigger] t.detached(p).splits_on(s),
        t.located_parent(p) is None <==> t->point == p,
        t.located_parent(p) is None ==> t.detached(p) == Tree::Empty,
        t.located_parent(p) is Some ==> t.detached(p).root_handle() == t.root_handle(),
        t.located_parent(p) matches Some(x) ==> t.detached(p).handles().contains(x),
    decreases t,
{
    match t {
        Tree::Empty => {},
        Tree::Node { handle, point, split, left, right } => {
            if point == p {
                assert(Tree::Empty.contents() =~= Multiset::empty());
                assert(Tree::Empty.handles() =~= Set::empty());
                assert(Tree::Empty.is_partitioned());
                assert(Tree::Empty.alternates());
                assert(Tree::Empty.distinct());
            } else {
                let c = if goes_left(point, split, p) {
                    *left
                } else {
                    *right
                };
                assert(c.root_handle() is Some);
                lemma_detached(c, p);
                let dc = c.detached(p);
                assert forall|q: Point| #[trigger] dc.contents().contains(q) implies c.contents().contains(q) by {}
                if c.located_parent(p) is None {
                    assert(c.handles().contains(c->handle));
                }
            }
        },
    }
}

} // verus!
