//! The index: an arena of nodes addressed by integer handles, with a FIFO
//! free list of recycled handles, standing for a [`Tree`].
use std::collections::VecDeque;

use vstd::multiset::Multiset;
use vstd::prelude::*;

use crate::geometry::{partition_lines, unit_bounds, Bounds, Line, UNIT};
use crate::point::{coord, goes_left, is_nearest, lemma_far_side, sq_dist, Point, Split};
use crate::tree::{
    lemma_contents_inserted, lemma_detached, lemma_inserted_valid, lemma_landing_in, lemma_located,
    lemma_inserted_all_root, lemma_order_len, lemma_preorder_contents, inserted_all, search, Tree,
};

verus! {

broadcast use vstd::multiset::group_multiset_axioms;

/// The content of a live arena slot.
#[derive(Clone, Copy, Debug)]
struct Node {
    point: Point,
    left: Option<usize>,
    right: Option<usize>,
    split: Split,
}

impl Node {
    /// Whether a ball around `point` whose squared radius is `sq_radius`
    /// crosses this node's splitting line, that is, whether the radius is
    /// greater than the distance from `point` to the line.
    fn is_in_hypersphere(&self, point: &Point, sq_radius: u128) -> (r: bool)
        ensures
            r == (sq_radius > (coord(*point, self.split) - coord(self.point, self.split)) * (
            coord(*point, self.split) - coord(self.point, self.split))),
    {
        let d = match self.split {
            Split::X => crate::point::square(crate::point::abs_diff(point.x, self.point.x)),
            Split::Y => crate::point::square(crate::point::abs_diff(point.y, self.point.y)),
        };
        proof {
            let a = coord(*point, self.split) - coord(self.point, self.split);
            assert(a * a == (if a >= 0 { a } else { -a }) * (if a >= 0 { a } else { -a }))
                by (nonlinear_arith);
        }
        sq_radius > d
    }

    /// The side on which `point` goes at this node: `true` for left.
    fn direction(&self, point: &Point) -> (r: bool)
        ensures
            r == goes_left(self.point, self.split, *point),
    {
        match self.split {
            Split::X => point.x <= self.point.x,
            Split::Y => point.y <= self.point.y,
        }
    }
}

/// The arena holds the tree `t`: each node of `t` sits in its slot, with the
/// handles of its subtrees' roots as its children.
spec fn stores(nodes: Seq<Option<Node>>, t: Tree) -> bool
    decreases t,
{
    match t {
        Tree::Empty => true,
        Tree::Node { handle, point, split, left, right } => {
            &&& handle < nodes.len()
            &&& nodes[handle as int] == Some(
                Node { point, left: left.root_handle(), right: right.root_handle(), split },
            )
            &&& stores(nodes, *left)
            &&& stores(nodes, *right)
        },
    }
}

/// The free list holds distinct handles of empty slots.
spec fn free_ok(nodes: Seq<Option<Node>>, free: Seq<usize>) -> bool {
    &&& free.no_duplicates()
    &&& forall|i: int|
        0 <= i < free.len() ==> #[trigger] free[i] < nodes.len() && nodes[free[i] as int] is None
}

/// Nothing leaks: every slot holds a node of `t` or is empty with its handle
/// on the free list.
spec fn accounted(nodes: Seq<Option<Node>>, free: Seq<usize>, t: Tree) -> bool {
    forall|i: int|
        0 <= i < nodes.len() ==> {
            &&& #[trigger] nodes[i] is Some ==> t.handles().contains(i as usize)
            &&& nodes[i] is None ==> free.contains(i as usize)
        }
}

/// `n` with a link to `h` on the side where `p` goes.
spec fn attached(n: Node, p: Point, h: usize) -> Node {
    if goes_left(n.point, n.split, p) {
        Node { left: Some(h), ..n }
    } else {
        Node { right: Some(h), ..n }
    }
}

proof fn lemma_stores_live(nodes: Seq<Option<Node>>, t: Tree)
    requires
        stores(nodes, t),
    ensures
        forall|i: usize| #[trigger]
            t.handles().contains(i) ==> i < nodes.len() && nodes[i as int] is Some,
    decreases t,
{
    match t {
        Tree::Empty => {},
        Tree::Node { left, right, .. } => {
            lemma_stores_live(nodes, *left);
            lemma_stores_live(nodes, *right);
            assert forall|i: usize| #[trigger] t.handles().contains(i) implies i < nodes.len()
                && nodes[i as int] is Some by {
                if left.handles().contains(i) {
                } else if right.handles().contains(i) {
                }
            }
        },
    }
}

proof fn lemma_stores_frame(a: Seq<Option<Node>>, b: Seq<Option<Node>>, t: Tree)
    requires
        stores(a, t),
        forall|i: usize| #[trigger]
            t.handles().contains(i) ==> i < b.len() && b[i as int] == a[i as int],
    ensures
        stores(b, t),
    decreases t,
{
    match t {
        Tree::Empty => {},
        Tree::Node { left, right, .. } => {
            assert forall|i: usize| #[trigger] left.handles().contains(i) implies i < b.len()
                && b[i as int] == a[i as int] by {
                assert(t.handles().contains(i));
            }
            assert forall|i: usize| #[trigger] right.handles().contains(i) implies i < b.len()
                && b[i as int] == a[i as int] by {
                assert(t.handles().contains(i));
            }
            assert(t.handles().contains(t->handle));
            lemma_stores_frame(a, b, *left);
            lemma_stores_frame(a, b, *right);
        },
    }
}

proof fn lemma_stores_inserted(
    a: Seq<Option<Node>>,
    b: Seq<Option<Node>>,
    t: Tree,
    p: Point,
    h: usize,
    s: Split,
)
    requires
        stores(a, t),
        t is Node,
        t.distinct(),
        !t.handles().contains(h),
        h < b.len(),
        b[h as int] == Some(
            Node {
                point: p,
                left: None,
                right: None,
                split: a[t.landing(p) as int].unwrap().split.spec_opposite(),
            },
        ),
        t.landing(p) < b.len(),
        b[t.landing(p) as int] == Some(attached(a[t.landing(p) as int].unwrap(), p, h)),
        forall|i: usize| #[trigger]
            t.handles().contains(i) && i != t.landing(p) ==> i < b.len() && b[i as int]
                == a[i as int],
    ensures
        stores(b, t.with_inserted(p, h, s)),
    decreases t,
{
    match t {
        Tree::Empty => {},
        Tree::Node { handle, point, split, left, right } => {
            let o = split.spec_opposite();
            let l = t.landing(p);
            let (c, d) = if goes_left(point, split, p) {
                (*left, *right)
            } else {
                (*right, *left)
            };
            assert(l == handle || c.handles().contains(l)) by {
                if c.root_handle() is Some {
                    lemma_landing_in(c, p);
                }
            }
            assert forall|i: usize| #[trigger] d.handles().contains(i) implies i < b.len() && b[i as int]
                == a[i as int] by {
                assert(t.handles().contains(i));
            }
            lemma_stores_frame(a, b, d);
            assert(t.handles().contains(handle));
            if c.root_handle() is None {
                assert(stores(b, Tree::Empty));
                assert(stores(b, c.with_inserted(p, h, o)));
            } else {
                assert forall|i: usize| #[trigger]
                    c.handles().contains(i) && i != c.landing(p) implies i < b.len() && b[i as int]
                    == a[i as int] by {
                    assert(t.handles().contains(i));
                }
                lemma_stores_inserted(a, b, c, p, h, o);
                lemma_contents_inserted(c, p, h, o);
                lemma_landing_in(c, p);
                assert(l != handle);
                assert(b[handle as int] == a[handle as int]);
            }
        },
    }
}

/// `n` without its links to `h`.
spec fn unlinked(n: Node, h: usize) -> Node {
    Node {
        left: if n.left == Some(h) {
            None
        } else {
            n.left
        },
        right: if n.right == Some(h) {
            None
        } else {
            n.right
        },
        ..n
    }
}

proof fn lemma_stores_located(nodes: Seq<Option<Node>>, t: Tree, p: Point)
    requires
        stores(nodes, t),
    ensures
        stores(nodes, t.located(p)),
    decreases t,
{
    match t {
        Tree::Empty => {},
        Tree::Node { left, right, .. } => {
            lemma_stores_located(nodes, *left, p);
            lemma_stores_located(nodes, *right, p);
        },
    }
}

/// Unlinking the subtree that holds `p` from its parent's slot leaves an
/// arena that holds the rest of the tree.
proof fn lemma_stores_detached(a: Seq<Option<Node>>, b: Seq<Option<Node>>, t: Tree, p: Point)
    requires
        stores(a, t),
        t is Node,
        t.distinct(),
        t.is_partitioned(),
        t.alternates(),
        t.located(p)->point == p,
        t.located_parent(p) is Some,
        t.located_parent(p)->0 < b.len(),
        b[t.located_parent(p)->0 as int] == Some(
            unlinked(a[t.located_parent(p)->0 as int].unwrap(), t.located(p)->handle),
        ),
        forall|i: usize| #[trigger]
            t.handles().contains(i) && i != t.located_parent(p)->0 ==> i < b.len() && b[i as int]
                == a[i as int],
    ensures
        stores(b, t.detached(p)),
    decreases t,
{
    lemma_located(t, p);
    lemma_detached(t, p);
    match t {
        Tree::Empty => {},
        Tree::Node { handle, point, split, left, right } => {
            let (c, d) = if goes_left(point, split, p) {
                (*left, *right)
            } else {
                (*right, *left)
            };
            let x = t.located_parent(p)->0;
            lemma_located(c, p);
            lemma_detached(c, p);
            assert(t.handles().contains(handle));
            assert(c.handles().contains(c->handle));
            assert forall|i: usize| #[trigger] d.handles().contains(i) implies i < b.len() && b[i as int]
                == a[i as int] by {
                assert(t.handles().contains(i));
            }
            lemma_stores_frame(a, b, d);
            if c.located_parent(p) is None {
                assert(c.detached(p) == Tree::Empty);
                assert(stores(b, Tree::Empty));
                assert(d.root_handle() != Some(c->handle));
            } else {
                assert(c.detached(p).handles().contains(x));
                assert(c.handles().contains(x));
                assert forall|i: usize| #[trigger]
                    c.handles().contains(i) && i != c.located_parent(p)->0 implies i < b.len()
                    && b[i as int] == a[i as int] by {
                    assert(t.handles().contains(i));
                }
                lemma_stores_detached(a, b, c, p);
                assert(b[handle as int] == a[handle as int]);
            }
        },
    }
}

/// After a node is put in slot `h` taken from the free list or opened anew,
/// and `h` joins the tree, nothing leaks.
proof fn lemma_accounted_allocated(
    a: Seq<Option<Node>>,
    b: Seq<Option<Node>>,
    fa: Seq<usize>,
    fb: Seq<usize>,
    t: Tree,
    u: Tree,
    h: usize,
)
    requires
        accounted(a, fa, t),
        h <= a.len(),
        h < a.len() ==> fa.len() > 0 && fa[0] == h && fb == fa.subrange(1, fa.len() as int),
        h == a.len() ==> fb == fa,
        b.len() == if h == a.len() { a.len() + 1 } else { a.len() },
        b.len() <= usize::MAX,
        b[h as int] is Some,
        forall|i: int| 0 <= i < a.len() && i != h ==> #[trigger] b[i] == a[i],
        u.handles() == t.handles().insert(h),
    ensures
        accounted(b, fb, u),
{
    assert forall|i: int| 0 <= i < b.len() implies {
        &&& #[trigger] b[i] is Some ==> u.handles().contains(i as usize)
        &&& b[i] is None ==> fb.contains(i as usize)
    } by {
        if i != h {
            assert(b[i] == a[i]);
            if a[i] is None {
                assert(fa.contains(i as usize));
                if h < a.len() {
                    let k = choose|k: int| 0 <= k < fa.len() && fa[k] == i as usize;
                    assert(0 <= k < fa.len() && fa[k] == i as usize);
                    assert(k != 0);
                    assert(fb[k - 1] == i as usize);
                }
            }
        }
    }
}

/// A k-d tree over points: an arena of nodes addressed by handles, the handle
/// of the root, and a queue of recycled handles.
pub struct KDTree {
    free_indices: VecDeque<usize>,
    nodes: Vec<Option<Node>>,
    root_index: Option<usize>,
    shape: Ghost<Tree>,
}

impl View for KDTree {
    type V = Tree;

    /// The tree that the arena holds.
    closed spec fn view(&self) -> Tree {
        self.shape@
    }
}

impl KDTree {
    /// The arena holds a valid tree, reached from the root handle, and
    /// nothing else; the free list holds the handles of the empty slots,
    /// each once.
    pub closed spec fn wf(&self) -> bool {
        &&& stores(self.nodes@, self.shape@)
        &&& self.shape@.is_valid()
        &&& self.root_index == self.shape@.root_handle()
        &&& free_ok(self.nodes@, self.free_indices@)
        &&& accounted(self.nodes@, self.free_indices@, self.shape@)
    }

    /// The handles on the free list, oldest first.
    pub closed spec fn free_handles(&self) -> Seq<usize> {
        self.free_indices@
    }

    /// The number of slots of the arena, live or empty.
    pub closed spec fn slot_count(&self) -> nat {
        self.nodes@.len()
    }

    /// The handle that the next insertion takes: the oldest free handle if
    /// there is one, else a new slot.
    pub open spec fn next_handle(&self) -> usize {
        if self.free_handles().len() > 0 {
            self.free_handles()[0]
        } else {
            self.slot_count() as usize
        }
    }

    /// `self` is `old` after `p` is inserted: attached where its descent
    /// stops, under [`KDTree::next_handle`], which leaves the free list or
    /// adds a slot.
    pub open spec fn is_insertion_of(&self, old: &KDTree, p: Point) -> bool {
        &&& self@ == old@.with_inserted(p, old.next_handle(), Split::X)
        &&& self.free_handles() == if old.free_handles().len() > 0 {
            old.free_handles().drop_first()
        } else {
            old.free_handles()
        }
        &&& self.slot_count() == if old.free_handles().len() > 0 {
            old.slot_count()
        } else {
            old.slot_count() + 1
        }
    }

    /// `self` is `old` after a removal of `p`. If `old` holds `p`, the first
    /// node on `p`'s path that holds it is cut off with its subtree, the
    /// subtree's handles join the free list in depth-first order, and the
    /// subtree's other points are inserted again in depth-first order, each
    /// taking the oldest free handle. Otherwise nothing changes.
    pub open spec fn is_removal_of(&self, old: &KDTree, p: Point) -> bool {
        if old@.contents().contains(p) {
            let sub = old@.located(p);
            let freed = old.free_handles() + sub.handle_order();
            let rest = sub.preorder().drop_first();
            &&& self@ == inserted_all(old@.detached(p), rest, freed)
            &&& self.free_handles() == freed.subrange(rest.len() as int, freed.len() as int)
            &&& self.slot_count() == old.slot_count()
        } else {
            &&& self@ == old@
            &&& self.free_handles() == old.free_handles()
            &&& self.slot_count() == old.slot_count()
        }
    }

    /// An empty index.
    pub fn new() -> (r: KDTree)
        ensures
            r.wf(),
            r@ == Tree::Empty,
            r.free_handles() == Seq::<usize>::empty(),
            r.slot_count() == 0,
    {
        KDTree {
            free_indices: VecDeque::new(),
            nodes: Vec::new(),
            root_index: None,
            shape: Ghost(Tree::Empty),
        }
    }

    /// Puts `node` in a slot, recycling the oldest free handle if there is
    /// one and opening a new slot otherwise; returns the slot's handle.
    fn allocate(&mut self, node: Node) -> (h: usize)
        requires
            free_ok(old(self).nodes@, old(self).free_indices@),
        ensures
            h <= old(self).nodes@.len(),
            h < old(self).nodes@.len() ==> old(self).nodes@[h as int] is None,
            final(self).nodes@ == if h == old(self).nodes@.len() {
                old(self).nodes@.push(Some(node))
            } else {
                old(self).nodes@.update(h as int, Some(node))
            },
            free_ok(final(self).nodes@, final(self).free_indices@),
            h < old(self).nodes@.len() ==> old(self).free_indices@.len() > 0
                && old(self).free_indices@[0] == h && final(self).free_indices@ == old(
                self,
            ).free_indices@.subrange(1, old(self).free_indices@.len() as int),
            h == old(self).nodes@.len() ==> final(self).free_indices@ == old(self).free_indices@,
            old(self).free_indices@.len() > 0 <==> h < old(self).nodes@.len(),
            final(self).root_index == old(self).root_index,
            final(self).shape == old(self).shape,
    {
        match self.free_indices.pop_front() {
            Some(index) => {
                proof {
                    assert(old(self).free_indices@[0] == index);
                    let f = self.free_indices@;
                    assert forall|i: int| 0 <= i < f.len() implies #[trigger] f[i] != index by {
                        assert(old(self).free_indices@[i + 1] == f[i]);
                    }
                    assert forall|i: int, j: int|
                        0 <= i < f.len() && 0 <= j < f.len() && i != j implies f[i] != f[j] by {
                        assert(old(self).free_indices@[i + 1] == f[i]);
                        assert(old(self).free_indices@[j + 1] == f[j]);
                    }
                    assert forall|i: int| 0 <= i < f.len() implies #[trigger] f[i] < old(
                        self,
                    ).nodes@.len() && old(self).nodes@[f[i] as int] is None by {
                        assert(old(self).free_indices@[i + 1] == f[i]);
                    }
                }
                self.nodes[index] = Some(node);
                index
            },
            None => {
                let index = self.nodes.len();
                self.nodes.push(Some(node));
                index
            },
        }
    }

    /// The handle of the node where a descent for `point` from `node_index`
    /// stops.
    fn find_node(&self, point: &Point, node_index: usize, Ghost(t): Ghost<Tree>) -> (r: usize)
        requires
            stores(self.nodes@, t),
            t.root_handle() == Some(node_index),
        ensures
            r == t.landing(*point),
        decreases t,
    {
        match self.single_search(point, node_index, Ghost(t)) {
            Some(index) => self.find_node(point, index, Ghost(t.side(*point))),
            None => node_index,
        }
    }

    /// The child of `node_index` on `point`'s side, if any.
    fn single_search(&self, point: &Point, node_index: usize, Ghost(t): Ghost<Tree>) -> (r: Option<
        usize,
    >)
        requires
            stores(self.nodes@, t),
            t.root_handle() == Some(node_index),
        ensures
            r == t.side(*point).root_handle(),
            stores(self.nodes@, t.side(*point)),
    {
        let node = self.nodes[node_index].unwrap();
        if node.direction(point) {
            node.left
        } else {
            node.right
        }
    }

    /// Adds `point` as a new node, attached where a descent for it stops.
    pub fn add_point(&mut self, point: Point)
        requires
            old(self).wf(),
        ensures
            final(self).wf(),
            final(self).is_insertion_of(old(self), point),
            final(self)@.contents() == old(self)@.contents().insert(point),
    {
        let ghost t = self.shape@;
        proof {
            lemma_stores_live(self.nodes@, t);
        }
        match self.root_index {
            None => {
                let h = self.allocate(Node { point, left: None, right: None, split: Split::X });
                self.root_index = Some(h);
                proof {
                    lemma_inserted_valid(t, point, h, Split::X);
                    lemma_contents_inserted(t, point, h, Split::X);
                    assert(stores(self.nodes@, Tree::Empty));
                    assert(self.nodes@.len() <= usize::MAX) by {
                        assert(self.nodes.len() == self.nodes@.len());
                    }
                    lemma_accounted_allocated(old(self).nodes@, self.nodes@, old(self).free_indices@,
                        self.free_indices@, t, t.with_inserted(point, h, Split::X), h);
                }
                self.shape = Ghost(t.with_inserted(point, h, Split::X));
                assert(self@ == old(self)@.with_inserted(point, h, Split::X));
                assert(h == old(self).next_handle());
            },
            Some(root) => {
                let node_index = self.find_node(&point, root, Ghost(t));
                proof {
                    lemma_landing_in(t, point);
                }
                let node = self.nodes[node_index].unwrap();
                let next = self.allocate(
                    Node { point, left: None, right: None, split: node.split.opposite() },
                );
                let ghost a = self.nodes@;
                proof {
                    assert(a.len() <= usize::MAX) by {
                        assert(self.nodes.len() == self.nodes@.len());
                    }
                }
                let mut updated = node;
                if node.direction(&point) {
                    updated.left = Some(next);
                } else {
                    updated.right = Some(next);
                }
                self.nodes[node_index] = Some(updated);
                proof {
                    let b = self.nodes@;
                    assert(!t.handles().contains(next));
                    assert forall|i: int|
                        0 <= i < self.free_indices@.len() implies #[trigger] self.free_indices@[i]
                        < b.len() && b[self.free_indices@[i] as int] is None by {
                        assert(a[self.free_indices@[i] as int] is None);
                    }
                    lemma_stores_inserted(old(self).nodes@, b, t, point, next, Split::X);
                    lemma_contents_inserted(t, point, next, Split::X);
                    lemma_accounted_allocated(old(self).nodes@, a, old(self).free_indices@,
                        self.free_indices@, t, t.with_inserted(point, next, Split::X), next);
                    assert(accounted(b, self.free_indices@, t.with_inserted(point, next, Split::X)))
                        by {
                        assert forall|i: int| 0 <= i < b.len() implies {
                            &&& #[trigger] b[i] is Some ==> t.with_inserted(point, next, Split::X).handles().contains(i as usize)
                            &&& b[i] is None ==> self.free_indices@.contains(i as usize)
                        } by {
                            if i == node_index {
                                assert(t.handles().contains(node_index));
                            } else {
                                assert(b[i] == a[i]);
                            }
                        }
                    }
                    lemma_inserted_valid(t, point, next, Split::X);
                }
                self.shape = Ghost(t.with_inserted(point, next, Split::X));
                assert(self@ == old(self)@.with_inserted(point, next, Split::X));
                assert(next == old(self).next_handle());
            },
        }
    }

    /// A point of the subtree rooted at `node_index` nearest to `point`,
    /// found by branch and bound: the side of `point` first, the other side
    /// only where the splitting line is closer than the best point so far.
    fn nearest_neighbor_search(&self, point: &Point, node_index: usize, Ghost(t): Ghost<Tree>) -> (r:
        Point)
        requires
            stores(self.nodes@, t),
            t.root_handle() == Some(node_index),
            t.is_partitioned(),
        ensures
            r == t.nearest(*point),
            is_nearest(t.contents(), *point, r),
        decreases t,
    {
        let node = self.nodes[node_index].unwrap();
        let ghost (near, far) = if goes_left(t->point, t->split, *point) {
            (*t->left, *t->right)
        } else {
            (*t->right, *t->left)
        };
        let (primary, secondary) = if node.direction(point) {
            (node.left, node.right)
        } else {
            (node.right, node.left)
        };
        proof {
            assert forall|q: Point| #[trigger] near.contents().contains(q) implies t.contents().contains(q) by {}
            assert forall|q: Point| #[trigger] far.contents().contains(q) implies t.contents().contains(q) by {}
            assert(t.contents().contains(node.point));
            if primary is None {
                assert(near.contents() =~= Multiset::empty());
            }
            if secondary is None {
                assert(far.contents() =~= Multiset::empty());
            }
        }
        let (mut best_point, mut best_distance) = match primary {
            Some(idx) => {
                let p = self.nearest_neighbor_search(point, idx, Ghost(near));
                (p, point.squared_distance(&p))
            },
            None => (node.point, point.squared_distance(&node.point)),
        };
        // `best_point` is nearest among the near side and, if it is empty, the node
        if let Some(secondary_index) = secondary {
            if node.is_in_hypersphere(point, best_distance) {
                let secondary_best = self.nearest_neighbor_search(point, secondary_index, Ghost(far));
                let dist = point.squared_distance(&secondary_best);
                if dist < best_distance {
                    best_point = secondary_best;
                    best_distance = dist;
                }
            } else {
                proof {
                    assert forall|q: Point| #[trigger] far.contents().contains(q) implies sq_dist(
                        *point,
                        best_point,
                    ) <= sq_dist(*point, q) by {
                        lemma_far_side(node.point, node.split, *point, q);
                    }
                }
            }
        }
        proof {
            assert(best_distance == sq_dist(*point, best_point));
            assert(t.contents().contains(best_point));
            assert(forall|q: Point| #[trigger]
                near.contents().contains(q) ==> sq_dist(*point, best_point) <= sq_dist(*point, q));
            assert(forall|q: Point| #[trigger]
                far.contents().contains(q) ==> sq_dist(*point, best_point) <= sq_dist(*point, q));
            assert(primary is None ==> sq_dist(*point, best_point) <= sq_dist(*point, node.point));
            assert forall|q: Point| #[trigger] t.contents().contains(q) implies q == node.point
                || near.contents().contains(q) || far.contents().contains(q) by {}
        }
        let node_distance = point.squared_distance(&node.point);
        if node_distance <= best_distance {
            node.point
        } else {
            best_point
        }
    }

    /// A stored point nearest to `point`; `None` iff the index is empty.
    /// Among equally near points the search's traversal decides: a node's
    /// own point wins over those below it.
    pub fn nearest_neighbor(&self, point: &Point) -> (r: Option<Point>)
        requires
            self.wf(),
        ensures
            r == search(self@, *point),
            r is None <==> self@.contents().len() == 0,
            r matches Some(n) ==> is_nearest(self@.contents(), *point, n),
    {
        match self.root_index {
            None => None,
            Some(root) => Some(self.nearest_neighbor_search(point, root, Ghost(self.shape@))),
        }
    }

    /// The handle of the node where a search for `point` from `node_index`
    /// stops, and the handle of its parent (`parent_index` when that is
    /// `node_index` itself).
    fn find_parent(
        &self,
        point: Point,
        node_index: usize,
        parent_index: Option<usize>,
        Ghost(t): Ghost<Tree>,
    ) -> (r: (usize, Option<usize>))
        requires
            stores(self.nodes@, t),
            t.root_handle() == Some(node_index),
        ensures
            r.0 == t.located(point)->handle,
            r.1 == match t.located_parent(point) {
                Some(x) => Some(x),
                None => parent_index,
            },
        decreases t,
    {
        let node = self.nodes[node_index].unwrap();
        if node.point == point {
            (node_index, parent_index)
        } else {
            match self.single_search(&point, node_index, Ghost(t)) {
                Some(index) => self.find_parent(point, index, Some(node_index), Ghost(t.side(point))),
                None => (node_index, parent_index),
            }
        }
    }

    /// Erases every node of the subtree rooted at `node_index`, returning
    /// their handles to the free list, and appends their points to `points`
    /// in depth-first order.
    fn pop_nodes(&mut self, node_index: usize, points: &mut Vec<Point>, Ghost(t): Ghost<Tree>)
        requires
            stores(old(self).nodes@, t),
            t.distinct(),
            t.root_handle() == Some(node_index) || (t == Tree::Empty && !(node_index < old(
                self,
            ).nodes@.len() && old(self).nodes@[node_index as int] is Some)),
            free_ok(old(self).nodes@, old(self).free_indices@),
        ensures
            final(self).nodes@.len() == old(self).nodes@.len(),
            forall|i: usize| #[trigger] t.handles().contains(i) ==> final(self).nodes@[i as int] is None,
            forall|i: int|
                0 <= i < old(self).nodes@.len() && !t.handles().contains(i as usize)
                    ==> #[trigger] final(self).nodes@[i] == old(self).nodes@[i],
            free_ok(final(self).nodes@, final(self).free_indices@),
            final(self).free_indices@ == old(self).free_indices@ + t.handle_order(),
            forall|i: usize| #[trigger] t.handles().contains(i) ==> final(self).free_indices@.contains(i),
            forall|i: usize| #[trigger] old(self).free_indices@.contains(i) ==> final(self).free_indices@.contains(i),
            final(points)@ == old(points)@ + t.preorder(),
            final(self).root_index == old(self).root_index,
            final(self).shape == old(self).shape,
        decreases t,
    {
        proof {
            lemma_stores_live(self.nodes@, t);
        }
        if node_index >= self.nodes.len() || self.nodes[node_index].is_none() {
            proof {
                assert(t.handles().contains(node_index) || t == Tree::Empty);
                assert(t.handle_order() =~= Seq::<usize>::empty());
                assert(t.preorder() =~= Seq::<Point>::empty());
                assert(self.free_indices@ =~= old(self).free_indices@ + t.handle_order());
                assert(points@ =~= old(points)@ + t.preorder());
            }
            return ;
        }
        let ghost left = *t->left;
        let ghost right = *t->right;
        proof {
            assert(t.handles().contains(node_index));
        }
        let node = self.nodes[node_index].unwrap();
        self.nodes[node_index] = None;
        points.push(node.point);
        proof {
            let f = self.free_indices@;
            assert forall|i: int| 0 <= i < f.len() implies f[i] != node_index by {}
        }
        self.free_indices.push_back(node_index);
        let ghost pushed = self.free_indices@;
        proof {
            assert(pushed[pushed.len() - 1] == node_index);
            assert(pushed.contains(node_index));
            assert forall|i: usize| #[trigger] old(self).free_indices@.contains(i) implies pushed.contains(i) by {
                let k = choose|k: int| 0 <= k < old(self).free_indices@.len() && old(self).free_indices@[k] == i;
                assert(pushed[k] == i);
            }
            assert forall|i: usize| #[trigger] left.handles().contains(i) implies i < self.nodes@.len()
                && self.nodes@[i as int] == old(self).nodes@[i as int] by {
                assert(t.handles().contains(i));
            }
            lemma_stores_frame(old(self).nodes@, self.nodes@, left);
        }
        let ghost mid = self.nodes@;
        if let Some(left_index) = node.left {
            self.pop_nodes(left_index, points, Ghost(left));
        }
        let ghost free_mid = self.free_indices@;
        proof {
            assert forall|i: usize| #[trigger] right.handles().contains(i) implies i < self.nodes@.len()
                && self.nodes@[i as int] == old(self).nodes@[i as int] by {
                assert(t.handles().contains(i));
                assert(mid[i as int] == old(self).nodes@[i as int]);
            }
            lemma_stores_frame(old(self).nodes@, self.nodes@, right);
        }
        if let Some(right_index) = node.right {
            self.pop_nodes(right_index, points, Ghost(right));
        }
        proof {
            assert(left.preorder() =~= Seq::empty() || node.left is Some);
            assert(right.preorder() =~= Seq::empty() || node.right is Some);
            assert(left.handles() =~= Set::empty() || node.left is Some);
            assert(right.handles() =~= Set::empty() || node.right is Some);
            assert(left.handle_order() =~= Seq::empty() || node.left is Some);
            assert(right.handle_order() =~= Seq::empty() || node.right is Some);
            assert(final(self).free_indices@ =~= old(self).free_indices@ + t.handle_order());
            assert(free_mid.contains(node_index));
            assert(final(self).free_indices@.contains(node_index));
            assert forall|i: usize| #[trigger] old(self).free_indices@.contains(i) implies final(self).free_indices@.contains(i) by {
                assert(pushed.contains(i));
                assert(free_mid.contains(i));
            }
            assert forall|i: usize| #[trigger] t.handles().contains(i) implies final(self).free_indices@.contains(i) by {
                if left.handles().contains(i) {
                    assert(free_mid.contains(i));
                }
            }
            assert(final(points)@ =~= old(points)@ + t.preorder());
        }
    }

    /// Removes one node holding `point`, if there is one: the node's subtree
    /// is cut off, its nodes erased, and all its other points inserted anew.
    /// Nothing changes when no node holds `point`.
    pub fn remove_point(&mut self, point: Point)
        requires
            old(self).wf(),
        ensures
            final(self).wf(),
            final(self).is_removal_of(old(self), point),
            final(self)@.contents() == old(self)@.contents().remove(point),
            !old(self)@.contents().contains(point) ==> final(self)@ == old(self)@,
            old(self)@.contents().contains(point) ==> final(self).free_handles().len()
                == old(self).free_handles().len() + 1,
            old(self)@.contents().contains(point) && old(self)@->point != point
                ==> final(self)@.root_handle() == old(self)@.root_handle(),
    {
        let root = match self.root_index {
            None => {
                assert(self@.contents() =~= Multiset::empty());
                assert(self@.contents().remove(point) =~= self@.contents());
                return ;
            },
            Some(root) => root,
        };
        let ghost t = self.shape@;
        let (node_index, parent_index) = self.find_parent(point, root, None, Ghost(t));
        proof {
            lemma_located(t, point);
            lemma_stores_live(self.nodes@, t);
            lemma_stores_located(self.nodes@, t, point);
        }
        let node = self.nodes[node_index].unwrap();
        if node.point != point {
            assert(self@.contents().remove(point) =~= self@.contents());
            return ;
        }
        let ghost sub = t.located(point);
        let ghost rest = t.detached(point);
        proof {
            lemma_detached(t, point);
        }
        match parent_index {
            Some(pi) => {
                proof {
                    assert(t.handles().contains(pi));
                }
                let mut parent = self.nodes[pi].unwrap();
                if parent.left == Some(node_index) {
                    parent.left = None;
                }
                if parent.right == Some(node_index) {
                    parent.right = None;
                }
                self.nodes[pi] = Some(parent);
                proof {
                    lemma_stores_detached(old(self).nodes@, self.nodes@, t, point);
                    assert forall|i: usize| #[trigger] sub.handles().contains(i) implies i
                        < self.nodes@.len() && self.nodes@[i as int] == old(self).nodes@[i as int] by {
                        assert(t.handles().contains(i));
                    }
                    lemma_stores_frame(old(self).nodes@, self.nodes@, sub);
                    let f = self.free_indices@;
                    assert forall|i: int| 0 <= i < f.len() implies #[trigger] f[i] < self.nodes@.len()
                        && self.nodes@[f[i] as int] is None by {
                        assert(old(self).nodes@[f[i] as int] is None);
                    }
                }
            },
            None => {
                self.root_index = None;
            },
        }
        let ghost cut = self.nodes@;
        let ghost free_cut = self.free_indices@;
        assert(free_cut == old(self).free_indices@);
        let mut points = Vec::new();
        self.pop_nodes(node_index, &mut points, Ghost(sub));
        proof {
            assert forall|i: usize| #[trigger] rest.handles().contains(i) implies i < self.nodes@.len()
                && self.nodes@[i as int] == cut[i as int] by {
                lemma_stores_live(cut, rest);
            }
            if parent_index is Some {
                lemma_stores_frame(cut, self.nodes@, rest);
            }
        }
        proof {
            assert(self.nodes@.len() <= usize::MAX) by {
                assert(self.nodes.len() == self.nodes@.len());
            }
            assert forall|i: int| 0 <= i < self.nodes@.len() implies {
                &&& #[trigger] self.nodes@[i] is Some ==> rest.handles().contains(i as usize)
                &&& self.nodes@[i] is None ==> self.free_indices@.contains(i as usize)
            } by {
                let iu = i as usize;
                assert(iu as int == i);
                if sub.handles().contains(iu) {
                    assert(self.nodes@[i] is None);
                    assert(self.free_indices@.contains(iu));
                } else {
                    if parent_index == Some(iu) {
                        assert(rest.handles().contains(iu));
                    }
                    assert(self.nodes@[i] == cut[i]);
                    if parent_index != Some(iu) {
                        assert(cut[i] == old(self).nodes@[i]);
                        if old(self).nodes@[i] is Some {
                            assert(t.handles().contains(iu));
                            assert(rest.handles().contains(iu));
                        } else {
                            assert(free_cut.contains(iu));
                            assert(self.free_indices@.contains(iu));
                        }
                    }
                }
            }
        }
        self.shape = Ghost(rest);
        proof {
            lemma_preorder_contents(sub);
            assert(points@ =~= seq![point] + points@.subrange(1, points@.len() as int));
            vstd::seq_lib::lemma_multiset_commutative(seq![point], points@.subrange(1, points@.len() as int));
            assert(seq![point].to_multiset() =~= Multiset::empty().insert(point)) by {
                broadcast use vstd::seq_lib::group_to_multiset_ensures;
                assert(seq![point] =~= Seq::<Point>::empty().push(point));
            }
            assert(points@.subrange(1, 1).to_multiset() =~= Multiset::empty()) by {
                broadcast use vstd::seq_lib::group_to_multiset_ensures;
            }
            assert(self@.contents() =~= rest.contents().add(points@.subrange(1, 1).to_multiset()));
        }
        let ghost freed = old(self).free_indices@ + sub.handle_order();
        proof {
            lemma_order_len(sub);
            assert(points@.subrange(1, 1) =~= Seq::<Point>::empty());
            assert(self.free_indices@ =~= freed.subrange(0, freed.len() as int));
        }
        let mut i: usize = 1;
        while i < points.len()
            invariant
                self.wf(),
                1 <= i <= points.len(),
                points@ == sub.preorder(),
                freed.len() == old(self).free_indices@.len() + points@.len(),
                self@.contents() == rest.contents().add(points@.subrange(1, i as int).to_multiset()),
                self@ == inserted_all(rest, points@.subrange(1, i as int), freed),
                self.free_indices@ == freed.subrange(i - 1, freed.len() as int),
                self.nodes@.len() == old(self).nodes@.len(),
            decreases points.len() - i,
        {
            self.add_point(points[i]);
            proof {
                broadcast use vstd::seq_lib::group_to_multiset_ensures;
                assert(points@.subrange(1, i + 1) =~= points@.subrange(1, i as int).push(points@[i as int]));
                assert(points@.subrange(1, i + 1).drop_last() =~= points@.subrange(1, i as int));
                assert(self.free_indices@ =~= freed.subrange(i as int, freed.len() as int));
            }
            i += 1;
            assert(self@.contents() =~= rest.contents().add(points@.subrange(1, i as int).to_multiset()));
        }
        proof {
            assert(points@.subrange(1, i as int) =~= points@.subrange(1, points@.len() as int));
            assert(points@.subrange(1, i as int) =~= sub.preorder().drop_first());
            assert(self@.contents() =~= old(self)@.contents().remove(point));
            if t->point != point {
                lemma_inserted_all_root(rest, points@.subrange(1, i as int), freed);
            }
        }
    }

    /// Builds an index by inserting `points` in order into an empty one; the
    /// `i`-th point gets handle `i`.
    pub fn from_points(points: &[Point]) -> (r: KDTree)
        ensures
            r.wf(),
            r@.contents() == points@.to_multiset(),
            r@ == inserted_all(Tree::Empty, points@, Seq::new(points@.len(), |i: int| i as usize)),
            r.free_handles() == Seq::<usize>::empty(),
            r.slot_count() == points@.len(),
    {
        let ghost hs = Seq::new(points@.len(), |i: int| i as usize);
        let mut tree = KDTree::new();
        let mut i: usize = 0;
        proof {
            broadcast use vstd::seq_lib::group_to_multiset_ensures;
            assert(points@.subrange(0, 0).to_multiset() =~= Multiset::empty());
            assert(points@.subrange(0, 0) =~= Seq::<Point>::empty());
        }
        while i < points.len()
            invariant
                tree.wf(),
                i <= points.len(),
                tree@.contents() == points@.subrange(0, i as int).to_multiset(),
                hs == Seq::new(points@.len(), |i: int| i as usize),
                tree@ == inserted_all(Tree::Empty, points@.subrange(0, i as int), hs),
                tree.free_handles() == Seq::<usize>::empty(),
                tree.slot_count() == i,
            decreases points.len() - i,
        {
            let ghost before = tree@;
            tree.add_point(points[i]);
            proof {
                broadcast use vstd::seq_lib::group_to_multiset_ensures;
                assert(points@.subrange(0, i + 1) =~= points@.subrange(0, i as int).push(points@[i as int]));
                assert(points@.subrange(0, i + 1).drop_last() =~= points@.subrange(0, i as int));
                assert(hs[i as int] == i);
                assert(tree@ == before.with_inserted(points@[i as int], i, Split::X));
                assert(tree@ == inserted_all(Tree::Empty, points@.subrange(0, i + 1), hs));
            }
            i += 1;
        }
        assert(points@.subrange(0, i as int) =~= points@);
        tree
    }

    /// Appends the points of the subtree rooted at `node_index` to `points`,
    /// in depth-first order.
    fn collect_points(&self, node_index: usize, points: &mut Vec<Point>, Ghost(t): Ghost<Tree>)
        requires
            stores(self.nodes@, t),
            t.root_handle() == Some(node_index),
        ensures
            final(points)@ == old(points)@ + t.preorder(),
        decreases t,
    {
        let node = self.nodes[node_index].unwrap();
        points.push(node.point);
        if let Some(left_index) = node.left {
            self.collect_points(left_index, points, Ghost(*t->left));
        }
        if let Some(right_index) = node.right {
            self.collect_points(right_index, points, Ghost(*t->right));
        }
        proof {
            assert(t->left.preorder() =~= Seq::empty() || node.left is Some);
            assert(t->right.preorder() =~= Seq::empty() || node.right is Some);
            assert(final(points)@ =~= old(points)@ + t.preorder());
        }
    }

    /// All stored points, each as often as it was inserted, in depth-first
    /// order from the root.
    pub fn points(&self) -> (r: Vec<Point>)
        requires
            self.wf(),
        ensures
            r@ == self@.preorder(),
            r@.to_multiset() == self@.contents(),
    {
        let mut points = Vec::new();
        if let Some(root) = self.root_index {
            self.collect_points(root, &mut points, Ghost(self.shape@));
        }
        proof {
            lemma_preorder_contents(self.shape@);
            assert(points@ =~= self@.preorder());
        }
        points
    }

    /// Appends the segments of the splitting lines of the children of every
    /// node of the subtree rooted at `node_index`, within `bounds`.
    fn dfs_lines(&self, node_index: usize, lines: &mut Vec<Line>, bounds: Bounds, Ghost(t): Ghost<Tree>)
        requires
            stores(self.nodes@, t),
            t.root_handle() == Some(node_index),
        ensures
            final(lines)@ == old(lines)@ + partition_lines(t, bounds),
        decreases t,
    {
        let ghost l = *t->left;
        let ghost r = *t->right;
        let node = self.nodes[node_index].unwrap();
        if let Some(index) = node.left {
            proof {
                assert(stores(self.nodes@, l));
                assert(l.root_handle() == Some(index));
            }
            let left = self.nodes[index].unwrap();
            match left.split {
                Split::X => {
                    lines.push(
                        Line::PointToPoint(
                            Point::new(left.point.x, node.point.y),
                            Point::new(left.point.x, bounds.y_min),
                        ),
                    );
                    let bounds = Bounds { y_max: node.point.y, ..bounds };
                    self.dfs_lines(index, lines, bounds, Ghost(l));
                },
                Split::Y => {
                    lines.push(
                        Line::PointToPoint(
                            Point::new(node.point.x, left.point.y),
                            Point::new(bounds.x_min, left.point.y),
                        ),
                    );
                    let bounds = Bounds { x_max: node.point.x, ..bounds };
                    self.dfs_lines(index, lines, bounds, Ghost(l));
                },
            }
        }
        let ghost mid = lines@;
        if let Some(index) = node.right {
            proof {
                assert(stores(self.nodes@, r));
                assert(r.root_handle() == Some(index));
            }
            let right = self.nodes[index].unwrap();
            match right.split {
                Split::X => {
                    lines.push(
                        Line::PointToPoint(
                            Point::new(right.point.x, node.point.y),
                            Point::new(right.point.x, bounds.y_max),
                        ),
                    );
                    let bounds = Bounds { y_min: node.point.y, ..bounds };
                    self.dfs_lines(index, lines, bounds, Ghost(r));
                },
                Split::Y => {
                    lines.push(
                        Line::PointToPoint(
                            Point::new(node.point.x, right.point.y),
                            Point::new(bounds.x_max, right.point.y),
                        ),
                    );
                    let bounds = Bounds { x_min: node.point.x, ..bounds };
                    self.dfs_lines(index, lines, bounds, Ghost(r));
                },
            }
        }
        proof {
            assert(final(lines)@ =~= old(lines)@ + partition_lines(t, bounds));
        }
    }

    /// The partition lines of the whole tree in the unit square: a vertical
    /// line through the root, then the segments of every other node.
    pub fn lines(&self) -> (r: Vec<Line>)
        requires
            self.wf(),
        ensures
            r@ == match self@ {
                Tree::Empty => Seq::empty(),
                Tree::Node { point, .. } => seq![Line::Vertical(point.x)] + partition_lines(
                    self@,
                    unit_bounds(),
                ),
            },
    {
        match self.root_index {
            Some(root_index) => {
                let root = self.nodes[root_index].unwrap();
                let mut lines = Vec::new();
                lines.push(Line::Vertical(root.point.x));
                self.dfs_lines(
                    root_index,
                    &mut lines,
                    Bounds { x_min: 0, y_min: 0, x_max: UNIT, y_max: UNIT },
                    Ghost(self.shape@),
                );
                lines
            },
            None => Vec::new(),
        }
    }
}

impl Default for KDTree {
    /// An empty index.
    fn default() -> (r: KDTree)
        ensures
            r.wf(),
            r@ == Tree::Empty,
            r.free_handles() == Seq::<usize>::empty(),
            r.slot_count() == 0,
    {
        KDTree::new()
    }
}

/// At every node of an index, each point of the left subtree goes left and
/// each point of the right subtree goes right; every child splits on the axis
/// opposite to its parent's, and the root splits on `x`.
pub proof fn lemma_directional_consistency(tree: &KDTree)
    requires
        tree.wf(),
    ensures
        tree@.is_partitioned(),
        tree@.alternates(),
        tree@.splits_on(Split::X),
{
}

} // verus!
