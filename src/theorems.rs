//! Laws that relate the operations of an index, stated over the trees that
//! their contracts speak of.
use vstd::multiset::Multiset;
use vstd::prelude::*;

use crate::point::{is_nearest, sq_dist, Point};
use crate::tree::{lemma_preorder_contents, Tree};

verus! {

broadcast use vstd::multiset::group_multiset_axioms;

/// A nearest point of an index built from the points `pts` is one of them,
/// and no point of `pts` is closer to the query.
pub proof fn lemma_nearest_is_brute_force_minimum(pts: Seq<Point>, t: Tree, query: Point, n: Point)
    requires
        t.contents() == pts.to_multiset(),
        is_nearest(t.contents(), query, n),
    ensures
        pts.contains(n),
        forall|i: int| 0 <= i < pts.len() ==> sq_dist(query, n) <= #[trigger] sq_dist(query, pts[i]),
{
    broadcast use vstd::seq_lib::group_to_multiset_ensures;

    assert forall|i: int| 0 <= i < pts.len() implies sq_dist(query, n) <= #[trigger] sq_dist(
        query,
        pts[i],
    ) by {
        assert(pts.contains(pts[i]));
        pts.to_multiset_ensures();
        assert(t.contents().contains(pts[i]));
    }
    pts.to_multiset_ensures();
}

/// An index built by inserting `pts` lists exactly `pts.len()` points,
/// repeated points counted separately.
pub proof fn lemma_point_count(pts: Seq<Point>, t: Tree)
    requires
        t.contents() == pts.to_multiset(),
    ensures
        t.preorder().len() == pts.len(),
{
    broadcast use vstd::seq_lib::group_to_multiset_ensures;

    lemma_preorder_contents(t);
    t.preorder().to_multiset_ensures();
    pts.to_multiset_ensures();
}

/// Inserting the points `pts` one by one into an empty index, with no
/// removal, gives an index that lists exactly `pts.len()` points: the points
/// of `pts`, repeated points counted separately. `trees[i]` is the index
/// after the first `i` insertions.
pub proof fn lemma_insert_chain_count(trees: Seq<Tree>, pts: Seq<Point>)
    requires
        trees.len() == pts.len() + 1,
        trees[0] == Tree::Empty,
        forall|i: int|
            0 <= i < pts.len() ==> #[trigger] trees[i + 1].contents() == trees[i].contents().insert(
                pts[i],
            ),
    ensures
        trees.last().preorder().len() == pts.len(),
        trees.last().preorder().to_multiset() == pts.to_multiset(),
    decreases pts.len(),
{
    broadcast use vstd::seq_lib::group_to_multiset_ensures;

    let n = pts.len();
    if n == 0 {
        assert(Tree::Empty.preorder() =~= Seq::<Point>::empty());
        assert(pts =~= Seq::<Point>::empty());
    } else {
        let ts = trees.drop_last();
        let ps = pts.drop_last();
        assert forall|i: int| 0 <= i < ps.len() implies #[trigger] ts[i + 1].contents()
            == ts[i].contents().insert(ps[i]) by {
            assert(trees[i + 1].contents() == trees[i].contents().insert(pts[i]));
        }
        lemma_insert_chain_count(ts, ps);
        lemma_preorder_contents(ts.last());
        lemma_preorder_contents(trees.last());
        let k = n - 1;
        assert(trees[k + 1].contents() == trees[k].contents().insert(pts[k]));
        assert(trees.last() == trees[k + 1]);
        assert(ts.last() == trees[k]);
        assert(ps.push(pts.last()) =~= pts);
        trees.last().preorder().to_multiset_ensures();
        pts.to_multiset_ensures();
    }
}

/// Removing a present point from an index of distinct points lists one point
/// fewer, and the removed point no more.
pub proof fn lemma_remove_shrinks_by_one(before: Tree, after: Tree, p: Point)
    requires
        forall|q: Point| #[trigger] before.contents().count(q) <= 1,
        before.contents().contains(p),
        after.contents() == before.contents().remove(p),
    ensures
        after.preorder().len() == before.preorder().len() - 1,
        !after.preorder().contains(p),
{
    broadcast use vstd::seq_lib::group_to_multiset_ensures;

    lemma_preorder_contents(before);
    lemma_preorder_contents(after);
    before.preorder().to_multiset_ensures();
    after.preorder().to_multiset_ensures();
    assert(after.contents().count(p) == 0);
    assert(before.contents() =~= after.contents().insert(p));
}

/// Removing a present point and inserting it again gives back the same
/// points, and so nearest points at the same distance from any query.
pub proof fn lemma_remove_then_reinsert(
    before: Tree,
    removed: Tree,
    after: Tree,
    p: Point,
    query: Point,
    n_before: Point,
    n_after: Point,
)
    requires
        before.contents().contains(p),
        removed.contents() == before.contents().remove(p),
        after.contents() == removed.contents().insert(p),
        is_nearest(before.contents(), query, n_before),
        is_nearest(after.contents(), query, n_after),
    ensures
        after.contents() == before.contents(),
        sq_dist(query, n_before) == sq_dist(query, n_after),
{
    assert(after.contents() =~= before.contents());
}

} // verus!
