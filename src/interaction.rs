//! The state of an interactive session with an index: the messages that a
//! user's clicks produce and how each one changes the index, the target and
//! its nearest neighbour.
use vstd::prelude::*;

use crate::kdtree::KDTree;
use crate::point::{sq_dist, Point};
use crate::tree::{search, Tree};

verus! {

/// How far from a click a point may be for the click to remove it, in
/// coordinate units.
pub const MIN_DISTANCE: u128 = 5_000;

/// What a click asks for.
#[derive(Clone, Copy, Debug, PartialEq, Eq, Structural)]
pub enum Message {
    /// Insert a point.
    AddPoint(Point),
    /// Make a point the target and find its nearest neighbour.
    FindNeighbor(Point),
    /// Remove the stored point nearest to a point, if it is close enough.
    DeletePoint(Point),
}

/// `neighbor` is what a search for the target in `t` gives: nothing without
/// a target.
pub open spec fn is_neighbor_of(t: Tree, target: Option<Point>, neighbor: Option<Point>) -> bool {
    neighbor == match target {
        None => None,
        Some(q) => search(t, q),
    }
}

/// The points that a session starts with.
pub open spec fn initial_points() -> Seq<Point> {
    seq![
        Point { x: 500_000, y: 400_000 },
        Point { x: 100_000, y: 700_000 },
        Point { x: 200_000, y: 850_000 },
        Point { x: 400_000, y: 550_000 },
        Point { x: 800_000, y: 200_000 },
        Point { x: 600_000, y: 820_000 },
    ]
}

/// A session: the index, the current target and its nearest neighbour.
pub struct App {
    pub tree: KDTree,
    pub nearest_neighbor: Option<Point>,
    pub target: Option<Point>,
}

impl App {
    /// The index is well formed and the neighbour is the one of the target.
    pub open spec fn wf(&self) -> bool {
        &&& self.tree.wf()
        &&& is_neighbor_of(self.tree@, self.target, self.nearest_neighbor)
    }

    /// The nearest neighbour of the target in the current index.
    fn refresh(&mut self)
        requires
            old(self).tree.wf(),
        ensures
            final(self).wf(),
            final(self).tree == old(self).tree,
            final(self).target == old(self).target,
    {
        match self.target {
            Some(point) => self.nearest_neighbor = self.tree.nearest_neighbor(&point),
            None => self.nearest_neighbor = None,
        }
    }

    /// Applies one message: inserts a point; sets the target; or removes the
    /// point that a search for the click finds when it lies within
    /// [`MIN_DISTANCE`], and otherwise leaves the session as it is. The
    /// neighbour of the target is searched for again after each change.
    pub fn update(&mut self, message: Message)
        requires
            old(self).wf(),
        ensures
            final(self).wf(),
            match message {
                Message::AddPoint(p) => {
                    &&& final(self).tree.is_insertion_of(&old(self).tree, p)
                    &&& final(self).target == old(self).target
                },
                Message::FindNeighbor(p) => {
                    &&& final(self).tree == old(self).tree
                    &&& final(self).target == Some(p)
                },
                Message::DeletePoint(p) => match search(old(self).tree@, p) {
                    Some(n) => if sq_dist(n, p) <= MIN_DISTANCE * MIN_DISTANCE {
                        &&& final(self).tree.is_removal_of(&old(self).tree, n)
                        &&& final(self).target == old(self).target
                    } else {
                        *final(self) == *old(self)
                    },
                    None => *final(self) == *old(self),
                },
            },
    {
        match message {
            Message::AddPoint(point) => {
                self.tree.add_point(point);
                self.refresh();
            },
            Message::FindNeighbor(point) => {
                self.nearest_neighbor = self.tree.nearest_neighbor(&point);
                self.target = Some(point);
            },
            Message::DeletePoint(point) => {
                if let Some(point_to_remove) = self.tree.nearest_neighbor(&point) {
                    if point_to_remove.squared_distance(&point) <= MIN_DISTANCE * MIN_DISTANCE {
                        self.tree.remove_point(point_to_remove);
                        self.refresh();
                    }
                }
            },
        }
    }
}

impl Default for App {
    /// A session over the initial points, with no target.
    fn default() -> (r: App)
        ensures
            r.wf(),
            r.tree@.contents() == initial_points().to_multiset(),
            r.target is None,
    {
        let points = vec![
            Point::new(500_000, 400_000),
            Point::new(100_000, 700_000),
            Point::new(200_000, 850_000),
            Point::new(400_000, 550_000),
            Point::new(800_000, 200_000),
            Point::new(600_000, 820_000),
        ];
        assert(points@ =~= initial_points());
        App { tree: KDTree::from_points(points.as_slice()), nearest_neighbor: None, target: None }
    }
}

} // verus!
