//! Line segments that draw the splitting lines of a tree, clipped to the
//! region that each node's ancestors leave to it.
use vstd::prelude::*;

use crate::point::{Point, Split};
use crate::tree::Tree;

verus! {

/// The side of the square in which partition lines are drawn: coordinates
/// run from `0` to `UNIT` on both axes, `y` growing downwards.
pub const UNIT: i32 = 1_000_000;

/// A direction on the drawing surface.
#[derive(Clone, Copy, Debug, PartialEq, Eq, Structural)]
pub enum Direction {
    Top,
    Bottom,
    Left,
    Right,
}

/// A drawable line: across the whole square at a given `x` or `y`, from a
/// point to the square's edge, or between two points.
#[derive(Clone, Copy, Debug, PartialEq, Eq, Structural)]
pub enum Line {
    Vertical(i32),
    Horizontal(i32),
    PointDirection(Point, Direction),
    PointToPoint(Point, Point),
}

/// An axis-aligned region: `x` from `x_min` to `x_max`, `y` from `y_min` to
/// `y_max`.
#[derive(Clone, Copy, Debug, PartialEq, Eq, Structural)]
pub struct Bounds {
    pub x_min: i32,
    pub y_min: i32,
    pub x_max: i32,
    pub y_max: i32,
}

/// The whole drawing square.
pub open spec fn unit_bounds() -> Bounds {
    Bounds { x_min: 0, y_min: 0, x_max: UNIT, y_max: UNIT }
}

/// The segments that draw the splitting lines of the children of every node
/// of `t`, within `b`. A left child's segment runs from its parent's line
/// towards the low edge of the region, a right child's towards the high edge;
/// each child's own subtree is then drawn in the region on its side of the
/// parent's line.
pub open spec fn partition_lines(t: Tree, b: Bounds) -> Seq<Line>
    decreases t,
{
    match t {
        Tree::Empty => Seq::empty(),
        Tree::Node { point: n, left, right, .. } => {
            let from_left = match *left {
                Tree::Empty => Seq::empty(),
                Tree::Node { point: c, split, .. } => match split {
                    Split::X => seq![
                        Line::PointToPoint(Point { x: c.x, y: n.y }, Point { x: c.x, y: b.y_min }),
                    ] + partition_lines(*left, Bounds { y_max: n.y, ..b }),
                    Split::Y => seq![
                        Line::PointToPoint(Point { x: n.x, y: c.y }, Point { x: b.x_min, y: c.y }),
                    ] + partition_lines(*left, Bounds { x_max: n.x, ..b }),
                },
            };
            let from_right = match *right {
                Tree::Empty => Seq::empty(),
                Tree::Node { point: c, split, .. } => match split {
                    Split::X => seq![
                        Line::PointToPoint(Point { x: c.x, y: n.y }, Point { x: c.x, y: b.y_max }),
                    ] + partition_lines(*right, Bounds { y_min: n.y, ..b }),
                    Split::Y => seq![
                        Line::PointToPoint(Point { x: n.x, y: c.y }, Point { x: b.x_max, y: c.y }),
                    ] + partition_lines(*right, Bounds { x_min: n.x, ..b }),
                },
            };
            from_left + from_right
        },
    }
}

} // verus!
