use vstd::prelude::*;

use crate::point::Point;

verus! {

/// A node in the `Grid` to be checked. Nodes know their position, and have a
/// `g` and `h` cost, which are used to calculate the f-cost. Additionally,
/// each node has a parent index into the per-search node arena, which is used
/// to reconstruct the path once the end node is found.
///
/// The `g` cost is the distance from the start node to the current node. The
/// `h` cost is the distance from the current node to the end node. The `f`
/// cost is the sum of the `g` and `h` costs.
#[derive(Debug, Clone, Copy)]
pub struct Node {
    pub point: Point,
    pub g: isize,
    pub h: isize,
    pub parent_index: Option<usize>,
}

impl Node {
    /// Builds a fresh node at (x, y) with zero costs and no parent.
    pub fn new(x: isize, y: isize) -> (r: Self)
        ensures
            r == (Node { point: Point { x, y }, g: 0, h: 0, parent_index: None }),
    {
        Node { point: Point::new(x, y), g: 0, h: 0, parent_index: None }
    }

    /// The `f` cost: the sum of the `g` and `h` costs.
    pub fn f(&self) -> (r: isize)
        requires
            self.g + self.h <= isize::MAX,
            self.g + self.h >= isize::MIN,
        ensures
            r == self.g + self.h,
    {
        self.g + self.h
    }
}

impl PartialEq for Node {
    /// Nodes compare equal when they sit on the same point, whatever their
    /// costs or parents.
    fn eq(&self, other: &Self) -> (r: bool) {
        self.point == other.point
    }
}

impl Eq for Node {

}

impl vstd::std_specs::cmp::PartialEqSpecImpl for Node {
    open spec fn obeys_eq_spec() -> bool {
        true
    }

    open spec fn eq_spec(&self, other: &Node) -> bool {
        self.point == other.point
    }
}

impl PartialOrd for Node {
    /// Orders nodes by their `f` cost, reversed, with ties going to the node
    /// with the larger `h` cost: in a max-heap this makes the node with the
    /// lowest `f` cost (and, among those, the lowest `h` cost) come out
    /// first.
    fn partial_cmp(&self, other: &Self) -> (r: Option<core::cmp::Ordering>) {
        let self_f = self.g as i128 + self.h as i128;
        let other_f = other.g as i128 + other.h as i128;
        if other_f < self_f {
            Some(core::cmp::Ordering::Less)
        } else if other_f > self_f {
            Some(core::cmp::Ordering::Greater)
        } else if other.h < self.h {
            Some(core::cmp::Ordering::Less)
        } else if other.h > self.h {
            Some(core::cmp::Ordering::Greater)
        } else {
            Some(core::cmp::Ordering::Equal)
        }
    }
}

impl vstd::std_specs::cmp::PartialOrdSpecImpl for Node {
    open spec fn obeys_partial_cmp_spec() -> bool {
        true
    }

    open spec fn partial_cmp_spec(&self, other: &Node) -> Option<core::cmp::Ordering> {
        if other.g + other.h < self.g + self.h {
            Some(core::cmp::Ordering::Less)
        } else if other.g + other.h > self.g + self.h {
            Some(core::cmp::Ordering::Greater)
        } else if other.h < self.h {
            Some(core::cmp::Ordering::Less)
        } else if other.h > self.h {
            Some(core::cmp::Ordering::Greater)
        } else {
            Some(core::cmp::Ordering::Equal)
        }
    }
}

impl From<Point> for Node {
    /// Builds a fresh node at the point, with zero costs and no parent.
    fn from(point: Point) -> (r: Self) {
        Node::new(point.x, point.y)
    }
}

impl vstd::std_specs::convert::FromSpecImpl<Point> for Node {
    open spec fn obeys_from_spec() -> bool {
        true
    }

    open spec fn from_spec(point: Point) -> Node {
        Node { point, g: 0, h: 0, parent_index: None }
    }
}

} // verus!
