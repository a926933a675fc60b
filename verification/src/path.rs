//! Path queries and their results.

use vstd::prelude::*;

use crate::geometry::Point;

verus! {

/// Tuning of a path query: how close to the target counts as arrived, and
/// the largest acceptable path cost.  `u64::MAX` stands for an unlimited
/// budget.
#[derive(Clone, Copy, PartialEq, Eq, Structural, Debug)]
pub struct PathQueryProps {
    pub distance: u64,
    pub max_cost: u64,
}

impl PathQueryProps {
    pub open spec fn dist_spec(self) -> u64 {
        self.distance
    }

    pub open spec fn max_cost_spec(self) -> u64 {
        self.max_cost
    }

    pub fn new(distance: u64, max_cost: u64) -> (r: PathQueryProps)
        ensures
            r.dist_spec() == distance,
            r.max_cost_spec() == max_cost,
    {
        PathQueryProps { distance, max_cost }
    }

    /// Exact mode: arrive at the target point itself, with no cost cap.
    pub fn exact() -> (r: PathQueryProps)
        ensures
            r.dist_spec() == 0,
            r.max_cost_spec() == u64::MAX,
    {
        PathQueryProps { distance: 0, max_cost: u64::MAX }
    }

    pub fn distance(&self) -> (r: u64)
        ensures
            r == self.dist_spec(),
    {
        self.distance
    }

    pub fn max_cost(&self) -> (r: u64)
        ensures
            r == self.max_cost_spec(),
    {
        self.max_cost
    }
}

/// The destination of a path query plus its acceptance properties.
#[derive(Clone, Copy, PartialEq, Eq, Structural, Debug)]
pub struct PathTarget {
    pub location: Point,
    pub properties: PathQueryProps,
}

impl PathTarget {
    pub open spec fn location_spec(self) -> Point {
        self.location
    }

    pub open spec fn properties_spec(self) -> PathQueryProps {
        self.properties
    }

    pub fn new(location: Point, properties: PathQueryProps) -> (r: PathTarget)
        ensures
            r.location_spec() == location,
            r.properties_spec() == properties,
    {
        PathTarget { location, properties }
    }

    pub fn location(&self) -> (r: Point)
        ensures
            r == self.location_spec(),
    {
        self.location
    }

    pub fn properties(&self) -> (r: PathQueryProps)
        ensures
            r == self.properties_spec(),
    {
        self.properties
    }
}

/// A successful path query: the target it answered and the waypoints of the
/// found route, from the agent's position to the accepted end point.
#[derive(Clone, PartialEq, Eq, Debug)]
pub struct PathResult {
    pub target: PathTarget,
    pub waypoints: Vec<Point>,
    pub cost: u64,
}

impl PathResult {
    pub open spec fn target_spec(self) -> PathTarget {
        self.target
    }

    pub open spec fn waypoints_spec(self) -> Seq<Point> {
        self.waypoints@
    }

    pub open spec fn cost_spec(self) -> u64 {
        self.cost
    }

    pub fn new(target: PathTarget, waypoints: Vec<Point>, cost: u64) -> (r: PathResult)
        ensures
            r.target_spec() == target,
            r.waypoints_spec() == waypoints@,
            r.cost_spec() == cost,
    {
        PathResult { target, waypoints, cost }
    }

    pub fn target(&self) -> (r: PathTarget)
        ensures
            r == self.target_spec(),
    {
        self.target
    }

    pub fn waypoints(&self) -> (r: &Vec<Point>)
        ensures
            r@ == self.waypoints_spec(),
    {
        &self.waypoints
    }

    /// Total cost of the route, in distance units.
    pub fn cost(&self) -> (r: u64)
        ensures
            r == self.cost_spec(),
    {
        self.cost
    }
}

} // verus!
