//! Exclusion areas: ground-plane footprints of static obstacles.

use vstd::prelude::*;

use crate::geometry::{Point, Rect};

verus! {

/// A static obstacle as the rebuild pipeline sees it: its ground-plane
/// position and its footprint rectangle in the obstacle's local frame.
#[derive(Clone, Copy, PartialEq, Eq, Structural, Debug)]
pub struct Obstacle {
    pub position: Point,
    pub footprint: Rect,
}

impl Obstacle {
    /// The translated footprint stays inside the engine's coordinate range.
    pub open spec fn wf(self) -> bool {
        self.position.wf() && self.footprint.wf()
            && -crate::geometry::COORD_LIMIT <= self.position.x + self.footprint.min.x
            && self.position.x + self.footprint.max.x <= crate::geometry::COORD_LIMIT
            && -crate::geometry::COORD_LIMIT <= self.position.y + self.footprint.min.y
            && self.position.y + self.footprint.max.y <= crate::geometry::COORD_LIMIT
    }

    /// The obstacle's footprint carried into world coordinates.
    pub open spec fn exclusion_rect(self) -> Rect {
        Rect {
            min: Point {
                x: (self.position.x + self.footprint.min.x) as i64,
                y: (self.position.y + self.footprint.min.y) as i64,
            },
            max: Point {
                x: (self.position.x + self.footprint.max.x) as i64,
                y: (self.position.y + self.footprint.max.y) as i64,
            },
        }
    }
}

/// The ground-plane rectangle an obstacle makes non-traversable.
#[derive(Clone, Copy, PartialEq, Eq, Structural, Debug)]
pub struct ExclusionArea {
    pub rect: Rect,
}

impl ExclusionArea {
    pub open spec fn wf(self) -> bool {
        self.rect.wf()
    }

    /// Builds one exclusion area per obstacle by translating each footprint
    /// to the obstacle's world position.
    pub fn build(obstacles: &Vec<Obstacle>) -> (r: Vec<ExclusionArea>)
        requires
            forall|i: int| 0 <= i < obstacles@.len() ==> #[trigger] obstacles@[i].wf(),
        ensures
            r@.len() == obstacles@.len(),
            forall|i: int| 0 <= i < r@.len() ==> #[trigger] r@[i].rect == obstacles@[i].exclusion_rect(),
            forall|i: int| 0 <= i < r@.len() ==> #[trigger] r@[i].wf(),
    {
        let mut r: Vec<ExclusionArea> = Vec::new();
        let mut i: usize = 0;
        while i < obstacles.len()
            invariant
                i <= obstacles@.len(),
                r@.len() == i,
                forall|k: int| 0 <= k < obstacles@.len() ==> #[trigger] obstacles@[k].wf(),
                forall|k: int| 0 <= k < i ==> #[trigger] r@[k].rect == obstacles@[k].exclusion_rect(),
                forall|k: int| 0 <= k < i ==> #[trigger] r@[k].wf(),
            decreases obstacles@.len() - i,
        {
            let ob = obstacles[i];
            proof {
                assert(obstacles@[i as int].wf());
            }
            let rect = Rect {
                min: Point { x: ob.position.x + ob.footprint.min.x, y: ob.position.y + ob.footprint.min.y },
                max: Point { x: ob.position.x + ob.footprint.max.x, y: ob.position.y + ob.footprint.max.y },
            };
            r.push(ExclusionArea { rect });
            i += 1;
        }
        r
    }
}

} // verus!
