//! A dynamic navigation-mesh pathfinding engine.
//!
//! The library derives a traversable-area mesh from map bounds and a set of
//! obstacle exclusion areas, answers shortest-path queries over that mesh,
//! and provides the bookkeeping state machines that keep the mesh and the
//! per-agent paths current as obstacles change.

pub mod exclusion;
pub mod finder;
pub mod geometry;
pub mod groups;
pub mod path;
pub mod systems;
pub mod triangulation;

pub use exclusion::ExclusionArea;
pub use exclusion::Obstacle;
pub use finder::PathFinder;
pub use groups::BehaviourPluginGroup;
pub use groups::CombatPluginGroup;
pub use geometry::MapBounds;
pub use path::PathQueryProps;
pub use path::PathResult;
pub use path::PathTarget;
pub use systems::create_finder;
pub use systems::UpdateEntityPath;
pub use systems::UpdateFinderState;
pub use systems::UpdatePathsState;
pub use geometry::Point;
pub use geometry::Rect;
pub use geometry::Triangle;
