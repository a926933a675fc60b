use pathing::triangulation::triangulate;
use pathing::ExclusionArea;
use pathing::MapBounds;
use pathing::Obstacle;
use pathing::PathFinder;
use pathing::PathQueryProps;
use pathing::PathTarget;
use pathing::Point;
use pathing::Rect;

fn bounds_100() -> MapBounds {
    MapBounds::new(Point::new(0, 0), Point::new(100, 100))
}

fn square_obstacle(cx: i64, cy: i64, half: i64) -> Obstacle {
    Obstacle {
        position: Point::new(cx, cy),
        footprint: Rect { min: Point::new(-half, -half), max: Point::new(half, half) },
    }
}

fn finder_with(obstacles: Vec<Obstacle>) -> PathFinder {
    let bounds = bounds_100();
    let exclusions = ExclusionArea::build(&obstacles);
    let triangles = triangulate(&bounds, &exclusions);
    PathFinder::from_triangles(triangles, exclusions)
}

fn straight_line(a: Point, b: Point) -> f64 {
    let dx = (b.x - a.x) as f64;
    let dy = (b.y - a.y) as f64;
    (dx * dx + dy * dy).sqrt()
}

#[test]
fn empty_map_route_close_to_straight_line() {
    let finder = PathFinder::new(&bounds_100());
    let source = Point::new(5, 5);
    let goal = Point::new(90, 90);
    let target = PathTarget::new(goal, PathQueryProps::exact());
    let result = finder.find_path(source, target).expect("open map must yield a route");
    let waypoints = result.waypoints();
    assert!(waypoints.len() >= 2);
    assert_eq!(waypoints[0], source);
    assert_eq!(waypoints[waypoints.len() - 1], goal);
    let direct = straight_line(source, goal);
    let cost = result.cost() as f64;
    assert!(cost >= direct.floor(), "route cannot beat the straight line");
    assert!(cost <= 1.5 * direct, "route must stay near the straight line");
}

#[test]
fn empty_map_route_from_triangulation() {
    let finder = finder_with(vec![]);
    let source = Point::new(5, 5);
    let goal = Point::new(90, 90);
    let target = PathTarget::new(goal, PathQueryProps::exact());
    let result = finder.find_path(source, target).expect("open map must yield a route");
    assert_eq!(result.waypoints()[0], source);
}

#[test]
fn central_obstacle_forces_detour() {
    let finder = finder_with(vec![square_obstacle(50, 50, 10)]);
    let source = Point::new(5, 5);
    let goal = Point::new(90, 90);
    let target = PathTarget::new(goal, PathQueryProps::exact());
    let result = finder.find_path(source, target).expect("a detour exists around the square");
    let direct = straight_line(source, goal);
    assert!(
        (result.cost() as f64) > direct,
        "blocking the direct line must lengthen the route"
    );
    assert_eq!(result.waypoints()[0], source);
    let waypoints = result.waypoints();
    assert_eq!(waypoints[waypoints.len() - 1], goal);
}

#[test]
fn full_wall_separates_components() {
    // A wall spanning the whole height splits the free region in two.
    let wall = Obstacle {
        position: Point::new(50, 50),
        footprint: Rect { min: Point::new(-5, -50), max: Point::new(5, 50) },
    };
    let finder = finder_with(vec![wall]);
    let target = PathTarget::new(Point::new(90, 90), PathQueryProps::exact());
    assert!(
        finder.find_path(Point::new(5, 5), target).is_none(),
        "no route crosses a full-height wall"
    );
    // Two points on the same side stay connected.
    let near = PathTarget::new(Point::new(10, 90), PathQueryProps::exact());
    assert!(finder.find_path(Point::new(5, 5), near).is_some());
}

#[test]
fn source_inside_obstacle_yields_no_path() {
    let finder = finder_with(vec![square_obstacle(50, 50, 10)]);
    let target = PathTarget::new(Point::new(90, 90), PathQueryProps::exact());
    assert!(finder.find_path(Point::new(50, 50), target).is_none());
}

#[test]
fn target_inside_obstacle_exact_fails_tolerant_succeeds() {
    let finder = finder_with(vec![square_obstacle(50, 50, 10)]);
    let goal = Point::new(50, 50);
    let exact = PathTarget::new(goal, PathQueryProps::exact());
    assert!(finder.find_path(Point::new(5, 5), exact).is_none());
    let tolerant = PathTarget::new(goal, PathQueryProps::new(60, u64::MAX));
    assert!(finder.find_path(Point::new(5, 5), tolerant).is_some());
}

#[test]
fn cost_budget_rejects_reachable_but_distant_target() {
    let finder = PathFinder::new(&bounds_100());
    let goal = Point::new(90, 90);
    let tight = PathTarget::new(goal, PathQueryProps::new(0, 10));
    assert!(finder.find_path(Point::new(5, 5), tight).is_none());
    let generous = PathTarget::new(goal, PathQueryProps::new(0, 1_000));
    assert!(finder.find_path(Point::new(5, 5), generous).is_some());
}

#[test]
fn query_preserves_target() {
    let finder = PathFinder::new(&bounds_100());
    let goal = Point::new(42, 17);
    let target = PathTarget::new(goal, PathQueryProps::new(3, 500));
    let result = finder.find_path(Point::new(1, 1), target).expect("open map route");
    assert_eq!(result.target().location(), goal);
    assert_eq!(result.target().properties().distance(), 3);
    assert_eq!(result.target().properties().max_cost(), 500);
}
