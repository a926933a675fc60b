use pathing::create_finder;
use pathing::MapBounds;
use pathing::Obstacle;
use pathing::PathQueryProps;
use pathing::PathTarget;
use pathing::Point;
use pathing::Rect;
use pathing::UpdateEntityPath;
use pathing::UpdateFinderState;
use pathing::UpdatePathsState;

fn bounds_100() -> MapBounds {
    MapBounds::new(Point::new(0, 0), Point::new(100, 100))
}

fn wall_across_map() -> Obstacle {
    Obstacle {
        position: Point::new(50, 50),
        footprint: Rect { min: Point::new(-5, -50), max: Point::new(5, 50) },
    }
}

#[test]
fn rebuild_state_machine_runs_one_task_at_a_time() {
    let mut state = UpdateFinderState::default();
    // The bootstrap state is dirty, so the first tick starts a rebuild.
    assert!(state.should_update());
    let obstacles = vec![wall_across_map()];
    let snapshot = state.spawn_update(&obstacles);
    assert_eq!(snapshot, obstacles);
    // While the task runs, no second rebuild may start, even if new
    // dirtiness arrives; the dirtiness itself is not lost.
    assert!(!state.should_update());
    state.invalidate();
    assert!(!state.should_update());
    // Polling without a finished task changes nothing.
    assert!(state.check_result(None).is_none());
    assert!(!state.should_update());
    // The finished mesh is published and the deferred dirtiness takes
    // effect: the next tick starts the next rebuild.
    let finder = create_finder(&bounds_100(), &snapshot);
    assert!(state.check_result(Some(finder)).is_some());
    assert!(state.should_update());
}

#[test]
fn second_request_in_same_tick_supersedes_first() {
    let finder = create_finder(&bounds_100(), &vec![]);
    let source = Point::new(5, 5);
    let first_target = PathTarget::new(Point::new(90, 90), PathQueryProps::exact());
    let second_target = PathTarget::new(Point::new(10, 80), PathQueryProps::exact());

    let mut state = UpdatePathsState::default();
    let agent: u64 = 7;
    let g1 = state.spawn_new(agent);
    let g2 = state.spawn_new(agent);
    assert_ne!(g1, g2);

    // Both tasks complete; only the second (still pending) one is applied.
    let outcome1 = finder.find_path(source, first_target);
    let outcome2 = finder.find_path(source, second_target);
    assert!(state.check_results(agent, g1, outcome1.clone()).is_none());
    let applied = state.check_results(agent, g2, outcome2.clone()).expect("newest wins");
    assert_eq!(applied, outcome2);
    // The retired entry is gone: a late duplicate is discarded too.
    assert!(state.check_results(agent, g2, outcome2).is_none());
}

#[test]
fn revalidation_reroutes_or_clears_after_rebuild() {
    let bounds = bounds_100();
    let source = Point::new(5, 5);
    let goal = Point::new(90, 90);
    let open_finder = create_finder(&bounds, &vec![]);
    let request = UpdateEntityPath::new(3, PathTarget::new(goal, PathQueryProps::exact()));
    let original = open_finder
        .find_path(source, request.target())
        .expect("open map route");

    // A small obstacle lands on the route; after the rebuild the
    // revalidation query (original tolerance, unlimited budget) reroutes.
    let small = Obstacle {
        position: Point::new(50, 50),
        footprint: Rect { min: Point::new(-10, -10), max: Point::new(10, 10) },
    };
    let rebuilt = create_finder(&bounds, &vec![small]);
    let relaxed = PathTarget::new(
        original.target().location(),
        PathQueryProps::new(original.target().properties().distance(), u64::MAX),
    );
    let mut state = UpdatePathsState::default();
    let generation = state.spawn_new(request.entity());
    let outcome = rebuilt.find_path(source, relaxed);
    let applied = state
        .check_results(request.entity(), generation, outcome)
        .expect("revalidation result is applied");
    let rerouted = applied.expect("a detour still exists");
    assert!(rerouted.cost() > original.cost());

    // A wall cutting the map in two leaves no route: the applied outcome
    // clears the agent's path instead of leaving a stale one.
    let blocked = create_finder(&bounds, &vec![wall_across_map()]);
    let generation = state.spawn_new(request.entity());
    let outcome = blocked.find_path(source, relaxed);
    let applied = state
        .check_results(request.entity(), generation, outcome)
        .expect("revalidation result is applied");
    assert!(applied.is_none());
}
