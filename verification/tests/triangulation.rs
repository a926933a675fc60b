use pathing::triangulation::triangulate;
use pathing::ExclusionArea;
use pathing::MapBounds;
use pathing::Obstacle;
use pathing::Point;
use pathing::Rect;
use pathing::Triangle;

fn bounds_100() -> MapBounds {
    MapBounds::new(Point::new(0, 0), Point::new(100, 100))
}

fn doubled_area(t: &Triangle) -> i64 {
    (t.b.x - t.a.x) * (t.c.y - t.a.y) - (t.b.y - t.a.y) * (t.c.x - t.a.x)
}

fn exclusion(min: Point, max: Point) -> ExclusionArea {
    ExclusionArea { rect: Rect { min, max } }
}

#[test]
fn empty_bounds_split_into_two_triangles() {
    let tris = triangulate(&bounds_100(), &vec![]);
    assert_eq!(tris.len(), 2);
    let total: i64 = tris.iter().map(doubled_area).sum();
    assert_eq!(total, 2 * 100 * 100);
}

#[test]
fn triangle_areas_sum_to_free_area() {
    // One 20 by 20 exclusion in the middle of a 100 by 100 map.
    let excl = vec![exclusion(Point::new(40, 40), Point::new(60, 60))];
    let tris = triangulate(&bounds_100(), &excl);
    let total: i64 = tris.iter().map(doubled_area).sum();
    assert_eq!(total, 2 * (100 * 100 - 20 * 20));
    for t in &tris {
        assert!(doubled_area(t) > 0, "triangles are wound counter-clockwise");
    }
}

#[test]
fn triangle_areas_with_two_exclusions() {
    let excl = vec![
        exclusion(Point::new(10, 10), Point::new(30, 20)),
        exclusion(Point::new(70, 60), Point::new(90, 95)),
    ];
    let tris = triangulate(&bounds_100(), &excl);
    let total: i64 = tris.iter().map(doubled_area).sum();
    assert_eq!(total, 2 * (100 * 100 - 20 * 10 - 20 * 35));
}

#[test]
fn rebuild_from_same_snapshot_is_identical() {
    let excl = vec![
        exclusion(Point::new(40, 40), Point::new(60, 60)),
        exclusion(Point::new(5, 80), Point::new(25, 95)),
    ];
    let first = triangulate(&bounds_100(), &excl);
    let second = triangulate(&bounds_100(), &excl);
    assert_eq!(first, second);
}

#[test]
fn exclusion_overhanging_the_bounds_is_clipped() {
    // An obstacle footprint reaching past the map edge is clipped to it.
    let excl = vec![exclusion(Point::new(-20, 40), Point::new(20, 60))];
    let tris = triangulate(&bounds_100(), &excl);
    let total: i64 = tris.iter().map(doubled_area).sum();
    assert_eq!(total, 2 * (100 * 100 - 20 * 20));
}

#[test]
fn no_triangle_reaches_into_an_exclusion() {
    let excl = vec![exclusion(Point::new(40, 40), Point::new(60, 60))];
    let tris = triangulate(&bounds_100(), &excl);
    for t in &tris {
        for p in [t.a, t.b, t.c] {
            let strictly_inside = 40 < p.x && p.x < 60 && 40 < p.y && p.y < 60;
            assert!(!strictly_inside, "no vertex may sit inside the exclusion");
        }
    }
}

#[test]
fn exclusion_build_translates_footprints() {
    let obstacles = vec![Obstacle {
        position: Point::new(30, 70),
        footprint: Rect { min: Point::new(-4, -2), max: Point::new(4, 2) },
    }];
    let areas = ExclusionArea::build(&obstacles);
    assert_eq!(areas.len(), 1);
    assert_eq!(areas[0].rect.min, Point::new(26, 68));
    assert_eq!(areas[0].rect.max, Point::new(34, 72));
}
