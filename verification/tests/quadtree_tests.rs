use quadtree::{Point, QuadTree, QuadTreeBoundary, QuadTreeError};

fn pt(x: i32, y: i32) -> Point {
    Point { x, y }
}

#[test]
fn boundary_contains_closed_edges() {
    let b = QuadTreeBoundary::new(0, 0, 10, 10);
    assert!(b.contains(&pt(0, 0)));
    assert!(b.contains(&pt(10, 10)));
    assert!(b.contains(&pt(0, 10)));
    assert!(b.contains(&pt(5, 5)));
    assert!(!b.contains(&pt(-1, 5)));
    assert!(!b.contains(&pt(11, 5)));
    assert!(!b.contains(&pt(5, 11)));
}

#[test]
fn boundary_contains_is_idempotent() {
    let b = QuadTreeBoundary::new(-3, -3, 7, 9);
    let p = pt(7, -3);
    let first = b.contains(&p);
    for _ in 0..10 {
        assert_eq!(b.contains(&p), first);
    }
    assert!(first);
}

#[test]
fn boundary_intersects_touching_edges() {
    let a = QuadTreeBoundary::new(0, 0, 10, 10);
    let b = QuadTreeBoundary::new(10, 10, 20, 20);
    let c = QuadTreeBoundary::new(11, 0, 20, 10);
    assert!(a.intersects(&b));
    assert!(b.intersects(&a));
    assert!(!a.intersects(&c));
    assert!(a.intersects(&a));
}

#[test]
fn boundary_intersects_is_idempotent() {
    let a = QuadTreeBoundary::new(0, 0, 10, 10);
    let b = QuadTreeBoundary::new(5, 5, 8, 8);
    let first = a.intersects(&b);
    for _ in 0..10 {
        assert_eq!(a.intersects(&b), first);
    }
    assert!(first);
}

#[test]
fn boundary_overlaps_circle_by_squared_distance() {
    let b = QuadTreeBoundary::new(0, 0, 10, 10);
    // centre (13, 0): nearest rectangle point (10, 0), squared distance 9
    assert!(b.overlaps(13, 0, 3));
    assert!(!b.overlaps(13, 0, 2));
    // centre inside the rectangle: distance zero
    assert!(b.overlaps(5, 5, 0));
    // diagonal: nearest point (10, 10), squared distance 3*3 + 4*4 = 25
    assert!(b.overlaps(13, 14, 5));
    assert!(!b.overlaps(13, 14, 4));
}

#[test]
fn boundary_overlaps_negative_radius_squares() {
    let b = QuadTreeBoundary::new(0, 0, 10, 10);
    // only the square of the radius matters
    assert_eq!(b.overlaps(13, 0, -3), b.overlaps(13, 0, 3));
    assert_eq!(b.overlaps(13, 0, -2), b.overlaps(13, 0, 2));
}

#[test]
fn boundary_try_new_rejects_malformed() {
    assert_eq!(
        QuadTreeBoundary::try_new(5, 0, 4, 10).unwrap_err(),
        QuadTreeError::MalformedBoundary
    );
    assert_eq!(
        QuadTreeBoundary::try_new(0, 5, 10, 4).unwrap_err(),
        QuadTreeError::MalformedBoundary
    );
    let b = QuadTreeBoundary::try_new(-2, -1, 2, 1).unwrap();
    assert_eq!(b.left(), -2);
    assert_eq!(b.top(), -1);
    assert_eq!(b.right(), 2);
    assert_eq!(b.bottom(), 1);
}

#[test]
fn boundary_center_rounds_toward_low_edge() {
    let b = QuadTreeBoundary::new(0, 0, 5, 5);
    assert_eq!(b.center(), (2, 2));
    let c = QuadTreeBoundary::new(-5, -5, 0, 0);
    assert_eq!(c.center(), (-3, -3));
    let d = QuadTreeBoundary::new(0, 0, 100, 100);
    assert_eq!(d.center(), (50, 50));
}

#[test]
fn tree_try_new_rejects_negative_extent() {
    assert_eq!(
        QuadTree::try_new(-1, 10, false).unwrap_err(),
        QuadTreeError::MalformedBoundary
    );
    assert_eq!(
        QuadTree::try_new(10, -1, false).unwrap_err(),
        QuadTreeError::MalformedBoundary
    );
    assert!(QuadTree::try_new(10, 10, false).is_ok());
}

#[test]
fn insert_out_of_bounds_rejected_and_tree_untouched() {
    let mut t = QuadTree::new(100, 100, false);
    t.insert(pt(1, 2)).unwrap();
    assert_eq!(
        t.insert(pt(101, 50)).unwrap_err(),
        QuadTreeError::OutOfBoundsInsert
    );
    assert_eq!(
        t.insert(pt(50, -1)).unwrap_err(),
        QuadTreeError::OutOfBoundsInsert
    );
    let all = t.query_rect(&t.boundary());
    assert_eq!(all, vec![pt(1, 2)]);
}

#[test]
fn query_rect_preserves_insertion_order() {
    let mut t = QuadTree::new(100, 100, false);
    let points = [pt(9, 9), pt(1, 1), pt(5, 5)];
    for p in points {
        t.insert(p).unwrap();
    }
    let all = t.query_rect(&t.boundary());
    assert_eq!(all, points.to_vec());
}

#[test]
fn capacity_threshold_five_then_six() {
    let mut t = QuadTree::new(100, 100, false);
    for i in 1..=5 {
        t.insert(pt(i, i)).unwrap();
    }
    // exactly CAPACITY points: still a leaf, no subdivision
    assert!(!t.is_divided());
    assert_eq!(t.boundaries().len(), 0);

    t.insert(pt(50, 50)).unwrap();
    // one more point: exactly one subdivision
    assert!(t.is_divided());
    let bs = t.boundaries();
    assert_eq!(bs.len(), 1);
    assert_eq!(
        (bs[0].left(), bs[0].top(), bs[0].right(), bs[0].bottom()),
        (0, 0, 100, 100)
    );
}

#[test]
fn example_scenario_six_points() {
    let mut t = QuadTree::new(100, 100, false);
    let five = [pt(1, 1), pt(2, 2), pt(3, 3), pt(4, 4), pt(5, 5)];
    for p in five {
        t.insert(p).unwrap();
    }
    t.insert(pt(50, 50)).unwrap();

    // the first five points stay with the root and are found in order
    let corner = t.query_rect(&QuadTreeBoundary::new(0, 0, 10, 10));
    assert_eq!(corner, five.to_vec());

    // the sixth point is found alone by a tight radius query
    let near_centre = t.query_radius(50, 50, 1);
    assert_eq!(near_centre, vec![pt(50, 50)]);

    // node points are emitted before child points
    let all = t.query_rect(&t.boundary());
    assert_eq!(
        all,
        vec![pt(1, 1), pt(2, 2), pt(3, 3), pt(4, 4), pt(5, 5), pt(50, 50)]
    );
}

#[test]
fn query_rect_matches_linear_scan() {
    let mut t = QuadTree::new(64, 64, false);
    let mut points = Vec::new();
    // a deterministic scattering of points
    for i in 0..40i32 {
        let p = pt((i * 23) % 65, (i * 41) % 65);
        points.push(p);
        t.insert(p).unwrap();
    }
    let area = QuadTreeBoundary::new(10, 5, 40, 50);
    let mut expected: Vec<Point> = Vec::new();
    let mut found = t.query_rect(&area);
    for p in &points {
        if area.contains(p) {
            expected.push(*p);
        }
    }
    found.sort_by_key(|p| (p.x, p.y));
    expected.sort_by_key(|p| (p.x, p.y));
    assert_eq!(found, expected);
    assert!(!expected.is_empty());
}

#[test]
fn query_radius_matches_linear_scan() {
    let mut t = QuadTree::new(64, 64, false);
    let mut points = Vec::new();
    for i in 0..40i32 {
        let p = pt((i * 29) % 65, (i * 37) % 65);
        points.push(p);
        t.insert(p).unwrap();
    }
    let (cx, cy, r) = (32, 32, 15);
    let mut expected: Vec<Point> = Vec::new();
    for p in &points {
        let (dx, dy) = ((p.x - cx) as i64, (p.y - cy) as i64);
        if dx * dx + dy * dy <= (r as i64) * (r as i64) {
            expected.push(*p);
        }
    }
    let mut found = t.query_radius(cx, cy, r);
    found.sort_by_key(|p| (p.x, p.y));
    expected.sort_by_key(|p| (p.x, p.y));
    assert_eq!(found, expected);
    assert!(!expected.is_empty());
}

#[test]
fn coincident_points_terminate_and_are_all_found() {
    let mut t = QuadTree::new(100, 100, false);
    for _ in 0..200 {
        t.insert(pt(10, 10)).unwrap();
    }
    // subdivision stops at the maximum depth instead of recursing forever:
    // one divided node per level above it
    assert_eq!(t.boundaries().len(), 32);
    assert_eq!(t.query_radius(10, 10, 0).len(), 200);
    assert_eq!(t.query_rect(&t.boundary()).len(), 200);
}

#[test]
fn lookup_appends_and_marks_visited_nodes() {
    let mut t = QuadTree::new(100, 100, true);
    for i in 1..=5 {
        t.insert(pt(i, i)).unwrap();
    }
    t.insert(pt(80, 80)).unwrap();
    let mut found = vec![pt(0, 0)];
    t.lookup(80, 80, 2, &mut found);
    assert_eq!(found, vec![pt(0, 0), pt(80, 80)]);

    // marking was enabled: the visited (overlapping) subdivided nodes are
    // flagged for the renderer
    let bs = t.boundaries();
    assert_eq!(bs.len(), 1);
    assert!(bs[0].was_searched());
}

#[test]
fn lookup_without_marking_leaves_flags_clear() {
    let mut t = QuadTree::new(100, 100, false);
    for i in 1..=5 {
        t.insert(pt(i, i)).unwrap();
    }
    t.insert(pt(80, 80)).unwrap();
    let mut found = Vec::new();
    t.lookup(80, 80, 2, &mut found);
    assert_eq!(found, vec![pt(80, 80)]);
    let bs = t.boundaries();
    assert_eq!(bs.len(), 1);
    assert!(!bs[0].was_searched());
}

#[test]
fn subdivision_tiles_parent_at_midpoint() {
    let mut t = QuadTree::new(100, 100, false);
    for i in 1..=5 {
        t.insert(pt(60 + i, 60 + i)).unwrap();
    }
    t.insert(pt(20, 20)).unwrap();
    t.insert(pt(70, 20)).unwrap();
    t.insert(pt(20, 70)).unwrap();
    t.insert(pt(70, 70)).unwrap();
    // with more insertions the children subdivide in turn; every child
    // boundary reported is a quadrant of some parent, so each corner query
    // still finds exactly its own points
    assert_eq!(t.query_rect(&QuadTreeBoundary::new(0, 0, 49, 49)), vec![pt(
        20, 20
    )]);
    assert_eq!(t.query_rect(&QuadTreeBoundary::new(51, 0, 100, 49)), vec![pt(
        70, 20
    )]);
    assert_eq!(t.query_rect(&QuadTreeBoundary::new(0, 51, 49, 100)), vec![pt(
        20, 70
    )]);
}

#[test]
fn point_on_dividing_line_lands_in_first_matching_quadrant() {
    // a point exactly on the centre satisfies several quadrants' closed
    // containment tests; insertion must still store it exactly once
    let mut t = QuadTree::new(100, 100, false);
    for i in 1..=5 {
        t.insert(pt(i, i)).unwrap();
    }
    t.insert(pt(50, 50)).unwrap();
    t.insert(pt(50, 50)).unwrap();
    assert_eq!(t.query_radius(50, 50, 0).len(), 2);
    assert_eq!(t.query_rect(&t.boundary()).len(), 7);
}
