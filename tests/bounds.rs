use raytrace::aabb::{surrounding_all, surrounding_box, Aabb, Point};

fn aabb(lo: (i64, i64, i64), hi: (i64, i64, i64)) -> Aabb {
    Aabb::new(Point::new(lo.0, lo.1, lo.2), Point::new(hi.0, hi.1, hi.2))
}

#[test]
fn surrounding_box_takes_componentwise_extremes() {
    let a = aabb((0, 5, -3), (2, 8, 1));
    let b = aabb((1, -4, -7), (9, 6, 0));
    let m = surrounding_box(&a, &b);
    assert_eq!(m.min(), Point::new(0, -4, -7));
    assert_eq!(m.max(), Point::new(9, 8, 1));
}

#[test]
fn surrounding_box_of_nested_boxes_is_the_outer_one() {
    let outer = aabb((-10, -10, -10), (10, 10, 10));
    let inner = aabb((-1, 0, 1), (2, 3, 4));
    assert_eq!(surrounding_box(&outer, &inner), outer);
    assert_eq!(surrounding_box(&inner, &outer), outer);
}

#[test]
fn surrounding_box_keeps_degenerate_boxes() {
    let flat = aabb((0, 7, 0), (5, 7, 5));
    let m = surrounding_box(&flat, &flat);
    assert_eq!(m, flat);
}

#[test]
fn surrounding_all_merges_every_box() {
    let boxes = vec![
        aabb((0, 0, 0), (1, 1, 1)),
        aabb((-3, 2, 0), (0, 4, 1)),
        aabb((5, -1, -2), (6, 0, 9)),
    ];
    let m = surrounding_all(&boxes);
    assert_eq!(m, aabb((-3, -1, -2), (6, 4, 9)));
    assert_eq!(surrounding_all(&boxes[..1].to_vec()), boxes[0]);
}

#[test]
fn point_axis_reads_each_coordinate() {
    let p = Point::new(4, -5, 6);
    assert_eq!(p.axis(0), 4);
    assert_eq!(p.axis(1), -5);
    assert_eq!(p.axis(2), 6);
}

#[test]
fn enclosing_spans_all_points() {
    let pts = vec![Point::new(3, -1, 4), Point::new(-2, 6, 4), Point::new(0, 0, -9)];
    let b = raytrace::aabb::enclosing(&pts);
    assert_eq!(b, aabb((-2, -1, -9), (3, 6, 4)));
    let one = raytrace::aabb::enclosing(&vec![Point::new(1, 2, 3)]);
    assert_eq!(one, aabb((1, 2, 3), (1, 2, 3)));
}
