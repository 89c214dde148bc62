use pathtracer::{Point3, AABB};

fn b(min: (i64, i64, i64), max: (i64, i64, i64)) -> AABB {
    AABB {
        min: Point3 { x: min.0, y: min.1, z: min.2 },
        max: Point3 { x: max.0, y: max.1, z: max.2 },
    }
}

#[test]
fn surrounding_takes_componentwise_extremes() {
    let r = AABB::surrounding(b((0, 5, -3), (2, 6, 1)), b((-1, 7, -4), (1, 9, 0)));
    assert_eq!(r, b((-1, 5, -4), (2, 9, 1)));
}

#[test]
fn surrounding_holds_both_boxes() {
    let a = b((3, 3, 3), (4, 4, 4));
    let c = b((-10, 0, 8), (-9, 1, 9));
    let r = AABB::surrounding(a, c);
    assert!(r.contains(&a));
    assert!(r.contains(&c));
    assert!(!a.contains(&r));
}

#[test]
fn surrounding_of_a_box_with_itself_is_that_box() {
    let a = b((1, 2, 3), (4, 5, 6));
    assert_eq!(AABB::surrounding(a, a), a);
}

#[test]
fn contains_checks_every_axis() {
    let outer = b((0, 0, 0), (10, 10, 10));
    assert!(outer.contains(&b((0, 0, 0), (10, 10, 10))));
    assert!(outer.contains(&b((2, 3, 4), (5, 6, 7))));
    assert!(!outer.contains(&b((2, 3, 4), (5, 6, 11))));
    assert!(!outer.contains(&b((-1, 3, 4), (5, 6, 7))));
    assert!(!outer.contains(&b((2, 3, 4), (5, 12, 7))));
}

#[test]
fn point_get_reads_each_axis() {
    let p = Point3 { x: 7, y: -8, z: 9 };
    assert_eq!(p.get(0), 7);
    assert_eq!(p.get(1), -8);
    assert_eq!(p.get(2), 9);
}
