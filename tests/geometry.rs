use hadar::env::{v2, Direction, Vec2D};

#[test]
fn directions_invert_and_apply() {
    let p = Vec2D::new(3, 3);
    assert_eq!(p.apply(Direction::Up), Vec2D::new(3, 4));
    assert_eq!(p.apply(Direction::Right), Vec2D::new(4, 3));
    assert_eq!(p.apply(Direction::Down), Vec2D::new(3, 2));
    assert_eq!(p.apply(Direction::Left), Vec2D::new(2, 3));
    for d in Direction::all() {
        assert_eq!(d.invert().invert(), d);
        assert_eq!(p.apply(d).apply(d.invert()), p);
        assert_eq!(Direction::from_delta(v2(p.apply(d).x - p.x, p.apply(d).y - p.y)), d);
    }
    assert_eq!(Direction::all(), [Direction::Up, Direction::Right, Direction::Down, Direction::Left]);
    assert_eq!(Direction::from_index(2), Direction::Down);
}

#[test]
fn distances() {
    let a = Vec2D::new(5, 6);
    let b = Vec2D::new(8, 9);
    assert_eq!(a.manhattan(b), 6);
    assert_eq!(a.sq_dist(b), 18);
    assert_eq!(a.delta(b), (-3, -3));
    assert!(a.within(11, 11));
    assert!(!b.within(8, 11));
}
