use glass_oak::geom::{dist_sq, Rect};
use glass_oak::text::int_string;
use glass_oak::tile::Tile;

#[test]
fn decimal_rendering_is_exact() {
    assert_eq!(int_string(0), "0");
    assert_eq!(int_string(7), "7");
    assert_eq!(int_string(350), "350");
    assert_eq!(int_string(-123), "-123");
    assert_eq!(int_string(i64::from(i32::MIN)), "-2147483648");
}

#[test]
fn squared_distance_orders_points_like_real_distance() {
    assert_eq!(dist_sq(0, 0, 3, 4), 25);
    assert_eq!(dist_sq(5, 5, 5, 5), 0);
    assert_eq!(dist_sq(-2, -2, 1, 2), 25);
}

#[test]
fn rect_center_and_overlap() {
    let a = Rect::new(2, 3, 6, 6);
    assert_eq!((a.x1, a.y1, a.x2, a.y2), (2, 3, 8, 9));
    assert_eq!(a.center(), (5, 6));
    let b = Rect::new(8, 9, 6, 6);
    // the overlap test treats the bounds inclusively, so rooms sharing an
    // edge count as overlapping
    assert!(a.intersects_with(&b));
    let c = Rect::new(9, 10, 6, 6);
    assert!(!a.intersects_with(&c));
}

#[test]
fn tile_constructors() {
    let w = Tile::wall();
    assert!(w.blocked && w.block_sight && !w.explored);
    let e = Tile::empty();
    assert!(!e.blocked && !e.block_sight && !e.explored);
}
