use std::cmp::Ordering;

use math_optim::geometry::angle::arg_cmp;
use math_optim::geometry::convex_hull::andrew;
use math_optim::geometry::polygon::signed_area_mul2;
use math_optim::geometry::vector_2d::Vector2D;

fn points(coordinates: &[(i64, i64)]) -> Vec<Vector2D> {
    coordinates.iter().map(|&(x, y)| Vector2D::new(x, y)).collect()
}

#[test]
fn vector_operations() {
    let a = Vector2D::new(3, 4);
    let b = Vector2D::new(-1, 2);
    assert_eq!(a.x(), 3);
    assert_eq!(a.y(), 4);
    assert_eq!(a.add(&b), Vector2D::new(2, 6));
    assert_eq!(a.sub(&b), Vector2D::new(4, 2));
    assert_eq!(a.scalar(-2), Vector2D::new(-6, -8));
    assert_eq!(a.dot(&b), 5);
    assert_eq!(a.cross(&b), 10);
    assert_eq!(b.cross(&a), -10);
    assert_eq!(a.norm_pow2(), 25);
    assert_eq!(Vector2D::new(1, 0).cross(&Vector2D::new(0, 1)), 1);
    assert_eq!(Vector2D::from((5, 6)), Vector2D::new(5, 6));
    let pair: (i64, i64) = Vector2D::new(5, 6).into();
    assert_eq!(pair, (5, 6));
    assert_eq!(Vector2D::default(), Vector2D::new(0, 0));
    assert_eq!(Vector2D((7, 8)).0, (7, 8));
}

#[test]
fn comparison_by_argument() {
    let v = |x, y| Vector2D::new(x, y);
    assert_eq!(arg_cmp(&v(1, 0), &v(0, 1)), Ordering::Less);
    assert_eq!(arg_cmp(&v(0, 1), &v(1, 0)), Ordering::Greater);
    assert_eq!(arg_cmp(&v(0, 1), &v(-1, 0)), Ordering::Less);
    assert_eq!(arg_cmp(&v(-1, 0), &v(0, -1)), Ordering::Less);
    assert_eq!(arg_cmp(&v(0, -1), &v(1, 0)), Ordering::Greater);
    assert_eq!(arg_cmp(&v(1, -1), &v(1, 1)), Ordering::Greater);
    assert_eq!(arg_cmp(&v(1, 0), &v(2, 0)), Ordering::Equal);
    assert_eq!(arg_cmp(&v(1, 1), &v(3, 3)), Ordering::Equal);
    assert_eq!(arg_cmp(&v(-2, -2), &v(-1, -1)), Ordering::Equal);
    assert_eq!(arg_cmp(&v(0, 0), &v(1, 0)), Ordering::Equal);
    assert_eq!(arg_cmp(&v(1, 1), &v(-1, -1)), Ordering::Less);
}

#[test]
fn sorting_by_argument() {
    let mut around = points(&[(0, -1), (-1, 0), (1, 1), (-1, -1), (1, 0), (0, 1), (1, -1), (-1, 1)]);
    around.sort_by(arg_cmp);
    let expected = points(&[(1, 0), (1, 1), (0, 1), (-1, 1), (-1, 0), (-1, -1), (0, -1), (1, -1)]);
    assert_eq!(around, expected);
}

#[test]
fn signed_areas() {
    assert_eq!(signed_area_mul2(&points(&[(0, 0), (1, 0), (1, 1), (0, 1)])), 2);
    assert_eq!(signed_area_mul2(&points(&[(0, 1), (1, 1), (1, 0), (0, 0)])), -2);
    assert_eq!(signed_area_mul2(&points(&[(0, 0), (4, 0), (0, 3)])), 12);
    assert_eq!(signed_area_mul2(&points(&[(0, 0), (1, 1), (2, 2)])), 0);
    assert_eq!(signed_area_mul2(&points(&[(0, 0), (4, 0)])), 0);
    assert_eq!(signed_area_mul2(&points(&[(5, 5)])), 0);
    assert_eq!(signed_area_mul2(&[]), 0);
    // the area does not depend on the vertex that comes first
    assert_eq!(signed_area_mul2(&points(&[(4, 0), (0, 3), (0, 0)])), 12);
}

#[test]
fn convex_hulls() {
    let square = points(&[(0, 0), (2, 0), (2, 2), (0, 2), (1, 1), (1, 0), (0, 0), (2, 1)]);
    assert_eq!(andrew(&square), points(&[(0, 0), (2, 0), (2, 2), (0, 2)]));
    let unsorted = points(&[(3, 1), (0, 0), (1, 3), (2, 2), (1, 1), (4, 4), (0, 4), (4, 0)]);
    assert_eq!(andrew(&unsorted), points(&[(0, 0), (4, 0), (4, 4), (0, 4)]));
    let triangle = points(&[(0, 0), (5, 1), (2, 7)]);
    assert_eq!(andrew(&triangle), points(&[(0, 0), (5, 1), (2, 7)]));
    let turned = points(&[(2, 7), (5, 1), (0, 0)]);
    assert_eq!(andrew(&turned), points(&[(0, 0), (5, 1), (2, 7)]));
}

#[test]
fn convex_hulls_of_few_points() {
    assert_eq!(andrew(&[]), Vec::<Vector2D>::new());
    assert_eq!(andrew(&points(&[(3, 3)])), points(&[(3, 3)]));
    assert_eq!(andrew(&points(&[(3, 3), (3, 3), (3, 3)])), points(&[(3, 3)]));
    assert_eq!(andrew(&points(&[(3, 1), (1, 2)])), points(&[(1, 2), (3, 1)]));
    assert_eq!(andrew(&points(&[(1, 2), (3, 1), (1, 2)])), points(&[(1, 2), (3, 1)]));
}

#[test]
fn convex_hull_of_points_on_a_line() {
    assert_eq!(andrew(&points(&[(0, 0), (1, 1), (2, 2)])), points(&[(0, 0), (2, 2)]));
    assert_eq!(andrew(&points(&[(2, 0), (0, 0), (3, 0), (1, 0)])), points(&[(0, 0), (3, 0)]));
    assert_eq!(andrew(&points(&[(0, 5), (0, 1), (0, 3)])), points(&[(0, 1), (0, 5)]));
}

#[test]
fn convex_hull_is_convex_and_holds_all_points() {
    let mut seed = 99u64;
    let mut cloud = Vec::new();
    for _ in 0..200 {
        seed = seed.wrapping_mul(6364136223846793005).wrapping_add(1442695040888963407);
        let x = (seed >> 33) as i64 % 50 - 25;
        seed = seed.wrapping_mul(6364136223846793005).wrapping_add(1442695040888963407);
        let y = (seed >> 33) as i64 % 50 - 25;
        cloud.push(Vector2D::new(x, y));
    }
    let hull = andrew(&cloud);
    let m = hull.len();
    assert!(m >= 3);
    for i in 0..m {
        let (a, b, c) = (hull[i], hull[(i + 1) % m], hull[(i + 2) % m]);
        assert!(b.sub(&a).cross(&c.sub(&a)) > 0);
        for p in &cloud {
            assert!(b.sub(&a).cross(&p.sub(&a)) >= 0);
        }
        assert!(cloud.contains(&a));
    }
    assert!(signed_area_mul2(&hull) > 0);
}
