use octree_art::geometry::{max, max_v3, min_v3, Cube, Normal, Tri, TriN, V3};
use octree_art::intersect::{intersect_cube0_tri, intersect_cube_tri, intersect_iv, with_normal, Iv};

fn tri(a: (i64, i64, i64), b: (i64, i64, i64), c: (i64, i64, i64)) -> Tri {
    Tri { a: V3::new(a.0, a.1, a.2), b: V3::new(b.0, b.1, b.2), c: V3::new(c.0, c.1, c.2) }
}

fn hit(cube: &Cube, t: Tri) -> bool {
    intersect_cube_tri(cube, &with_normal(t))
}

fn orders(t: Tri) -> Vec<Tri> {
    vec![
        Tri { a: t.a, b: t.b, c: t.c },
        Tri { a: t.b, b: t.c, c: t.a },
        Tri { a: t.c, b: t.a, c: t.b },
        Tri { a: t.b, b: t.a, c: t.c },
        Tri { a: t.a, b: t.c, c: t.b },
        Tri { a: t.c, b: t.b, c: t.a },
    ]
}

#[test]
fn max_of_three_is_the_largest() {
    assert_eq!(max(1, 2, 3), 3);
    assert_eq!(max(3, 2, 1), 3);
    assert_eq!(max(-5, -2, -9), -2);
    assert_eq!(max(4, 4, 4), 4);
}

#[test]
fn min_and_max_of_points_go_by_component() {
    let a = V3::new(1, 8, -3);
    let b = V3::new(4, 2, -7);
    assert_eq!(min_v3(a, b), V3::new(1, 2, -7));
    assert_eq!(max_v3(a, b), V3::new(4, 8, -3));
}

#[test]
fn intervals_that_touch_intersect() {
    assert!(intersect_iv(Iv(0, 10), Iv(10, 20)));
    assert!(intersect_iv(Iv(0, 10), Iv(-5, 0)));
    assert!(intersect_iv(Iv(0, 10), Iv(3, 4)));
    assert!(intersect_iv(Iv(3, 4), Iv(0, 10)));
    assert!(!intersect_iv(Iv(0, 10), Iv(11, 20)));
    assert!(!intersect_iv(Iv(0, 10), Iv(-5, -1)));
}

#[test]
fn normal_is_the_cross_product_of_the_edges() {
    let t = with_normal(tri((1, 1, 1), (4, 1, 1), (1, 6, 1)));
    assert_eq!(t.0, tri((1, 1, 1), (4, 1, 1), (1, 6, 1)));
    assert_eq!(t.1, Normal { x: 0, y: 0, z: 15 });
    let u = with_normal(tri((5, 50, 0), (5, 0, 50), (9, 23, 23)));
    assert_eq!(u.1, Normal { x: 200, y: 200, z: 200 });
    let flipped = with_normal(tri((4, 1, 1), (1, 1, 1), (1, 6, 1)));
    assert_eq!(flipped.1, Normal { x: 0, y: 0, z: -15 });
}

#[test]
fn normal_of_a_large_triangle_does_not_overflow() {
    let m: i64 = 1 << 40;
    let t = with_normal(tri((-m, -m, -m), (m, -m, -m), (-m, m, -m)));
    assert_eq!(t.1, Normal { x: 0, y: 0, z: 1i128 << 82 });
    let cube = Cube(V3::new(-m, -m, -m), m);
    assert!(intersect_cube_tri(&cube, &t));
}

#[test]
fn triangle_inside_cube_intersects() {
    let cube = Cube(V3::new(0, 0, 0), 10);
    assert!(hit(&cube, tri((1, 1, 1), (5, 1, 1), (1, 5, 1))));
}

#[test]
fn triangle_through_cube_intersects() {
    let cube = Cube(V3::new(0, 0, 0), 10);
    assert!(hit(&cube, tri((-100, -100, 5), (100, -100, 5), (0, 200, 5))));
}

#[test]
fn triangle_beyond_cube_on_one_axis_misses() {
    let cube = Cube(V3::new(0, 0, 0), 10);
    assert!(!hit(&cube, tri((11, 1, 1), (15, 1, 1), (11, 5, 1))));
    assert!(!hit(&cube, tri((-5, 1, 1), (-1, 1, 1), (-5, 5, 1))));
    assert!(!hit(&cube, tri((1, 11, 1), (5, 11, 1), (1, 15, 1))));
    assert!(!hit(&cube, tri((1, -5, 1), (5, -5, 1), (1, -1, 1))));
    assert!(!hit(&cube, tri((1, 1, 11), (5, 1, 11), (1, 5, 11))));
    assert!(!hit(&cube, tri((1, 1, -1), (5, 1, -1), (1, 5, -1))));
}

#[test]
fn vertex_on_a_face_of_the_cube_intersects() {
    let cube = Cube(V3::new(0, 0, 0), 10);
    assert!(hit(&cube, tri((10, 5, 5), (20, 5, 5), (20, 9, 7))));
    assert!(hit(&cube, tri((-7, 3, 3), (0, 5, 5), (-7, 9, 7))));
    assert!(hit(&cube, tri((3, 3, 30), (3, 9, 30), (5, 5, 10))));
    assert!(hit(&cube, tri((10, 10, 10), (20, 10, 10), (10, 20, 10))));
    assert!(hit(&cube, tri((0, 0, 0), (-20, 0, 0), (0, -20, -3))));
}

#[test]
fn triangle_in_a_face_plane_intersects() {
    let cube = Cube(V3::new(0, 0, 0), 10);
    assert!(hit(&cube, tri((2, 2, 10), (8, 2, 10), (2, 8, 10))));
    assert!(hit(&cube, tri((2, 2, 0), (8, 2, 0), (2, 8, 0))));
    assert!(!hit(&cube, tri((2, 2, 11), (8, 2, 11), (2, 8, 11))));
}

#[test]
fn plane_that_passes_the_cube_by_misses() {
    let cube = Cube(V3::new(0, 0, 0), 10);
    assert!(!hit(&cube, tri((40, 0, 0), (0, 40, 0), (0, 0, 40))));
    assert!(!hit(&cube, tri((31, 0, 0), (0, 31, 0), (0, 0, 31))));
}

#[test]
fn plane_through_a_corner_of_the_cube_intersects() {
    let cube = Cube(V3::new(0, 0, 0), 10);
    assert!(hit(&cube, tri((30, 0, 0), (0, 30, 0), (0, 0, 30))));
    assert!(hit(&cube, tri((29, 0, 0), (0, 29, 0), (0, 0, 29))));
}

#[test]
fn cube_away_from_the_origin_is_tested_in_its_own_frame() {
    let cube = Cube(V3::new(100, -50, 7), 10);
    assert!(hit(&cube, tri((101, -49, 8), (105, -49, 8), (101, -45, 8))));
    assert!(!hit(&cube, tri((1, 1, 1), (5, 1, 1), (1, 5, 1))));
    assert!(hit(&cube, tri((110, -40, 17), (120, -40, 17), (110, -30, 17))));
    assert!(!hit(&cube, tri((111, -40, 17), (120, -40, 17), (111, -30, 17))));
}

#[test]
fn degenerate_triangle_is_kept() {
    let cube = Cube(V3::new(0, 0, 0), 10);
    let line = tri((1, 1, 1), (2, 2, 2), (3, 3, 3));
    assert_eq!(with_normal(line).1, Normal { x: 0, y: 0, z: 0 });
    assert!(hit(&cube, line));
    let point = tri((5, 5, 5), (5, 5, 5), (5, 5, 5));
    assert!(hit(&cube, point));
    let far = tri((11, 1, 1), (12, 2, 2), (13, 3, 3));
    assert!(!hit(&cube, far));
}

#[test]
fn vertex_order_does_not_change_the_answer() {
    let cubes = [
        Cube(V3::new(0, 0, 0), 10),
        Cube(V3::new(0, 0, 0), 20),
        Cube(V3::new(-3, 4, 5), 7),
        Cube(V3::new(10, 10, 10), 1),
    ];
    let tris = [
        tri((1, 1, 1), (5, 1, 1), (1, 5, 1)),
        tri((40, 0, 0), (0, 40, 0), (0, 0, 40)),
        tri((30, 0, 0), (0, 30, 0), (0, 0, 30)),
        tri((5, 50, 0), (5, 0, 50), (9, 23, 23)),
        tri((-7, 3, 3), (0, 5, 5), (-7, 9, 7)),
        tri((11, 11, 11), (12, 10, 13), (9, 14, 10)),
        tri((1, 1, 1), (2, 2, 2), (3, 3, 3)),
    ];
    for cube in cubes.iter() {
        for t in tris.iter() {
            let first = hit(cube, *t);
            for o in orders(*t) {
                assert_eq!(hit(cube, o), first);
            }
        }
    }
}

#[test]
fn test_in_the_frame_of_the_cube_takes_the_given_normal() {
    let t = tri((30, 0, 0), (0, 30, 0), (0, 0, 30));
    assert!(intersect_cube0_tri(10, &with_normal(t)));
    assert!(!intersect_cube0_tri(9, &with_normal(t)));
    let other = TriN(t, Normal { x: 0, y: 0, z: 1 });
    assert!(intersect_cube0_tri(9, &other));
    let away = TriN(t, Normal { x: -1, y: 0, z: 0 });
    assert!(!intersect_cube0_tri(10, &away));
}
