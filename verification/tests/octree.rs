use octree_art::geometry::{Cube, Tri, TriN, V3};
use octree_art::intersect::with_normal;
use octree_art::octree::{divide, divide_cube, filter_tris, Octants, Octree};

fn facet(a: (i64, i64, i64), b: (i64, i64, i64), c: (i64, i64, i64)) -> TriN {
    with_normal(Tri {
        a: V3::new(a.0, a.1, a.2),
        b: V3::new(b.0, b.1, b.2),
        c: V3::new(c.0, c.1, c.2),
    })
}

fn leaf(fill: bool) -> Octree<bool> {
    Octree::Leaf(fill)
}

fn branch(c: [Octree<bool>; 8]) -> Octree<bool> {
    let [c0, c1, c2, c3, c4, c5, c6, c7] = c;
    Octree::Br(Box::new(Octants { c0, c1, c2, c3, c4, c5, c6, c7 }))
}

fn empty_branch() -> [Octree<bool>; 8] {
    [leaf(false), leaf(false), leaf(false), leaf(false), leaf(false), leaf(false), leaf(false), leaf(false)]
}

fn occupied(t: &Octree<bool>) -> usize {
    match t {
        Octree::Leaf(fill) => if *fill { 1 } else { 0 },
        Octree::Br(c) => (0..8).map(|i| occupied(c.get(i))).sum(),
    }
}

fn height(t: &Octree<bool>) -> usize {
    match t {
        Octree::Leaf(_) => 0,
        Octree::Br(c) => 1 + (0..8).map(|i| height(c.get(i))).max().unwrap(),
    }
}

#[test]
fn default_tree_is_an_empty_leaf() {
    let t: Octree<bool> = Default::default();
    assert_eq!(t, Octree::Leaf(false));
    let n: Octree<u8> = Default::default();
    assert_eq!(n, Octree::Leaf(0));
}

#[test]
fn children_are_handed_out_by_octant() {
    let c = Octants {
        c0: Octree::Leaf(0u8),
        c1: Octree::Leaf(1u8),
        c2: Octree::Leaf(2u8),
        c3: Octree::Leaf(3u8),
        c4: Octree::Leaf(4u8),
        c5: Octree::Leaf(5u8),
        c6: Octree::Leaf(6u8),
        c7: Octree::Leaf(7u8),
    };
    for i in 0..8u8 {
        assert_eq!(*c.get(i as usize), Octree::Leaf(i));
    }
}

#[test]
fn octants_halve_the_edge_and_follow_the_bits() {
    let cc = divide_cube(Cube(V3::new(10, 20, 30), 8));
    assert_eq!(cc[0], Cube(V3::new(10, 20, 30), 4));
    assert_eq!(cc[1], Cube(V3::new(14, 20, 30), 4));
    assert_eq!(cc[2], Cube(V3::new(10, 24, 30), 4));
    assert_eq!(cc[3], Cube(V3::new(14, 24, 30), 4));
    assert_eq!(cc[4], Cube(V3::new(10, 20, 34), 4));
    assert_eq!(cc[5], Cube(V3::new(14, 20, 34), 4));
    assert_eq!(cc[6], Cube(V3::new(10, 24, 34), 4));
    assert_eq!(cc[7], Cube(V3::new(14, 24, 34), 4));
}

#[test]
fn octants_tile_the_cube() {
    let parent = Cube(V3::new(-4, 0, 6), 6);
    let cc = divide_cube(parent);
    let inside = |c: &Cube, p: (i64, i64, i64)| {
        c.0.x <= p.0 && p.0 <= c.0.x + c.1 && c.0.y <= p.1 && p.1 <= c.0.y + c.1 && c.0.z <= p.2
            && p.2 <= c.0.z + c.1
    };
    let strictly = |c: &Cube, p: (i64, i64, i64)| {
        c.0.x < p.0 && p.0 < c.0.x + c.1 && c.0.y < p.1 && p.1 < c.0.y + c.1 && c.0.z < p.2
            && p.2 < c.0.z + c.1
    };
    let mut volume = 0;
    for c in cc.iter() {
        assert_eq!(c.1 * 2, parent.1);
        volume += c.1 * c.1 * c.1;
    }
    assert_eq!(volume, parent.1 * parent.1 * parent.1);
    for x in -6..4 {
        for y in -2..8 {
            for z in 4..14 {
                let p = (x, y, z);
                let holders = cc.iter().filter(|c| inside(c, p)).count();
                assert_eq!(holders > 0, inside(&parent, p));
                assert!(cc.iter().filter(|c| strictly(c, p)).count() <= 1);
            }
        }
    }
}

#[test]
fn filter_keeps_the_touching_triangles_in_their_order() {
    let cube = Cube(V3::new(0, 0, 0), 8);
    let near = facet((1, 1, 1), (3, 1, 1), (1, 3, 1));
    let far = facet((20, 20, 20), (23, 20, 20), (20, 23, 20));
    let edge = facet((8, 8, 8), (9, 8, 8), (8, 9, 8));
    let kept = filter_tris(&cube, &vec![far, near, far, edge, near]);
    assert_eq!(kept, vec![near, edge, near]);
    assert_eq!(filter_tris(&cube, &vec![far, far]), vec![]);
    assert_eq!(filter_tris(&cube, &vec![]), vec![]);
}

#[test]
fn single_triangle_at_depth_zero_is_one_occupied_leaf() {
    let cube = Cube(V3::new(0, 0, 0), 1000);
    let tris = vec![facet((0, 0, 0), (1000, 0, 0), (0, 1000, 0))];
    assert_eq!(divide(cube, &tris, 0), Octree::Leaf(true));
}

#[test]
fn depth_zero_without_triangles_is_an_empty_leaf() {
    let cube = Cube(V3::new(0, 0, 0), 1000);
    assert_eq!(divide(cube, &vec![], 0), Octree::Leaf(false));
    let far = vec![facet((2000, 0, 0), (3000, 0, 0), (2000, 1000, 0))];
    assert_eq!(divide(cube, &far, 0), Octree::Leaf(false));
}

#[test]
fn empty_cell_is_a_leaf_however_deep_the_tree_may_go() {
    let cube = Cube(V3::new(0, 0, 0), 1024);
    let far = vec![facet((2000, 0, 0), (3000, 0, 0), (2000, 1000, 0))];
    for depth in 0..6 {
        assert_eq!(divide(cube, &far, depth), Octree::Leaf(false));
        assert_eq!(divide(cube, &vec![], depth), Octree::Leaf(false));
    }
}

#[test]
fn one_level_splits_an_occupied_cell_into_eight_leaves() {
    let cube = Cube(V3::new(0, 0, 0), 8);
    let tris = vec![facet((1, 1, 1), (3, 1, 1), (1, 3, 1))];
    let mut children = empty_branch();
    children[0] = leaf(true);
    assert_eq!(divide(cube, &tris, 1), branch(children));
}

#[test]
fn children_stand_in_octant_order() {
    let cube = Cube(V3::new(0, 0, 0), 8);
    for i in 0..8usize {
        let x = if i & 1 > 0 { 5 } else { 1 };
        let y = if i & 2 > 0 { 5 } else { 1 };
        let z = if i & 4 > 0 { 5 } else { 1 };
        let tris = vec![facet((x, y, z), (x + 2, y, z), (x, y + 2, z))];
        let mut children = empty_branch();
        children[i] = leaf(true);
        assert_eq!(divide(cube, &tris, 1), branch(children));
    }
}

#[test]
fn only_occupied_cells_are_split_further() {
    let cube = Cube(V3::new(0, 0, 0), 16);
    let tris = vec![facet((9, 9, 9), (10, 9, 9), (9, 10, 9))];
    let mut inner = empty_branch();
    inner[0] = leaf(true);
    let mut outer = empty_branch();
    outer[7] = branch(inner);
    assert_eq!(divide(cube, &tris, 2), branch(outer));
}

#[test]
fn triangle_on_the_boundary_between_octants_occupies_both_sides() {
    let cube = Cube(V3::new(0, 0, 0), 8);
    let tris = vec![facet((5, 5, 5), (6, 5, 5), (5, 6, 5))];
    let mut inner = empty_branch();
    inner[0] = leaf(true);
    inner[1] = leaf(true);
    inner[2] = leaf(true);
    inner[3] = leaf(true);
    let mut outer = empty_branch();
    outer[7] = branch(inner);
    assert_eq!(divide(cube, &tris, 2), branch(outer));
}

#[test]
fn triangle_on_the_middle_planes_occupies_every_octant() {
    let cube = Cube(V3::new(0, 0, 0), 8);
    let tris = vec![facet((4, 4, 4), (4, 4, 4), (4, 4, 4))];
    let all = [leaf(true), leaf(true), leaf(true), leaf(true), leaf(true), leaf(true), leaf(true), leaf(true)];
    assert_eq!(divide(cube, &tris, 1), branch(all));
}

#[test]
fn tree_is_never_higher_than_the_depth() {
    let cube = Cube(V3::new(0, 0, 0), 64);
    let tris = vec![
        facet((1, 1, 1), (60, 3, 2), (5, 50, 40)),
        facet((63, 63, 63), (40, 63, 63), (63, 40, 63)),
    ];
    for depth in 0..5u32 {
        let t = divide(cube, &tris, depth);
        assert_eq!(height(&t), depth as usize);
    }
    assert_eq!(height(&divide(cube, &vec![], 4)), 0);
}

#[test]
fn occupied_leaves_do_not_get_fewer_for_a_surface_in_the_cube() {
    let cube = Cube(V3::new(0, 0, 0), 64);
    let tris = vec![
        facet((1, 1, 1), (60, 3, 2), (5, 50, 40)),
        facet((63, 63, 63), (40, 63, 63), (63, 40, 63)),
        facet((10, 20, 30), (30, 20, 10), (20, 40, 20)),
    ];
    let mut last = 0;
    for depth in 0..5u32 {
        let n = occupied(&divide(cube, &tris, depth));
        assert!(n >= 1);
        assert!(n >= last);
        last = n;
    }
}

#[test]
fn triangle_that_only_seems_to_touch_is_lost_one_level_down() {
    let cube = Cube(V3::new(0, 0, 0), 20);
    let tris = vec![facet((5, 50, 0), (5, 0, 50), (9, 23, 23))];
    assert_eq!(divide(cube, &tris, 0), Octree::Leaf(true));
    assert_eq!(divide(cube, &tris, 1), branch(empty_branch()));
}

#[test]
fn surface_that_crosses_the_cube_without_a_vertex_in_it_stays_found() {
    let cube = Cube(V3::new(0, 0, 0), 64);
    let tris = vec![facet((-100, -100, 32), (200, -100, 32), (32, 300, 32))];
    let mut last = 0;
    for depth in 0..5u32 {
        let n = occupied(&divide(cube, &tris, depth));
        assert!(n >= 1);
        assert!(n >= last);
        last = n;
    }
    let slanted = vec![facet((-10, 70, 70), (70, -10, 70), (70, 70, -10))];
    for depth in 0..5u32 {
        assert!(occupied(&divide(cube, &slanted, depth)) >= 1);
    }
}

#[test]
fn empty_cell_is_a_leaf_whatever_its_edge() {
    let far = vec![facet((2000, 0, 0), (3000, 0, 0), (2000, 1000, 0))];
    for edge in [1, 3, 7, 1000, 1023] {
        let cube = Cube(V3::new(0, 0, 0), edge);
        for depth in 0..6 {
            assert_eq!(divide(cube, &far, depth), Octree::Leaf(false));
            assert_eq!(divide(cube, &vec![], depth), Octree::Leaf(false));
        }
    }
}
