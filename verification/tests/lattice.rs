use octree_art::geometry::{Cube, Tri, V3};
use octree_art::lattice::{emit_aabb, emit_struts, gen_printable, gen_printable_aux, rotate, Config};
use octree_art::octree::{Octants, Octree};

fn p(x: i64, y: i64, z: i64) -> V3 {
    V3::new(x, y, z)
}

fn t(a: V3, b: V3, c: V3) -> Tri {
    Tri { a, b, c }
}

fn leaf(fill: bool) -> Octree<bool> {
    Octree::Leaf(fill)
}

fn branch(c: [Octree<bool>; 8]) -> Octree<bool> {
    let [c0, c1, c2, c3, c4, c5, c6, c7] = c;
    Octree::Br(Box::new(Octants { c0, c1, c2, c3, c4, c5, c6, c7 }))
}

fn empty_leaves() -> [Octree<bool>; 8] {
    [leaf(false), leaf(false), leaf(false), leaf(false), leaf(false), leaf(false), leaf(false), leaf(false)]
}

fn small() -> Config {
    Config { edge: 80, radius_num: 1, radius_den: 4, thick_num: 3, thick_den: 2, max_width: 25 }
}

fn normal(f: &Tri) -> (i64, i64, i64) {
    let u = (f.b.x - f.a.x, f.b.y - f.a.y, f.b.z - f.a.z);
    let v = (f.c.x - f.a.x, f.c.y - f.a.y, f.c.z - f.a.z);
    (u.1 * v.2 - u.2 * v.1, u.2 * v.0 - u.0 * v.2, u.0 * v.1 - u.1 * v.0)
}

fn corners(tris: &[Tri]) -> (V3, V3) {
    let mut lo = tris[0].a;
    let mut hi = tris[0].a;
    for f in tris {
        for v in [f.a, f.b, f.c] {
            lo = p(lo.x.min(v.x), lo.y.min(v.y), lo.z.min(v.z));
            hi = p(hi.x.max(v.x), hi.y.max(v.y), hi.z.max(v.z));
        }
    }
    (lo, hi)
}

#[test]
fn standard_parameters_are_those_of_the_printer() {
    let c = Config::standard();
    assert_eq!(c.edge, 50_000_000);
    assert_eq!((c.radius_num, c.radius_den), (1, 5));
    assert_eq!((c.thick_num, c.thick_den), (3, 2));
    assert_eq!(c.max_width, 5_000_000);
}

#[test]
fn column_width_is_the_fraction_of_the_edge_up_to_the_cap() {
    let c = Config::standard();
    assert_eq!(c.column_width(50_000_000, false), 5_000_000);
    assert_eq!(c.column_width(50_000_000, true), 5_000_000);
    assert_eq!(c.column_width(25_000_000, false), 5_000_000);
    assert_eq!(c.column_width(12_500_000, false), 2_500_000);
    assert_eq!(c.column_width(12_500_000, true), 3_750_000);
    assert_eq!(c.column_width(1_562_500, false), 312_500);
    assert_eq!(c.column_width(1_562_500, true), 468_750);
    assert_eq!(c.column_width(16_666_667, true), 5_000_000);
    assert_eq!(c.column_width(16_666_666, true), 4_999_999);
}

#[test]
fn column_width_is_rounded_down() {
    let c = small();
    assert_eq!(c.column_width(7, false), 1);
    assert_eq!(c.column_width(7, true), 2);
    assert_eq!(c.column_width(3, false), 0);
    assert_eq!(c.column_width(0, true), 0);
}

#[test]
fn column_width_never_exceeds_the_cap() {
    let configs = [Config::standard(), small()];
    for c in configs.iter() {
        let mut edge: i64 = 1;
        while edge <= 1 << 40 {
            assert!(c.column_width(edge, false) <= c.max_width);
            assert!(c.column_width(edge, true) <= c.max_width);
            assert!(c.column_width(edge, false) <= c.column_width(edge, true));
            edge *= 2;
        }
    }
}

#[test]
fn thirds_of_a_turn_cycle_the_axes() {
    let v = p(1, 2, 3);
    assert_eq!(rotate(0, v), p(1, 2, 3));
    assert_eq!(rotate(1, v), p(3, 1, 2));
    assert_eq!(rotate(2, v), p(2, 3, 1));
    assert_eq!(rotate(1, rotate(1, v)), rotate(2, v));
    assert_eq!(rotate(1, rotate(2, v)), v);
    assert_eq!(rotate(1, p(5, 0, 0)), p(0, 5, 0));
    assert_eq!(rotate(1, p(0, 5, 0)), p(0, 0, 5));
    assert_eq!(rotate(1, p(0, 0, 5)), p(5, 0, 0));
    assert_eq!(rotate(1, p(7, 7, 7)), p(7, 7, 7));
}

#[test]
fn box_is_twelve_triangles_face_by_face() {
    let mut out = vec![t(p(9, 9, 9), p(9, 9, 9), p(9, 9, 9))];
    emit_aabb(p(10, 20, 30), p(1, 2, 3), &mut out);
    let expected = vec![
        t(p(9, 9, 9), p(9, 9, 9), p(9, 9, 9)),
        t(p(10, 20, 30), p(10, 22, 30), p(11, 20, 30)),
        t(p(11, 22, 30), p(11, 20, 30), p(10, 22, 30)),
        t(p(10, 20, 33), p(11, 20, 33), p(10, 22, 33)),
        t(p(11, 22, 33), p(10, 22, 33), p(11, 20, 33)),
        t(p(10, 20, 30), p(10, 20, 33), p(10, 22, 30)),
        t(p(10, 22, 33), p(10, 22, 30), p(10, 20, 33)),
        t(p(11, 20, 30), p(11, 22, 30), p(11, 20, 33)),
        t(p(11, 22, 33), p(11, 20, 33), p(11, 22, 30)),
        t(p(10, 20, 30), p(11, 20, 30), p(10, 20, 33)),
        t(p(11, 20, 33), p(10, 20, 33), p(11, 20, 30)),
        t(p(10, 22, 30), p(10, 22, 33), p(11, 22, 30)),
        t(p(11, 22, 33), p(11, 22, 30), p(10, 22, 33)),
    ];
    assert_eq!(out, expected);
}

#[test]
fn box_is_wound_outward() {
    let mut out = Vec::new();
    emit_aabb(p(-4, 6, 1), p(3, 5, 7), &mut out);
    assert_eq!(out.len(), 12);
    let centre2 = (2 * -4 + 3, 2 * 6 + 5, 2 * 1 + 7);
    for f in out.iter() {
        let n = normal(f);
        assert_ne!(n, (0, 0, 0));
        let d = (centre2.0 - 2 * f.a.x, centre2.1 - 2 * f.a.y, centre2.2 - 2 * f.a.z);
        assert!(n.0 * d.0 + n.1 * d.1 + n.2 * d.2 < 0);
    }
}

#[test]
fn node_has_three_sets_of_four_columns() {
    let mut out = Vec::new();
    emit_struts(Cube(p(100, 200, 300), 40), 5, &mut out);
    assert_eq!(out.len(), 144);
    let boxes: Vec<(V3, V3)> = out.chunks(12).map(|b| corners(b)).collect();
    let expected = vec![
        (p(100, 200, 300), p(105, 205, 340)),
        (p(140, 200, 300), p(145, 205, 340)),
        (p(100, 240, 300), p(105, 245, 340)),
        (p(140, 240, 300), p(145, 245, 340)),
        (p(100, 200, 300), p(140, 205, 305)),
        (p(100, 240, 300), p(140, 245, 305)),
        (p(100, 200, 340), p(140, 205, 345)),
        (p(100, 240, 340), p(140, 245, 345)),
        (p(100, 200, 300), p(105, 240, 305)),
        (p(100, 200, 340), p(105, 240, 345)),
        (p(140, 200, 300), p(145, 240, 305)),
        (p(140, 200, 340), p(145, 240, 345)),
    ];
    assert_eq!(boxes, expected);
}

#[test]
fn occupied_leaf_has_the_wider_columns() {
    let cfg = small();
    let thin = gen_printable(&leaf(false), &cfg);
    let thick = gen_printable(&leaf(true), &cfg);
    assert_eq!(thin.len(), 144);
    assert_eq!(thick.len(), 144);
    assert_eq!(corners(&thin[0..12]), (p(0, 0, 0), p(20, 20, 80)));
    assert_eq!(corners(&thick[0..12]), (p(0, 0, 0), p(25, 25, 80)));
    let mut by_hand = Vec::new();
    emit_struts(Cube(p(0, 0, 0), 80), 20, &mut by_hand);
    assert_eq!(thin, by_hand);
}

#[test]
fn single_occupied_leaf_in_the_standard_cube_gives_144_triangles() {
    let cfg = Config::standard();
    let out = gen_printable(&leaf(true), &cfg);
    assert_eq!(out.len(), 144);
    for (i, b) in out.chunks(12).enumerate() {
        let (lo, hi) = corners(b);
        let size = [hi.x - lo.x, hi.y - lo.y, hi.z - lo.z];
        let long = [2, 0, 1][i / 4];
        for axis in 0..3 {
            if axis == long {
                assert_eq!(size[axis], 50_000_000);
            } else {
                assert_eq!(size[axis], 5_000_000);
            }
        }
    }
    let w = cfg.column_width(50_000_000, true);
    assert_eq!(w, std::cmp::min(50_000_000 * 3 / 10, cfg.max_width));
    assert_eq!(out[0], t(p(0, 0, 0), p(0, w, 0), p(w, 0, 0)));
}

#[test]
fn branch_emits_its_children_first_and_then_its_own_columns() {
    let cfg = small();
    let mut children = empty_leaves();
    children[3] = leaf(true);
    let tree = branch(children);
    let out = gen_printable(&tree, &cfg);
    assert_eq!(out.len(), 144 * 9);
    let mut by_hand = Vec::new();
    for i in 0..8i64 {
        let org = p(40 * (i & 1), 40 * ((i >> 1) & 1), 40 * ((i >> 2) & 1));
        let w = if i == 3 { 15 } else { 10 };
        emit_struts(Cube(org, 40), w, &mut by_hand);
    }
    emit_struts(Cube(p(0, 0, 0), 80), 20, &mut by_hand);
    assert_eq!(out, by_hand);
}

#[test]
fn lattice_is_appended_to_what_is_there() {
    let cfg = small();
    let mark = t(p(1, 2, 3), p(4, 5, 6), p(7, 8, 9));
    let mut out = vec![mark];
    gen_printable_aux(Cube(p(8, 8, 8), 16), &leaf(false), &cfg, &mut out);
    assert_eq!(out.len(), 145);
    assert_eq!(out[0], mark);
    assert_eq!(corners(&out[1..13]), (p(8, 8, 8), p(12, 12, 24)));
}

#[test]
fn every_node_of_a_deeper_tree_gets_its_columns() {
    let cfg = small();
    let mut inner = empty_leaves();
    inner[0] = branch(empty_leaves());
    inner[5] = leaf(true);
    let mut outer = empty_leaves();
    outer[6] = branch(inner);
    let out = gen_printable(&branch(outer), &cfg);
    assert_eq!(out.len(), 144 * 25);
    let (lo, hi) = corners(&out);
    assert_eq!(lo, p(0, 0, 0));
    assert_eq!(hi, p(100, 100, 100));
}

#[test]
fn every_column_is_as_long_as_its_cell_and_no_wider_than_the_cap() {
    let cfg = small();
    let mut inner = empty_leaves();
    inner[0] = branch(empty_leaves());
    inner[5] = leaf(true);
    let mut outer = empty_leaves();
    outer[6] = branch(inner);
    outer[1] = leaf(true);
    let out = gen_printable(&branch(outer), &cfg);
    assert_eq!(out.len() % 12, 0);
    for b in out.chunks(12) {
        let (lo, hi) = corners(b);
        let mut size = [hi.x - lo.x, hi.y - lo.y, hi.z - lo.z];
        size.sort();
        let (w, s) = (size[0], size[2]);
        assert_eq!(size[1], w);
        assert!(s == 80 || s == 40 || s == 20 || s == 10);
        assert!(w == cfg.column_width(s, false) || w == cfg.column_width(s, true));
        assert!(w <= cfg.max_width);
        let mut by_hand = Vec::new();
        emit_aabb(lo, p(hi.x - lo.x, hi.y - lo.y, hi.z - lo.z), &mut by_hand);
        assert_eq!(b, &by_hand[..]);
    }
}
