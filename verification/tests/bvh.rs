use krrust::aabb::Aabb;
use krrust::aabb::Corner;
use krrust::bvh::Bvh;
use krrust::hit::Object;
use krrust::hit::Primitive;

fn prim(id: usize, lo: (i64, i64, i64), hi: (i64, i64, i64)) -> Primitive {
    Primitive { id, bbox: Aabb::new(Corner::new(lo.0, lo.1, lo.2), Corner::new(hi.0, hi.1, hi.2)) }
}

fn leaves(obj: &Object, out: &mut Vec<Primitive>) {
    match obj {
        Object::Primitive(p) => out.push(*p),
        Object::Aabb(_) => {}
        Object::Bvh(node) => {
            leaves(&node.left, out);
            leaves(&node.right, out);
        }
    }
}

fn leaves_of(node: &Bvh) -> Vec<Primitive> {
    let mut out = Vec::new();
    leaves(&node.left, &mut out);
    leaves(&node.right, &mut out);
    out
}

fn depth(obj: &Object) -> usize {
    match obj {
        Object::Bvh(node) => 1 + depth(&node.left).max(depth(&node.right)),
        _ => 0,
    }
}

fn encloses(outer: &Aabb, inner: &Aabb) -> bool {
    outer.min.x <= inner.min.x
        && outer.min.y <= inner.min.y
        && outer.min.z <= inner.min.z
        && inner.max.x <= outer.max.x
        && inner.max.y <= outer.max.y
        && inner.max.z <= outer.max.z
}

// every node carries the union of its children, encloses all surfaces below
// it, and separates its children along some axis
fn check_node(node: &Bvh) {
    let joined = Aabb::surrounding_box(node.left.bounding_box(), node.right.bounding_box());
    assert_eq!(node.bbox, joined);
    for p in leaves_of(node) {
        assert!(encloses(&node.bbox, &p.bbox));
    }
    let mut l = Vec::new();
    let mut r = Vec::new();
    leaves(&node.left, &mut l);
    leaves(&node.right, &mut r);
    let separated = (0..3usize).any(|axis| {
        l.iter().all(|a| r.iter().all(|b| a.bbox.min.key(axis) <= b.bbox.min.key(axis)))
    });
    assert!(separated);
    if let Object::Bvh(child) = &*node.left {
        check_node(child);
    }
    if let Object::Bvh(child) = &*node.right {
        check_node(child);
    }
}

// a fixed scatter of boxes, no two with the same lower corner on any axis
fn scatter(n: usize) -> Vec<Primitive> {
    let mut state: u64 = 0x2545_F491_4F6C_DD1D;
    let mut next = move || {
        state ^= state << 13;
        state ^= state >> 7;
        state ^= state << 17;
        (state % 1000) as i64
    };
    (0..n)
        .map(|id| {
            let i = id as i64;
            let (x, y, z) = (next() * 1000 + i, next() * 1000 + i, next() * 1000 + i);
            let (w, h, d) = (next(), next(), next());
            prim(id, (x - 500_000, y - 500_000, z - 500_000), (x - 500_000 + w, y - 500_000 + h, z - 500_000 + d))
        })
        .collect()
}

fn ids(items: &[Primitive]) -> Vec<usize> {
    let mut v: Vec<usize> = items.iter().map(|p| p.id).collect();
    v.sort();
    v
}

#[test]
fn one_surface_is_both_children() {
    let p = prim(7, (1, 2, 3), (4, 5, 6));
    let mut objects = vec![p];
    let bvh = Bvh::new(&mut objects);
    assert!(matches!(*bvh.left, Object::Primitive(q) if q == p));
    assert!(matches!(*bvh.right, Object::Primitive(q) if q == p));
    assert_eq!(bvh.bbox, p.bbox);
    assert_eq!(bvh.bounding_box(), p.bbox);
    assert_eq!(objects, vec![p]);
}

#[test]
fn two_surfaces_are_ordered_along_the_axis() {
    let a = prim(0, (5, 0, 9), (6, 1, 10));
    let b = prim(1, (2, 3, 9), (3, 4, 10));
    // along x, b comes first
    let bvh = Bvh::build(&mut vec![a, b], 0);
    assert!(matches!(*bvh.left, Object::Primitive(q) if q == b));
    assert!(matches!(*bvh.right, Object::Primitive(q) if q == a));
    // along y, a comes first
    let bvh = Bvh::build(&mut vec![a, b], 1);
    assert!(matches!(*bvh.left, Object::Primitive(q) if q == a));
    assert!(matches!(*bvh.right, Object::Primitive(q) if q == b));
    assert_eq!(bvh.bbox, Aabb::new(Corner::new(2, 0, 9), Corner::new(6, 4, 10)));
}

#[test]
fn of_two_surfaces_that_tie_the_second_goes_left() {
    let a = prim(0, (5, 0, 9), (6, 1, 10));
    let b = prim(1, (2, 3, 9), (3, 4, 10));
    let bvh = Bvh::build(&mut vec![a, b], 2);
    assert!(matches!(*bvh.left, Object::Primitive(q) if q == b));
    assert!(matches!(*bvh.right, Object::Primitive(q) if q == a));
    // an axis beyond the third is the third
    let bvh = Bvh::build(&mut vec![a, b], 17);
    assert!(matches!(*bvh.left, Object::Primitive(q) if q == b));
}

#[test]
fn three_surfaces_are_cut_one_to_two() {
    let a = prim(0, (30, 0, 0), (31, 1, 1));
    let b = prim(1, (10, 0, 0), (11, 1, 1));
    let c = prim(2, (20, 0, 0), (21, 1, 1));
    let bvh = Bvh::build(&mut vec![a, b, c], 0);
    let mut l = Vec::new();
    let mut r = Vec::new();
    leaves(&bvh.left, &mut l);
    leaves(&bvh.right, &mut r);
    // the lowest alone on the left, as both children of its node
    assert_eq!(l, vec![b, b]);
    assert_eq!(ids(&r), vec![0, 2]);
    assert!(matches!(*bvh.left, Object::Bvh(_)));
    assert!(matches!(*bvh.right, Object::Bvh(_)));
    assert_eq!(bvh.bbox, Aabb::new(Corner::new(10, 0, 0), Corner::new(31, 1, 1)));
}

#[test]
fn the_root_separates_surfaces_given_in_descending_order() {
    let mut objects: Vec<Primitive> = (0..11).map(|i| prim(i, (100 - 10 * i as i64, 0, 0), (105 - 10 * i as i64, 1, 1))).collect();
    let bvh = Bvh::build(&mut objects, 0);
    let mut l = Vec::new();
    let mut r = Vec::new();
    leaves(&bvh.left, &mut l);
    leaves(&bvh.right, &mut r);
    // the five lowest on the left, the six highest on the right
    let mut left_ids = ids(&l);
    left_ids.dedup();
    let mut right_ids = ids(&r);
    right_ids.dedup();
    assert_eq!(left_ids, vec![6, 7, 8, 9, 10]);
    assert_eq!(right_ids, vec![0, 1, 2, 3, 4, 5]);
    check_node(&bvh);
}

#[test]
fn surfaces_with_equal_keys_are_cut_in_the_order_given() {
    // all tie along y: the first two stay left, the last three go right
    let mut objects: Vec<Primitive> = (0..5).map(|i| prim(i, (50 - i as i64, 4, i as i64), (60, 5, 9))).collect();
    let bvh = Bvh::build(&mut objects, 1);
    let mut l = Vec::new();
    let mut r = Vec::new();
    leaves(&bvh.left, &mut l);
    leaves(&bvh.right, &mut r);
    let mut left_ids = ids(&l);
    left_ids.dedup();
    let mut right_ids = ids(&r);
    right_ids.dedup();
    assert_eq!(left_ids, vec![0, 1]);
    assert_eq!(right_ids, vec![2, 3, 4]);
}

#[test]
fn the_hierarchy_holds_exactly_the_given_surfaces() {
    for n in 1..40usize {
        let given = scatter(n);
        let mut objects = given.clone();
        let bvh = Bvh::new(&mut objects);
        // the slice still holds the same surfaces
        assert_eq!(ids(&objects), (0..n).collect::<Vec<usize>>());
        for p in &objects {
            assert_eq!(*p, given[p.id]);
        }
        // and so does the tree
        let mut found = ids(&leaves_of(&bvh));
        found.dedup();
        assert_eq!(found, (0..n).collect::<Vec<usize>>());
        for p in leaves_of(&bvh) {
            assert_eq!(p, given[p.id]);
        }
    }
}

#[test]
fn every_node_bounds_and_separates_what_lies_below_it() {
    for n in [1usize, 2, 3, 4, 5, 8, 17, 100, 257] {
        let mut objects = scatter(n);
        let bvh = Bvh::new(&mut objects);
        check_node(&bvh);
    }
}

#[test]
fn the_depth_is_the_logarithm_of_the_number_of_surfaces() {
    let expect = [(1usize, 1usize), (2, 1), (3, 2), (4, 2), (5, 3), (8, 3), (9, 4), (16, 4), (17, 5), (100, 7), (1000, 10)];
    for (n, d) in expect {
        let mut objects = scatter(n);
        let bvh = Bvh::new(&mut objects);
        assert_eq!(depth(&Object::Bvh(bvh)), d);
    }
}

#[test]
fn boxes_compare_by_their_lower_corner() {
    let a = Object::Primitive(prim(0, (1, 5, 3), (9, 9, 9)));
    let b = Object::Aabb(Aabb::new(Corner::new(2, 4, 3), Corner::new(2, 4, 3)));
    assert!(Bvh::box_compare(&a, &b, 0));
    assert!(!Bvh::box_compare(&b, &a, 0));
    assert!(!Bvh::box_compare(&a, &b, 1));
    assert!(Bvh::box_compare(&b, &a, 1));
    assert!(!Bvh::box_compare(&a, &b, 2));
    assert!(!Bvh::box_compare(&b, &a, 2));
    assert!(!Bvh::box_compare(&a, &b, 5));
    assert!(Bvh::box_x_compare(&a, &b));
    assert!(!Bvh::box_y_compare(&a, &b));
    assert!(Bvh::box_y_compare(&b, &a));
    assert!(!Bvh::box_z_compare(&a, &b));
}

#[test]
fn a_subtree_compares_by_the_box_of_its_root() {
    let mut objects = vec![prim(0, (4, 4, 4), (5, 5, 5)), prim(1, (-3, 8, 0), (0, 9, 1))];
    let tree = Object::Bvh(Bvh::new(&mut objects));
    let other = Object::Primitive(prim(2, (-2, 5, 0), (0, 6, 1)));
    assert_eq!(tree.bounding_box(), Aabb::new(Corner::new(-3, 4, 0), Corner::new(5, 9, 5)));
    assert!(Bvh::box_x_compare(&tree, &other));
    assert!(Bvh::box_y_compare(&tree, &other));
    assert!(!Bvh::box_z_compare(&tree, &other));
}
