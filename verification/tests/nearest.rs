use krrust::aabb::Aabb;
use krrust::aabb::Corner;
use krrust::bvh::Bvh;
use krrust::hit::hit_world;
use krrust::hit::HittableList;
use krrust::hit::Object;
use krrust::hit::Primitive;
use std::cell::Cell;

// Surfaces are slabs across the x axis; a ray runs along x from `from` on and
// crosses a slab where the slab begins.
fn slab(id: usize, begin: i64, width: i64, y: i64, z: i64) -> Primitive {
    Primitive { id, bbox: Aabb::new(Corner::new(begin, y, z), Corner::new(begin + width, y + 1, z + 1)) }
}

fn scene(n: usize) -> Vec<Primitive> {
    let mut state: u64 = 0x9E37_79B9_7F4A_7C15;
    let mut next = move || {
        state ^= state << 13;
        state ^= state >> 7;
        state ^= state << 17;
        (state % 100_000) as i64
    };
    (0..n).map(|id| slab(id, next() * 1024 + id as i64, next() % 5000, next(), next())).collect()
}

fn cross(scene: &[Primitive], from: i64, id: usize, t_max: i64) -> Option<(i64, usize)> {
    let t = scene[id].bbox.min.x;
    if from < t && t < t_max {
        Some((t, id))
    } else {
        None
    }
}

fn enter(from: i64, b: Aabb, t_max: i64) -> bool {
    from < b.max.x && b.min.x < t_max
}

fn brute_force(scene: &[Primitive], from: i64, t_max: i64) -> Option<(i64, usize)> {
    scene.iter().filter(|p| from < p.bbox.min.x && p.bbox.min.x < t_max).map(|p| (p.bbox.min.x, p.id)).min()
}

fn as_list(scene: &[Primitive]) -> HittableList {
    HittableList::new_from_vec(scene.iter().map(|p| Object::Primitive(*p)).collect())
}

#[test]
fn a_surface_answers_through_its_test() {
    let s = scene(3);
    let obj = Object::Primitive(s[1]);
    let t = s[1].bbox.min.x;
    let hit = obj.hit(i64::MAX, &|b: Aabb, t: i64| enter(0, b, t), &|id: usize, t: i64| cross(&s, 0, id, t));
    assert_eq!(hit, Some((t, 1)));
    let miss = obj.hit(t, &|b: Aabb, t: i64| enter(0, b, t), &|id: usize, t: i64| cross(&s, 0, id, t));
    assert_eq!(miss, None);
}

#[test]
fn a_bare_box_gives_no_hit() {
    let obj = Object::Aabb(Aabb::new(Corner::new(0, 0, 0), Corner::new(9, 9, 9)));
    let hit: Option<(i64, usize)> = obj.hit(i64::MAX, &|_b: Aabb, _t: i64| true, &|id: usize, t: i64| Some((t - 1, id)));
    assert_eq!(hit, None);
}

#[test]
fn an_empty_list_gives_no_hit() {
    let list = HittableList::new();
    assert!(list.objects.is_empty());
    let hit: Option<(i64, usize)> = list.hit(i64::MAX, &|_b: Aabb, _t: i64| true, &|id: usize, t: i64| Some((t - 1, id)));
    assert_eq!(hit, None);
}

#[test]
fn the_list_returns_the_nearest_crossing() {
    let s = vec![slab(0, 50, 5, 0, 0), slab(1, 20, 5, 0, 0), slab(2, 80, 5, 0, 0), slab(3, 30, 5, 0, 0)];
    let list = as_list(&s);
    let hit = list.hit(i64::MAX, &|b: Aabb, t: i64| enter(0, b, t), &|id: usize, t: i64| cross(&s, 0, id, t));
    assert_eq!(hit, Some((20, 1)));
    let hit = list.hit(i64::MAX, &|b: Aabb, t: i64| enter(25, b, t), &|id: usize, t: i64| cross(&s, 25, id, t));
    assert_eq!(hit, Some((30, 3)));
    let hit = list.hit(50, &|b: Aabb, t: i64| enter(30, b, t), &|id: usize, t: i64| cross(&s, 30, id, t));
    assert_eq!(hit, None);
    let hit = hit_world(&list.objects, 81, &|b: Aabb, t: i64| enter(50, b, t), &|id: usize, t: i64| cross(&s, 50, id, t));
    assert_eq!(hit, Some((80, 2)));
}

#[test]
fn each_object_is_tested_under_the_bound_the_hits_before_it_left() {
    let s = vec![slab(0, 50, 5, 0, 0), slab(1, 60, 5, 0, 0), slab(2, 40, 5, 0, 0), slab(3, 45, 5, 0, 0)];
    let list = as_list(&s);
    let bounds: Cell<Vec<(usize, i64)>> = Cell::new(Vec::new());
    let hit = list.hit(1000, &|b: Aabb, t: i64| enter(0, b, t), &|id: usize, t: i64| {
        let mut seen = bounds.take();
        seen.push((id, t));
        bounds.set(seen);
        cross(&s, 0, id, t)
    });
    assert_eq!(hit, Some((40, 2)));
    assert_eq!(bounds.take(), vec![(0, 1000), (1, 50), (2, 50), (3, 40)]);
}

#[test]
fn a_rejected_box_shields_what_lies_below_it() {
    let mut s = vec![slab(0, 10, 5, 0, 0), slab(1, 20, 5, 0, 0), slab(2, 30, 5, 0, 0)];
    let bvh = Bvh::build(&mut s, 0);
    let tested = Cell::new(0usize);
    let hit: Option<(i64, usize)> = bvh.hit(i64::MAX, &|_b: Aabb, _t: i64| false, &|id: usize, t: i64| {
        tested.set(tested.get() + 1);
        Some((t - 1, id))
    });
    assert_eq!(hit, None);
    assert_eq!(tested.get(), 0);
}

#[test]
fn the_right_child_is_walked_under_the_bound_of_the_left_hit() {
    let given = vec![slab(0, 10, 5, 0, 0), slab(1, 20, 5, 0, 0)];
    let bvh = Bvh::build(&mut given.clone(), 0);
    let bounds: Cell<Vec<(usize, i64)>> = Cell::new(Vec::new());
    let hit = bvh.hit(1000, &|_b: Aabb, _t: i64| true, &|id: usize, t: i64| {
        let mut seen = bounds.take();
        seen.push((id, t));
        bounds.set(seen);
        cross(&given, 0, id, t)
    });
    assert_eq!(hit, Some((10, 0)));
    assert_eq!(bounds.take(), vec![(0, 1000), (1, 10)]);
}

#[test]
fn a_later_hit_replaces_the_earlier_one() {
    // the tests need not be geometry: here every surface reports a hit just
    // below the bound, so the last surface walked wins
    let given = vec![slab(0, 10, 5, 0, 0), slab(1, 20, 5, 0, 0)];
    let bvh = Bvh::build(&mut given.clone(), 0);
    let hit = bvh.hit(1000, &|_b: Aabb, _t: i64| true, &|id: usize, t: i64| Some((t - 1, id)));
    assert_eq!(hit, Some((998, 1)));
}

#[test]
fn the_hierarchy_finds_what_the_list_finds() {
    let given = scene(1000);
    let mut objects = given.clone();
    let bvh = Bvh::new(&mut objects);
    let list = as_list(&given);
    let far = 100_000 * 1024 + 2000;
    let mut rays = 0;
    for step in 0..32i64 {
        for bound in 0..32i64 {
            let from = step * (far / 32) - 7;
            let t_max = if bound == 31 { i64::MAX } else { from + (bound * bound) * 40_000 };
            let via_tree = bvh.hit(t_max, &|b: Aabb, t: i64| enter(from, b, t), &|id: usize, t: i64| cross(&given, from, id, t));
            let via_list = list.hit(t_max, &|b: Aabb, t: i64| enter(from, b, t), &|id: usize, t: i64| cross(&given, from, id, t));
            assert_eq!(via_tree, via_list);
            assert_eq!(via_tree, brute_force(&given, from, t_max));
            rays += 1;
        }
    }
    assert_eq!(rays, 1024);
}

#[test]
fn the_hierarchy_tests_fewer_surfaces_than_the_list() {
    let given = scene(1000);
    let mut objects = given.clone();
    let bvh = Bvh::new(&mut objects);
    let tested = Cell::new(0usize);
    let from = 50_000 * 1024;
    let hit = bvh.hit(i64::MAX, &|b: Aabb, t: i64| enter(from, b, t), &|id: usize, t: i64| {
        tested.set(tested.get() + 1);
        cross(&given, from, id, t)
    });
    assert_eq!(hit, brute_force(&given, from, i64::MAX));
    assert!(tested.get() <= 2 * 1000);
}

#[test]
fn bounds_may_be_doubles() {
    let given = vec![slab(0, 10, 5, 0, 0), slab(1, 20, 5, 0, 0), slab(2, 30, 5, 0, 0)];
    let bvh = Bvh::build(&mut given.clone(), 0);
    let from = 12.5f64;
    let hit = bvh.hit(
        f64::INFINITY,
        &|b: Aabb, t: f64| from < b.max.x as f64 && (b.min.x as f64) < t,
        &|id: usize, t: f64| {
            let at = given[id].bbox.min.x as f64;
            if from < at && at < t {
                Some((at, id))
            } else {
                None
            }
        },
    );
    assert_eq!(hit, Some((20.0, 1)));
}

#[test]
fn the_box_of_a_list_holds_its_objects_and_the_origin() {
    let list = HittableList::new();
    assert_eq!(list.bounding_box(), Aabb::new(Corner::new(0, 0, 0), Corner::new(0, 0, 0)));
    let s = vec![slab(0, 10, 5, 3, 4), slab(1, -20, 5, 7, 2)];
    let list = as_list(&s);
    assert_eq!(list.bounding_box(), Aabb::new(Corner::new(-20, 0, 0), Corner::new(15, 8, 5)));
    let far = as_list(&[slab(0, 10, 5, 3, 4)]);
    assert_eq!(far.bounding_box(), Aabb::new(Corner::new(0, 0, 0), Corner::new(15, 4, 5)));
}

#[test]
fn a_list_of_subtrees_is_walked_subtree_by_subtree() {
    let given = scene(50);
    let mut first = given[..20].to_vec();
    let mut second = given[20..].to_vec();
    let list = HittableList::new_from_vec(vec![
        Object::Bvh(Bvh::new(&mut first)),
        Object::Bvh(Bvh::new(&mut second)),
    ]);
    assert_eq!(list.objects.len(), 2);
    for from in [0i64, 1_000_000, 30_000_000, 90_000_000] {
        let hit = list.hit(i64::MAX, &|b: Aabb, t: i64| enter(from, b, t), &|id: usize, t: i64| cross(&given, from, id, t));
        assert_eq!(hit, brute_force(&given, from, i64::MAX));
    }
}
