//! What a walk finds: the nearest crossing, for the hierarchy as for the list.
//!
//! The walks take their intersection tests from the caller. The laws here say
//! what the walks return once those tests behave like a ray against fixed
//! surfaces: every surface is crossed at one parameter or not at all, and a
//! box is never rejected while a surface inside it is crossed below the bound.

use vstd::prelude::*;
use crate::aabb::Aabb;
use crate::bvh::Bvh;
use crate::bvh::lemma_built;
use crate::hit::Object;
use crate::hit::Primitive;
use crate::hit::bound_after;
use crate::hit::in_turn;
use crate::hit::later_of;
use crate::hit::lemma_bounds_enclose_leaves;
use crate::hit::scans;

verus! {

/// The crossing `c`, if it lies strictly below the bound `t`.
pub open spec fn below<H>(c: Option<(i64, H)>, t: i64) -> Option<(i64, H)> {
    match c {
        Some((tc, _)) => if tc < t {
            c
        } else {
            None
        },
        None => None,
    }
}

/// The surface test answers from `crossing`: the surface `id` is hit under a
/// bound exactly when its crossing lies below the bound, and the hit is that
/// crossing.
pub open spec fn surfaces_cross_at<H, FP>(hit_primitive: FP, crossing: spec_fn(usize) -> Option<(i64, H)>) -> bool
    where FP: Fn(usize, i64) -> Option<(i64, H)>
{
    forall|id: usize, t: i64, r: Option<(i64, H)>| #[trigger]
        call_ensures(hit_primitive, (id, t), r) ==> r == below(crossing(id), t)
}

/// The box test never rejects a box that encloses the box of a surface of
/// `scene` which is crossed below the bound.
pub open spec fn boxes_admit<H, FB>(
    hit_box: FB,
    crossing: spec_fn(usize) -> Option<(i64, H)>,
    scene: Set<Primitive>,
) -> bool where FB: Fn(Aabb, i64) -> bool {
    forall|b: Aabb, t: i64, p: Primitive|
        #[trigger] call_ensures(hit_box, (b, t), false) && #[trigger] scene.contains(p) && b.encloses(p.bbox)
            ==> below(crossing(p.id), t) is None
}

/// `found` is the nearest crossing below `t_max` among the surfaces `among`:
/// nothing, where none of them is crossed below `t_max`; else the crossing of
/// one of them, with no other surface crossed before it.
pub open spec fn is_nearest<H>(
    found: Option<(i64, H)>,
    among: Set<Primitive>,
    t_max: i64,
    crossing: spec_fn(usize) -> Option<(i64, H)>,
) -> bool {
    match found {
        None => forall|p: Primitive| #[trigger] among.contains(p) ==> below(crossing(p.id), t_max) is None,
        Some((t, _)) => {
            &&& t < t_max
            &&& exists|p: Primitive| #[trigger] among.contains(p) && crossing(p.id) == found
            &&& forall|q: Primitive| #[trigger] among.contains(q) ==> below(crossing(q.id), t) is None
        },
    }
}

/// The surfaces under the first `n` of `objects`.
pub open spec fn surfaces_of(objects: Seq<Object>, n: int) -> Set<Primitive>
    decreases n,
{
    if n <= 0 {
        Set::empty()
    } else {
        surfaces_of(objects, n - 1).union(objects[n - 1].leaves().to_set())
    }
}

/// Two walks in a row, the second under the bound the first left, find the
/// nearest crossing among the surfaces of both.
proof fn lemma_nearest_in_turn<H>(
    first: Option<(i64, H)>,
    second: Option<(i64, H)>,
    left: Set<Primitive>,
    right: Set<Primitive>,
    t_max: i64,
    crossing: spec_fn(usize) -> Option<(i64, H)>,
)
    requires
        is_nearest(first, left, t_max, crossing),
        is_nearest(second, right, bound_after(t_max, first), crossing),
    ensures
        is_nearest(later_of(first, second), left.union(right), t_max, crossing),
{
    let both = left.union(right);
    let found = later_of(first, second);
    match found {
        None => {
            assert forall|p: Primitive| #[trigger] both.contains(p) implies below(crossing(p.id), t_max) is None by {
                if left.contains(p) {
                } else {
                    assert(right.contains(p));
                }
            }
        },
        Some((t, _)) => {
            if second is Some {
                let p = choose|p: Primitive| #[trigger] right.contains(p) && crossing(p.id) == second;
                assert(both.contains(p));
            } else {
                let p = choose|p: Primitive| #[trigger] left.contains(p) && crossing(p.id) == first;
                assert(both.contains(p));
            }
            assert forall|q: Primitive| #[trigger] both.contains(q) implies below(crossing(q.id), t) is None by {
                if left.contains(q) {
                } else {
                    assert(right.contains(q));
                }
            }
        },
    }
}

/// A walk over a well-formed object finds the nearest crossing among the
/// surfaces under it.
pub proof fn lemma_walk_finds_nearest<H, FB, FP>(
    obj: Object,
    t_max: i64,
    hit_box: FB,
    hit_primitive: FP,
    crossing: spec_fn(usize) -> Option<(i64, H)>,
    scene: Set<Primitive>,
    found: Option<(i64, H)>,
) where FB: Fn(Aabb, i64) -> bool, FP: Fn(usize, i64) -> Option<(i64, H)>
    requires
        obj.wf(),
        obj.leaves().to_set().subset_of(scene),
        surfaces_cross_at(hit_primitive, crossing),
        boxes_admit(hit_box, crossing, scene),
        obj.visits(t_max, hit_box, hit_primitive, found),
    ensures
        is_nearest(found, obj.leaves().to_set(), t_max, crossing),
    decreases obj,
{
    let among = obj.leaves().to_set();
    match obj {
        Object::Primitive(p) => {
            assert(obj.leaves()[0] == p);
            assert(among.contains(p));
            assert(found == below(crossing(p.id), t_max));
            assert forall|q: Primitive| #[trigger] among.contains(q) implies q == p by {
                let i = choose|i: int| 0 <= i < obj.leaves().len() && obj.leaves()[i] == q;
            }
        },
        Object::Aabb(_) => {},
        Object::Bvh(node) => {
            let l = node.left.leaves();
            let r = node.right.leaves();
            vstd::seq_lib::seq_to_set_distributes_over_add(l, r);
            assert(among == l.to_set().union(r.to_set()));
            if call_ensures(hit_box, (node.bbox, t_max), false) && found is None {
                assert forall|p: Primitive| #[trigger] among.contains(p) implies below(
                    crossing(p.id),
                    t_max,
                ) is None by {
                    lemma_bounds_enclose_leaves(obj, p);
                    assert(scene.contains(p));
                }
            } else {
                let (first, second) = choose|first: Option<(i64, H)>, second: Option<(i64, H)>|
                    {
                        &&& #[trigger] in_turn(first, second)
                        &&& node.left.visits(t_max, hit_box, hit_primitive, first)
                        &&& node.right.visits(bound_after(t_max, first), hit_box, hit_primitive, second)
                        &&& found == later_of(first, second)
                    };
                lemma_walk_finds_nearest(*node.left, t_max, hit_box, hit_primitive, crossing, scene, first);
                lemma_walk_finds_nearest(
                    *node.right,
                    bound_after(t_max, first),
                    hit_box,
                    hit_primitive,
                    crossing,
                    scene,
                    second,
                );
                lemma_nearest_in_turn(first, second, l.to_set(), r.to_set(), t_max, crossing);
            }
        },
    }
}

/// Testing well-formed objects one after the other finds the nearest crossing
/// among the surfaces under them.
pub proof fn lemma_scan_finds_nearest<H, FB, FP>(
    objects: Seq<Object>,
    n: int,
    t_max: i64,
    hit_box: FB,
    hit_primitive: FP,
    crossing: spec_fn(usize) -> Option<(i64, H)>,
    scene: Set<Primitive>,
    found: Option<(i64, H)>,
) where FB: Fn(Aabb, i64) -> bool, FP: Fn(usize, i64) -> Option<(i64, H)>
    requires
        0 <= n <= objects.len(),
        forall|i: int| 0 <= i < n ==> (#[trigger] objects[i]).wf(),
        surfaces_of(objects, n).subset_of(scene),
        surfaces_cross_at(hit_primitive, crossing),
        boxes_admit(hit_box, crossing, scene),
        scans(objects, n, t_max, hit_box, hit_primitive, found),
    ensures
        is_nearest(found, surfaces_of(objects, n), t_max, crossing),
    decreases n,
{
    if n > 0 {
        let (first, second) = choose|first: Option<(i64, H)>, second: Option<(i64, H)>|
            {
                &&& #[trigger] in_turn(first, second)
                &&& scans(objects, n - 1, t_max, hit_box, hit_primitive, first)
                &&& objects[n - 1].visits(bound_after(t_max, first), hit_box, hit_primitive, second)
                &&& found == later_of(first, second)
            };
        lemma_scan_finds_nearest(objects, n - 1, t_max, hit_box, hit_primitive, crossing, scene, first);
        lemma_walk_finds_nearest(
            objects[n - 1],
            bound_after(t_max, first),
            hit_box,
            hit_primitive,
            crossing,
            scene,
            second,
        );
        lemma_nearest_in_turn(
            first,
            second,
            surfaces_of(objects, n - 1),
            objects[n - 1].leaves().to_set(),
            t_max,
            crossing,
        );
    }
}

/// The nearest crossing is found at one parameter only, and it is one
/// crossing only where no two surfaces are crossed at the same parameter.
pub proof fn lemma_nearest_is_unique<H>(
    a: Option<(i64, H)>,
    b: Option<(i64, H)>,
    among: Set<Primitive>,
    t_max: i64,
    crossing: spec_fn(usize) -> Option<(i64, H)>,
)
    requires
        is_nearest(a, among, t_max, crossing),
        is_nearest(b, among, t_max, crossing),
    ensures
        a is Some <==> b is Some,
        bound_after(t_max, a) == bound_after(t_max, b),
        crossings_differ(among, crossing) ==> a == b,
{
    if a is Some {
        let p = choose|p: Primitive| #[trigger] among.contains(p) && crossing(p.id) == a;
        if b is Some {
            let q = choose|q: Primitive| #[trigger] among.contains(q) && crossing(q.id) == b;
            assert(among.contains(p) && among.contains(q));
        } else {
            assert(among.contains(p));
        }
    } else if b is Some {
        let q = choose|q: Primitive| #[trigger] among.contains(q) && crossing(q.id) == b;
        assert(among.contains(q));
    }
}

/// No two surfaces of `among` with different handles are crossed at the same
/// parameter.
pub open spec fn crossings_differ<H>(among: Set<Primitive>, crossing: spec_fn(usize) -> Option<(i64, H)>) -> bool {
    forall|p: Primitive, q: Primitive|
        #[trigger] among.contains(p) && #[trigger] among.contains(q) && p.id != q.id ==> match (
            crossing(p.id),
            crossing(q.id),
        ) {
            (Some((tp, _)), Some((tq, _))) => tp != tq,
            _ => true,
        }
}

/// A walk over a well-formed hierarchy and a test of the flat list of the
/// same surfaces agree: both hit or both miss, and a hit has the same
/// parameter. Where no two surfaces are crossed at the same parameter, they
/// return the same hit.
pub proof fn lemma_hierarchy_agrees_with_list<H, FB, FP>(
    tree: Object,
    list: Seq<Object>,
    t_max: i64,
    hit_box: FB,
    hit_primitive: FP,
    crossing: spec_fn(usize) -> Option<(i64, H)>,
    via_tree: Option<(i64, H)>,
    via_list: Option<(i64, H)>,
) where FB: Fn(Aabb, i64) -> bool, FP: Fn(usize, i64) -> Option<(i64, H)>
    requires
        tree.wf(),
        forall|i: int| 0 <= i < list.len() ==> (#[trigger] list[i]).wf(),
        tree.leaves().to_set() == surfaces_of(list, list.len() as int),
        surfaces_cross_at(hit_primitive, crossing),
        boxes_admit(hit_box, crossing, tree.leaves().to_set()),
        tree.visits(t_max, hit_box, hit_primitive, via_tree),
        scans(list, list.len() as int, t_max, hit_box, hit_primitive, via_list),
    ensures
        via_tree is Some <==> via_list is Some,
        bound_after(t_max, via_tree) == bound_after(t_max, via_list),
        crossings_differ(tree.leaves().to_set(), crossing) ==> via_tree == via_list,
{
    let scene = tree.leaves().to_set();
    lemma_walk_finds_nearest(tree, t_max, hit_box, hit_primitive, crossing, scene, via_tree);
    lemma_scan_finds_nearest(list, list.len() as int, t_max, hit_box, hit_primitive, crossing, scene, via_list);
    lemma_nearest_is_unique(via_tree, via_list, scene, t_max, crossing);
}

/// The flat list of the surfaces `objects`, each as an object of its own.
pub open spec fn listed(objects: Seq<Primitive>) -> Seq<Object> {
    Seq::new(objects.len(), |i: int| Object::Primitive(objects[i]))
}

/// The surfaces under the first `n` objects of the flat list of `objects` are
/// the first `n` of `objects`.
proof fn lemma_surfaces_of_listed(objects: Seq<Primitive>, n: int)
    requires
        0 <= n <= objects.len(),
    ensures
        surfaces_of(listed(objects), n) == objects.subrange(0, n).to_set(),
    decreases n,
{
    let list = listed(objects);
    if n > 0 {
        lemma_surfaces_of_listed(objects, n - 1);
        let before = objects.subrange(0, n - 1);
        let upto = objects.subrange(0, n);
        let last = list[n - 1].leaves();
        assert(last =~= seq![objects[n - 1]]);
        assert(upto =~= before + last);
        vstd::seq_lib::seq_to_set_distributes_over_add(before, last);
    } else {
        assert(objects.subrange(0, 0).to_set() =~= Set::<Primitive>::empty());
    }
}

/// The hierarchy built over a scene and the flat list of the scene agree on
/// every ray: both hit or both miss, and a hit has the same parameter. Where
/// no two surfaces are crossed at the same parameter, they return the same
/// hit.
pub proof fn lemma_built_hierarchy_agrees_with_list<H, FB, FP>(
    bvh: Bvh,
    objects: Seq<Primitive>,
    t_max: i64,
    hit_box: FB,
    hit_primitive: FP,
    crossing: spec_fn(usize) -> Option<(i64, H)>,
    via_tree: Option<(i64, H)>,
    via_list: Option<(i64, H)>,
) where FB: Fn(Aabb, i64) -> bool, FP: Fn(usize, i64) -> Option<(i64, H)>
    requires
        bvh.built_from(objects),
        surfaces_cross_at(hit_primitive, crossing),
        boxes_admit(hit_box, crossing, objects.to_set()),
        Object::Bvh(bvh).visits(t_max, hit_box, hit_primitive, via_tree),
        scans(listed(objects), objects.len() as int, t_max, hit_box, hit_primitive, via_list),
    ensures
        via_tree is Some <==> via_list is Some,
        bound_after(t_max, via_tree) == bound_after(t_max, via_list),
        crossings_differ(objects.to_set(), crossing) ==> via_tree == via_list,
{
    lemma_built(bvh, objects);
    lemma_surfaces_of_listed(objects, objects.len() as int);
    assert(objects.subrange(0, objects.len() as int) =~= objects);
    lemma_hierarchy_agrees_with_list(
        Object::Bvh(bvh),
        listed(objects),
        t_max,
        hit_box,
        hit_primitive,
        crossing,
        via_tree,
        via_list,
    );
}

} // verus!
