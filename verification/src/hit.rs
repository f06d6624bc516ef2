//! Scene objects as the traversal sees them, and the flat list of objects.

use vstd::prelude::*;
use crate::aabb::Aabb;
use crate::aabb::Corner;
use crate::bvh::Bvh;

verus! {

/// A surface of the scene as far as the hierarchy needs to know it: a handle
/// by which the caller finds the surface again, and the box that bounds it.
#[derive(Clone, Copy, Debug, PartialEq, Eq, Structural)]
pub struct Primitive {
    pub id: usize,
    pub bbox: Aabb,
}

/// What a ray can be tested against.
#[derive(Debug)]
pub enum Object {
    /// A surface kept by the caller.
    Primitive(Primitive),
    /// A bare box. It can be bounded but gives no hit.
    Aabb(Aabb),
    /// A subtree of the hierarchy.
    Bvh(Bvh),
}

impl Object {
    /// The box that bounds the object.
    pub open spec fn bounds(self) -> Aabb {
        match self {
            Object::Primitive(p) => p.bbox,
            Object::Aabb(b) => b,
            Object::Bvh(node) => node.bbox,
        }
    }

    /// The surfaces under the object, from left to right.
    pub open spec fn leaves(self) -> Seq<Primitive>
        decreases self,
    {
        match self {
            Object::Primitive(p) => seq![p],
            Object::Aabb(_) => Seq::empty(),
            Object::Bvh(node) => node.left.leaves() + node.right.leaves(),
        }
    }

    /// Every node under the object carries the union of its children's boxes.
    pub open spec fn wf(self) -> bool
        decreases self,
    {
        match self {
            Object::Primitive(_) => true,
            Object::Aabb(_) => true,
            Object::Bvh(node) => {
                &&& node.bbox == Aabb::union(node.left.bounds(), node.right.bounds())
                &&& node.left.wf()
                &&& node.right.wf()
            },
        }
    }

    /// `inner` is the object itself or lies somewhere under it.
    pub open spec fn has_node(self, inner: Object) -> bool
        decreases self,
    {
        self == inner || match self {
            Object::Bvh(node) => node.left.has_node(inner) || node.right.has_node(inner),
            _ => false,
        }
    }

    /// Number of nodes on the longest way down from the object to a surface.
    pub open spec fn depth(self) -> nat
        decreases self,
    {
        match self {
            Object::Primitive(_) => 0,
            Object::Aabb(_) => 0,
            Object::Bvh(node) => {
                let l = node.left.depth();
                let r = node.right.depth();
                if l >= r {
                    l + 1
                } else {
                    r + 1
                }
            },
        }
    }

    /// At every node under the object some axis separates the surfaces of the
    /// left child from those of the right child.
    pub open spec fn well_split(self) -> bool
        decreases self,
    {
        match self {
            Object::Primitive(_) => true,
            Object::Aabb(_) => true,
            Object::Bvh(node) => {
                &&& exists|axis: int| 0 <= axis < 3 && #[trigger] node.separated(axis)
                &&& node.left.well_split()
                &&& node.right.well_split()
            },
        }
    }

    /// `found` is what a walk over the object may return when it starts with
    /// the upper bound `t_max`: a surface answers through `hit_primitive`; a
    /// node whose box `hit_box` rejects gives nothing; otherwise the left child
    /// is walked first, the right child under the bound that the left hit set,
    /// and the later hit wins.
    pub open spec fn visits<T, H, FB, FP>(
        self,
        t_max: T,
        hit_box: FB,
        hit_primitive: FP,
        found: Option<(T, H)>,
    ) -> bool where FB: Fn(Aabb, T) -> bool, FP: Fn(usize, T) -> Option<(T, H)>
        decreases self,
    {
        match self {
            Object::Primitive(p) => call_ensures(hit_primitive, (p.id, t_max), found),
            Object::Aabb(_) => found is None,
            Object::Bvh(node) => {
                ||| call_ensures(hit_box, (node.bbox, t_max), false) && found is None
                ||| call_ensures(hit_box, (node.bbox, t_max), true) && exists|
                    first: Option<(T, H)>,
                    second: Option<(T, H)>,
                |
                    {
                        &&& #[trigger] in_turn(first, second)
                        &&& node.left.visits(t_max, hit_box, hit_primitive, first)
                        &&& node.right.visits(bound_after(t_max, first), hit_box, hit_primitive, second)
                        &&& found == later_of(first, second)
                    }
            },
        }
    }

    /// The box that bounds the object.
    pub fn bounding_box(&self) -> (b: Aabb)
        ensures
            b == self.bounds(),
    {
        match self {
            Object::Primitive(p) => p.bbox,
            Object::Aabb(b) => b.bounding_box(),
            Object::Bvh(node) => node.bounding_box(),
        }
    }

    /// Walks the object for the nearest hit below `t_max`.
    pub fn hit<T, H, FB, FP>(&self, t_max: T, hit_box: &FB, hit_primitive: &FP) -> (found: Option<(T, H)>)
        where T: Copy, FB: Fn(Aabb, T) -> bool, FP: Fn(usize, T) -> Option<(T, H)>
        requires
            forall|b: Aabb, t: T| call_requires(*hit_box, (b, t)),
            forall|id: usize, t: T| call_requires(*hit_primitive, (id, t)),
        ensures
            self.visits(t_max, *hit_box, *hit_primitive, found),
        decreases self,
    {
        match self {
            Object::Primitive(p) => hit_primitive(p.id, t_max),
            Object::Aabb(_) => None,
            Object::Bvh(node) => node.hit(t_max, hit_box, hit_primitive),
        }
    }
}

/// The flat list of the scene's objects, tested one after the other.
#[derive(Debug)]
pub struct HittableList {
    pub objects: Vec<Object>,
}

/// The corner at key zero on every axis.
pub open spec fn origin() -> Corner {
    Corner { x: 0, y: 0, z: 0 }
}

/// The box around the origin and the first `n` of `objects`.
pub open spec fn hull(objects: Seq<Object>, n: int) -> Aabb
    decreases n,
{
    if n <= 0 {
        Aabb { min: origin(), max: origin() }
    } else {
        Aabb::union(hull(objects, n - 1), objects[n - 1].bounds())
    }
}

/// `found` is what testing the first `n` of `objects` in turn may return when
/// it starts with the upper bound `t_max`: each object is walked under the
/// bound that the hits before it left, and the last hit wins.
pub open spec fn scans<T, H, FB, FP>(
    objects: Seq<Object>,
    n: int,
    t_max: T,
    hit_box: FB,
    hit_primitive: FP,
    found: Option<(T, H)>,
) -> bool where FB: Fn(Aabb, T) -> bool, FP: Fn(usize, T) -> Option<(T, H)>
    decreases n,
{
    if n <= 0 {
        found is None
    } else {
        exists|first: Option<(T, H)>, second: Option<(T, H)>|
            {
                &&& #[trigger] in_turn(first, second)
                &&& scans(objects, n - 1, t_max, hit_box, hit_primitive, first)
                &&& objects[n - 1].visits(bound_after(t_max, first), hit_box, hit_primitive, second)
                &&& found == later_of(first, second)
            }
    }
}

impl HittableList {
    /// The list without objects.
    pub fn new() -> (list: HittableList)
        ensures
            list.objects@ == Seq::<Object>::empty(),
    {
        HittableList { objects: Vec::new() }
    }

    /// The list of the given objects, in their order.
    pub fn new_from_vec(obj_vec: Vec<Object>) -> (list: HittableList)
        ensures
            list.objects@ == obj_vec@,
    {
        HittableList { objects: obj_vec }
    }

    /// The box around all objects of the list and the origin.
    pub fn bounding_box(&self) -> (b: Aabb)
        ensures
            b == hull(self.objects@, self.objects@.len() as int),
    {
        let zero = Corner::new(0, 0, 0);
        let mut output_box = Aabb::new(zero, zero);
        let mut i: usize = 0;
        while i < self.objects.len()
            invariant
                i <= self.objects@.len(),
                output_box == hull(self.objects@, i as int),
            decreases self.objects@.len() - i,
        {
            output_box = Aabb::surrounding_box(output_box, self.objects[i].bounding_box());
            i += 1;
        }
        output_box
    }

    /// Tests every object of the list for the nearest hit below `t_max`.
    pub fn hit<T, H, FB, FP>(&self, t_max: T, hit_box: &FB, hit_primitive: &FP) -> (found: Option<(T, H)>)
        where T: Copy, FB: Fn(Aabb, T) -> bool, FP: Fn(usize, T) -> Option<(T, H)>
        requires
            forall|b: Aabb, t: T| call_requires(*hit_box, (b, t)),
            forall|id: usize, t: T| call_requires(*hit_primitive, (id, t)),
        ensures
            scans(self.objects@, self.objects@.len() as int, t_max, *hit_box, *hit_primitive, found),
    {
        hit_world(self.objects.as_slice(), t_max, hit_box, hit_primitive)
    }
}

/// Tests every object of `world` for the nearest hit below `t_max`, each
/// under the bound that the hits before it left.
pub fn hit_world<T, H, FB, FP>(world: &[Object], t_max: T, hit_box: &FB, hit_primitive: &FP) -> (found: Option<(T, H)>)
    where T: Copy, FB: Fn(Aabb, T) -> bool, FP: Fn(usize, T) -> Option<(T, H)>
    requires
        forall|b: Aabb, t: T| call_requires(*hit_box, (b, t)),
        forall|id: usize, t: T| call_requires(*hit_primitive, (id, t)),
    ensures
        scans(world@, world@.len() as int, t_max, *hit_box, *hit_primitive, found),
{
    let mut t_nearest = t_max;
    let mut hit_record: Option<(T, H)> = None;
    let mut i: usize = 0;
    while i < world.len()
        invariant
            i <= world@.len(),
            forall|b: Aabb, t: T| call_requires(*hit_box, (b, t)),
            forall|id: usize, t: T| call_requires(*hit_primitive, (id, t)),
            t_nearest == bound_after(t_max, hit_record),
            scans(world@, i as int, t_max, *hit_box, *hit_primitive, hit_record),
        decreases world@.len() - i,
    {
        let ghost first = hit_record;
        let second = world[i].hit(t_nearest, hit_box, hit_primitive);
        let ghost second_seen = second;
        match second {
            Some((t, rec)) => {
                t_nearest = t;
                hit_record = Some((t, rec));
            },
            None => {},
        }
        proof {
            assert(in_turn(first, second_seen));
            assert(hit_record == later_of(first, second_seen));
        }
        i += 1;
    }
    hit_record
}

/// Names the results of the two children of a node, left then right. It holds
/// of every pair; the walk's definition binds its witnesses through it.
pub open spec fn in_turn<T, H>(first: Option<(T, H)>, second: Option<(T, H)>) -> bool {
    true
}

/// The upper bound that holds after a walk returned `found`: the hit's own
/// parameter, or the old bound where nothing was hit.
pub open spec fn bound_after<T, H>(t_max: T, found: Option<(T, H)>) -> T {
    match found {
        Some((t, _)) => t,
        None => t_max,
    }
}

/// The result of two walks in a row, the second under the bound of the first.
pub open spec fn later_of<T, H>(first: Option<(T, H)>, second: Option<(T, H)>) -> Option<(T, H)> {
    if second is Some {
        second
    } else {
        first
    }
}

/// The box of a well-formed object encloses the box of every surface under it.
pub proof fn lemma_bounds_enclose_leaves(obj: Object, p: Primitive)
    requires
        obj.wf(),
        obj.leaves().contains(p),
    ensures
        obj.bounds().encloses(p.bbox),
    decreases obj,
{
    match obj {
        Object::Primitive(q) => {
            assert(obj.leaves()[0] == q);
        },
        Object::Aabb(_) => {},
        Object::Bvh(node) => {
            let l = node.left.leaves();
            let r = node.right.leaves();
            let i = choose|i: int| 0 <= i < (l + r).len() && (l + r)[i] == p;
            if i < l.len() {
                assert(l[i] == p);
                lemma_bounds_enclose_leaves(*node.left, p);
            } else {
                assert(r[i - l.len()] == p);
                lemma_bounds_enclose_leaves(*node.right, p);
            }
        },
    }
}

/// Whatever lies under a well-formed object is well-formed, and its surfaces
/// are among the object's.
pub proof fn lemma_nodes_inherit(root: Object, inner: Object)
    requires
        root.wf(),
        root.has_node(inner),
    ensures
        inner.wf(),
        forall|p: Primitive| inner.leaves().contains(p) ==> root.leaves().contains(p),
    decreases root,
{
    if root != inner {
        match root {
            Object::Bvh(node) => {
                let l = node.left.leaves();
                let r = node.right.leaves();
                if node.left.has_node(inner) {
                    lemma_nodes_inherit(*node.left, inner);
                    assert forall|p: Primitive| inner.leaves().contains(p) implies root.leaves().contains(p) by {
                        let i = choose|i: int| 0 <= i < l.len() && l[i] == p;
                        assert((l + r)[i] == p);
                    }
                } else {
                    lemma_nodes_inherit(*node.right, inner);
                    assert forall|p: Primitive| inner.leaves().contains(p) implies root.leaves().contains(p) by {
                        let i = choose|i: int| 0 <= i < r.len() && r[i] == p;
                        assert((l + r)[l.len() + i] == p);
                    }
                }
            },
            _ => {},
        }
    }
}

/// In a well-formed hierarchy the box of every node encloses the box of every
/// surface below that node.
pub proof fn lemma_ancestors_enclose(root: Object, ancestor: Object, p: Primitive)
    requires
        root.wf(),
        root.has_node(ancestor),
        ancestor.leaves().contains(p),
    ensures
        ancestor.bounds().encloses(p.bbox),
{
    lemma_nodes_inherit(root, ancestor);
    lemma_bounds_enclose_leaves(ancestor, p);
}

/// The box of a list encloses the origin and the box of each of its objects.
pub proof fn lemma_hull_encloses(objects: Seq<Object>, n: int, i: int)
    requires
        0 <= i < n <= objects.len(),
    ensures
        hull(objects, n).encloses(objects[i].bounds()),
        hull(objects, n).holds(origin()),
    decreases n,
{
    lemma_hull_holds_origin(objects, n);
    if i < n - 1 {
        lemma_hull_encloses(objects, n - 1, i);
    }
}

proof fn lemma_hull_holds_origin(objects: Seq<Object>, n: int)
    ensures
        hull(objects, n).holds(origin()),
    decreases n,
{
    if n > 0 {
        lemma_hull_holds_origin(objects, n - 1);
    }
}

} // verus!
