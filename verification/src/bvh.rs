//! The bounding volume hierarchy: a binary tree of boxes over the scene's
//! surfaces.

use vstd::prelude::*;
use vstd::arithmetic::power2::lemma2_to64;
use vstd::arithmetic::power2::lemma_pow2_unfold;
use vstd::arithmetic::power2::pow2;
use vstd::seq_lib::lemma_multiset_commutative;
use vstd::seq_lib::seq_to_set_distributes_over_add;
use vstd::seq_lib::to_multiset_contains;
use crate::aabb::Aabb;
use crate::hit::Object;
use crate::hit::Primitive;
use crate::hit::in_turn;
use crate::hit::later_of;
use crate::utility::random_int;

verus! {

/// A node of the hierarchy. It owns its two children and carries the box that
/// bounds them.
#[derive(Debug)]
pub struct Bvh {
    pub left: Box<Object>,
    pub right: Box<Object>,
    pub bbox: Aabb,
}

/// The key by which surfaces are ordered along `axis`: the lower corner's.
pub open spec fn key_along(p: Primitive, axis: int) -> int {
    p.bbox.min.on(axis)
}

/// The items of `s` are in ascending key order along `axis`.
pub open spec fn sorted_along(s: Seq<Primitive>, axis: int) -> bool {
    forall|i: int, j: int| 0 <= i <= j < s.len() ==> key_along(s[i], axis) <= key_along(s[j], axis)
}

/// The items of `s` whose key along `axis` is `k`, in the order they have in `s`.
pub open spec fn keyed(s: Seq<Primitive>, axis: int, k: int) -> Seq<Primitive> {
    s.filter(|p: Primitive| key_along(p, axis) == k)
}

/// `sorted` is `given` sorted along `axis` without disturbing ties: the
/// same items, in ascending key order, those with equal keys in the order
/// they had.
pub open spec fn is_sorted_copy(sorted: Seq<Primitive>, given: Seq<Primitive>, axis: int) -> bool {
    &&& sorted.len() == given.len()
    &&& sorted.to_multiset() == given.to_multiset()
    &&& sorted_along(sorted, axis)
    &&& forall|k: int| keyed(sorted, axis, k) == keyed(given, axis, k)
}

/// One of the three axes.
pub open spec fn is_axis(axis: int) -> bool {
    0 <= axis <= 2
}

/// Depth of the hierarchy over `n` surfaces: halving until at most two are
/// left takes one node per step.
pub open spec fn split_depth(n: nat) -> nat
    decreases n,
{
    if n <= 2 {
        1
    } else {
        1 + split_depth((n - n / 2) as nat)
    }
}

/// `<[T]>::sort_by_key` of std, keyed by the lower corner's key on `axis`.
/// The contract claims what the documentation of the std function states:
/// afterwards the slice holds the same items in ascending key order, and items
/// with equal keys keep the order they had.
#[verifier::external_body]
fn sort_along(objects: &mut [Primitive], axis: usize)
    ensures
        is_sorted_copy(final(objects)@, old(objects)@, axis as int),
{
    objects.sort_by_key(|p| p.bbox.min.key(axis));
}

impl Bvh {
    /// Every surface under the left child comes no later along `axis` than
    /// every surface under the right child.
    pub open spec fn separated(self, axis: int) -> bool {
        forall|i: int, j: int|
            0 <= i < self.left.leaves().len() && 0 <= j < self.right.leaves().len() ==> key_along(
                #[trigger] self.left.leaves()[i],
                axis,
            ) <= key_along(#[trigger] self.right.leaves()[j], axis)
    }

    /// The node is the median-split hierarchy over `objects`, split along
    /// some axis at every node.
    pub open spec fn built_from(self, objects: Seq<Primitive>) -> bool
        decreases objects.len(), 2nat,
    {
        exists|axis: int| #[trigger] is_axis(axis) && self.built_along(objects, axis)
    }

    /// The node is the median-split hierarchy over `objects` with the root
    /// split along `axis`. One surface is both children of the root. Of two,
    /// the one that comes strictly first along `axis` is the left child, and
    /// the second one where neither does. More are sorted along `axis` and cut
    /// at the middle, and the children are the hierarchies over the halves.
    pub open spec fn built_along(self, objects: Seq<Primitive>, axis: int) -> bool
        decreases objects.len(), 1nat,
    {
        let n = objects.len() as int;
        if n <= 0 {
            false
        } else if n == 1 {
            &&& *self.left == Object::Primitive(objects[0])
            &&& *self.right == Object::Primitive(objects[0])
            &&& self.bbox == objects[0].bbox
        } else if n == 2 {
            let in_order = key_along(objects[0], axis) < key_along(objects[1], axis);
            &&& *self.left == Object::Primitive(if in_order {
                objects[0]
            } else {
                objects[1]
            })
            &&& *self.right == Object::Primitive(if in_order {
                objects[1]
            } else {
                objects[0]
            })
            &&& self.bbox == Aabb::union(objects[0].bbox, objects[1].bbox)
        } else {
            exists|sorted: Seq<Primitive>|
                {
                    &&& #[trigger] is_sorted_copy(sorted, objects, axis)
                    &&& self.bbox == Aabb::union(self.left.bounds(), self.right.bounds())
                    &&& self.left_built_from(sorted.subrange(0, n / 2), n)
                    &&& self.right_built_from(sorted.subrange(n / 2, n), n)
                }
        }
    }

    /// The left child is the hierarchy over `half`, which holds fewer than
    /// `n` surfaces.
    pub open spec fn left_built_from(self, half: Seq<Primitive>, n: int) -> bool
        decreases n, 0nat,
    {
        match *self.left {
            Object::Bvh(child) => half.len() < n && child.built_from(half),
            _ => false,
        }
    }

    /// The right child is the hierarchy over `half`, which holds fewer than
    /// `n` surfaces.
    pub open spec fn right_built_from(self, half: Seq<Primitive>, n: int) -> bool
        decreases n, 0nat,
    {
        match *self.right {
            Object::Bvh(child) => half.len() < n && child.built_from(half),
            _ => false,
        }
    }

    /// Whether `a` comes strictly before `b` along `axis` (0 is x, 1 is y,
    /// anything else is z), going by the lower corners of their boxes.
    pub fn box_compare(a: &Object, b: &Object, axis: usize) -> (before: bool)
        ensures
            before == (a.bounds().min.on(axis as int) < b.bounds().min.on(axis as int)),
    {
        let box_a = a.bounding_box();
        let box_b = b.bounding_box();
        box_a.min.key(axis) < box_b.min.key(axis)
    }

    /// `box_compare` along x.
    pub fn box_x_compare(a: &Object, b: &Object) -> (before: bool)
        ensures
            before == (a.bounds().min.x < b.bounds().min.x),
    {
        Bvh::box_compare(a, b, 0)
    }

    /// `box_compare` along y.
    pub fn box_y_compare(a: &Object, b: &Object) -> (before: bool)
        ensures
            before == (a.bounds().min.y < b.bounds().min.y),
    {
        Bvh::box_compare(a, b, 1)
    }

    /// `box_compare` along z.
    pub fn box_z_compare(a: &Object, b: &Object) -> (before: bool)
        ensures
            before == (a.bounds().min.z < b.bounds().min.z),
    {
        Bvh::box_compare(a, b, 2)
    }

    /// Builds the median-split hierarchy over `objects`, drawing the axis to
    /// split along at random at every node. The slice is reordered on the way.
    pub fn new(objects: &mut [Primitive]) -> (bvh: Bvh)
        requires
            old(objects)@.len() > 0,
        ensures
            final(objects)@.to_multiset() == old(objects)@.to_multiset(),
            bvh.built_from(old(objects)@),
            Object::Bvh(bvh).wf(),
            Object::Bvh(bvh).leaves().to_set() == old(objects)@.to_set(),
        decreases old(objects)@.len(), 1nat,
    {
        let axis = random_int(0, 2);
        proof {
            assert(is_axis(axis as int));
        }
        Bvh::build(objects, axis as usize)
    }

    /// Builds the median-split hierarchy over `objects` with the root split
    /// along `axis` (0 is x, 1 is y, anything else is z). The axes further
    /// down are drawn at random. The slice is reordered on the way.
    pub fn build(objects: &mut [Primitive], axis: usize) -> (bvh: Bvh)
        requires
            old(objects)@.len() > 0,
        ensures
            final(objects)@.to_multiset() == old(objects)@.to_multiset(),
            bvh.built_along(old(objects)@, axis as int),
            Object::Bvh(bvh).wf(),
            Object::Bvh(bvh).leaves().to_set() == old(objects)@.to_set(),
        decreases old(objects)@.len(), 0nat,
    {
        let ghost before = objects@;
        let span = objects.len();
        let bvh = if span == 1 {
            let only = objects[0];
            Bvh {
                left: Box::new(Object::Primitive(only)),
                right: Box::new(Object::Primitive(only)),
                bbox: only.bbox,
            }
        } else if span == 2 {
            let l = Object::Primitive(objects[0]);
            let r = Object::Primitive(objects[1]);
            let bbox = Aabb::surrounding_box(l.bounding_box(), r.bounding_box());
            if Bvh::box_compare(&l, &r, axis) {
                Bvh { left: Box::new(l), right: Box::new(r), bbox }
            } else {
                Bvh { left: Box::new(r), right: Box::new(l), bbox }
            }
        } else {
            sort_along(objects, axis);
            let ghost sorted = objects@;
            let mid = span / 2;
            let (left_half, right_half) = objects.split_at_mut(mid);
            let ghost left_items = left_half@;
            let ghost right_items = right_half@;
            let left = Bvh::new(left_half);
            let right = Bvh::new(right_half);
            let bbox = Aabb::surrounding_box(left.bounding_box(), right.bounding_box());
            proof {
                assert(sorted =~= left_items + right_items);
                lemma_multiset_commutative(left_items, right_items);
                lemma_multiset_commutative(left_half@, right_half@);
            }
            Bvh { left: Box::new(Object::Bvh(left)), right: Box::new(Object::Bvh(right)), bbox }
        };
        proof {
            lemma_built_along(bvh, before, axis as int);
        }
        bvh
    }

    /// The box that the node carries.
    pub fn bounding_box(&self) -> (b: Aabb)
        ensures
            b == self.bbox,
    {
        self.bbox
    }

    /// Walks the subtree for the nearest hit below `t_max`. The node's box is
    /// tested first; on a miss nothing below it is touched.
    pub fn hit<T, H, FB, FP>(&self, t_max: T, hit_box: &FB, hit_primitive: &FP) -> (found: Option<(T, H)>)
        where T: Copy, FB: Fn(Aabb, T) -> bool, FP: Fn(usize, T) -> Option<(T, H)>
        requires
            forall|b: Aabb, t: T| call_requires(*hit_box, (b, t)),
            forall|id: usize, t: T| call_requires(*hit_primitive, (id, t)),
        ensures
            Object::Bvh(*self).visits(t_max, *hit_box, *hit_primitive, found),
        decreases self,
    {
        if !hit_box(self.bbox, t_max) {
            return None;
        }
        let first = self.left.hit(t_max, hit_box, hit_primitive);
        let ghost first_seen = first;
        let found = match first {
            Some((t_left, rec_left)) => {
                let second = self.right.hit(t_left, hit_box, hit_primitive);
                let ghost second_seen = second;
                let found = match second {
                    Some(hit) => Some(hit),
                    None => Some((t_left, rec_left)),
                };
                proof {
                    assert(in_turn(first_seen, second_seen));
                    assert(found == later_of(first_seen, second_seen));
                }
                found
            },
            None => {
                let second = self.right.hit(t_max, hit_box, hit_primitive);
                proof {
                    assert(in_turn(first_seen, second));
                    assert(second == later_of(first_seen, second));
                }
                second
            },
        };
        found
    }
}


/// Sequences that hold the same items equally often have the same set of
/// items.
proof fn lemma_same_items(a: Seq<Primitive>, b: Seq<Primitive>)
    requires
        a.to_multiset() == b.to_multiset(),
    ensures
        a.to_set() == b.to_set(),
{
    assert forall|p: Primitive| a.contains(p) == b.contains(p) by {
        to_multiset_contains(a, p);
        to_multiset_contains(b, p);
    }
    assert(a.to_set() =~= b.to_set());
}

/// More surfaces never make a shallower hierarchy.
proof fn lemma_split_depth_monotone(a: nat, b: nat)
    requires
        a <= b,
    ensures
        split_depth(a) <= split_depth(b),
    decreases b,
{
    if b > 2 {
        if a > 2 {
            lemma_split_depth_monotone((a - a / 2) as nat, (b - b / 2) as nat);
        } else {
            lemma_split_depth_monotone(2, (b - b / 2) as nat);
        }
    }
}

/// The hierarchy over two or more surfaces is as deep as the binary
/// logarithm of their number, rounded up.
pub proof fn lemma_depth_is_logarithmic(n: nat)
    requires
        n >= 2,
    ensures
        split_depth(n) >= 1,
        pow2((split_depth(n) - 1) as nat) < n <= pow2(split_depth(n)),
    decreases n,
{
    lemma2_to64();
    if n > 2 {
        let m = (n - n / 2) as nat;
        lemma_depth_is_logarithmic(m);
        lemma_pow2_unfold(split_depth(m));
        lemma_pow2_unfold(split_depth(n));
    }
}

/// What the median-split hierarchy over `objects` is like, whatever axes it
/// was split along: every node carries the union of its children's boxes and
/// separates their surfaces along some axis, the surfaces under the root are
/// exactly the given ones, and the depth is that of repeated halving.
pub proof fn lemma_built(bvh: Bvh, objects: Seq<Primitive>)
    requires
        bvh.built_from(objects),
    ensures
        Object::Bvh(bvh).wf(),
        Object::Bvh(bvh).well_split(),
        Object::Bvh(bvh).leaves().to_set() == objects.to_set(),
        Object::Bvh(bvh).depth() == split_depth(objects.len()),
    decreases objects.len(), 1nat,
{
    let axis = choose|axis: int| #[trigger] is_axis(axis) && bvh.built_along(objects, axis);
    lemma_built_along(bvh, objects, axis);
}

/// What the median-split hierarchy over `objects` with the root split along
/// `axis` is like: as `lemma_built` says, and the root separates its
/// children's surfaces along `axis`.
pub proof fn lemma_built_along(bvh: Bvh, objects: Seq<Primitive>, axis: int)
    requires
        bvh.built_along(objects, axis),
    ensures
        Object::Bvh(bvh).wf(),
        Object::Bvh(bvh).well_split(),
        bvh.separated(axis),
        Object::Bvh(bvh).leaves().to_set() == objects.to_set(),
        Object::Bvh(bvh).depth() == split_depth(objects.len()),
    decreases objects.len(), 0nat,
{
    let tree = Object::Bvh(bvh);
    let n = objects.len() as int;
    let z = if 0 <= axis < 2 {
        axis
    } else {
        2
    };
    if n <= 2 {
        reveal_with_fuel(Object::leaves, 2);
        reveal_with_fuel(Object::wf, 2);
        reveal_with_fuel(Object::well_split, 2);
        reveal_with_fuel(Object::depth, 2);
        assert(tree.leaves().len() == 2);
        assert forall|p: Primitive| tree.leaves().contains(p) == objects.contains(p) by {
            if tree.leaves().contains(p) {
                assert(objects[0] == p || objects[n - 1] == p);
            }
            if objects.contains(p) {
                assert(tree.leaves()[0] == p || tree.leaves()[1] == p);
            }
        }
        assert(tree.leaves().to_set() =~= objects.to_set());
        assert(bvh.separated(axis));
        assert(bvh.separated(z));
    } else {
        let mid = n / 2;
        let sorted = choose|sorted: Seq<Primitive>|
            {
                &&& #[trigger] is_sorted_copy(sorted, objects, axis)
                &&& bvh.bbox == Aabb::union(bvh.left.bounds(), bvh.right.bounds())
                &&& bvh.left_built_from(sorted.subrange(0, mid), n)
                &&& bvh.right_built_from(sorted.subrange(mid, n), n)
            };
        let left_items = sorted.subrange(0, mid);
        let right_items = sorted.subrange(mid, n);
        let left = bvh.left->Bvh_0;
        let right = bvh.right->Bvh_0;
        let left_tree = Object::Bvh(left);
        let right_tree = Object::Bvh(right);
        assert(*bvh.left == left_tree);
        assert(*bvh.right == right_tree);
        lemma_built(left, left_items);
        lemma_built(right, right_items);
        // exactly the given surfaces
        assert(sorted =~= left_items + right_items);
        assert(tree.leaves() == left_tree.leaves() + right_tree.leaves());
        seq_to_set_distributes_over_add(left_tree.leaves(), right_tree.leaves());
        seq_to_set_distributes_over_add(left_items, right_items);
        lemma_same_items(sorted, objects);
        assert(tree.leaves().to_set() =~= objects.to_set());
        // the halves lie on either side of the cut
        assert forall|i: int, j: int|
            0 <= i < left_tree.leaves().len() && 0 <= j < right_tree.leaves().len() implies key_along(
            #[trigger] left_tree.leaves()[i],
            axis,
        ) <= key_along(#[trigger] right_tree.leaves()[j], axis) by {
            let a = left_tree.leaves()[i];
            let b = right_tree.leaves()[j];
            assert(left_tree.leaves().to_set().contains(a));
            assert(right_tree.leaves().to_set().contains(b));
            assert(left_items.contains(a));
            assert(right_items.contains(b));
            let ia = choose|ia: int| 0 <= ia < left_items.len() && left_items[ia] == a;
            let ib = choose|ib: int| 0 <= ib < right_items.len() && right_items[ib] == b;
            assert(sorted[ia] == a);
            assert(sorted[mid + ib] == b);
        }
        assert(bvh.separated(axis));
        assert(bvh.separated(z));
        // as deep as halving makes it
        lemma_split_depth_monotone(mid as nat, (n - mid) as nat);
    }
}

} // verus!
