//! The bounding-volume hierarchy: a binary tree over the scene's leaf
//! primitives. Construction sorts by a randomly chosen axis and splits at
//! the midpoint; traversal rejects whole subtrees whose box the ray
//! misses.
//!
//! The correctness invariant — a node's box encloses the geometry of its
//! whole subtree — is part of well-formedness, established by
//! construction, and traversal is proved to return exactly what a linear
//! scan of the tree's leaves returns.

use vstd::prelude::*;
use vstd::multiset::Multiset;
use crate::vec3::Vec3;
use crate::ray::{Ray, ray_wf};
use crate::aabb::{Aabb, box_wf, contains_box, strict_inside, surrounding_box_spec,
    lemma_strict_inside_monotone, lemma_contains_trans};
use crate::hit_record::HitRecord;
use crate::hittable::{Object, obj_wf, obj_hit, obj_bbox, lemma_obj_range};
use crate::hittable_list::{scan_hit, objects_wf, lemma_scan_none, lemma_scan_append,
    lemma_scan_range, lemma_scan_permutation};
use crate::sampling::random_below;

verus! {

/// An owned binary tree: an interior node owns exactly two children and a
/// box covering both; a single-element subtree is a leaf around the
/// object itself.
pub enum BvhTree {
    Leaf(Object),
    Node { left: Box<BvhTree>, right: Box<BvhTree>, bbox: Aabb },
}

/// The leaf objects of the subtree, left to right.
pub open spec fn leaves(t: BvhTree) -> Seq<Object>
    decreases t,
{
    match t {
        BvhTree::Leaf(o) => Seq::empty().push(o),
        BvhTree::Node { left, right, bbox } => leaves(*left) + leaves(*right),
    }
}

/// The box this subtree presents to its parent.
pub open spec fn tree_box(t: BvhTree) -> Aabb {
    match t {
        BvhTree::Leaf(o) => obj_bbox(o),
        BvhTree::Node { left, right, bbox } => bbox,
    }
}

/// Well-formedness: every leaf object is well formed and every node's box
/// is exactly the surrounding box of its two children's boxes — tight by
/// construction, and in particular enclosing both.
pub open spec fn tree_wf(t: BvhTree) -> bool
    decreases t,
{
    match t {
        BvhTree::Leaf(o) => obj_wf(o),
        BvhTree::Node { left, right, bbox } => tree_wf(*left) && tree_wf(*right) && box_wf(bbox)
            && bbox == surrounding_box_spec(tree_box(*left), tree_box(*right)) && contains_box(
            bbox,
            tree_box(*left),
        ) && contains_box(bbox, tree_box(*right)),
    }
}

/// In a well-formed subtree, every leaf is well formed and its box lies
/// within the subtree's box.
pub proof fn lemma_tree_leaves(t: BvhTree)
    requires
        tree_wf(t),
    ensures
        objects_wf(leaves(t)),
        box_wf(tree_box(t)),
        forall|i: int|
            0 <= i < leaves(t).len() ==> contains_box(tree_box(t), obj_bbox(
                #[trigger] leaves(t)[i],
            )),
    decreases t,
{
    match t {
        BvhTree::Leaf(o) => {
        },
        BvhTree::Node { left, right, bbox } => {
            lemma_tree_leaves(*left);
            lemma_tree_leaves(*right);
            let ll = leaves(*left);
            let lr = leaves(*right);
            assert forall|i: int| 0 <= i < leaves(t).len() implies obj_wf(#[trigger] leaves(t)[i])
                && contains_box(tree_box(t), obj_bbox(leaves(t)[i])) by {
                if i < ll.len() {
                    assert(leaves(t)[i] == ll[i]);
                    lemma_contains_trans(bbox, tree_box(*left), obj_bbox(ll[i]));
                } else {
                    assert(leaves(t)[i] == lr[i - ll.len()]);
                    lemma_contains_trans(bbox, tree_box(*right), obj_bbox(lr[i - ll.len()]));
                }
            }
        },
    }
}

/// The key construction sorts by: the box's lower corner along the chosen
/// axis, read from the box at time zero.
pub open spec fn obj_key_spec(o: Object, axis: int) -> int {
    crate::vec3::comp(crate::hittable::obj_query_box(o, 0, 0).min, axis)
}

/// All keys along `axis` in nondecreasing order.
pub open spec fn sorted_by_key(objs: Seq<Object>, axis: int) -> bool {
    forall|a: int, b: int|
        0 <= a < b < objs.len() ==> obj_key_spec(#[trigger] objs[a], axis) <= obj_key_spec(
            #[trigger] objs[b],
            axis,
        )
}

fn obj_key(o: &Object, axis: u32) -> (r: i64)
    requires
        obj_wf(*o),
    ensures
        r == obj_key_spec(*o, axis as int),
{
    let b = o.bounding_box(0, 0);
    if axis == 0 {
        b.min.x
    } else if axis == 1 {
        b.min.y
    } else {
        b.min.z
    }
}

/// Insertion sort by box corner along `axis`: a permutation of the input
/// with the same well-formed objects, in nondecreasing key order.
fn sort_by_axis(v: &mut Vec<Object>, axis: u32)
    requires
        objects_wf(old(v)@),
    ensures
        final(v)@.to_multiset() == old(v)@.to_multiset(),
        final(v)@.len() == old(v)@.len(),
        objects_wf(final(v)@),
        sorted_by_key(final(v)@, axis as int),
{
    let ghost orig = v@;
    proof {
        broadcast use vstd::seq_lib::group_to_multiset_ensures;

    }
    let n = v.len();
    let mut i: usize = 1;
    while i < n
        invariant
            n == v@.len(),
            1 <= i || n == 0,
            i <= n || n == 0,
            v@.to_multiset() == orig.to_multiset(),
            objects_wf(v@),
            i <= n ==> sorted_by_key(v@.take(i as int), axis as int),
        decreases n - i,
    {
        proof {
            broadcast use vstd::seq_lib::group_to_multiset_ensures;

        }
        let ghost before = v@;
        let x = v.remove(i);
        let ghost removed = v@;
        let key_x = obj_key(&x, axis);
        let mut j: usize = i;
        let mut searching = true;
        while searching && j > 0
            invariant
                j <= i,
                i < n,
                v@ == removed,
                v@.len() == n - 1,
                objects_wf(v@),
                key_x == obj_key_spec(x, axis as int),
                forall|k: int|
                    j <= k < i ==> obj_key_spec(#[trigger] v@[k], axis as int) > obj_key_spec(
                        x,
                        axis as int,
                    ),
                !searching ==> j > 0 && obj_key_spec(v@[j - 1], axis as int) <= obj_key_spec(
                    x,
                    axis as int,
                ),
            decreases j + (if searching { 1int } else { 0int }),
        {
            let kj = obj_key(&v[j - 1], axis);
            if kj > key_x {
                j = j - 1;
                proof {
                    assert(obj_key_spec(v@[j as int], axis as int) > obj_key_spec(x, axis as int));
                }
            } else {
                searching = false;
                proof {
                    assert(obj_key_spec(v@[j - 1], axis as int) <= obj_key_spec(x, axis as int));
                }
            }
        }
        proof {
            assert(removed.take(i as int) =~= before.take(i as int));
            lemma_sorted_insert(removed, before, x, i as int, j as int, axis as int);
        }
        v.insert(j, x);
        proof {
            broadcast use vstd::seq_lib::group_to_multiset_ensures;

            assert(before.remove(i as int).insert(j as int, x).to_multiset() == before.to_multiset())
                by {
                assert(before.remove(i as int).to_multiset() == before.to_multiset().remove(
                    before[i as int],
                ));
                assert(before.remove(i as int).insert(j as int, x).to_multiset() == before.remove(
                    i as int,
                ).to_multiset().insert(x));
                assert(before.to_multiset().contains(before[i as int]));
                assert(before.to_multiset().remove(before[i as int]).insert(before[i as int])
                    =~= before.to_multiset());
            }
            assert forall|k: int| 0 <= k < v@.len() implies obj_wf(#[trigger] v@[k]) by {
                assert(v@.to_multiset().contains(v@[k]));
                assert(v@.to_multiset() == before.to_multiset());
                assert(before.to_multiset().contains(v@[k]));
                let w = choose|m: int| 0 <= m < before.len() && before[m] == v@[k];
            }
        }
        i = i + 1;
    }
    proof {
        if n > 0 {
            assert(v@.take(n as int) =~= v@);
        }
    }
}

/// Inserting `x` at the found position keeps the prefix sorted: everything
/// before the position is at most `x`'s key, everything after (up to the
/// old prefix end) is above it.
proof fn lemma_sorted_insert(removed: Seq<Object>, before: Seq<Object>, x: Object, i: int, j: int, axis: int)
    requires
        0 <= j <= i < before.len(),
        removed == before.remove(i),
        sorted_by_key(before.take(i), axis),
        forall|k: int|
            j <= k < i ==> obj_key_spec(#[trigger] removed[k], axis) > obj_key_spec(x, axis),
        j > 0 ==> obj_key_spec(removed[j - 1], axis) <= obj_key_spec(x, axis),
    ensures
        sorted_by_key(removed.insert(j, x).take(i + 1), axis),
{
    let new = removed.insert(j, x);
    assert forall|a: int, b: int|
        0 <= a < b < i + 1 implies obj_key_spec(#[trigger] new[a], axis) <= obj_key_spec(
        #[trigger] new[b],
        axis,
    ) by {
        assert(forall|k: int| 0 <= k < i ==> removed[k] == before[k]);
        assert(forall|k: int| 0 <= k < j ==> new[k] == removed[k]);
        assert(new[j] == x);
        assert(forall|k: int| j < k <= i ==> new[k] == removed[k - 1]);
        assert(forall|k: int| 0 <= k < i ==> before.take(i)[k] == before[k]);
        if a < j && b < j {
        } else if a < j && b == j {
            assert(obj_key_spec(removed[a], axis) <= obj_key_spec(removed[j - 1], axis));
        } else if a == j {
            assert(obj_key_spec(x, axis) < obj_key_spec(removed[b - 1], axis));
        } else if a < j && b > j {
            assert(obj_key_spec(removed[a], axis) <= obj_key_spec(removed[b - 1], axis));
        } else {
            assert(obj_key_spec(removed[a - 1], axis) <= obj_key_spec(removed[b - 1], axis));
        }
    }
}

/// Builds a subtree over at least one object: sorts by a random axis,
/// splits at the midpoint, and recurses; one object becomes a leaf.
fn build_tree(objects: Vec<Object>) -> (t: BvhTree)
    requires
        objects@.len() >= 1,
        objects_wf(objects@),
    ensures
        tree_wf(t),
        leaves(t).to_multiset() == objects@.to_multiset(),
        leaves(t).len() == objects@.len(),
        objects@.len() == 1 ==> t is Leaf,
        objects@.len() >= 2 ==> (t matches BvhTree::Node { left, right, bbox } && leaves(
            *left,
        ).len() == objects@.len() / 2 && leaves(*right).len() == objects@.len() - objects@.len()
            / 2),
    decreases objects@.len(),
{
    let mut objects = objects;
    let ghost orig = objects@;
    let axis = random_below(3);
    sort_by_axis(&mut objects, axis);
    if objects.len() == 1 {
        let o = objects.remove(0);
        proof {
            broadcast use vstd::seq_lib::group_to_multiset_ensures;

            assert(leaves(BvhTree::Leaf(o)) =~= Seq::empty().push(o));
            assert(Seq::<Object>::empty().push(o).to_multiset() =~= Multiset::empty().insert(o));
            assert(objects@.len() == 0);
            let ghost sorted = objects@.insert(0, o);
            assert(sorted =~= Seq::empty().push(o));
            assert(leaves(BvhTree::Leaf(o)).len() == 1);
        }
        return BvhTree::Leaf(o);
    }
    let mid = objects.len() / 2;
    let ghost sorted = objects@;
    let mut right_objs: Vec<Object> = Vec::new();
    while objects.len() > mid
        invariant
            mid >= 1,
            mid <= objects@.len(),
            objects@ == sorted.take(objects@.len() as int),
            right_objs@.len() == sorted.len() - objects@.len(),
            objects_wf(objects@),
            objects_wf(right_objs@),
            objects@ + right_objs@.reverse() =~= sorted,
        decreases objects@.len(),
    {
        proof {
            assert(objects@.drop_last() =~= sorted.take(objects@.len() - 1));
        }
        let ghost pre_objs = objects@;
        let ghost pre_right = right_objs@;
        let o = objects.pop().unwrap();
        right_objs.push(o);
        proof {
            assert(right_objs@.reverse() =~= Seq::empty().push(o) + pre_right.reverse());
            assert(objects@ + right_objs@.reverse() =~= sorted);
        }
    }
    proof {
        assert(objects@.len() == mid);
        assert(right_objs@.len() >= 1);
        assert(objects_wf(right_objs@.reverse()));
    }
    let ghost left_seq = objects@;
    let left_tree = build_tree(objects);
    let ghost glt = left_tree;
    let ghost right_seq = right_objs@;
    let right_tree = build_tree(right_objs);
    let ghost grt = right_tree;
    let bl = tree_box_of(&left_tree);
    let br = tree_box_of(&right_tree);
    let bbox = bl.surrounding_box(&br);
    let t = BvhTree::Node { left: Box::new(left_tree), right: Box::new(right_tree), bbox };
    proof {
        broadcast use vstd::seq_lib::group_to_multiset_ensures;

        assert(leaves(t) == leaves(glt) + leaves(grt));
        lemma_reverse_multiset(right_seq);
        vstd::seq_lib::lemma_multiset_commutative(left_seq, right_seq.reverse());
        assert(left_seq + right_seq.reverse() =~= sorted);
        vstd::seq_lib::lemma_multiset_commutative(leaves(glt), leaves(grt));
        assert(leaves(glt).len() == left_seq.len());
        assert(leaves(grt).len() == right_seq.len());
        assert(right_seq.len() == orig.len() - orig.len() / 2);
    }
    t
}

/// Reversal preserves a sequence's multiset.
proof fn lemma_reverse_multiset(s: Seq<Object>)
    ensures
        s.reverse().to_multiset() == s.to_multiset(),
{
    s.lemma_reverse_to_multiset();
}

/// The box a subtree presents.
fn tree_box_of(t: &BvhTree) -> (b: Aabb)
    requires
        tree_wf(*t),
    ensures
        b == tree_box(*t),
        box_wf(b),
{
    match t {
        BvhTree::Leaf(o) => o.cover_box(),
        BvhTree::Node { left: _, right: _, bbox } => *bbox,
    }
}

/// Traversal: reject on the node's box, test the left child, shrink the
/// bound to its hit, test the right child, and return the closer record.
/// A ray that misses a well-formed node's box hits none of its leaves.
proof fn lemma_node_miss(t: BvhTree, r: Ray, tmin: int, tmax: int)
    requires
        tree_wf(t),
        -0x8000_0000_0000_0000 <= tmin,
        tmax <= 0x7fff_ffff_ffff_ffff,
        forall|p: int| tmin < p < tmax ==> !strict_inside(r, p, tree_box(t)),
    ensures
        scan_hit(leaves(t), r, tmin, tmax) is None,
{
    lemma_tree_leaves(t);
    let l = leaves(t);
    assert forall|i: int| 0 <= i < l.len() implies obj_hit(#[trigger] l[i], r, tmin, tmax) is None
        by {
        lemma_obj_range(l[i], r, tmin, tmax);
        if let Some(h) = obj_hit(l[i], r, tmin, tmax) {
            lemma_strict_inside_monotone(r, h.t as int, obj_bbox(l[i]), tree_box(t));
            assert(!strict_inside(r, h.t as int, tree_box(t)));
            assert(false);
        }
    }
    lemma_scan_none(l, r, tmin, tmax);
}

#[verifier::rlimit(60)]
fn tree_hit(t: &BvhTree, ray: &Ray, t_min: i64, t_max: i64) -> (res: Option<HitRecord>)
    requires
        tree_wf(*t),
        ray_wf(*ray),
    ensures
        res == scan_hit(leaves(*t), *ray, t_min as int, t_max as int),
    decreases *t,
{
    match t {
        BvhTree::Leaf(o) => {
            let r = o.hit(ray, t_min, t_max);
            proof {
                let l = leaves(*t);
                assert(l =~= Seq::<Object>::empty().push(*o));
                assert(l.len() == 1);
                assert(l.drop_last() =~= Seq::<Object>::empty());
                assert(l.last() == *o);
                assert(scan_hit(l.drop_last(), *ray, t_min as int, t_max as int) is None);
                assert(scan_hit(l, *ray, t_min as int, t_max as int) == obj_hit(
                    *o,
                    *ray,
                    t_min as int,
                    t_max as int,
                ));
            }
            r
        },
        BvhTree::Node { left, right, bbox } => {
            if !bbox.hit(ray, t_min, t_max) {
                proof {
                    assert forall|p: int|
                        t_min < p < t_max implies !strict_inside(*ray, p, tree_box(*t)) by {
                        if strict_inside(*ray, p, *bbox) {
                            assert(false);
                        }
                    }
                    lemma_node_miss(*t, *ray, t_min as int, t_max as int);
                }
                return None;
            }
            let hl = tree_hit(left, ray, t_min, t_max);
            let m: i64 = match &hl {
                Some(h) => h.t,
                None => t_max,
            };
            let hr = tree_hit(right, ray, t_min, m);
            proof {
                lemma_tree_leaves(**left);
                lemma_tree_leaves(**right);
                lemma_scan_append(
                    leaves(**left),
                    leaves(**right),
                    *ray,
                    t_min as int,
                    t_max as int,
                );
            }
            match hr {
                Some(h2) => Some(h2),
                None => hl,
            }
        },
    }
}

/// The root of a bounding-volume hierarchy built over a scene's objects.
pub struct BVHNode {
    root: BvhTree,
}

impl BVHNode {
    /// Whether the tree is well formed: every node's box is exactly the
    /// surrounding box of its children's (`tree_wf`), so boxes are tight
    /// and cover their subtrees — established by construction and relied
    /// on by traversal.
    pub closed spec fn wf(self) -> bool {
        tree_wf(self.root)
    }

    /// The leaf objects, in tree order (a permutation of the objects the
    /// hierarchy was built from).
    pub closed spec fn objects(self) -> Seq<Object> {
        leaves(self.root)
    }

    /// The box the root presents.
    pub closed spec fn root_box(self) -> Aabb {
        tree_box(self.root)
    }

    /// Whether the root is an interior node (two or more objects).
    pub closed spec fn root_is_node(self) -> bool {
        self.root is Node
    }

    /// How many leaf objects the root's left subtree holds; zero for a
    /// leaf root.
    pub closed spec fn left_count(self) -> int {
        match self.root {
            BvhTree::Leaf(_) => 0,
            BvhTree::Node { left, right, bbox } => leaves(*left).len() as int,
        }
    }

    /// How many leaf objects the root's right subtree holds; zero for a
    /// leaf root.
    pub closed spec fn right_count(self) -> int {
        match self.root {
            BvhTree::Leaf(_) => 0,
            BvhTree::Node { left, right, bbox } => leaves(*right).len() as int,
        }
    }

    /// Builds a hierarchy over the given objects for the time interval
    /// `[time0, time1]`; every leaf here carries its own bounds, so
    /// validation cannot fail, and only an empty scene is rejected.
    pub fn new(objects: Vec<Object>, time0: i64, time1: i64) -> (res: Option<BVHNode>)
        requires
            objects_wf(objects@),
        ensures
            res is Some <==> objects@.len() > 0,
            res matches Some(b) ==> b.wf() && b.objects().to_multiset() == objects@.to_multiset()
                && b.objects().len() == objects@.len(),
            objects@.len() == 1 ==> (res matches Some(b) ==> b.root_box() == obj_bbox(
                b.objects()[0],
            )),
            objects@.len() >= 2 ==> (res matches Some(b) ==> b.root_is_node() && b.left_count()
                == objects@.len() / 2 && b.right_count() == objects@.len() - objects@.len() / 2),
    {
        if objects.is_empty() {
            return None;
        }
        let ghost orig = objects@;
        let root = build_tree(objects);
        proof {
            broadcast use vstd::seq_lib::group_to_multiset_ensures;

            assert(leaves(root).to_multiset().len() == leaves(root).len());
            assert(orig.to_multiset().len() == orig.len());
            if orig.len() == 1 {
                if let BvhTree::Leaf(o) = root {
                    assert(leaves(root) =~= Seq::empty().push(o));
                    assert(leaves(root)[0] == o);
                }
            }
        }
        Some(BVHNode { root })
    }

    /// Exactly the closest hit a linear scan of the leaves would return.
    pub fn hit(&self, ray: &Ray, t_min: i64, t_max: i64) -> (res: Option<HitRecord>)
        requires
            self.wf(),
            ray_wf(*ray),
        ensures
            res == scan_hit(self.objects(), *ray, t_min as int, t_max as int),
    {
        tree_hit(&self.root, ray, t_min, t_max)
    }

    /// The precomputed box covering the whole tree.
    pub fn bounding_box(&self, _t0: i64, _t1: i64) -> (res: Aabb)
        requires
            self.wf(),
        ensures
            res == self.root_box(),
            box_wf(res),
            forall|i: int|
                0 <= i < self.objects().len() ==> contains_box(res, obj_bbox(
                    #[trigger] self.objects()[i],
                )),
    {
        proof {
            lemma_tree_leaves(self.root);
        }
        tree_box_of(&self.root)
    }
}

/// Traversal equals a brute-force scan in any member order: a hierarchy's
/// hit (a scan of its leaves, by `BVHNode::hit`) reports a hit exactly
/// when a linear scan of any list holding the same primitives does, with
/// the same closest parameter. Which record wins an exact tie between two
/// primitives at the same parameter is the one order-dependent remnant,
/// as in any scan order.
pub proof fn lemma_bvh_scan_any_order(b: BVHNode, objs: Seq<Object>, r: Ray, tmin: int, tmax: int)
    requires
        b.wf(),
        objects_wf(objs),
        b.objects().to_multiset() == objs.to_multiset(),
        -0x8000_0000_0000_0000 <= tmin,
        tmax <= 0x7fff_ffff_ffff_ffff,
    ensures
        scan_hit(b.objects(), r, tmin, tmax) is Some <==> scan_hit(objs, r, tmin, tmax) is Some,
        scan_hit(b.objects(), r, tmin, tmax) matches Some(ha) ==> (scan_hit(
            objs,
            r,
            tmin,
            tmax,
        ) matches Some(hb) ==> ha.t == hb.t),
{
    lemma_tree_leaves(b.root);
    lemma_scan_permutation(b.objects(), objs, r, tmin, tmax);
}

} // verus!
