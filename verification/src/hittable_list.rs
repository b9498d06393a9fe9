//! An unordered collection of hittables: linear-scan intersection keeping
//! the closest hit, folded bounding boxes, and uniform mixture sampling
//! over members for light sampling.
//!
//! `scan_hit` is the reference semantics of intersection against a group
//! of objects; the BVH is proved to return exactly what a scan of its
//! leaves returns.

use vstd::prelude::*;
use crate::math::SCALE;
use crate::vec3::{Vec3, Point};
use crate::ray::{Ray, ray_wf};
use crate::aabb::{Aabb, box_wf, surrounding_box_spec, strict_inside};
use crate::hit_record::HitRecord;
use crate::hittable::{Object, obj_wf, obj_hit, obj_bbox, obj_query_box, lemma_obj_range,
    lemma_obj_narrow};
use crate::sampling::random_below;

verus! {

/// Every object in the sequence is well formed.
pub open spec fn objects_wf(objs: Seq<Object>) -> bool {
    forall|i: int| 0 <= i < objs.len() ==> obj_wf(#[trigger] objs[i])
}

/// What a linear scan returns: objects are tested in order and the upper
/// search bound shrinks to the best parameter found so far, so a later
/// candidate replaces the record only by being strictly closer.
pub open spec fn scan_hit(objs: Seq<Object>, r: Ray, tmin: int, tmax: int) -> Option<HitRecord>
    decreases objs.len(),
{
    if objs.len() == 0 {
        None
    } else {
        match scan_hit(objs.drop_last(), r, tmin, tmax) {
            None => obj_hit(objs.last(), r, tmin, tmax),
            Some(h) => match obj_hit(objs.last(), r, tmin, h.t as int) {
                Some(h2) => Some(h2),
                None => Some(h),
            },
        }
    }
}

/// A scan's record has its parameter in the query interval and its point
/// strictly inside some member's bounding box.
pub proof fn lemma_scan_range(objs: Seq<Object>, r: Ray, tmin: int, tmax: int)
    requires
        objects_wf(objs),
        -0x8000_0000_0000_0000 <= tmin,
        tmax <= 0x7fff_ffff_ffff_ffff,
    ensures
        scan_hit(objs, r, tmin, tmax) matches Some(h) ==> tmin < h.t < tmax && exists|i: int|
            0 <= i < objs.len() && strict_inside(r, h.t as int, obj_bbox(#[trigger] objs[i])),
    decreases objs.len(),
{
    if objs.len() > 0 {
        let pre = objs.drop_last();
        lemma_scan_range(pre, r, tmin, tmax);
        match scan_hit(pre, r, tmin, tmax) {
            None => {
                lemma_obj_range(objs.last(), r, tmin, tmax);
                if let Some(h) = obj_hit(objs.last(), r, tmin, tmax) {
                    assert(strict_inside(r, h.t as int, obj_bbox(objs[objs.len() - 1])));
                }
            },
            Some(h) => {
                let j = choose|i: int|
                    0 <= i < pre.len() && strict_inside(r, h.t as int, obj_bbox(#[trigger] pre[i]));
                lemma_obj_range(objs.last(), r, tmin, h.t as int);
                match obj_hit(objs.last(), r, tmin, h.t as int) {
                    Some(h2) => {
                        assert(strict_inside(r, h2.t as int, obj_bbox(objs[objs.len() - 1])));
                    },
                    None => {
                        assert(pre[j] == objs[j]);
                        assert(strict_inside(r, h.t as int, obj_bbox(objs[j])));
                    },
                }
            },
        }
    }
}

/// Narrowing the upper bound keeps the same scan record when its
/// parameter survives, and yields nothing otherwise.
pub proof fn lemma_scan_narrow(objs: Seq<Object>, r: Ray, tmin: int, tmax: int, tmax2: int)
    requires
        objects_wf(objs),
        tmax2 <= tmax,
        -0x8000_0000_0000_0000 <= tmin,
        tmax <= 0x7fff_ffff_ffff_ffff,
    ensures
        scan_hit(objs, r, tmin, tmax2) == (match scan_hit(objs, r, tmin, tmax) {
            Some(h) => if h.t < tmax2 {
                Some(h)
            } else {
                None::<HitRecord>
            },
            None => None::<HitRecord>,
        }),
    decreases objs.len(),
{
    if objs.len() > 0 {
        let pre = objs.drop_last();
        let last = objs.last();
        lemma_scan_narrow(pre, r, tmin, tmax, tmax2);
        lemma_scan_range(pre, r, tmin, tmax);
        match scan_hit(pre, r, tmin, tmax) {
            None => {
                lemma_obj_narrow(last, r, tmin, tmax, tmax2);
            },
            Some(h) => {
                if h.t < tmax2 {
                    // the narrow scan sees the same best-so-far, so the
                    // last object is queried with the same bound
                } else {
                    lemma_obj_narrow(last, r, tmin, h.t as int, tmax2);
                    lemma_obj_range(last, r, tmin, h.t as int);
                }
            },
        }
    }
}

/// A scan over objects none of which hits returns nothing.
pub proof fn lemma_scan_none(objs: Seq<Object>, r: Ray, tmin: int, tmax: int)
    requires
        objects_wf(objs),
        -0x8000_0000_0000_0000 <= tmin,
        tmax <= 0x7fff_ffff_ffff_ffff,
        forall|i: int| 0 <= i < objs.len() ==> obj_hit(#[trigger] objs[i], r, tmin, tmax) is None,
    ensures
        scan_hit(objs, r, tmin, tmax) is None,
    decreases objs.len(),
{
    if objs.len() > 0 {
        let pre = objs.drop_last();
        assert(forall|i: int|
            0 <= i < pre.len() ==> obj_hit(#[trigger] pre[i], r, tmin, tmax) is None) by {
            assert(forall|i: int| 0 <= i < pre.len() ==> pre[i] == objs[i]);
        }
        lemma_scan_none(pre, r, tmin, tmax);
        assert(obj_hit(objs.last(), r, tmin, tmax) is None);
    }
}

/// Scanning a concatenation equals scanning the first part, shrinking the
/// bound to its best parameter, and scanning the second part — exactly
/// what a BVH node does with its two children.
pub proof fn lemma_scan_append(a: Seq<Object>, b: Seq<Object>, r: Ray, tmin: int, tmax: int)
    requires
        objects_wf(a),
        objects_wf(b),
        -0x8000_0000_0000_0000 <= tmin,
        tmax <= 0x7fff_ffff_ffff_ffff,
    ensures
        scan_hit(a + b, r, tmin, tmax) == (
        {
            let hl = scan_hit(a, r, tmin, tmax);
            let m = match hl {
                Some(h) => h.t as int,
                None => tmax,
            };
            match scan_hit(b, r, tmin, m) {
                Some(h2) => Some(h2),
                None => hl,
            }
        }),
    decreases b.len(),
{
    let hl = scan_hit(a, r, tmin, tmax);
    lemma_scan_range(a, r, tmin, tmax);
    let m: int = match hl {
        Some(h) => h.t as int,
        None => tmax,
    };
    if b.len() == 0 {
        assert(a + b =~= a);
    } else {
        let bpre = b.drop_last();
        let last = b.last();
        assert(objects_wf(bpre)) by {
            assert(forall|i: int| 0 <= i < bpre.len() ==> bpre[i] == b[i]);
        }
        lemma_scan_append(a, bpre, r, tmin, tmax);
        assert((a + b).drop_last() =~= a + bpre);
        assert((a + b).last() == last);
        lemma_scan_range(bpre, r, tmin, m);
        match scan_hit(bpre, r, tmin, m) {
            Some(h2) => {
                // the combined prefix best is h2, with h2.t < m
            },
            None => {
                // the combined prefix best is hl (or nothing)
            },
        }
    }
}

/// When a scan returns nothing, no member hits at all over the full
/// interval.
#[verifier::rlimit(100)]
pub proof fn lemma_scan_all_none(objs: Seq<Object>, r: Ray, tmin: int, tmax: int)
    requires
        objects_wf(objs),
        -0x8000_0000_0000_0000 <= tmin,
        tmax <= 0x7fff_ffff_ffff_ffff,
        scan_hit(objs, r, tmin, tmax) is None,
    ensures
        forall|j: int| 0 <= j < objs.len() ==> obj_hit(#[trigger] objs[j], r, tmin, tmax) is None,
    decreases objs.len(),
{
    if objs.len() > 0 {
        let pre = objs.drop_last();
        assert(forall|j: int| 0 <= j < pre.len() ==> pre[j] == objs[j]);
        match scan_hit(pre, r, tmin, tmax) {
            None => {
                lemma_scan_all_none(pre, r, tmin, tmax);
            },
            Some(hp) => {
                // the combined scan is always a hit here, contradiction
                assert(scan_hit(objs, r, tmin, tmax) is Some);
            },
        }
    }
}

/// When a scan returns a record, some member returns exactly that record
/// over the full interval, and no member's full-interval hit is strictly
/// closer.
#[verifier::rlimit(100)]
pub proof fn lemma_scan_min(objs: Seq<Object>, r: Ray, tmin: int, tmax: int)
    requires
        objects_wf(objs),
        -0x8000_0000_0000_0000 <= tmin,
        tmax <= 0x7fff_ffff_ffff_ffff,
    ensures
        scan_hit(objs, r, tmin, tmax) matches Some(h) ==> (exists|j: int|
            0 <= j < objs.len() && obj_hit(#[trigger] objs[j], r, tmin, tmax) == Some(h)) && (
        forall|j: int|
            0 <= j < objs.len() ==> (obj_hit(#[trigger] objs[j], r, tmin, tmax) matches Some(hj)
                ==> h.t <= hj.t)),
    decreases objs.len(),
{
    if objs.len() > 0 {
        let pre = objs.drop_last();
        let last = objs.last();
        assert(forall|j: int| 0 <= j < pre.len() ==> pre[j] == objs[j]);
        lemma_scan_min(pre, r, tmin, tmax);
        lemma_scan_range(pre, r, tmin, tmax);
        match scan_hit(pre, r, tmin, tmax) {
            None => {
                lemma_scan_all_none(pre, r, tmin, tmax);
                if let Some(h) = obj_hit(last, r, tmin, tmax) {
                    assert(obj_hit(objs[objs.len() - 1], r, tmin, tmax) == Some(h));
                }
            },
            Some(hp) => {
                let jp = choose|j: int|
                    0 <= j < pre.len() && obj_hit(#[trigger] pre[j], r, tmin, tmax) == Some(hp);
                lemma_obj_narrow(last, r, tmin, tmax, hp.t as int);
                match obj_hit(last, r, tmin, hp.t as int) {
                    Some(hl) => {
                        assert(obj_hit(objs[objs.len() - 1], r, tmin, tmax) == Some(hl));
                        assert(hl.t < hp.t);
                    },
                    None => {
                        assert(obj_hit(objs[jp], r, tmin, tmax) == Some(hp));
                    },
                }
            },
        }
    }
}

/// Scans over any two orderings of the same primitives agree on whether
/// anything is hit and on the closest parameter. Which record wins an
/// exact tie between two primitives at the same parameter may differ with
/// the order; everything else is order-free.
pub proof fn lemma_scan_permutation(a: Seq<Object>, b: Seq<Object>, r: Ray, tmin: int, tmax: int)
    requires
        objects_wf(a),
        objects_wf(b),
        a.to_multiset() == b.to_multiset(),
        -0x8000_0000_0000_0000 <= tmin,
        tmax <= 0x7fff_ffff_ffff_ffff,
    ensures
        scan_hit(a, r, tmin, tmax) is Some <==> scan_hit(b, r, tmin, tmax) is Some,
        scan_hit(a, r, tmin, tmax) matches Some(ha) ==> (scan_hit(b, r, tmin, tmax) matches Some(
            hb,
        ) ==> ha.t == hb.t),
{
    broadcast use vstd::seq_lib::group_to_multiset_ensures;

    lemma_scan_half(a, b, r, tmin, tmax);
    lemma_scan_half(b, a, r, tmin, tmax);
}

/// One direction of the permutation argument: a hit found scanning `a`
/// forces a hit at most as far scanning `b`.
#[verifier::rlimit(100)]
proof fn lemma_scan_half(a: Seq<Object>, b: Seq<Object>, r: Ray, tmin: int, tmax: int)
    requires
        objects_wf(a),
        objects_wf(b),
        a.to_multiset() == b.to_multiset(),
        -0x8000_0000_0000_0000 <= tmin,
        tmax <= 0x7fff_ffff_ffff_ffff,
    ensures
        scan_hit(a, r, tmin, tmax) matches Some(ha) ==> (scan_hit(b, r, tmin, tmax) matches Some(
            hb,
        ) && hb.t <= ha.t),
{
    broadcast use vstd::seq_lib::group_to_multiset_ensures;

    lemma_scan_min(a, r, tmin, tmax);
    lemma_scan_min(b, r, tmin, tmax);
    if let Some(ha) = scan_hit(a, r, tmin, tmax) {
        let ja = choose|j: int|
            0 <= j < a.len() && obj_hit(#[trigger] a[j], r, tmin, tmax) == Some(ha);
        assert(a.to_multiset().contains(a[ja])) by {
            assert(a.contains(a[ja]));
        }
        assert(b.contains(a[ja]));
        let jb = choose|j: int| 0 <= j < b.len() && b[j] == a[ja];
        assert(obj_hit(b[jb], r, tmin, tmax) == Some(ha));
        if scan_hit(b, r, tmin, tmax) is None {
            lemma_scan_all_none(b, r, tmin, tmax);
            assert(obj_hit(b[jb], r, tmin, tmax) is None);
            assert(false);
        }
        let hb = scan_hit(b, r, tmin, tmax)->Some_0;
        assert(obj_hit(b[jb], r, tmin, tmax) matches Some(hj) ==> hb.t <= hj.t);
        assert(hb.t <= ha.t);
    }
}

/// A linear container of hittables.
pub struct HittableList {
    objects: Vec<Object>,
}

impl View for HittableList {
    type V = Seq<Object>;

    closed spec fn view(&self) -> Seq<Object> {
        self.objects@
    }
}

/// The fold of the members' boxes over the queried time interval, seeded
/// with the first member's own box: exactly the union of what the members
/// occupy, nothing more.
pub open spec fn list_box_fold(objs: Seq<Object>, t0: int, t1: int) -> Aabb
    decreases objs.len(),
{
    if objs.len() <= 1 {
        obj_query_box(objs[0], t0, t1)
    } else {
        surrounding_box_spec(
            list_box_fold(objs.drop_last(), t0, t1),
            obj_query_box(objs.last(), t0, t1),
        )
    }
}

impl HittableList {
    /// An empty list.
    pub fn new() -> (l: HittableList)
        ensures
            l@ == Seq::<Object>::empty(),
    {
        HittableList { objects: Vec::new() }
    }

    /// Appends one hittable.
    pub fn add(&mut self, object: Object)
        ensures
            final(self)@ == old(self)@.push(object),
    {
        self.objects.push(object);
    }

    pub fn is_empty(&self) -> (r: bool)
        ensures
            r == (self@.len() == 0),
    {
        self.objects.is_empty()
    }

    pub fn len(&self) -> (n: usize)
        ensures
            n == self@.len(),
    {
        self.objects.len()
    }

    /// The member at `i`.
    pub fn get(&self, i: usize) -> (o: &Object)
        requires
            i < self@.len(),
        ensures
            *o == self@[i as int],
    {
        &self.objects[i]
    }

    /// Linear-scan intersection: every member is tested and the closest
    /// record wins, the upper bound shrinking to each hit found.
    pub fn hit(&self, ray: &Ray, t_min: i64, t_max: i64) -> (res: Option<HitRecord>)
        requires
            objects_wf(self@),
            ray_wf(*ray),
        ensures
            res == scan_hit(self@, *ray, t_min as int, t_max as int),
    {
        let mut best: Option<HitRecord> = None;
        let mut closest: i64 = t_max;
        let n = self.objects.len();
        let mut i: usize = 0;
        while i < n
            invariant
                n == self@.len(),
                0 <= i <= n,
                objects_wf(self@),
                ray_wf(*ray),
                match best {
                    None => closest == t_max && scan_hit(
                        self@.take(i as int),
                        *ray,
                        t_min as int,
                        t_max as int,
                    ) is None,
                    Some(h) => closest == h.t && scan_hit(
                        self@.take(i as int),
                        *ray,
                        t_min as int,
                        t_max as int,
                    ) == Some(h),
                },
            decreases n - i,
        {
            proof {
                assert(self@.take(i as int + 1).drop_last() =~= self@.take(i as int));
                assert(self@.take(i as int + 1).last() == self@[i as int]);
            }
            let cur = self.objects[i].hit(ray, t_min, closest);
            match cur {
                Some(h2) => {
                    closest = h2.t;
                    best = Some(h2);
                },
                None => {
                },
            }
            i = i + 1;
        }
        proof {
            assert(self@.take(n as int) =~= self@);
        }
        best
    }

    /// Folds the members' boxes over `[t0, t1]` with the surrounding-box
    /// merge, starting from the first member's own box: the union of
    /// exactly what the members occupy. An empty list has no box; every
    /// member here is bounded, so absence only signals emptiness.
    pub fn bounding_box(&self, t0: i64, t1: i64) -> (res: Option<Aabb>)
        requires
            objects_wf(self@),
        ensures
            self@.len() == 0 ==> res is None,
            self@.len() > 0 ==> res == Some(list_box_fold(self@, t0 as int, t1 as int)) && box_wf(
                list_box_fold(self@, t0 as int, t1 as int),
            ),
    {
        if self.objects.is_empty() {
            return None;
        }
        let mut temp = self.objects[0].bounding_box(t0, t1);
        let n = self.objects.len();
        let mut i: usize = 1;
        proof {
            assert(self@.take(1int) =~= Seq::empty().push(self@[0]));
            assert(self@.take(1int)[0] == self@[0]);
        }
        while i < n
            invariant
                n == self@.len(),
                1 <= i <= n,
                objects_wf(self@),
                temp == list_box_fold(self@.take(i as int), t0 as int, t1 as int),
                box_wf(temp),
            decreases n - i,
        {
            proof {
                assert(self@.take(i as int + 1).drop_last() =~= self@.take(i as int));
                assert(self@.take(i as int + 1).last() == self@[i as int]);
            }
            let member_box = self.objects[i].bounding_box(t0, t1);
            temp = temp.surrounding_box(&member_box);
            i = i + 1;
        }
        proof {
            assert(self@.take(n as int) =~= self@);
        }
        Some(temp)
    }

    /// The unweighted mean of member light-sampling weights: a uniform
    /// mixture over members. None of this crate's primitives implements a
    /// light-sampling weight, so the mean is zero.
    pub fn pdf_value(&self, origin: &Point, direction: &Vec3) -> (r: i64)
        requires
            self@.len() > 0,
            self@.len() < 0x1_0000_0000,
        ensures
            r == 0,
    {
        let n = self.objects.len();
        let mut sum: i64 = 0;
        let mut i: usize = 0;
        while i < n
            invariant
                n == self@.len(),
                0 <= i <= n,
                sum == 0,
            decreases n - i,
        {
            let w = self.objects[i].pdf_value(origin, direction);
            sum = sum + w;
            i = i + 1;
        }
        let r = sum / (n as i64);
        proof {
            assert(r == 0) by (nonlinear_arith)
                requires
                    r == 0int / (n as int),
                    n >= 1,
            ;
        }
        r
    }

    /// Delegates to one member picked uniformly at random.
    pub fn random(&self, origin: &Point) -> (r: Vec3)
        requires
            self@.len() > 0,
            self@.len() < 0x1_0000_0000,
        ensures
            r == (Vec3 { x: 0i64, y: SCALE, z: 0i64 }),
    {
        let n = self.objects.len();
        let idx = random_below(n as u32) as usize;
        self.objects[idx].random(origin)
    }
}

} // verus!
