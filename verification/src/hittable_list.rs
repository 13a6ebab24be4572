//! A flat, ordered scene: nearest-hit search by walking every member with the
//! search range tightened to each hit found.
use crate::aabb::AABB;
use crate::fixed::{iabs, SCALE};
use crate::hittable::{
    flat_spheres, lemma_probe_step, probe_post, HitRecord, Object,
};
use crate::interval::Interval;
use crate::ray::{Ray, RAY_MAX};
use crate::vec3::bounded_s;
use vstd::prelude::*;

verus! {

pub struct HittableList {
    pub objects: Vec<Object>,
    pub bbox: AABB,
}

impl HittableList {
    pub open spec fn wf(self) -> bool {
        forall|i: int| 0 <= i < self.objects@.len() ==> (#[trigger] self.objects@[i]).wf()
    }

    /// All spheres of the list, in member order.
    pub open spec fn spheres(self) -> Seq<crate::sphere::Sphere> {
        flat_spheres(self.objects@)
    }

    /// The empty scene, with the empty box.
    pub fn new() -> (r: HittableList)
        ensures
            r.objects@ == Seq::<Object>::empty(),
            r.wf(),
    {
        HittableList { objects: Vec::new(), bbox: AABB::blank() }
    }

    /// A scene of one object.
    pub fn single(object: Object) -> (r: HittableList)
        requires
            object.wf(),
        ensures
            r.objects@ =~= seq![object],
            r.wf(),
    {
        let mut list: HittableList = HittableList::new();
        list.add(object);
        list
    }

    /// Drop every object; the union box reverts to the canonical empty box,
    /// since a list carries the union box of its members.
    pub fn clear(&mut self)
        ensures
            final(self).objects@ == Seq::<Object>::empty(),
            final(self).bbox.x.min == i64::MAX && final(self).bbox.x.max == i64::MIN,
            final(self).bbox.y.min == i64::MAX && final(self).bbox.y.max == i64::MIN,
            final(self).bbox.z.min == i64::MAX && final(self).bbox.z.max == i64::MIN,
            final(self).wf(),
    {
        self.objects.clear();
        self.bbox = AABB::blank();
    }

    /// Append an object, growing the list's box around its box.
    pub fn add(&mut self, object: Object)
        requires
            object.wf(),
        ensures
            final(self).objects@ == old(self).objects@.push(object),
            old(self).wf() ==> final(self).wf(),
            final(self).bbox.x.min as int == crate::fixed::imin(
                old(self).bbox.x.min as int,
                object.bbox_of().x.min as int,
            ),
            final(self).bbox.x.max as int == crate::fixed::imax(
                old(self).bbox.x.max as int,
                object.bbox_of().x.max as int,
            ),
            final(self).bbox.y.min as int == crate::fixed::imin(
                old(self).bbox.y.min as int,
                object.bbox_of().y.min as int,
            ),
            final(self).bbox.y.max as int == crate::fixed::imax(
                old(self).bbox.y.max as int,
                object.bbox_of().y.max as int,
            ),
            final(self).bbox.z.min as int == crate::fixed::imin(
                old(self).bbox.z.min as int,
                object.bbox_of().z.min as int,
            ),
            final(self).bbox.z.max as int == crate::fixed::imax(
                old(self).bbox.z.max as int,
                object.bbox_of().z.max as int,
            ),
    {
        let ob: &AABB = object.bounding_box();
        self.bbox = AABB::from_boxes(&self.bbox, ob);
        self.objects.push(object);
        proof {
            if old(self).wf() {
                assert forall|i: int| 0 <= i < self.objects@.len() implies (
                #[trigger] self.objects@[i]).wf() by {
                    if i < old(self).objects@.len() {
                        assert(self.objects@[i] == old(self).objects@[i]);
                    } else {
                        assert(self.objects@[i] == object);
                    }
                };
            }
        }
    }

    pub fn bounding_box(&self) -> (r: &AABB)
        ensures
            r == &self.bbox,
    {
        &self.bbox
    }

    /// The nearest hit among all members strictly inside the range, found by
    /// shrinking the upper bound of the search window to each hit's
    /// parameter, so no member beyond the nearest can win.
    pub fn hit(&self, r: &Ray, ray_t: Interval, rec: &mut HitRecord) -> (b: bool)
        requires
            self.wf(),
            bounded_s(r.origin.v(), RAY_MAX as int),
            bounded_s(r.direction.v(), RAY_MAX as int),
            iabs(r.time as int) <= SCALE as int,
        ensures
            probe_post(
                self.spheres(),
                *r,
                ray_t.min as int,
                ray_t.max as int,
                b,
                *old(rec),
                *final(rec),
            ),
    {
        let ghost rec_init = *rec;
        let mut temp_rec: HitRecord = HitRecord::blank();
        let mut hit_anything: bool = false;
        let mut closest_so_far: i64 = ray_t.max;
        let mut idx: usize = 0;
        proof {
            assert(self.objects@.take(0) =~= Seq::<Object>::empty());
        }
        while idx < self.objects.len()
            invariant
                0 <= idx <= self.objects@.len(),
                self.wf(),
                bounded_s(r.origin.v(), RAY_MAX as int),
                bounded_s(r.direction.v(), RAY_MAX as int),
                iabs(r.time as int) <= SCALE as int,
                probe_post(
                    flat_spheres(self.objects@.take(idx as int)),
                    *r,
                    ray_t.min as int,
                    ray_t.max as int,
                    hit_anything,
                    rec_init,
                    *rec,
                ),
                hit_anything ==> closest_so_far == rec.t,
                !hit_anything ==> closest_so_far == ray_t.max,
            decreases self.objects@.len() - idx,
        {
            let ghost had0 = hit_anything;
            let ghost rec_before = *rec;
            let ghost x0 = closest_so_far as int;
            let got: bool = self.objects[idx].hit(
                r,
                Interval::new(ray_t.min, closest_so_far),
                &mut temp_rec,
            );
            if got {
                hit_anything = true;
                *rec = temp_rec;
                closest_so_far = temp_rec.t;
            }
            proof {
                let prefix = flat_spheres(self.objects@.take(idx as int));
                let cur = self.objects@[idx as int].spheres();
                assert(self.objects@.take(idx as int + 1).drop_last() =~= self.objects@.take(
                    idx as int,
                ));
                assert(self.objects@.take(idx as int + 1).last() == self.objects@[idx as int]);
                assert(flat_spheres(self.objects@.take(idx as int + 1)) == prefix + cur);
                assert(probe_post(cur, *r, ray_t.min as int, x0, got, rec_before, *rec));
                lemma_probe_step(
                    prefix,
                    cur,
                    *r,
                    ray_t.min as int,
                    ray_t.max as int,
                    x0,
                    had0,
                    rec_before,
                    got,
                    *rec,
                    rec_init,
                );
            }
            idx = idx + 1;
        }
        proof {
            assert(self.objects@.take(self.objects@.len() as int) =~= self.objects@);
        }
        hit_anything
    }
}

} // verus!
