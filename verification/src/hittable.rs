//! The result of a ray/surface intersection: where, which way the surface
//! faces, at what parameter, and with what material.
use crate::aabb::{aabb_hit_s, AABB};
use crate::bvh::BvhNode;
use crate::fixed::{iabs, SCALE};
use crate::interval::Interval;
use crate::material::{Lambertian, Material};
use crate::ray::{Ray, RAY_MAX};
use crate::sphere::{
    lemma_hit_narrow, lemma_hit_widen, rec_matches, sphere_hit_info, sphere_hits, sphere_wf, Sphere,
};
use crate::vec3::{bounded_s, dot_s, neg_s, Point3, Vec3, V3};
use vstd::prelude::*;

verus! {

#[derive(Clone, Copy, PartialEq, Eq, Structural, Debug)]
pub struct HitRecord {
    pub p: Point3,
    pub normal: Vec3,
    pub mat: Material,
    pub t: i64,
    pub front_face: bool,
}

/// A record the tracer can act on: the point within the scene bound and the
/// normal within two units.
pub open spec fn hr_wf(rec: HitRecord) -> bool {
    bounded_s(rec.p.v(), RAY_MAX as int) && bounded_s(rec.normal.v(), 2 * SCALE as int)
}

impl HitRecord {
    /// A placeholder record: origin, zero normal, a neutral black diffuse
    /// material, parameter zero, back face.
    pub fn blank() -> (r: HitRecord)
        ensures
            r.p.v() == (V3 { x: 0, y: 0, z: 0 }),
            r.normal.v() == (V3 { x: 0, y: 0, z: 0 }),
            r.t == 0,
            r.front_face == false,
            hr_wf(r),
    {
        HitRecord {
            p: Point3::blank(),
            normal: Vec3::blank(),
            mat: Material::Lambertian(Lambertian::new(Vec3::blank())),
            t: 0,
            front_face: false,
        }
    }

    /// Orient the stored normal against the incoming ray: the hit is a front
    /// face when the ray runs against the outward normal, and the stored
    /// normal always faces the ray.
    pub fn set_face_normal(&mut self, r: &Ray, outward_normal: &Vec3)
        requires
            bounded_s(old(self).p.v(), RAY_MAX as int),
            bounded_s(r.direction.v(), RAY_MAX as int),
            bounded_s(outward_normal.v(), 2 * SCALE as int),
        ensures
            final(self).front_face == (dot_s(r.direction.v(), outward_normal.v()) < 0),
            final(self).front_face ==> final(self).normal == *outward_normal,
            !final(self).front_face ==> final(self).normal.v() == neg_s(outward_normal.v()),
            final(self).p == old(self).p,
            final(self).t == old(self).t,
            final(self).mat == old(self).mat,
            hr_wf(*final(self)),
    {
        let d: i64 = Vec3::dot(&r.direction, outward_normal);
        self.front_face = d < 0;
        if self.front_face {
            self.normal = *outward_normal;
        } else {
            self.normal = outward_normal.neg();
        }
    }
}

/// Anything a ray can be tested against: a sphere leaf or a subtree of the
/// bounding-volume hierarchy. The variant set is closed.
pub enum Object {
    Sphere(Sphere),
    Bvh(BvhNode),
}

impl Object {
    /// All spheres reachable through this object.
    pub open spec fn spheres(self) -> Seq<Sphere>
        decreases self,
    {
        match self {
            Object::Sphere(s) => seq![s],
            Object::Bvh(n) => n.spheres(),
        }
    }

    /// The object's bounding box.
    pub open spec fn bbox_of(self) -> AABB {
        match self {
            Object::Sphere(s) => s.bbox,
            Object::Bvh(n) => n.bbox,
        }
    }

    pub open spec fn wf(self) -> bool
        decreases self,
    {
        match self {
            Object::Sphere(s) => sphere_wf(s),
            Object::Bvh(n) => n.wf(),
        }
    }

    /// A deep copy.
    pub fn clone_obj(&self) -> (r: Object)
        ensures
            r == *self,
        decreases *self,
    {
        match self {
            Object::Sphere(s) => Object::Sphere(*s),
            Object::Bvh(n) => Object::Bvh(
                crate::bvh::BvhNode {
                    left: Box::new(n.left.clone_obj()),
                    right: Box::new(n.right.clone_obj()),
                    bbox: n.bbox,
                },
            ),
        }
    }

    pub fn bounding_box(&self) -> (r: &AABB)
        ensures
            *r == self.bbox_of(),
    {
        match self {
            Object::Sphere(s) => s.bounding_box(),
            Object::Bvh(n) => n.bounding_box(),
        }
    }

    /// Probe the object for the nearest hit strictly inside the range.
    pub fn hit(&self, r: &Ray, ray_t: Interval, rec: &mut HitRecord) -> (b: bool)
        requires
            self.wf(),
            bounded_s(r.origin.v(), RAY_MAX as int),
            bounded_s(r.direction.v(), RAY_MAX as int),
            iabs(r.time as int) <= SCALE as int,
        ensures
            probe_post(
                self.spheres(),
                *r,
                ray_t.min as int,
                ray_t.max as int,
                b,
                *old(rec),
                *final(rec),
            ),
        decreases *self,
    {
        match self {
            Object::Sphere(s) => {
                let b: bool = s.hit(r, ray_t, rec);
                proof {
                    let tmin = ray_t.min as int;
                    let tmax = ray_t.max as int;
                    assert(self.spheres() =~= seq![*s]);
                    assert(self.spheres()[0] == *s);
                    if b {
                        assert(is_a_hit(self.spheres(), *r, tmin, tmax, *rec));
                    } else {
                        assert(no_hit(self.spheres(), *r, tmin, tmax)) by {
                            assert forall|i: int| 0 <= i < self.spheres().len() implies !#[trigger] sphere_hits(
                                self.spheres()[i],
                                *r,
                                tmin,
                                tmax,
                            ) by {
                                assert(self.spheres()[i] == *s);
                            }
                        };
                    }
                }
                b
            },
            Object::Bvh(n) => n.hit(r, ray_t, rec),
        }
    }
}

/// A well-formed object holds only well-formed spheres.
pub proof fn lemma_spheres_wf(o: Object)
    requires
        o.wf(),
    ensures
        forall|i: int| 0 <= i < o.spheres().len() ==> sphere_wf(#[trigger] o.spheres()[i]),
    decreases o,
{
    match o {
        Object::Sphere(s) => {
            assert forall|i: int| 0 <= i < o.spheres().len() implies sphere_wf(
                #[trigger] o.spheres()[i],
            ) by {
                assert(o.spheres() =~= seq![s]);
                assert(o.spheres()[i] == s);
            };
        },
        Object::Bvh(n) => {
            lemma_spheres_wf(*n.left);
            lemma_spheres_wf(*n.right);
            assert forall|i: int| 0 <= i < o.spheres().len() implies sphere_wf(
                #[trigger] o.spheres()[i],
            ) by {
                let nl = (*n.left).spheres().len() as int;
                if i < nl {
                    assert(o.spheres()[i] == (*n.left).spheres()[i]);
                } else {
                    assert(o.spheres()[i] == (*n.right).spheres()[i - nl]);
                }
            };
        },
    }
}

/// All spheres of a batch of objects, in order.
pub open spec fn flat_spheres(objs: Seq<Object>) -> Seq<Sphere>
    decreases objs.len(),
{
    if objs.len() == 0 {
        Seq::empty()
    } else {
        flat_spheres(objs.drop_last()) + objs.last().spheres()
    }
}

/// A batch of well-formed objects flattens to well-formed spheres.
pub proof fn lemma_flat_wf(objs: Seq<Object>)
    requires
        forall|i: int| 0 <= i < objs.len() ==> (#[trigger] objs[i]).wf(),
    ensures
        forall|i: int|
            0 <= i < flat_spheres(objs).len() ==> sphere_wf(#[trigger] flat_spheres(objs)[i]),
    decreases objs.len(),
{
    if objs.len() > 0 {
        lemma_flat_wf(objs.drop_last());
        lemma_spheres_wf(objs.last());
        assert forall|i: int| 0 <= i < flat_spheres(objs).len() implies sphere_wf(
            #[trigger] flat_spheres(objs)[i],
        ) by {
            let nl = flat_spheres(objs.drop_last()).len() as int;
            if i < nl {
                assert(flat_spheres(objs)[i] == flat_spheres(objs.drop_last())[i]);
            } else {
                assert(flat_spheres(objs)[i] == objs.last().spheres()[i - nl]);
            }
        };
    }
}

/// Flattening distributes over concatenation.
pub proof fn lemma_flat_split(a: Seq<Object>, b: Seq<Object>)
    ensures
        flat_spheres(a + b) == flat_spheres(a) + flat_spheres(b),
    decreases b.len(),
{
    if b.len() == 0 {
        assert(a + b =~= a);
        assert(flat_spheres(a) + flat_spheres(b) =~= flat_spheres(a));
    } else {
        lemma_flat_split(a, b.drop_last());
        assert((a + b).drop_last() =~= a + b.drop_last());
        assert((a + b).last() == b.last());
        assert(flat_spheres(a) + flat_spheres(b.drop_last()) + b.last().spheres() =~= flat_spheres(
            a,
        ) + (flat_spheres(b.drop_last()) + b.last().spheres()));
    }
}

/// A sphere is in a flattened batch exactly when some object holds it.
pub proof fn lemma_flat_member(objs: Seq<Object>, s: Sphere)
    ensures
        flat_spheres(objs).contains(s) <==> exists|i: int|
            0 <= i < objs.len() && (#[trigger] objs[i]).spheres().contains(s),
    decreases objs.len(),
{
    if objs.len() > 0 {
        lemma_flat_member(objs.drop_last(), s);
        if flat_spheres(objs).contains(s) {
            if objs.last().spheres().contains(s) {
                assert(objs[objs.len() - 1].spheres().contains(s));
            } else {
                assert(flat_spheres(objs.drop_last()).contains(s)) by {
                    let k = choose|k: int|
                        0 <= k < flat_spheres(objs).len() && flat_spheres(objs)[k] == s;
                    if k < flat_spheres(objs.drop_last()).len() {
                        assert(flat_spheres(objs.drop_last())[k] == s);
                    } else {
                        assert(objs.last().spheres()[k - flat_spheres(
                            objs.drop_last(),
                        ).len()] == s);
                    }
                };
                let i = choose|i: int|
                    0 <= i < objs.drop_last().len() && (#[trigger] objs.drop_last()[i]).spheres().contains(
                        s,
                    );
                assert(objs[i].spheres().contains(s));
            }
        }
        if exists|i: int| 0 <= i < objs.len() && (#[trigger] objs[i]).spheres().contains(s) {
            let i = choose|i: int|
                0 <= i < objs.len() && (#[trigger] objs[i]).spheres().contains(s);
            if i == objs.len() - 1 {
                let k = choose|k: int|
                    0 <= k < objs.last().spheres().len() && objs.last().spheres()[k] == s;
                assert(flat_spheres(objs)[flat_spheres(objs.drop_last()).len() + k] == s);
            } else {
                assert(objs.drop_last()[i].spheres().contains(s));
                let k = choose|k: int|
                    0 <= k < flat_spheres(objs.drop_last()).len() && flat_spheres(
                        objs.drop_last(),
                    )[k] == s;
                assert(flat_spheres(objs)[k] == s);
            }
        }
    }
}

/// No sphere of the batch reports a hit in the range.
pub open spec fn no_hit(objs: Seq<Sphere>, r: Ray, tmin: int, tmax: int) -> bool {
    forall|i: int| 0 <= i < objs.len() ==> !#[trigger] sphere_hits(objs[i], r, tmin, tmax)
}

/// `rec` is the hit some sphere of the batch reports in the range.
pub open spec fn is_a_hit(objs: Seq<Sphere>, r: Ray, tmin: int, tmax: int, rec: HitRecord) -> bool {
    exists|i: int|
        0 <= i < objs.len() && #[trigger] sphere_hits(objs[i], r, tmin, tmax) && rec_matches(
            objs[i],
            sphere_hit_info(objs[i], r, tmin, tmax),
            rec,
        )
}

/// No sphere of the batch reports a hit nearer than `rec`'s.
pub open spec fn nearest_among(
    objs: Seq<Sphere>,
    r: Ray,
    tmin: int,
    tmax: int,
    rec: HitRecord,
) -> bool {
    forall|i: int|
        0 <= i < objs.len() && #[trigger] sphere_hits(objs[i], r, tmin, tmax) ==> rec.t as int
            <= sphere_hit_info(objs[i], r, tmin, tmax).t
}

/// Every hit this sphere reports passes its own bounding box's slab test:
/// the numerical caveat under which pruning by boxes loses nothing. It can
/// fail only for rays grazing a box's exact boundary, where the rounded
/// root of the quadratic may fall just outside the box.
pub open spec fn hit_in_box(s: Sphere, r: Ray) -> bool {
    forall|tmin: int, tmax: int|
        #[trigger] sphere_hits(s, r, tmin, tmax) ==> aabb_hit_s(
            s.bbox,
            r.origin.v(),
            r.direction.v(),
            tmin,
            tmax,
        )
}

/// The pruning caveat, batch-wide.
pub open spec fn prune_safe(objs: Seq<Sphere>, r: Ray) -> bool {
    forall|i: int| 0 <= i < objs.len() ==> #[trigger] hit_in_box(objs[i], r)
}

/// What every hit probe of this library establishes about a batch of spheres
/// searched over `(tmin, tmax)`: a reported record is a genuine nearest hit,
/// a miss leaves the record alone, and under the pruning caveat the probe
/// reports a hit exactly when one exists.
pub open spec fn probe_post(
    objs: Seq<Sphere>,
    r: Ray,
    tmin: int,
    tmax: int,
    b: bool,
    rec0: HitRecord,
    rec1: HitRecord,
) -> bool {
    &&& (!b ==> rec1 == rec0)
    &&& (b ==> (is_a_hit(objs, r, tmin, tmax, rec1) && tmin < rec1.t as int && (rec1.t as int)
        < tmax && hr_wf(rec1)))
    &&& (prune_safe(objs, r) ==> (b == !no_hit(objs, r, tmin, tmax)))
    &&& ((prune_safe(objs, r) && b) ==> nearest_among(objs, r, tmin, tmax, rec1))
}

/// Splitting the pruning caveat over a concatenation.
proof fn lemma_prune_safe_split(l: Seq<Sphere>, rt: Seq<Sphere>, r: Ray)
    requires
        prune_safe(l + rt, r),
    ensures
        prune_safe(l, r),
        prune_safe(rt, r),
{
    assert forall|i: int| 0 <= i < l.len() implies #[trigger] hit_in_box(l[i], r) by {
        assert((l + rt)[i] == l[i]);
        assert(hit_in_box((l + rt)[i], r));
    };
    assert forall|i: int| 0 <= i < rt.len() implies #[trigger] hit_in_box(rt[i], r) by {
        assert((l + rt)[l.len() + i] == rt[i]);
        assert(hit_in_box((l + rt)[l.len() + i], r));
    };
}

/// The composition at the heart of nearest-hit search: a probe of a first
/// batch over the full range, followed by a probe of a second batch over the
/// range tightened to the first hit, behaves like one probe of both batches.
pub proof fn lemma_probe_step(
    l: Seq<Sphere>,
    rt: Seq<Sphere>,
    r: Ray,
    tmin: int,
    tmax: int,
    x: int,
    had: bool,
    rec0: HitRecord,
    got: bool,
    rec1: HitRecord,
    rec_init: HitRecord,
)
    requires
        probe_post(l, r, tmin, tmax, had, rec_init, rec0),
        had ==> x == rec0.t as int,
        !had ==> x == tmax,
        probe_post(rt, r, tmin, x, got, rec0, rec1),
    ensures
        probe_post(l + rt, r, tmin, tmax, had || got, rec_init, rec1),
{
    let all = l + rt;
    if got {
        // The second probe's hit, widened back to the full range.
        let j = choose|j: int|
            0 <= j < rt.len() && #[trigger] sphere_hits(rt[j], r, tmin, x) && rec_matches(
                rt[j],
                sphere_hit_info(rt[j], r, tmin, x),
                rec1,
            );
        lemma_hit_widen(rt[j], r, tmin, x, tmax);
        assert(all[l.len() + j] == rt[j]);
        assert(is_a_hit(all, r, tmin, tmax, rec1));
        assert(tmin < rec1.t as int && (rec1.t as int) < tmax);
    } else if had {
        let j = choose|j: int|
            0 <= j < l.len() && #[trigger] sphere_hits(l[j], r, tmin, tmax) && rec_matches(
                l[j],
                sphere_hit_info(l[j], r, tmin, tmax),
                rec0,
            );
        assert(all[j] == l[j]);
        assert(is_a_hit(all, r, tmin, tmax, rec1));
    }
    if prune_safe(all, r) {
        lemma_prune_safe_split(l, rt, r);
        // The two probes together miss nothing.
        if !(had || got) {
            assert forall|i: int| 0 <= i < all.len() implies !#[trigger] sphere_hits(
                all[i],
                r,
                tmin,
                tmax,
            ) by {
                if i < l.len() {
                    assert(all[i] == l[i]);
                } else {
                    assert(all[i] == rt[i - l.len()]);
                    assert(!sphere_hits(rt[i - l.len()], r, tmin, x));
                    if sphere_hits(all[i], r, tmin, tmax) {
                        lemma_hit_narrow(rt[i - l.len()], r, tmin, x, tmax);
                    }
                }
            };
        }
        if had || got {
            assert(!no_hit(all, r, tmin, tmax)) by {
                if got {
                    let j = choose|j: int|
                        0 <= j < rt.len() && #[trigger] sphere_hits(rt[j], r, tmin, x)
                            && rec_matches(rt[j], sphere_hit_info(rt[j], r, tmin, x), rec1);
                    lemma_hit_widen(rt[j], r, tmin, x, tmax);
                    assert(sphere_hits(all[l.len() + j], r, tmin, tmax));
                } else {
                    let j = choose|j: int|
                        0 <= j < l.len() && #[trigger] sphere_hits(l[j], r, tmin, tmax)
                            && rec_matches(l[j], sphere_hit_info(l[j], r, tmin, tmax), rec0);
                    assert(sphere_hits(all[j], r, tmin, tmax));
                }
            };
            // Minimality over both batches.
            assert forall|i: int|
                0 <= i < all.len() && #[trigger] sphere_hits(all[i], r, tmin, tmax) implies rec1.t
                as int <= sphere_hit_info(all[i], r, tmin, tmax).t by {
                let ti = sphere_hit_info(all[i], r, tmin, tmax).t;
                if i < l.len() {
                    assert(all[i] == l[i]);
                    if had {
                        assert(rec0.t as int <= ti);
                        if got {
                            assert((rec1.t as int) < x && x == rec0.t as int);
                        }
                    } else {
                        assert(!sphere_hits(l[i], r, tmin, tmax));
                    }
                } else {
                    let s = rt[i - l.len()];
                    assert(all[i] == s);
                    if got {
                        if ti < x {
                            lemma_hit_narrow(s, r, tmin, x, tmax);
                            assert(sphere_hits(s, r, tmin, x));
                            assert(rec1.t as int <= sphere_hit_info(s, r, tmin, x).t);
                        } else {
                            assert((rec1.t as int) < x && x <= ti);
                        }
                    } else {
                        // had, and the tightened probe of the second batch
                        // found nothing, so nothing there beats rec0.
                        if ti < x {
                            lemma_hit_narrow(s, r, tmin, x, tmax);
                            assert(sphere_hits(s, r, tmin, x));
                            assert(!no_hit(rt, r, tmin, x));
                        }
                        assert(x <= ti);
                        assert(rec1 == rec0);
                    }
                }
            };
        }
    }
}

} // verus!
