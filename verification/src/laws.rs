//! The library's cross-cutting guarantee about spatial acceleration: probing
//! the bounding-volume hierarchy finds exactly the hit exhaustive search
//! finds.
use crate::hittable::{hit_in_box, is_a_hit, no_hit, probe_post, prune_safe, HitRecord};
use crate::ray::Ray;
use crate::sphere::{rec_matches, sphere_hit_info, sphere_hits, Sphere};
use vstd::prelude::*;

verus! {

/// Nearest-hit equivalence: two probes of batches holding the same spheres
/// (however ordered or duplicated — as a tree built over a list is against
/// the list itself) report a hit for the same rays and at the same
/// parameter, as long as every reported hit passes its sphere's own box
/// (`prune_safe`, the numerical caveat of box pruning; a ray grazing a box's
/// exact edge can round off it, and nothing is promised there).
pub proof fn lemma_nearest_hit_equivalence(
    a: Seq<Sphere>,
    b: Seq<Sphere>,
    r: Ray,
    tmin: int,
    tmax: int,
    hit_a: bool,
    rec_a: HitRecord,
    hit_b: bool,
    rec_b: HitRecord,
    rec0a: HitRecord,
    rec0b: HitRecord,
)
    requires
        forall|s: Sphere| a.contains(s) <==> b.contains(s),
        prune_safe(a, r),
        probe_post(a, r, tmin, tmax, hit_a, rec0a, rec_a),
        probe_post(b, r, tmin, tmax, hit_b, rec0b, rec_b),
    ensures
        hit_a == hit_b,
        hit_a ==> rec_a.t == rec_b.t,
{
    // The pruning caveat carries across by membership.
    assert(prune_safe(b, r)) by {
        assert forall|i: int| 0 <= i < b.len() implies #[trigger] hit_in_box(b[i], r) by {
            assert(b.contains(b[i]));
            assert(a.contains(b[i]));
            let j = choose|j: int| 0 <= j < a.len() && a[j] == b[i];
            assert(hit_in_box(a[j], r));
        };
    };
    // A miss on one side is a miss on the other.
    assert(no_hit(a, r, tmin, tmax) <==> no_hit(b, r, tmin, tmax)) by {
        if no_hit(a, r, tmin, tmax) {
            assert forall|i: int| 0 <= i < b.len() implies !#[trigger] sphere_hits(
                b[i],
                r,
                tmin,
                tmax,
            ) by {
                assert(b.contains(b[i]));
                assert(a.contains(b[i]));
                let j = choose|j: int| 0 <= j < a.len() && a[j] == b[i];
                assert(!sphere_hits(a[j], r, tmin, tmax));
            };
        }
        if no_hit(b, r, tmin, tmax) {
            assert forall|i: int| 0 <= i < a.len() implies !#[trigger] sphere_hits(
                a[i],
                r,
                tmin,
                tmax,
            ) by {
                assert(a.contains(a[i]));
                assert(b.contains(a[i]));
                let j = choose|j: int| 0 <= j < b.len() && b[j] == a[i];
                assert(!sphere_hits(b[j], r, tmin, tmax));
            };
        }
    };
    assert(hit_a == hit_b);
    if hit_a {
        // Each result undercuts the other's witness, so the parameters agree.
        let i = choose|i: int|
            0 <= i < a.len() && #[trigger] sphere_hits(a[i], r, tmin, tmax) && rec_matches(
                a[i],
                sphere_hit_info(a[i], r, tmin, tmax),
                rec_a,
            );
        let j = choose|j: int|
            0 <= j < b.len() && #[trigger] sphere_hits(b[j], r, tmin, tmax) && rec_matches(
                b[j],
                sphere_hit_info(b[j], r, tmin, tmax),
                rec_b,
            );
        assert(a.contains(a[i]));
        assert(b.contains(a[i]));
        let i2 = choose|i2: int| 0 <= i2 < b.len() && b[i2] == a[i];
        assert(rec_b.t as int <= sphere_hit_info(b[i2], r, tmin, tmax).t);
        assert(b.contains(b[j]));
        assert(a.contains(b[j]));
        let j2 = choose|j2: int| 0 <= j2 < a.len() && a[j2] == b[j];
        assert(rec_a.t as int <= sphere_hit_info(a[j2], r, tmin, tmax).t);
    }
}

} // verus!
