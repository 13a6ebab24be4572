//! The bounding-volume hierarchy: a binary tree over the scene's objects,
//! built by recursive splitting along the longest axis, traversed with the
//! search range tightened to the nearest hit found so far.
use crate::aabb::{box_contains, lemma_aabb_hit_monotone, AABB};
use crate::fixed::{iabs, SCALE};
use crate::hittable::{
    flat_spheres, lemma_flat_member, lemma_flat_split, lemma_probe_step, probe_post, prune_safe,
    HitRecord, Object,
};
use crate::interval::Interval;
use crate::ray::{Ray, RAY_MAX};
use crate::sphere::{sphere_hits, Sphere};
use crate::vec3::bounded_s;
use vstd::prelude::*;

verus! {

pub struct BvhNode {
    pub left: Box<Object>,
    pub right: Box<Object>,
    pub bbox: AABB,
}

/// Every object of the span has its box inside `bb`.
pub open spec fn boxes_bound(bb: AABB, objs: Seq<Object>, start: int, end: int) -> bool {
    forall|i: int| start <= i < end ==> box_contains(bb, (#[trigger] objs[i]).bbox_of())
}

impl BvhNode {
    /// All spheres below this node, left subtree first.
    pub open spec fn spheres(self) -> Seq<Sphere>
        decreases self,
    {
        (*self.left).spheres() + (*self.right).spheres()
    }

    /// A sound node: well-formed subtrees, every sphere's box inside this
    /// node's box.
    pub open spec fn wf(self) -> bool
        decreases self,
    {
        &&& (*self.left).wf()
        &&& (*self.right).wf()
        &&& forall|i: int|
            0 <= i < self.spheres().len() ==> box_contains(
                self.bbox,
                (#[trigger] self.spheres()[i]).bbox,
            )
    }

    pub fn bounding_box(&self) -> (r: &AABB)
        ensures
            r == &self.bbox,
    {
        &self.bbox
    }

    /// Build a tree over `objects[start..end]`: box the span, sort it along
    /// the box's longest axis, split at the middle and recurse; spans of one
    /// or two become leaves. The span is permuted in place and nothing
    /// outside it moves.
    #[verifier::spinoff_prover]
    #[verifier::rlimit(100)]
    pub fn new(objects: &mut Vec<Object>, start: usize, end: usize) -> (r: BvhNode)
        requires
            start < end <= old(objects)@.len(),
            forall|i: int| 0 <= i < old(objects)@.len() ==> (#[trigger] old(objects)@[i]).wf(),
        ensures
            final(objects)@.len() == old(objects)@.len(),
            forall|i: int| 0 <= i < final(objects)@.len() ==> (#[trigger] final(objects)@[i]).wf(),
            forall|i: int|
                0 <= i < final(objects)@.len() && !(start <= i < end) ==> final(objects)@[i] == old(
                    objects,
                )@[i],
            final(objects)@.subrange(start as int, end as int).to_multiset() == old(
                objects,
            )@.subrange(start as int, end as int).to_multiset(),
            r.wf(),
            forall|s: Sphere|
                r.spheres().contains(s) <==> flat_spheres(
                    final(objects)@.subrange(start as int, end as int),
                ).contains(s),
            boxes_bound(r.bbox, final(objects)@, start as int, end as int),
            exists|i: int|
                start <= i < end && (#[trigger] final(objects)@[i]).bbox_of().x.min == r.bbox.x.min,
            exists|i: int|
                start <= i < end && (#[trigger] final(objects)@[i]).bbox_of().x.max == r.bbox.x.max,
            exists|i: int|
                start <= i < end && (#[trigger] final(objects)@[i]).bbox_of().y.min == r.bbox.y.min,
            exists|i: int|
                start <= i < end && (#[trigger] final(objects)@[i]).bbox_of().y.max == r.bbox.y.max,
            exists|i: int|
                start <= i < end && (#[trigger] final(objects)@[i]).bbox_of().z.min == r.bbox.z.min,
            exists|i: int|
                start <= i < end && (#[trigger] final(objects)@[i]).bbox_of().z.max == r.bbox.z.max,
        decreases end - start,
    {
        let ghost orig = objects@;
        let mut bbox: AABB = AABB::blank();
        let mut k: usize = start;
        while k < end
            invariant
                start <= k <= end <= objects@.len(),
                objects@ == orig,
                forall|i: int|
                    start <= i < k ==> box_contains(bbox, (#[trigger] objects@[i]).bbox_of()),
                k == start ==> bbox.x.min == i64::MAX && bbox.x.max == i64::MIN && bbox.y.min
                    == i64::MAX && bbox.y.max == i64::MIN && bbox.z.min == i64::MAX && bbox.z.max
                    == i64::MIN,
                k > start ==> exists|i: int|
                    start <= i < k && (#[trigger] objects@[i]).bbox_of().x.min == bbox.x.min,
                k > start ==> exists|i: int|
                    start <= i < k && (#[trigger] objects@[i]).bbox_of().x.max == bbox.x.max,
                k > start ==> exists|i: int|
                    start <= i < k && (#[trigger] objects@[i]).bbox_of().y.min == bbox.y.min,
                k > start ==> exists|i: int|
                    start <= i < k && (#[trigger] objects@[i]).bbox_of().y.max == bbox.y.max,
                k > start ==> exists|i: int|
                    start <= i < k && (#[trigger] objects@[i]).bbox_of().z.min == bbox.z.min,
                k > start ==> exists|i: int|
                    start <= i < k && (#[trigger] objects@[i]).bbox_of().z.max == bbox.z.max,
            decreases end - k,
        {
            let ghost prev = bbox;
            let ob: &AABB = objects[k].bounding_box();
            bbox = AABB::from_boxes(&bbox, ob);
            proof {
                lemma_fold_face(orig, start as int, k as int, prev, bbox);
            }
            k = k + 1;
        }
        let axis: i64 = bbox.longest_axis();
        let object_span: usize = end - start;
        if object_span == 1 {
            let leaf: Object = objects[start].clone_obj();
            let leaf2: Object = objects[start].clone_obj();
            let r = BvhNode { left: Box::new(leaf), right: Box::new(leaf2), bbox };
            proof {
                let o = objects@[start as int];
                crate::bvh::lemma_obj_spheres_boxed(o);
                assert(r.spheres() == o.spheres() + o.spheres());
                assert forall|i: int| 0 <= i < r.spheres().len() implies box_contains(
                    r.bbox,
                    (#[trigger] r.spheres()[i]).bbox,
                ) by {
                    let n = o.spheres().len() as int;
                    if i < n {
                        assert(r.spheres()[i] == o.spheres()[i]);
                    } else {
                        assert(r.spheres()[i] == o.spheres()[i - n]);
                    }
                };
                let sub = objects@.subrange(start as int, end as int);
                assert(sub =~= seq![o]);
                assert(sub.drop_last() =~= Seq::<Object>::empty());
                assert(flat_spheres(sub) == flat_spheres(Seq::<Object>::empty()) + o.spheres());
                assert(flat_spheres(sub) =~= o.spheres());
                assert forall|s: Sphere|
                    r.spheres().contains(s) <==> flat_spheres(sub).contains(s) by {
                    if r.spheres().contains(s) {
                        let i = choose|i: int| 0 <= i < r.spheres().len() && r.spheres()[i] == s;
                        let n = o.spheres().len() as int;
                        if i < n {
                            assert(o.spheres()[i] == s);
                        } else {
                            assert(o.spheres()[i - n] == s);
                        }
                    }
                    if flat_spheres(sub).contains(s) {
                        let i = choose|i: int| 0 <= i < o.spheres().len() && o.spheres()[i] == s;
                        assert(r.spheres()[i] == s);
                    }
                };
            }
            return r;
        }
        if object_span == 2 {
            let left: Object = objects[start].clone_obj();
            let right: Object = objects[start + 1].clone_obj();
            let r = BvhNode { left: Box::new(left), right: Box::new(right), bbox };
            proof {
                let ol = objects@[start as int];
                let orr = objects@[start as int + 1];
                crate::bvh::lemma_obj_spheres_boxed(ol);
                crate::bvh::lemma_obj_spheres_boxed(orr);
                assert(r.spheres() == ol.spheres() + orr.spheres());
                assert forall|i: int| 0 <= i < r.spheres().len() implies box_contains(
                    r.bbox,
                    (#[trigger] r.spheres()[i]).bbox,
                ) by {
                    let n = ol.spheres().len() as int;
                    if i < n {
                        assert(r.spheres()[i] == ol.spheres()[i]);
                    } else {
                        assert(r.spheres()[i] == orr.spheres()[i - n]);
                    }
                };
                let sub = objects@.subrange(start as int, end as int);
                assert(sub =~= seq![ol, orr]);
                assert(sub.drop_last() =~= seq![ol]);
                assert(seq![ol].drop_last() =~= Seq::<Object>::empty());
                assert(flat_spheres(sub) == flat_spheres(seq![ol]) + orr.spheres());
                assert(flat_spheres(seq![ol]) == flat_spheres(Seq::<Object>::empty())
                    + ol.spheres());
                assert(flat_spheres(sub) =~= ol.spheres() + orr.spheres());
            }
            return r;
        }
        sort_range(objects, start, end, axis);
        let ghost sorted = objects@;
        proof {
            lemma_boxes_bound_perm(bbox, orig, sorted, start as int, end as int, start as int, end as int);
        }
        let mid: usize = start + object_span / 2;
        let left_node: BvhNode = BvhNode::new(objects, start, mid);
        let ghost after_left = objects@;
        let right_node: BvhNode = BvhNode::new(objects, mid, end);
        let ghost fin = objects@;
        let r = BvhNode {
            left: Box::new(Object::Bvh(left_node)),
            right: Box::new(Object::Bvh(right_node)),
            bbox,
        };
        proof {
            let st = start as int;
            let md = mid as int;
            let en = end as int;
            lemma_boxes_bound_perm(bbox, sorted, after_left, st, en, st, md);
            lemma_boxes_bound_perm(bbox, after_left, fin, st, en, md, en);
            // The two untouched halves agree with the final vector.
            assert(fin.subrange(st, md) =~= after_left.subrange(st, md));
            assert(sorted.subrange(md, en) =~= after_left.subrange(md, en));
            // Membership of the built tree.
            assert(r.spheres() == left_node.spheres() + right_node.spheres());
            let subl = fin.subrange(st, md);
            let subr = fin.subrange(md, en);
            let sub = fin.subrange(st, en);
            assert(sub =~= subl + subr);
            lemma_flat_split(subl, subr);
            assert forall|s: Sphere|
                r.spheres().contains(s) <==> flat_spheres(sub).contains(s) by {
                if r.spheres().contains(s) {
                    let i = choose|i: int| 0 <= i < r.spheres().len() && r.spheres()[i] == s;
                    let n = left_node.spheres().len() as int;
                    if i < n {
                        assert(left_node.spheres()[i] == s);
                        assert(left_node.spheres().contains(s));
                        let k = choose|k: int|
                            0 <= k < flat_spheres(subl).len() && flat_spheres(subl)[k] == s;
                        assert(flat_spheres(sub)[k] == s);
                    } else {
                        assert(right_node.spheres()[i - n] == s);
                        assert(right_node.spheres().contains(s));
                        let k = choose|k: int|
                            0 <= k < flat_spheres(subr).len() && flat_spheres(subr)[k] == s;
                        assert(flat_spheres(sub)[flat_spheres(subl).len() + k] == s);
                    }
                }
                if flat_spheres(sub).contains(s) {
                    let k = choose|k: int|
                        0 <= k < flat_spheres(sub).len() && flat_spheres(sub)[k] == s;
                    let nl = flat_spheres(subl).len() as int;
                    if k < nl {
                        assert(flat_spheres(subl)[k] == s);
                        assert(left_node.spheres().contains(s));
                        let i = choose|i: int|
                            0 <= i < left_node.spheres().len() && left_node.spheres()[i] == s;
                        assert(r.spheres()[i] == s);
                    } else {
                        assert(flat_spheres(subr)[k - nl] == s);
                        assert(right_node.spheres().contains(s));
                        let i = choose|i: int|
                            0 <= i < right_node.spheres().len() && right_node.spheres()[i] == s;
                        assert(r.spheres()[left_node.spheres().len() + i] == s);
                    }
                }
            };
            // Soundness of the node's box over every sphere below it.
            assert forall|i: int| 0 <= i < r.spheres().len() implies box_contains(
                r.bbox,
                (#[trigger] r.spheres()[i]).bbox,
            ) by {
                let s = r.spheres()[i];
                assert(r.spheres().contains(s));
                assert(flat_spheres(sub).contains(s));
                lemma_flat_member(sub, s);
                let j = choose|j: int|
                    0 <= j < sub.len() && (#[trigger] sub[j]).spheres().contains(s);
                assert(sub[j] == fin[st + j]);
                assert(box_contains(r.bbox, fin[st + j].bbox_of()));
                crate::bvh::lemma_obj_spheres_boxed(fin[st + j]);
                let k = choose|k: int|
                    0 <= k < fin[st + j].spheres().len() && (#[trigger] fin[st + j].spheres()[k])
                        == s;
                assert(box_contains(fin[st + j].bbox_of(), s.bbox));
            };
            // The whole span's multiset survives both recursions.
            vstd::seq_lib::lemma_multiset_commutative(subl, subr);
            vstd::seq_lib::lemma_multiset_commutative(
                sorted.subrange(st, md),
                sorted.subrange(md, en),
            );
            assert(sorted.subrange(st, en) =~= sorted.subrange(st, md) + sorted.subrange(md, en));
            assert(fin.subrange(st, en).to_multiset() == sorted.subrange(st, en).to_multiset());
            // Each face of the box is achieved by some object of the final
            // span: the fold's witness survives the three permutations.
            let wxmin = choose|i: int|
                st <= i < en && (#[trigger] orig[i]).bbox_of().x.min == r.bbox.x.min;
            lemma_member_through(orig, sorted, after_left, fin, st, md, en, wxmin);
            let wxmax = choose|i: int|
                st <= i < en && (#[trigger] orig[i]).bbox_of().x.max == r.bbox.x.max;
            lemma_member_through(orig, sorted, after_left, fin, st, md, en, wxmax);
            let wymin = choose|i: int|
                st <= i < en && (#[trigger] orig[i]).bbox_of().y.min == r.bbox.y.min;
            lemma_member_through(orig, sorted, after_left, fin, st, md, en, wymin);
            let wymax = choose|i: int|
                st <= i < en && (#[trigger] orig[i]).bbox_of().y.max == r.bbox.y.max;
            lemma_member_through(orig, sorted, after_left, fin, st, md, en, wymax);
            let wzmin = choose|i: int|
                st <= i < en && (#[trigger] orig[i]).bbox_of().z.min == r.bbox.z.min;
            lemma_member_through(orig, sorted, after_left, fin, st, md, en, wzmin);
            let wzmax = choose|i: int|
                st <= i < en && (#[trigger] orig[i]).bbox_of().z.max == r.bbox.z.max;
            lemma_member_through(orig, sorted, after_left, fin, st, md, en, wzmax);
        }
        r
    }

    /// Build a tree over a whole list.
    pub fn from_hittable_list(list: &mut crate::hittable_list::HittableList) -> (r: BvhNode)
        requires
            old(list).objects@.len() >= 1,
            forall|i: int|
                0 <= i < old(list).objects@.len() ==> (#[trigger] old(list).objects@[i]).wf(),
        ensures
            r.wf(),
            final(list).objects@.len() == old(list).objects@.len(),
            final(list).objects@.to_multiset() == old(list).objects@.to_multiset(),
            final(list).bbox == old(list).bbox,
            forall|i: int|
                0 <= i < final(list).objects@.len() ==> (#[trigger] final(list).objects@[i]).wf(),
            forall|s: Sphere|
                r.spheres().contains(s) <==> flat_spheres(final(list).objects@).contains(s),
    {
        let l: usize = list.objects.len();
        let r = BvhNode::new(&mut list.objects, 0, l);
        proof {
            assert(list.objects@.subrange(0, l as int) =~= list.objects@);
            assert(old(list).objects@.subrange(0, l as int) =~= old(list).objects@);
        }
        r
    }

    /// Probe the subtree: reject on the node's box, then probe the left
    /// child, then the right child with the range tightened to the left hit.
    pub fn hit(&self, r: &Ray, ray_t: Interval, rec: &mut HitRecord) -> (b: bool)
        requires
            self.wf(),
            bounded_s(r.origin.v(), RAY_MAX as int),
            bounded_s(r.direction.v(), RAY_MAX as int),
            iabs(r.time as int) <= SCALE as int,
        ensures
            probe_post(
                self.spheres(),
                *r,
                ray_t.min as int,
                ray_t.max as int,
                b,
                *old(rec),
                *final(rec),
            ),
        decreases *self,
    {
        let ghost rec_init = *rec;
        if !self.bbox.hit(r, &ray_t) {
            proof {
                if prune_safe(self.spheres(), *r) {
                    assert forall|i: int| 0 <= i < self.spheres().len() implies !#[trigger] sphere_hits(
                        self.spheres()[i],
                        *r,
                        ray_t.min as int,
                        ray_t.max as int,
                    ) by {
                        if sphere_hits(self.spheres()[i], *r, ray_t.min as int, ray_t.max as int) {
                            assert(crate::hittable::hit_in_box(self.spheres()[i], *r));
                            lemma_aabb_hit_monotone(
                                self.bbox,
                                self.spheres()[i].bbox,
                                r.origin.v(),
                                r.direction.v(),
                                ray_t.min as int,
                                ray_t.max as int,
                            );
                        }
                    };
                }
            }
            return false;
        }
        let hit_left: bool = self.left.hit(r, ray_t, rec);
        let ghost rec_mid = *rec;
        let x: i64 = if hit_left {
            rec.t
        } else {
            ray_t.max
        };
        let hit_right: bool = self.right.hit(r, Interval::new(ray_t.min, x), rec);
        proof {
            lemma_probe_step(
                (*self.left).spheres(),
                (*self.right).spheres(),
                *r,
                ray_t.min as int,
                ray_t.max as int,
                x as int,
                hit_left,
                rec_mid,
                hit_right,
                *rec,
                rec_init,
            );
        }
        hit_left || hit_right
    }
}

/// Insertion sort of `objects[start..end]` by the box minimum along `axis`:
/// a permutation of the span, everything else untouched, well-formedness
/// kept.
fn sort_range(objects: &mut Vec<Object>, start: usize, end: usize, axis: i64)
    requires
        start <= end <= old(objects)@.len(),
        forall|i: int| 0 <= i < old(objects)@.len() ==> (#[trigger] old(objects)@[i]).wf(),
    ensures
        final(objects)@.len() == old(objects)@.len(),
        forall|i: int| 0 <= i < final(objects)@.len() ==> (#[trigger] final(objects)@[i]).wf(),
        forall|i: int|
            0 <= i < final(objects)@.len() && !(start <= i < end) ==> final(objects)@[i] == old(
                objects,
            )@[i],
        final(objects)@.subrange(start as int, end as int).to_multiset() == old(
            objects,
        )@.subrange(start as int, end as int).to_multiset(),
{
    let n: usize = if axis == 1 {
        1
    } else if axis == 2 {
        2
    } else {
        0
    };
    let mut k: usize = start;
    while k < end
        invariant
            start <= k <= end <= objects@.len(),
            objects@.len() == old(objects)@.len(),
            forall|i: int| 0 <= i < objects@.len() ==> (#[trigger] objects@[i]).wf(),
            forall|i: int|
                0 <= i < objects@.len() && !(start <= i < end) ==> objects@[i] == old(objects)@[i],
            objects@.subrange(start as int, end as int).to_multiset() == old(objects)@.subrange(
                start as int,
                end as int,
            ).to_multiset(),
        decreases end - k,
    {
        let mut j: usize = k;
        while j > start
            invariant
                start <= j <= k < end <= objects@.len(),
                objects@.len() == old(objects)@.len(),
                forall|i: int| 0 <= i < objects@.len() ==> (#[trigger] objects@[i]).wf(),
                forall|i: int|
                    0 <= i < objects@.len() && !(start <= i < end) ==> objects@[i] == old(
                        objects,
                    )@[i],
                objects@.subrange(start as int, end as int).to_multiset() == old(objects)@.subrange(
                    start as int,
                    end as int,
                ).to_multiset(),
            decreases j,
        {
            let prev_min: i64 = objects[j - 1].bounding_box().axis_interval(n).min;
            let cur_min: i64 = objects[j].bounding_box().axis_interval(n).min;
            if cur_min < prev_min {
                let ghost before = objects@;
                let a: Object = objects[j - 1].clone_obj();
                let b: Object = objects[j].clone_obj();
                proof {
                    lemma_swap_range_multiset(
                        before,
                        start as int,
                        end as int,
                        j as int - 1,
                        j as int,
                    );
                }
                objects[j - 1] = b;
                objects[j] = a;
                proof {
                    assert(objects@ =~= before.update(j as int - 1, before[j as int]).update(
                        j as int,
                        before[j as int - 1],
                    ));
                    assert forall|i: int| 0 <= i < objects@.len() implies (
                    #[trigger] objects@[i]).wf() by {
                        if i == j as int - 1 {
                            assert(objects@[i] == before[j as int]);
                        } else if i == j as int {
                            assert(objects@[i] == before[j as int - 1]);
                        } else {
                            assert(objects@[i] == before[i]);
                        }
                    };
                }
            } else {
                break ;
            }
            j = j - 1;
        }
        k = k + 1;
    }
}

/// Swapping two adjacent entries inside a span keeps the span's multiset.
proof fn lemma_swap_range_multiset(s: Seq<Object>, start: int, end: int, i: int, j: int)
    requires
        0 <= start <= i < j < end <= s.len(),
        j == i + 1,
    ensures
        s.update(i, s[j]).update(j, s[i]).subrange(start, end).to_multiset() == s.subrange(
            start,
            end,
        ).to_multiset(),
{
    let sub = s.subrange(start, end);
    let sub2 = s.update(i, s[j]).update(j, s[i]).subrange(start, end);
    assert(sub2 =~= sub.update(i - start, sub[j - start]).update(j - start, sub[i - start]));
    vstd::seq_lib::to_multiset_update(sub, i - start, sub[j - start]);
    vstd::seq_lib::to_multiset_update(
        sub.update(i - start, sub[j - start]),
        j - start,
        sub[i - start],
    );
    vstd::seq_lib::to_multiset_contains(sub, sub[i - start]);
    vstd::seq_lib::to_multiset_contains(sub.update(i - start, sub[j - start]), sub[j - start]);
    assert(sub.update(i - start, sub[j - start])[j - start] == sub[j - start]);
    assert(sub.update(i - start, sub[j - start]).update(j - start, sub[i - start]).to_multiset()
        =~= sub.to_multiset());
}

/// One union step of the box fold keeps every face achieved by some object
/// of the prefix it has covered.
proof fn lemma_fold_face(objs: Seq<Object>, start: int, k: int, prev: AABB, bb: AABB)
    requires
        0 <= start <= k < objs.len(),
        bb.x.min as int == crate::fixed::imin(prev.x.min as int, objs[k].bbox_of().x.min as int),
        bb.x.max as int == crate::fixed::imax(prev.x.max as int, objs[k].bbox_of().x.max as int),
        bb.y.min as int == crate::fixed::imin(prev.y.min as int, objs[k].bbox_of().y.min as int),
        bb.y.max as int == crate::fixed::imax(prev.y.max as int, objs[k].bbox_of().y.max as int),
        bb.z.min as int == crate::fixed::imin(prev.z.min as int, objs[k].bbox_of().z.min as int),
        bb.z.max as int == crate::fixed::imax(prev.z.max as int, objs[k].bbox_of().z.max as int),
        k > start ==> exists|i: int|
            start <= i < k && (#[trigger] objs[i]).bbox_of().x.min == prev.x.min,
        k > start ==> exists|i: int|
            start <= i < k && (#[trigger] objs[i]).bbox_of().x.max == prev.x.max,
        k > start ==> exists|i: int|
            start <= i < k && (#[trigger] objs[i]).bbox_of().y.min == prev.y.min,
        k > start ==> exists|i: int|
            start <= i < k && (#[trigger] objs[i]).bbox_of().y.max == prev.y.max,
        k > start ==> exists|i: int|
            start <= i < k && (#[trigger] objs[i]).bbox_of().z.min == prev.z.min,
        k > start ==> exists|i: int|
            start <= i < k && (#[trigger] objs[i]).bbox_of().z.max == prev.z.max,
        k == start ==> prev.x.min == i64::MAX && prev.x.max == i64::MIN && prev.y.min == i64::MAX
            && prev.y.max == i64::MIN && prev.z.min == i64::MAX && prev.z.max == i64::MIN,
    ensures
        exists|i: int| start <= i < k + 1 && (#[trigger] objs[i]).bbox_of().x.min == bb.x.min,
        exists|i: int| start <= i < k + 1 && (#[trigger] objs[i]).bbox_of().x.max == bb.x.max,
        exists|i: int| start <= i < k + 1 && (#[trigger] objs[i]).bbox_of().y.min == bb.y.min,
        exists|i: int| start <= i < k + 1 && (#[trigger] objs[i]).bbox_of().y.max == bb.y.max,
        exists|i: int| start <= i < k + 1 && (#[trigger] objs[i]).bbox_of().z.min == bb.z.min,
        exists|i: int| start <= i < k + 1 && (#[trigger] objs[i]).bbox_of().z.max == bb.z.max,
{
    assert(exists|i: int| start <= i < k + 1 && (#[trigger] objs[i]).bbox_of().x.min == bb.x.min)
        by {
        if bb.x.min == objs[k].bbox_of().x.min {
            assert((objs[k]).bbox_of().x.min == bb.x.min);
        } else {
            assert(k > start);
            let i = choose|i: int|
                start <= i < k && (#[trigger] objs[i]).bbox_of().x.min == prev.x.min;
            assert((objs[i]).bbox_of().x.min == bb.x.min);
        }
    };
    assert(exists|i: int| start <= i < k + 1 && (#[trigger] objs[i]).bbox_of().x.max == bb.x.max)
        by {
        if bb.x.max == objs[k].bbox_of().x.max {
            assert((objs[k]).bbox_of().x.max == bb.x.max);
        } else {
            assert(k > start);
            let i = choose|i: int|
                start <= i < k && (#[trigger] objs[i]).bbox_of().x.max == prev.x.max;
            assert((objs[i]).bbox_of().x.max == bb.x.max);
        }
    };
    assert(exists|i: int| start <= i < k + 1 && (#[trigger] objs[i]).bbox_of().y.min == bb.y.min)
        by {
        if bb.y.min == objs[k].bbox_of().y.min {
            assert((objs[k]).bbox_of().y.min == bb.y.min);
        } else {
            assert(k > start);
            let i = choose|i: int|
                start <= i < k && (#[trigger] objs[i]).bbox_of().y.min == prev.y.min;
            assert((objs[i]).bbox_of().y.min == bb.y.min);
        }
    };
    assert(exists|i: int| start <= i < k + 1 && (#[trigger] objs[i]).bbox_of().y.max == bb.y.max)
        by {
        if bb.y.max == objs[k].bbox_of().y.max {
            assert((objs[k]).bbox_of().y.max == bb.y.max);
        } else {
            assert(k > start);
            let i = choose|i: int|
                start <= i < k && (#[trigger] objs[i]).bbox_of().y.max == prev.y.max;
            assert((objs[i]).bbox_of().y.max == bb.y.max);
        }
    };
    assert(exists|i: int| start <= i < k + 1 && (#[trigger] objs[i]).bbox_of().z.min == bb.z.min)
        by {
        if bb.z.min == objs[k].bbox_of().z.min {
            assert((objs[k]).bbox_of().z.min == bb.z.min);
        } else {
            assert(k > start);
            let i = choose|i: int|
                start <= i < k && (#[trigger] objs[i]).bbox_of().z.min == prev.z.min;
            assert((objs[i]).bbox_of().z.min == bb.z.min);
        }
    };
    assert(exists|i: int| start <= i < k + 1 && (#[trigger] objs[i]).bbox_of().z.max == bb.z.max)
        by {
        if bb.z.max == objs[k].bbox_of().z.max {
            assert((objs[k]).bbox_of().z.max == bb.z.max);
        } else {
            assert(k > start);
            let i = choose|i: int|
                start <= i < k && (#[trigger] objs[i]).bbox_of().z.max == prev.z.max;
            assert((objs[i]).bbox_of().z.max == bb.z.max);
        }
    };
}

/// A member of a partly permuted span is still a member of that span.
proof fn lemma_member_perm(
    s1: Seq<Object>,
    s2: Seq<Object>,
    start: int,
    end: int,
    ps: int,
    pe: int,
    w: int,
)
    requires
        0 <= start <= ps <= pe <= end <= s1.len(),
        s1.len() == s2.len(),
        start <= w < end,
        forall|i: int| 0 <= i < s2.len() && !(ps <= i < pe) ==> s2[i] == s1[i],
        s2.subrange(ps, pe).to_multiset() == s1.subrange(ps, pe).to_multiset(),
    ensures
        exists|j: int| start <= j < end && (#[trigger] s2[j]) == s1[w],
{
    if ps <= w < pe {
        let sub1 = s1.subrange(ps, pe);
        let sub2 = s2.subrange(ps, pe);
        assert(sub1[w - ps] == s1[w]);
        vstd::seq_lib::to_multiset_contains(sub1, s1[w]);
        vstd::seq_lib::to_multiset_contains(sub2, s1[w]);
        assert(sub1.contains(s1[w]));
        assert(sub2.contains(s1[w]));
        let j = choose|j: int| 0 <= j < sub2.len() && sub2[j] == s1[w];
        assert(s2[ps + j] == s1[w]);
    } else {
        assert(s2[w] == s1[w]);
    }
}

/// A member of the span before the sort and the two recursive builds is
/// still a member of the span after all three.
proof fn lemma_member_through(
    orig: Seq<Object>,
    sorted: Seq<Object>,
    after_left: Seq<Object>,
    fin: Seq<Object>,
    st: int,
    md: int,
    en: int,
    w: int,
)
    requires
        0 <= st < md < en <= orig.len(),
        orig.len() == sorted.len() == after_left.len() == fin.len(),
        st <= w < en,
        forall|i: int| 0 <= i < sorted.len() && !(st <= i < en) ==> sorted[i] == orig[i],
        sorted.subrange(st, en).to_multiset() == orig.subrange(st, en).to_multiset(),
        forall|i: int| 0 <= i < after_left.len() && !(st <= i < md) ==> after_left[i] == sorted[i],
        after_left.subrange(st, md).to_multiset() == sorted.subrange(st, md).to_multiset(),
        forall|i: int| 0 <= i < fin.len() && !(md <= i < en) ==> fin[i] == after_left[i],
        fin.subrange(md, en).to_multiset() == after_left.subrange(md, en).to_multiset(),
    ensures
        exists|j: int| st <= j < en && (#[trigger] fin[j]) == orig[w],
{
    lemma_member_perm(orig, sorted, st, en, st, en, w);
    let w1 = choose|j: int| st <= j < en && (#[trigger] sorted[j]) == orig[w];
    lemma_member_perm(sorted, after_left, st, en, st, md, w1);
    let w2 = choose|j: int| st <= j < en && (#[trigger] after_left[j]) == sorted[w1];
    lemma_member_perm(after_left, fin, st, en, md, en, w2);
    let w3 = choose|j: int| st <= j < en && (#[trigger] fin[j]) == after_left[w2];
    assert(fin[w3] == orig[w]);
}

/// A span's boxes stay inside a bound when part of it is permuted.
proof fn lemma_boxes_bound_perm(
    bb: AABB,
    s1: Seq<Object>,
    s2: Seq<Object>,
    start: int,
    end: int,
    ps: int,
    pe: int,
)
    requires
        0 <= start <= ps <= pe <= end <= s1.len(),
        s1.len() == s2.len(),
        boxes_bound(bb, s1, start, end),
        forall|i: int| 0 <= i < s2.len() && !(ps <= i < pe) ==> s2[i] == s1[i],
        s2.subrange(ps, pe).to_multiset() == s1.subrange(ps, pe).to_multiset(),
    ensures
        boxes_bound(bb, s2, start, end),
{
    assert forall|i: int| start <= i < end implies box_contains(
        bb,
        (#[trigger] s2[i]).bbox_of(),
    ) by {
        if ps <= i < pe {
            let sub2 = s2.subrange(ps, pe);
            let sub1 = s1.subrange(ps, pe);
            assert(sub2[i - ps] == s2[i]);
            vstd::seq_lib::to_multiset_contains(sub2, s2[i]);
            vstd::seq_lib::to_multiset_contains(sub1, s2[i]);
            assert(sub2.contains(s2[i]));
            assert(sub1.contains(s2[i]));
            let j = choose|j: int| 0 <= j < sub1.len() && sub1[j] == s2[i];
            assert(s1[ps + j] == s2[i]);
            assert(box_contains(bb, s1[ps + j].bbox_of()));
        }
    };
}

/// Every sphere of a well-formed object sits inside that object's own box.
pub proof fn lemma_obj_spheres_boxed(o: Object)
    requires
        o.wf(),
    ensures
        forall|i: int|
            0 <= i < o.spheres().len() ==> box_contains(
                o.bbox_of(),
                (#[trigger] o.spheres()[i]).bbox,
            ),
{
    match o {
        Object::Sphere(s) => {
            assert forall|i: int| 0 <= i < o.spheres().len() implies box_contains(
                o.bbox_of(),
                (#[trigger] o.spheres()[i]).bbox,
            ) by {
                assert(o.spheres() =~= seq![s]);
                assert(o.spheres()[i] == s);
            };
        },
        Object::Bvh(n) => {
        },
    }
}

} // verus!
