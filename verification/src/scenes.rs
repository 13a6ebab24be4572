//! The showcase scene: a checker of random small spheres around three large
//! ones over a ground sphere, wrapped in a bounding-volume hierarchy, with
//! the camera that frames it.
use crate::bvh::BvhNode;
use crate::camera::{camera_wf, Camera, CameraSettings};
use crate::color::Color;
use crate::fixed::SCALE;
use crate::hittable::Object;
use crate::hittable_list::HittableList;
use crate::material::{Dielectric, Lambertian, Material, Metal};
use crate::sphere::Sphere;
use crate::util::{bounded_random_scalar, random_scalar};
use crate::vec3::{Point3, Vec3, V3};
use vstd::prelude::*;

verus! {

/// Build the scene and its camera. The spheres land at randomly jittered
/// grid positions with randomly drawn materials, so the contract promises a
/// well-formed world and camera rather than fixed contents.
pub fn render() -> (r: (Camera, HittableList))
    ensures
        camera_wf(r.0),
        r.1.wf(),
        r.1.objects@.len() == 1,
        r.0.num_threads == 16,
        r.0.image_width == 1200,
        r.0.image_height == 675,
        r.0.samples_per_pixel == 500,
        r.0.max_depth == 50,
        r.0.pixel_samples_scale == 131,
        r.0.defocus_angle == 39321,
        r.0.center.v() == (V3 { x: 851968, y: 131072, z: 196608 }),
{
    let mut world_list: HittableList = HittableList::new();

    let ground_material: Material = Material::Lambertian(
        Lambertian::new(Color::new(32768, 32768, 32768)),
    );
    world_list.add(
        Object::Sphere(Sphere::new(Point3::new(0, -65536000, 0), 65536000, ground_material)),
    );

    let mut a: i64 = -11;
    while a < 11
        invariant
            -11 <= a <= 11,
            world_list.wf(),
        decreases 11 - a,
    {
        let mut b: i64 = -11;
        while b < 11
            invariant
                -11 <= a < 11,
                -11 <= b <= 11,
                world_list.wf(),
            decreases 11 - b,
        {
            let choose_mat: i64 = random_scalar();
            let center: Point3 = Point3::new(
                a * SCALE + bounded_random_scalar(0, 58982),
                13107,
                b * SCALE + bounded_random_scalar(0, 58982),
            );

            let anchor: Point3 = Point3::new(4 * SCALE, 13107, 0);
            let offset: Vec3 = center.sub(anchor);
            if offset.length() > 58982 {
                let sphere_material: Material;
                if choose_mat < 52429 {
                    // Diffuse, with a squared random albedo.
                    let c1: Color = Color::random();
                    let c2: Color = Color::random();
                    proof {
                        crate::util::lemma_tdiv_small_factor(c1.v().x, c2.v().x);
                        crate::util::lemma_tdiv_small_factor(c1.v().y, c2.v().y);
                        crate::util::lemma_tdiv_small_factor(c1.v().z, c2.v().z);
                    }
                    let albedo: Color = c1.mul(c2);
                    sphere_material = Material::Lambertian(Lambertian::new(albedo));
                } else if choose_mat < 62259 {
                    // Brushed metal.
                    let albedo: Color = Color::bounded_random(32768, SCALE);
                    let fuzz: i64 = bounded_random_scalar(0, 32768);
                    sphere_material = Material::Metal(Metal::new(albedo, fuzz));
                } else {
                    // Glass.
                    sphere_material = Material::Dielectric(Dielectric::new(98304));
                }
                world_list.add(Object::Sphere(Sphere::new(center, 13107, sphere_material)));
            }
            b = b + 1;
        }
        a = a + 1;
    }

    let material1: Material = Material::Dielectric(Dielectric::new(98304));
    world_list.add(Object::Sphere(Sphere::new(Point3::new(0, SCALE, 0), SCALE, material1)));

    let material2: Material = Material::Lambertian(
        Lambertian::new(Color::new(26214, 13107, 6554)),
    );
    world_list.add(
        Object::Sphere(Sphere::new(Point3::new(-4 * SCALE, SCALE, 0), SCALE, material2)),
    );

    let material3: Material = Material::Metal(Metal::new(Color::new(45875, 39322, 32768), 0));
    world_list.add(
        Object::Sphere(Sphere::new(Point3::new(4 * SCALE, SCALE, 0), SCALE, material3)),
    );

    let tree: BvhNode = BvhNode::from_hittable_list(&mut world_list);
    let world: HittableList = HittableList::single(Object::Bvh(tree));

    let camera_settings: CameraSettings = CameraSettings {
        num_threads: 16,
        aspect_ratio: 116508,
        image_width: 1200,
        samples_per_pixel: 500,
        max_depth: 50,
        vfov: 20 * SCALE,
        lookfrom: Point3::new(13 * SCALE, 2 * SCALE, 3 * SCALE),
        lookat: Point3::new(0, 0, 0),
        vup: Vec3::new(0, SCALE, 0),
        defocus_angle: 39321,
        focus_dist: 10 * SCALE,
    };

    let cam: Camera = Camera::initialize(camera_settings);
    proof {
        assert(78643200int / 116508 == 675);
        assert(65536int / 500 == 131);
    }
    (cam, world)
}

} // verus!
