use ray_tracer::aabb::AABB;
use ray_tracer::bvh::BvhNode;
use ray_tracer::camera::{Camera, CameraSettings};
use ray_tracer::color::write_color;
use ray_tracer::fixed::{fx_div, fx_mul, fx_sqrt, isqrt, SCALE};
use ray_tracer::hittable::{HitRecord, Object};
use ray_tracer::hittable_list::HittableList;
use ray_tracer::interval::Interval;
use ray_tracer::material::{Dielectric, Lambertian, Material, Metal};
use ray_tracer::ray::Ray;
use ray_tracer::renderer::{all_pixel_coords, shuffle_coords, Cord};
use ray_tracer::sphere::Sphere;
use ray_tracer::util::{bounded_random_int, degrees_to_radians};
use ray_tracer::vec3::{Point3, Vec3};

#[test]
fn fixed_point_arithmetic_exact_values() {
    assert_eq!(fx_mul(2 * SCALE, 3 * SCALE), 6 * SCALE);
    assert_eq!(fx_mul(-2 * SCALE, 3 * SCALE), -6 * SCALE);
    assert_eq!(fx_div(SCALE, 2 * SCALE), SCALE / 2);
    assert_eq!(isqrt(144), 12);
    assert_eq!(isqrt(145), 12);
    assert_eq!(fx_sqrt(4 * SCALE), 2 * SCALE);
    assert_eq!(fx_sqrt(SCALE), SCALE);
}

#[test]
fn degrees_to_radians_half_turn() {
    // 180 degrees is pi: 205887 fixed-point steps.
    assert_eq!(degrees_to_radians(180 * SCALE), 205887);
    assert_eq!(degrees_to_radians(0), 0);
}

#[test]
fn interval_operations() {
    let i = Interval::new(-SCALE, SCALE);
    assert!(i.contains(SCALE));
    assert!(i.contains(-SCALE));
    assert!(!i.surrounds(SCALE));
    assert!(i.surrounds(0));
    assert_eq!(i.clamp(2 * SCALE), SCALE);
    assert_eq!(i.clamp(-2 * SCALE), -SCALE);
    assert_eq!(i.clamp(7), 7);
    let blank = Interval::blank();
    assert!(!blank.contains(0));
    let u = Interval::from_intervals(&Interval::new(0, 5), &Interval::new(-3, 2));
    assert_eq!(u.min, -3);
    assert_eq!(u.max, 5);
}

#[test]
fn vector_arithmetic_exact_values() {
    let a = Vec3::new(SCALE, 2 * SCALE, 3 * SCALE);
    let b = Vec3::new(4 * SCALE, -SCALE, 2 * SCALE);
    let s = a.add(b);
    assert_eq!((s.x, s.y, s.z), (5 * SCALE, SCALE, 5 * SCALE));
    let d = a.sub(b);
    assert_eq!((d.x, d.y, d.z), (-3 * SCALE, 3 * SCALE, SCALE));
    // dot = 1*4 - 2 + 6 = 8
    assert_eq!(Vec3::dot(&a, &b), 8 * SCALE);
    // cross((1,0,0),(0,1,0)) = (0,0,1)
    let c = Vec3::cross(Vec3::new(SCALE, 0, 0), Vec3::new(0, SCALE, 0));
    assert_eq!((c.x, c.y, c.z), (0, 0, SCALE));
    let u = Vec3::unit_vector(Vec3::new(0, 0, 5 * SCALE));
    assert_eq!((u.x, u.y, u.z), (0, 0, SCALE));
    assert!(Vec3::blank().near_zero());
    assert!(!a.near_zero());
}

#[test]
fn reflect_head_on() {
    // Reflecting straight-down about the up normal flips it.
    let v = Vec3::new(0, -SCALE, 0);
    let n = Vec3::new(0, SCALE, 0);
    let r = Vec3::reflect(&v, &n);
    assert_eq!((r.x, r.y, r.z), (0, SCALE, 0));
}

#[test]
fn aabb_slab_hit_and_miss() {
    // A unit box around the origin.
    let bb = AABB::new(
        Interval::new(-SCALE, SCALE),
        Interval::new(-SCALE, SCALE),
        Interval::new(-SCALE, SCALE),
    );
    // A ray along z straight through the box.
    let through = Ray::new(Point3::new(0, 0, -10 * SCALE), Vec3::new(0, 0, SCALE));
    assert!(bb.hit(&through, &Interval::new(0, 100 * SCALE)));
    // A ray parallel to the x axis, outside the z slab: a proven miss.
    let parallel = Ray::new(Point3::new(0, 0, -10 * SCALE), Vec3::new(SCALE, 0, 0));
    assert!(!bb.hit(&parallel, &Interval::new(0, 100 * SCALE)));
    // A ray aimed past the box.
    let past = Ray::new(Point3::new(5 * SCALE, 0, -10 * SCALE), Vec3::new(0, 0, SCALE));
    assert!(!past.direction.near_zero());
    assert!(!bb.hit(&past, &Interval::new(0, 100 * SCALE)));
}

#[test]
fn sphere_intersection_round_trip() {
    let mat = Material::Lambertian(Lambertian::new(Vec3::new(SCALE / 2, SCALE / 2, SCALE / 2)));
    let sphere = Sphere::new(Point3::new(0, 0, 0), SCALE, mat);
    let ray = Ray::new(Point3::new(0, 0, -10 * SCALE), Vec3::new(0, 0, SCALE));
    let mut rec = HitRecord::blank();
    let hit = sphere.hit(&ray, Interval::new(66, i64::MAX), &mut rec);
    assert!(hit);
    // The ray reaches the surface point (0, 0, -1) at t = 9.
    assert_eq!(rec.t, 9 * SCALE);
    let p = ray.at(rec.t);
    assert_eq!((p.x, p.y, p.z), (0, 0, -SCALE));
    assert_eq!((rec.p.x, rec.p.y, rec.p.z), (0, 0, -SCALE));
    // The reported normal is the unit outward normal, facing the ray.
    assert_eq!((rec.normal.x, rec.normal.y, rec.normal.z), (0, 0, -SCALE));
    assert!(rec.front_face);
    assert_eq!(Vec3::dot(&rec.normal, &rec.normal), SCALE);
    // Orthogonal to the surface: parallel to the radius vector.
    let radial = p.sub(Point3::new(0, 0, 0));
    let cr = Vec3::cross(rec.normal, radial);
    assert!(cr.near_zero());
}

#[test]
fn sphere_miss_leaves_record_alone() {
    let mat = Material::Lambertian(Lambertian::new(Vec3::new(SCALE / 2, SCALE / 2, SCALE / 2)));
    let sphere = Sphere::new(Point3::new(0, 0, 0), SCALE, mat);
    let ray = Ray::new(Point3::new(0, 5 * SCALE, -10 * SCALE), Vec3::new(0, 0, SCALE));
    let mut rec = HitRecord::blank();
    assert!(!sphere.hit(&ray, Interval::new(66, i64::MAX), &mut rec));
    assert_eq!(rec.t, 0);
}

#[test]
fn lambertian_always_scatters() {
    let mat = Lambertian::new(Vec3::new(SCALE / 2, SCALE / 4, SCALE / 8));
    let ray = Ray::new(Point3::new(0, 0, 0), Vec3::new(0, 0, SCALE));
    let mut rec = HitRecord::blank();
    rec.p = Point3::new(0, 0, -SCALE);
    rec.normal = Vec3::new(0, 0, -SCALE);
    let mut attenuation = Vec3::blank();
    let mut scattered = Ray::blank();
    for _ in 0..32 {
        assert!(mat.scatter(&ray, &rec, &mut attenuation, &mut scattered));
        assert_eq!(attenuation.x, SCALE / 2);
        assert!(!scattered.direction.near_zero());
    }
}

#[test]
fn dielectric_always_scatters() {
    let mat = Dielectric::new(98304);
    let ray = Ray::new(Point3::new(0, 0, 0), Vec3::new(0, 0, SCALE));
    let mut rec = HitRecord::blank();
    rec.p = Point3::new(0, 0, -SCALE);
    rec.normal = Vec3::new(0, 0, -SCALE);
    rec.front_face = true;
    let mut attenuation = Vec3::blank();
    let mut scattered = Ray::blank();
    for _ in 0..32 {
        assert!(mat.scatter(&ray, &rec, &mut attenuation, &mut scattered));
        // Glass attenuates nothing.
        assert_eq!((attenuation.x, attenuation.y, attenuation.z), (SCALE, SCALE, SCALE));
    }
}

#[test]
fn list_clear_empties_objects_and_resets_the_box() {
    let mat = Material::Lambertian(Lambertian::new(Vec3::new(SCALE / 2, SCALE / 2, SCALE / 2)));
    let mut list = HittableList::new();
    list.add(Object::Sphere(Sphere::new(Point3::new(0, 0, 0), SCALE, mat)));
    assert_eq!(list.objects.len(), 1);
    assert_eq!(list.bbox.x.min, -SCALE);
    list.clear();
    assert_eq!(list.objects.len(), 0);
    // The union box of no members is the canonical empty box.
    assert_eq!(list.bbox.x.min, i64::MAX);
    assert_eq!(list.bbox.x.max, i64::MIN);
    assert_eq!(list.bbox.z.min, i64::MAX);
}

#[test]
fn metal_with_no_fuzz_reflects_deterministically() {
    // A grazing-in ray against the z normal: the mirror direction dives into
    // the surface, so the ray is absorbed, and with zero fuzz the direction
    // the decision is made on is exactly the normalised reflection.
    let mat = Metal::new(Vec3::new(SCALE / 2, SCALE / 2, SCALE / 2), 0);
    let ray_in = Ray::new(Point3::new(-SCALE, 0, -SCALE), Vec3::new(SCALE, 0, SCALE));
    let mut rec = HitRecord::blank();
    rec.p = Point3::new(0, 0, 0);
    rec.normal = Vec3::new(0, 0, SCALE);
    let mut attenuation = Vec3::blank();
    let mut scattered = Ray::blank();
    assert!(!mat.scatter(&ray_in, &rec, &mut attenuation, &mut scattered));
}

#[test]
fn render_pixel_with_no_bounce_budget_is_black() {
    let mut settings = test_settings();
    settings.max_depth = 0;
    let cam = Camera::initialize(settings);
    let mat = Material::Lambertian(Lambertian::new(Vec3::new(SCALE / 2, SCALE / 2, SCALE / 2)));
    let world = HittableList::single(Object::Sphere(Sphere::new(
        Point3::new(0, 0, 0),
        SCALE,
        mat,
    )));
    let p = cam.render_pixel(&world, Cord { x: 1, y: 1 });
    assert_eq!(p.color, (0, 0, 0));
}

#[test]
fn render_pixel_over_an_empty_scene_has_full_blue() {
    // Every escaped ray's sky color has a blue channel of exactly one unit,
    // so the average does too, and one quantizes to byte 255.
    let cam = Camera::initialize(test_settings());
    let world = HittableList::new();
    let p = cam.render_pixel(&world, Cord { x: 2, y: 3 });
    assert_eq!(p.color.2, 255);
}

#[test]
fn metal_scatters_off_the_surface_and_absorbs_into_it() {
    let mat = Metal::new(Vec3::new(SCALE / 2, SCALE / 2, SCALE / 2), 0);
    let mut attenuation = Vec3::blank();
    let mut scattered = Ray::blank();
    // Incoming against the normal: the mirror direction leaves the surface.
    let ray_in = Ray::new(Point3::new(0, SCALE, 0), Vec3::new(0, -SCALE, 0));
    let mut rec = HitRecord::blank();
    rec.p = Point3::new(0, 0, 0);
    rec.normal = Vec3::new(0, SCALE, 0);
    assert!(mat.scatter(&ray_in, &rec, &mut attenuation, &mut scattered));
    assert!(Vec3::dot(&scattered.direction, &rec.normal) > 0);
    // Incoming along the normal: the mirror direction dives into the surface
    // and the ray is absorbed.
    let ray_along = Ray::new(Point3::new(0, -SCALE, 0), Vec3::new(0, SCALE, 0));
    assert!(!mat.scatter(&ray_along, &rec, &mut attenuation, &mut scattered));
}

#[test]
fn ray_color_zero_depth_is_black() {
    let settings = test_settings();
    let cam = Camera::initialize(settings);
    let world = HittableList::new();
    let ray = Ray::new(Point3::new(0, 0, 0), Vec3::new(0, 0, SCALE));
    let c = cam.ray_color(&ray, 0, &world);
    assert_eq!((c.x, c.y, c.z), (0, 0, 0));
}

#[test]
fn ray_color_empty_scene_is_the_sky_gradient() {
    let settings = test_settings();
    let cam = Camera::initialize(settings);
    let world = HittableList::new();
    // A level ray: the blend factor is one half.
    let ray = Ray::new(Point3::new(0, 0, 0), Vec3::new(0, 0, SCALE));
    let c = cam.ray_color(&ray, 50, &world);
    assert_eq!((c.x, c.y, c.z), (49152, 55705, 65536));
    // Straight up: pure sky blue.
    let up = Ray::new(Point3::new(0, 0, 0), Vec3::new(0, SCALE, 0));
    let cu = cam.ray_color(&up, 50, &world);
    assert_eq!((cu.x, cu.y, cu.z), (32768, 45875, 65536));
}

#[test]
fn pixel_quantization_boundaries() {
    let cord = Cord { x: 3, y: 4 };
    // Full intensity maps to 255, never 256; zero maps to 0.
    let p = write_color(&cord, &Vec3::new(SCALE, 0, 16384));
    assert_eq!(p.cord, cord);
    assert_eq!(p.color.0, 255);
    assert_eq!(p.color.1, 0);
    // A quarter intensity has gamma one half: byte 128.
    assert_eq!(p.color.2, 128);
    // Negative light clamps to black.
    let q = write_color(&cord, &Vec3::new(-SCALE, 2 * SCALE, 0));
    assert_eq!(q.color.0, 0);
    // Above full intensity still saturates at 255.
    assert_eq!(q.color.1, 255);
}

#[test]
fn bvh_matches_linear_search() {
    let mat_near = Material::Lambertian(Lambertian::new(Vec3::new(SCALE / 2, 0, 0)));
    let mat_mid = Material::Metal(Metal::new(Vec3::new(0, SCALE / 2, 0), 0));
    let mat_far = Material::Dielectric(Dielectric::new(98304));
    let spheres = [
        Sphere::new(Point3::new(0, 0, -10 * SCALE), SCALE, mat_far),
        Sphere::new(Point3::new(0, 0, -3 * SCALE), SCALE, mat_near),
        Sphere::new(Point3::new(0, 0, -5 * SCALE), SCALE, mat_mid),
    ];
    let mut list = HittableList::new();
    let mut list_for_tree = HittableList::new();
    for s in spheres.iter() {
        list.add(Object::Sphere(*s));
        list_for_tree.add(Object::Sphere(*s));
    }
    let tree = BvhNode::from_hittable_list(&mut list_for_tree);

    let rays = [
        Ray::new(Point3::new(0, 0, 0), Vec3::new(0, 0, -SCALE)),
        Ray::new(Point3::new(0, 0, -20 * SCALE), Vec3::new(0, 0, SCALE)),
        Ray::new(Point3::new(0, 5 * SCALE, 0), Vec3::new(0, 0, -SCALE)),
        Ray::new(Point3::new(SCALE / 2, 0, 0), Vec3::new(0, 0, -SCALE)),
    ];
    for ray in rays.iter() {
        let mut rec_list = HitRecord::blank();
        let mut rec_tree = HitRecord::blank();
        let hit_list = list.hit(ray, Interval::new(66, i64::MAX), &mut rec_list);
        let hit_tree = tree.hit(ray, Interval::new(66, i64::MAX), &mut rec_tree);
        assert_eq!(hit_list, hit_tree);
        if hit_list {
            assert_eq!(rec_list.t, rec_tree.t);
            assert_eq!(rec_list.mat, rec_tree.mat);
        }
    }
    // The nearest sphere wins: the first ray reaches z = -2 at t = 2.
    let mut rec = HitRecord::blank();
    assert!(list.hit(&rays[0], Interval::new(66, i64::MAX), &mut rec));
    assert_eq!(rec.t, 2 * SCALE);
    assert_eq!(rec.mat, mat_near);
}

#[test]
fn pixel_coordinates_enumerate_the_image() {
    let v = all_pixel_coords(3, 2);
    assert_eq!(v.len(), 6);
    let expect = [(0, 0), (1, 0), (2, 0), (0, 1), (1, 1), (2, 1)];
    for (k, (x, y)) in expect.iter().enumerate() {
        assert_eq!(v[k].x, *x);
        assert_eq!(v[k].y, *y);
    }
}

#[test]
fn shuffle_keeps_every_pixel() {
    let mut v = all_pixel_coords(16, 16);
    shuffle_coords(&mut v);
    assert_eq!(v.len(), 256);
    for x in 0..16usize {
        for y in 0..16usize {
            assert!(v.iter().any(|c| c.x == x && c.y == y));
        }
    }
}

#[test]
fn bounded_random_int_stays_in_range() {
    for _ in 0..64 {
        let r = bounded_random_int(-5, 5);
        assert!((-5..=5).contains(&r));
    }
    assert_eq!(bounded_random_int(7, 7), 7);
}

#[test]
fn render_pixel_carries_its_coordinate() {
    let cam = Camera::initialize(test_settings());
    let mat = Material::Lambertian(Lambertian::new(Vec3::new(SCALE / 2, SCALE / 2, SCALE / 2)));
    let world = HittableList::single(Object::Sphere(Sphere::new(
        Point3::new(0, 0, 0),
        SCALE,
        mat,
    )));
    let p = cam.render_pixel(&world, Cord { x: 5, y: 9 });
    assert_eq!(p.cord, Cord { x: 5, y: 9 });
}

#[test]
fn showcase_scene_builds() {
    let (cam, world) = ray_tracer::scenes::render();
    assert_eq!(world.objects.len(), 1);
    assert_eq!(cam.image_width, 1200);
    assert_eq!(cam.image_height, 675);
    assert_eq!(cam.samples_per_pixel, 500);
    // 1 / 500 in fixed point.
    assert_eq!(cam.pixel_samples_scale, 131);
}

fn test_settings() -> CameraSettings {
    CameraSettings {
        num_threads: 1,
        aspect_ratio: 116508,
        image_width: 40,
        samples_per_pixel: 2,
        max_depth: 4,
        vfov: 20 * SCALE,
        lookfrom: Point3::new(13 * SCALE, 2 * SCALE, 3 * SCALE),
        lookat: Point3::new(0, 0, 0),
        vup: Vec3::new(0, SCALE, 0),
        defocus_angle: 0,
        focus_dist: 10 * SCALE,
    }
}
