use tracer::vec3::Vec3;
use tracer::ray::Ray;
use tracer::aabb::Aabb;
use tracer::hittable::{Sphere, Object, AxisRect};
use tracer::hittable_list::HittableList;
use tracer::bvh::BVHNode;
use tracer::material::Material;

fn sphere(x: i64, y: i64, z: i64, r: i64) -> Object {
    Object::Sphere(Sphere::new(Vec3::new(x, y, z), r, Material::Lambertian(Vec3::ones())))
}

#[test]
fn surrounding_box_contains_and_commutes() {
    let a = Aabb { min: Vec3::new(-10, -20, -30), max: Vec3::new(5, 6, 7) };
    let b = Aabb { min: Vec3::new(-1, -2, -40), max: Vec3::new(50, 3, 4) };
    let s = a.surrounding_box(&b);
    let t = b.surrounding_box(&a);
    assert_eq!(s, t);
    assert!(s.min.x <= a.min.x && s.max.x >= a.max.x);
    assert!(s.min.z <= b.min.z && s.max.z >= b.max.z);
}

#[test]
fn box_is_conservative_proxy_for_sphere() {
    let s = Sphere::new(Vec3::new(0, 0, 0), 1024, Material::Lambertian(Vec3::ones()));
    let b = s.bounding_box(0, 0);
    // rays that miss the box must miss the sphere
    for i in 0..50i64 {
        let ray = Ray::new(Vec3::new(-5120, 3000 + i * 17, 0), Vec3::new(1024, 0, 0), 0);
        if !b.hit(&ray, 1, 1_000_000) {
            assert!(s.hit(&ray, 1, 1_000_000).is_none());
        }
    }
}

#[test]
fn single_sphere_head_on_hit() {
    let s = Sphere::new(Vec3::new(0, 0, 0), 1024, Material::Lambertian(Vec3::ones()));
    let ray = Ray::new(Vec3::new(0, 0, -5120), Vec3::new(0, 0, 1024), 0);
    let h = s.hit(&ray, 1, 1_000_000).expect("head-on ray must hit");
    assert_eq!(h.t, 4096);
    assert_eq!(h.point, Vec3::new(0, 0, -1024));
    assert_eq!(h.normal, Vec3::new(0, 0, -1024));
    assert!(h.front_face);
}

#[test]
fn single_sphere_ray_pointing_away() {
    let s = Sphere::new(Vec3::new(0, 0, 0), 1024, Material::Lambertian(Vec3::ones()));
    let ray = Ray::new(Vec3::new(2048, 2048, 2048), Vec3::new(1024, 1024, 1024), 0);
    assert!(s.hit(&ray, 1, 1_000_000).is_none());
}

#[test]
fn bvh_matches_linear_scan() {
    let mut list = HittableList::new();
    let mut objs: Vec<Object> = Vec::new();
    let mut seed: u64 = 42;
    for _ in 0..40 {
        seed = seed.wrapping_mul(6364136223846793005).wrapping_add(1442695040888963407);
        let x = ((seed >> 20) % 8000) as i64 - 4000;
        let y = ((seed >> 30) % 8000) as i64 - 4000;
        let z = ((seed >> 40) % 8000) as i64 - 4000;
        let r = 200 + ((seed >> 50) % 800) as i64;
        let o = sphere(x, y, z, r);
        list.add(o);
        objs.push(o);
    }
    let bvh = BVHNode::new(objs, 0, 1024).expect("non-empty scene builds");
    let mut seed2: u64 = 7;
    for _ in 0..200 {
        seed2 = seed2.wrapping_mul(6364136223846793005).wrapping_add(1442695040888963407);
        let ox = ((seed2 >> 18) % 12000) as i64 - 6000;
        let oy = ((seed2 >> 28) % 12000) as i64 - 6000;
        let dz = 200 + ((seed2 >> 38) % 1800) as i64;
        let ray = Ray::new(Vec3::new(ox, oy, -6000), Vec3::new(-ox / 8, -oy / 8, dz), 0);
        let hb = bvh.hit(&ray, 1, 10_000_000);
        let hl = list.hit(&ray, 1, 10_000_000);
        match (hb, hl) {
            (None, None) => {}
            (Some(a), Some(b)) => assert_eq!(a.t, b.t),
            (a, b) => panic!("bvh and scan disagree: {:?} vs {:?}", a.map(|h| h.t), b.map(|h| h.t)),
        }
    }
}

#[test]
fn bvh_rejects_empty_scene() {
    assert!(BVHNode::new(Vec::new(), 0, 1024).is_none());
}

#[test]
fn list_basics() {
    let mut l = HittableList::new();
    assert!(l.is_empty());
    l.add(sphere(0, 0, 0, 512));
    assert!(!l.is_empty());
    assert_eq!(l.len(), 1);
}

#[test]
fn rect_hit_and_emission() {
    let rc = AxisRect::xy_rect(-1024, 1024, -1024, 1024, 0, Material::DiffuseLight(Vec3::new(4096, 4096, 4096)));
    let ray = Ray::new(Vec3::new(0, 0, 2048), Vec3::new(0, 0, -1024), 0);
    let h = rc.hit(&ray, 1, 1_000_000).expect("ray into rect plane hits");
    assert_eq!(h.t, 2048);
    assert!(h.front_face);
    let e = Material::DiffuseLight(Vec3::new(4096, 4096, 4096)).emitted(&ray, &h, h.u, h.v, h.point);
    assert_eq!(e, Vec3::new(4096, 4096, 4096));
}

#[test]
fn scattering_pdf_along_normal() {
    let s = Sphere::new(Vec3::new(0, 0, 0), 1024, Material::Lambertian(Vec3::ones()));
    let ray = Ray::new(Vec3::new(0, 0, -5120), Vec3::new(0, 0, 1024), 0);
    let h = s.hit(&ray, 1, 1_000_000).unwrap();
    let out = Ray::new(h.point, h.normal, 0);
    let pdf = Material::Lambertian(Vec3::ones()).scattering_pdf(&ray, &h, &out);
    // cos(0)/pi at scale 1024 with unit-length normal: 1024*1024/3217
    assert_eq!(pdf, (1024i64 * 1024) / 3217);
    let away = Ray::new(h.point, Vec3::new(0, 0, 1024), 0);
    assert_eq!(Material::Lambertian(Vec3::ones()).scattering_pdf(&ray, &h, &away), 0);
}
