use tracer::vec3::Vec3;
use tracer::ray::Ray;
use tracer::hittable::{Object, Sphere, MovingSphere};
use tracer::hittable_list::HittableList;
use tracer::cube::Cube;
use tracer::material::Material;

const S: i64 = 1024;

#[test]
fn cube_is_hit_through_its_sides() {
    let c = Cube::new(
        Vec3::new(-S, -S, -S),
        Vec3::new(S, S, S),
        Material::Lambertian(Vec3::ones()),
    );
    let ray = Ray::new(Vec3::new(0, 0, -5 * S), Vec3::new(0, 0, S), 0);
    let h = c.hit(&ray, 1, 1_000_000).expect("ray into the box hits a side");
    assert_eq!(h.t, 4 * S);
    assert_eq!(h.point, Vec3::new(0, 0, -S));
    let away = Ray::new(Vec3::new(5 * S, 5 * S, 5 * S), Vec3::new(S, S, S), 0);
    assert!(c.hit(&away, 1, 1_000_000).is_none());
    let b = c.bounding_box(0, 0);
    assert_eq!(b.min, Vec3::new(-S - 2, -S - 2, -S - 2));
    assert_eq!(b.max, Vec3::new(S + 2, S + 2, S + 2));
}

#[test]
fn list_box_is_the_union_of_member_boxes() {
    // a single off-origin sphere: the list's box is the sphere's own box,
    // not inflated toward the origin
    let mut l = HittableList::new();
    l.add(Object::Sphere(Sphere::new(
        Vec3::new(5 * S, 5 * S, 5 * S),
        S,
        Material::Lambertian(Vec3::ones()),
    )));
    let b = l.bounding_box(0, 0).expect("non-empty list has a box");
    assert_eq!(b.min, Vec3::new(4 * S - 2, 4 * S - 2, 4 * S - 2));
    assert_eq!(b.max, Vec3::new(6 * S + 2, 6 * S + 2, 6 * S + 2));
    // an empty list has none
    let empty = HittableList::new();
    assert!(empty.bounding_box(0, 0).is_none());
}

#[test]
fn moving_sphere_box_follows_the_queried_interval() {
    let ms = MovingSphere::new(
        Vec3::new(0, 0, 0),
        Vec3::new(S, 0, 0),
        0,
        S,
        S / 2,
        Material::Lambertian(Vec3::ones()),
    );
    // whole exposure: the union of the boxes at both ends of the travel
    let full = ms.bounding_box(0, S);
    assert_eq!(full.min.x, -S / 2 - 2);
    assert_eq!(full.max.x, S + S / 2 + 2);
    // a single instant at the start: just the box there
    let start = ms.bounding_box(0, 0);
    assert_eq!(start.min.x, -S / 2 - 2);
    assert_eq!(start.max.x, S / 2 + 2);
}

#[test]
fn moving_sphere_is_sampled_at_the_ray_time() {
    let ms = MovingSphere::new(
        Vec3::new(0, 0, 0),
        Vec3::new(4 * S, 0, 0),
        0,
        S,
        S,
        Material::Lambertian(Vec3::ones()),
    );
    // at time 0 the sphere sits at the origin and the head-on ray hits
    let early = Ray::new(Vec3::new(0, 0, -5 * S), Vec3::new(0, 0, S), 0);
    assert!(ms.hit(&early, 1, 1_000_000).is_some());
    // at the end of the exposure it has moved four units away in x
    let late = Ray::new(Vec3::new(0, 0, -5 * S), Vec3::new(0, 0, S), S);
    assert!(ms.hit(&late, 1, 1_000_000).is_none());
}
