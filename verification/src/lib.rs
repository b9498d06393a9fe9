pub mod math;
pub mod vec3;
pub mod ray;
pub mod aabb;
pub mod hit_record;
pub mod material;
pub mod hittable;
pub mod sampling;
pub mod hittable_list;
pub mod bvh;
pub mod cube;
