use tracer::vec3::Vec3;
use tracer::ray::Ray;
use tracer::hittable::Sphere;
use tracer::material::{Material, ScatterRecord, cosine_direction};

const S: i64 = 1024;

fn head_on_hit(material: Material) -> (Ray, tracer::hit_record::HitRecord) {
    let s = Sphere::new(Vec3::new(0, 0, 0), S, material);
    let ray = Ray::new(Vec3::new(0, 0, -5 * S), Vec3::new(0, 0, S), 0);
    let h = s.hit(&ray, 1, 1_000_000).expect("head-on ray must hit");
    (ray, h)
}

#[test]
fn lambertian_scatters_about_the_normal() {
    let alb = Vec3::new(512, 256, 128);
    let (ray, h) = head_on_hit(Material::Lambertian(alb));
    match Material::Lambertian(alb).scatter(&ray, &h) {
        Some(ScatterRecord::Scatter { pdf_axis, attenuation }) => {
            assert_eq!(pdf_axis, h.normal);
            assert_eq!(attenuation, alb);
        }
        other => panic!("lambertian must scatter diffusely, got {:?}", other.is_some()),
    }
}

#[test]
fn metal_fuzz_zero_reflects_exactly() {
    let alb = Vec3::new(800, 600, 200);
    let (ray, h) = head_on_hit(Material::Metal(alb, 0));
    // head-on: the oriented normal is (0,0,-S); the exact mirror image of
    // the unit incoming direction (0,0,S) is (0,0,-S)
    match Material::Metal(alb, 0).scatter(&ray, &h) {
        Some(ScatterRecord::Specular { specular_ray, attenuation }) => {
            assert_eq!(specular_ray.direction, Vec3::new(0, 0, -S));
            assert_eq!(specular_ray.origin, h.point);
            assert_eq!(attenuation, alb);
            // law of reflection: equal and opposite cosine against the normal
            let vn = S * (-S); // unit_in . normal
            let rn = (-S) * (-S); // reflected . normal
            assert_eq!(rn, -vn);
        }
        other => panic!("metal must reflect here, got {:?}", other.is_some()),
    }
}

#[test]
fn metal_absorbs_inward_reflection() {
    let alb = Vec3::new(800, 600, 200);
    let (ray, mut h) = head_on_hit(Material::Metal(alb, 0));
    // force a normal along the ray: the geometric reflection then points
    // into the surface and the metal absorbs
    h.normal = Vec3::new(0, 0, S);
    assert!(Material::Metal(alb, 0).scatter(&ray, &h).is_none());
}

#[test]
fn dielectric_index_one_passes_straight_through() {
    let (ray, h) = head_on_hit(Material::Dielectric(S));
    // refractive index 1.0: Schlick reflectance is zero head-on and the
    // refracted direction equals the unit incoming direction, exactly
    match Material::Dielectric(S).scatter(&ray, &h) {
        Some(ScatterRecord::Specular { specular_ray, attenuation }) => {
            assert_eq!(specular_ray.direction, Vec3::new(0, 0, S));
            assert_eq!(attenuation, Vec3::new(S, S, S));
        }
        other => panic!("dielectric always scatters, got {:?}", other.is_some()),
    }
}

#[test]
fn emissives_and_debug_never_scatter() {
    let (ray, h) = head_on_hit(Material::DiffuseLight(Vec3::new(4 * S, 4 * S, 4 * S)));
    assert!(Material::DiffuseLight(Vec3::new(4 * S, 4 * S, 4 * S)).scatter(&ray, &h).is_none());
    assert!(Material::Normal.scatter(&ray, &h).is_none());
}

#[test]
fn isotropic_scatters_into_the_unit_ball() {
    let alb = Vec3::new(300, 300, 300);
    let (ray, h) = head_on_hit(Material::Isotropic(alb));
    for _ in 0..50 {
        match Material::Isotropic(alb).scatter(&ray, &h) {
            Some(ScatterRecord::Specular { specular_ray, attenuation }) => {
                let d = specular_ray.direction;
                assert!(d.x * d.x + d.y * d.y + d.z * d.z <= S * S);
                assert_eq!(attenuation, alb);
            }
            other => panic!("isotropic always scatters, got {:?}", other.is_some()),
        }
    }
}

#[test]
fn cosine_samples_stay_in_the_hemisphere() {
    let axis = Vec3::new(0, 0, S);
    let n = 2000;
    let mut sum_cos = 0.0f64;
    for _ in 0..n {
        let d = cosine_direction(&axis);
        let len = ((d.x * d.x + d.y * d.y + d.z * d.z) as f64).sqrt();
        assert!(len > 0.0);
        let cos = (d.z as f64) / len;
        // hemisphere of the axis, up to one grid step of rounding
        assert!(cos >= -0.01, "sample fell below the hemisphere: {cos}");
        sum_cos += cos;
    }
    // cosine-weighted sampling has mean cosine 2/3
    let mean = sum_cos / (n as f64);
    assert!((mean - 2.0 / 3.0).abs() < 0.05, "mean cosine {mean} is off");
}

#[test]
fn lambertian_pdf_integrates_to_one() {
    // estimate the integral of scattering_pdf over the hemisphere with a
    // deterministic uniform direction sample: it should come out near 1
    let alb = Vec3::new(512, 512, 512);
    let (ray, h) = head_on_hit(Material::Lambertian(alb));
    let mut seed: u64 = 99;
    let mut sum = 0.0f64;
    let mut count = 0;
    while count < 4000 {
        seed = seed.wrapping_mul(6364136223846793005).wrapping_add(1442695040888963407);
        let x = ((seed >> 16) % (2 * S as u64 + 1)) as i64 - S;
        let y = ((seed >> 32) % (2 * S as u64 + 1)) as i64 - S;
        let z = ((seed >> 48) % (2 * S as u64 + 1)) as i64 - S;
        let n2 = x * x + y * y + z * z;
        if n2 == 0 || n2 > S * S {
            continue;
        }
        // keep only the hemisphere of the oriented normal (0,0,-S)
        if z > 0 {
            continue;
        }
        let scattered = Ray::new(h.point, Vec3::new(x, y, z), 0);
        let pdf_fp = Material::Lambertian(alb).scattering_pdf(&ray, &h, &scattered);
        sum += (pdf_fp as f64) / (S as f64);
        count += 1;
    }
    // mean pdf over the hemisphere times its area 2*pi approximates 1
    let integral = (sum / (count as f64)) * 2.0 * std::f64::consts::PI;
    assert!((integral - 1.0).abs() < 0.08, "pdf integral {integral} is off");
}
