use pathtracer::aabb::{Point3, AABB};
use pathtracer::bvh::construct_bvh_aac;
use pathtracer::estimator::Colour;
use pathtracer::ray::{Dist, Ray};
use pathtracer::renderer::RenderState;
use pathtracer::worker::RenderResult;

const SCALE: i64 = 1024;

fn sphere_hit(origin: [f64; 3], dir: [f64; 3], center: [f64; 3], radius: f64) -> Option<f64> {
    let oc = [origin[0] - center[0], origin[1] - center[1], origin[2] - center[2]];
    let a = dir[0] * dir[0] + dir[1] * dir[1] + dir[2] * dir[2];
    let b = 2.0 * (oc[0] * dir[0] + oc[1] * dir[1] + oc[2] * dir[2]);
    let c = oc[0] * oc[0] + oc[1] * oc[1] + oc[2] * oc[2] - radius * radius;
    let disc = b * b - 4.0 * a * c;
    if disc < 0.0 {
        return None;
    }
    let t = (-b - disc.sqrt()) / (2.0 * a);
    if t > 0.0 { Some(t) } else { None }
}

#[test]
fn single_sphere_on_axis_converges_to_its_colour() {
    let width: u32 = 9;
    let height: u32 = 9;
    let center = [0.0, 0.0, 1000.0];
    let radius = 200.0;
    let sphere_colour = Colour::new(40000, 20000, 10000);
    let sky = Colour::new(50000, 50000, 65000);
    let b = AABB::new(Point3::new(-200, -200, 800), Point3::new(200, 200, 1200));
    let bvh = construct_bvh_aac(vec![(b, sphere_colour)], &|_n: usize| 1usize);

    let mut state = RenderState::new(width, height);
    let epoch = state.new_epoch();
    for sy in 0..4 {
        for sx in 0..4 {
            let mut samples = Vec::new();
            for y in 0..height {
                for x in 0..width {
                    // Four sub-pixel positions per axis; the image plane is ten
                    // pixels in front of the camera.
                    let dx = (x as i32 - 4) * 4 + sx - 2;
                    let dy = (y as i32 - 4) * 4 + sy - 2;
                    let ray = Ray::new(Point3::new(0, 0, 0), Point3::new(dx, dy, 40));
                    let dir = [dx as f64, dy as f64, 40.0];
                    let hit = |_i: usize| {
                        sphere_hit([0.0, 0.0, 0.0], dir, center, radius)
                            .map(|t| Dist::new((t * SCALE as f64).floor() as i64, SCALE))
                    };
                    let colour = match bvh.find_intersection(&ray, &hit) {
                        Some((_, i)) => *bvh.item(i),
                        None => sky,
                    };
                    samples.push((x, y, colour));
                }
            }
            state.apply_result(&RenderResult { epoch, samples });
        }
    }
    let img = state.render();
    let mid = img.pixels[(4 + 4 * width) as usize];
    assert_eq!(mid, sphere_colour);
    assert_eq!(img.pixels[0], sky);
    assert_eq!(state.num_rays_cast(), 16 * 81);
}
