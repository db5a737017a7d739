use raycaster::render::{pixel_ray, trace};
use raycaster::scene::{Color, Ray, Sphere, World};
use raycaster::algebra::vec3::Vec3;
use raycaster::fixed::SCALE;
use raycaster::{render, to_rgba_bytes};

const K: i64 = SCALE;
const WHITE: Color = Color { r: 255, g: 255, b: 255, a: 255 };
const PURPLE: Color = Color { r: 136, g: 47, b: 164, a: 255 };
const RED: Color = Color { r: 255, g: 0, b: 0, a: 255 };
const BLUE: Color = Color { r: 0, g: 0, b: 255, a: 255 };

fn origin() -> Vec3 {
    Vec3::new(0, 0, 0)
}

fn single_sphere_world() -> World {
    let mut w = World::new(origin(), WHITE);
    w.add_sphere(Sphere::new(Vec3::new(0, 0, 30 * K), 5 * K, PURPLE));
    w
}

#[test]
fn empty_world_is_all_background() {
    let w = World::new(origin(), WHITE);
    let frame = render(&w, 16, 9);
    assert_eq!(frame.len(), 16 * 9);
    assert!(frame.iter().all(|c| *c == WHITE));
}

#[test]
fn zero_sized_viewport_gives_empty_frame() {
    let w = single_sphere_world();
    assert!(render(&w, 0, 10).is_empty());
    assert!(render(&w, 10, 0).is_empty());
}

#[test]
fn centre_pixel_hits_sphere_on_axis() {
    let w = single_sphere_world();
    let d = pixel_ray(640, 640, 320, 320);
    assert_eq!(d, Vec3::new(0, 0, K));
    assert_eq!(trace(&w, d), PURPLE);
    assert_eq!(trace(&w, pixel_ray(640, 640, 0, 0)), WHITE);
}

#[test]
fn sphere_covers_its_angular_radius() {
    let w = single_sphere_world();
    let (width, height) = (64u32, 48u32);
    let frame = render(&w, width, height);
    let half_angle = (5.0f64 / 30.0).asin();
    let mut hits = 0;
    for row in 0..height {
        for col in 0..width {
            let vx = (col as f64 - (width / 2) as f64) / width as f64;
            let vy = (row as f64 - (height / 2) as f64) / height as f64;
            let angle = (vx * vx + vy * vy).sqrt().atan();
            let got = frame[(row * width + col) as usize];
            if angle < half_angle - 0.01 {
                assert_eq!(got, PURPLE, "pixel ({}, {})", col, row);
                hits += 1;
            } else if angle > half_angle + 0.01 {
                assert_eq!(got, WHITE, "pixel ({}, {})", col, row);
            }
        }
    }
    assert!(hits > 0);
    assert_eq!(frame[(height / 2 * width + width / 2) as usize], PURPLE);
}

#[test]
fn nearer_sphere_wins_in_either_order() {
    let near = Sphere::new(Vec3::new(0, 0, 23 * K), 5 * K, RED);
    let far = Sphere::new(Vec3::new(0, 0, 25 * K), 5 * K, BLUE);
    let centre = Vec3::new(0, 0, K);
    let mut a = World::new(origin(), WHITE);
    a.add_sphere(near);
    a.add_sphere(far);
    let mut b = World::new(origin(), WHITE);
    b.add_sphere(far);
    b.add_sphere(near);
    assert_eq!(trace(&a, centre), RED);
    assert_eq!(trace(&b, centre), RED);
    let fa = render(&a, 32, 32);
    let fb = render(&b, 32, 32);
    assert_eq!(fa, fb);
    assert_eq!(fa[16 * 32 + 16], RED);
}

#[test]
fn equal_spheres_keep_the_first() {
    let mut w = World::new(origin(), WHITE);
    w.add_sphere(Sphere::new(Vec3::new(0, 0, 20 * K), 2 * K, RED));
    w.add_sphere(Sphere::new(Vec3::new(0, 0, 20 * K), 2 * K, BLUE));
    assert_eq!(trace(&w, Vec3::new(0, 0, K)), RED);
}

#[test]
fn sphere_behind_camera_is_not_seen() {
    let mut w = World::new(origin(), WHITE);
    w.add_sphere(Sphere::new(Vec3::new(0, 0, -30 * K), 5 * K, RED));
    assert_eq!(trace(&w, Vec3::new(0, 0, K)), WHITE);
}

#[test]
fn camera_inside_sphere_sees_it() {
    let mut w = World::new(origin(), WHITE);
    w.add_sphere(Sphere::new(Vec3::new(0, 0, 0), 5 * K, BLUE));
    assert_eq!(trace(&w, Vec3::new(0, 0, K)), BLUE);
}

#[test]
fn intersect_gives_entry_and_exit() {
    let s = Sphere::new(Vec3::new(0, 0, 30 * K), 5 * K, PURPLE);
    let ray = Ray { direction: Vec3::new(0, 0, K) };
    assert_eq!(s.intersect(&ray, origin()), Some((35 * K as i128, 25 * K as i128)));
    let miss = Ray { direction: Vec3::new(K, 0, 0) };
    assert_eq!(s.intersect(&miss, origin()), None);
    let zero = Ray { direction: Vec3::new(0, 0, 0) };
    assert_eq!(s.intersect(&zero, origin()), None);
}

#[test]
fn rendering_twice_is_identical() {
    let mut w = single_sphere_world();
    w.add_sphere(Sphere::new(Vec3::new(5 * K / 2, 5 * K / 2, 23 * K), 5 * K, RED));
    w.add_sphere(Sphere::new(Vec3::new(5 * K / 2, 5 * K / 2, 25 * K), 5 * K, BLUE));
    let first = render(&w, 40, 30);
    let second = render(&w, 40, 30);
    assert_eq!(first, second);
    assert_eq!(to_rgba_bytes(&first), to_rgba_bytes(&second));
}

#[test]
fn bytes_are_rgba_in_order() {
    let frame = vec![Color::new(1, 2, 3, 4), Color::new(5, 6, 7, 8)];
    assert_eq!(to_rgba_bytes(&frame), vec![1, 2, 3, 4, 5, 6, 7, 8]);
    assert!(to_rgba_bytes(&Vec::new()).is_empty());
}
