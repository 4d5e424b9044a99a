use raytracer::hit::{select_root, Root};

#[test]
fn no_real_root_is_a_miss() {
    assert_eq!(select_root(false, false, false), None);
    assert_eq!(select_root(false, true, true), None);
    assert_eq!(select_root(false, true, false), None);
    assert_eq!(select_root(false, false, true), None);
}

#[test]
fn near_root_in_range_wins() {
    assert_eq!(select_root(true, true, true), Some(Root::Near));
    assert_eq!(select_root(true, true, false), Some(Root::Near));
}

#[test]
fn far_root_is_taken_when_near_is_out_of_range() {
    assert_eq!(select_root(true, false, true), Some(Root::Far));
}

#[test]
fn both_roots_out_of_range_is_a_miss() {
    assert_eq!(select_root(true, false, false), None);
}

fn dot(u: [f64; 3], v: [f64; 3]) -> f64 {
    u[0] * v[0] + u[1] * v[1] + u[2] * v[2]
}

struct Roots {
    discriminant: f64,
    near: f64,
    far: f64,
}

fn roots_of(origin: [f64; 3], direction: [f64; 3], centre: [f64; 3], radius: f64) -> Roots {
    let diff = [
        origin[0] - centre[0],
        origin[1] - centre[1],
        origin[2] - centre[2],
    ];
    let a = dot(direction, direction);
    let half_b = dot(direction, diff);
    let c = dot(diff, diff) - radius * radius;
    let discriminant = half_b * half_b - a * c;
    let sqrt_d = discriminant.sqrt();
    Roots {
        discriminant,
        near: (-half_b - sqrt_d) / a,
        far: (-half_b + sqrt_d) / a,
    }
}

fn pick(roots: &Roots, t_min: f64, t_max: f64) -> Option<Root> {
    let in_range = |t: f64| !(t < t_min || t_max < t);
    select_root(
        !(roots.discriminant < 0.0),
        in_range(roots.near),
        in_range(roots.far),
    )
}

#[test]
fn ray_towards_sphere_takes_near_root() {
    let roots = roots_of([0.0, 0.0, 0.0], [0.0, 0.0, -1.0], [0.0, 0.0, -1.0], 0.5);
    assert_eq!(pick(&roots, 0.0, f64::INFINITY), Some(Root::Near));
    assert!((roots.near - 0.5).abs() < 1e-12);
}

#[test]
fn ray_beside_sphere_misses() {
    let roots = roots_of([0.0, 0.0, 0.0], [1.0, 0.0, 0.0], [0.0, 0.0, -1.0], 0.5);
    assert!(roots.discriminant < 0.0);
    assert_eq!(pick(&roots, 0.0, f64::INFINITY), None);
}

#[test]
fn ray_from_inside_sphere_takes_far_root() {
    let roots = roots_of([0.0, 0.0, -1.0], [0.0, 0.0, -1.0], [0.0, 0.0, -1.0], 0.5);
    assert_eq!(pick(&roots, 0.0, f64::INFINITY), Some(Root::Far));
    assert!((roots.far - 0.5).abs() < 1e-12);
}

#[test]
fn sphere_behind_ray_is_a_miss() {
    let roots = roots_of([0.0, 0.0, 0.0], [0.0, 0.0, 1.0], [0.0, 0.0, -1.0], 0.5);
    assert!(roots.discriminant >= 0.0);
    assert_eq!(pick(&roots, 0.0, f64::INFINITY), None);
}

#[test]
fn tangent_ray_takes_the_one_root() {
    let roots = roots_of([0.5, 0.0, 0.0], [0.0, 0.0, -1.0], [0.0, 0.0, -1.0], 0.5);
    assert_eq!(roots.discriminant, 0.0);
    assert_eq!(roots.near, roots.far);
    assert_eq!(pick(&roots, 0.0, f64::INFINITY), Some(Root::Near));
}

#[test]
fn interval_that_ends_before_the_sphere_is_a_miss() {
    let roots = roots_of([0.0, 0.0, 0.0], [0.0, 0.0, -1.0], [0.0, 0.0, -1.0], 0.5);
    assert_eq!(pick(&roots, 0.0, 0.25), None);
    assert_eq!(pick(&roots, 1.0, 2.0), Some(Root::Far));
}
