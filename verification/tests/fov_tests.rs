use field_of_vision::{FovMap, SampleMap, VisionMap};
use rand::rngs::StdRng;
use rand::Rng;
use rand::SeedableRng;

const WIDTH: i32 = 45;
const HEIGHT: i32 = 45;
const POSITION_X: i32 = 22;
const POSITION_Y: i32 = 22;
const RADIUS: i32 = 24;
const RANDOM_WALLS: i32 = 10;

#[test]
fn size() {
    let fov = FovMap::new(20, 40);

    assert_eq!((20, 40), fov.size());
}

#[test]
fn new_fov_map_all_is_transparent() {
    let fov = FovMap::new(10, 20);
    for x in 0..10 {
        for y in 0..20 {
            assert!(fov.is_transparent(x, y));
        }
    }
}

#[test]
fn set_tranparent() {
    let mut fov = FovMap::new(10, 20);
    fov.set_transparent(5, 5, false);

    assert!(!fov.is_transparent(5, 5));
}

#[test]
fn fov() {
    let mut fov = FovMap::new(10, 10);
    for x in 1..10 {
        fov.set_transparent(x, 3, false);
    }
    for y in 0..10 {
        fov.set_transparent(9, y, false);
    }
    fov.calculate_fov(3, 2, 10);

    println!("{:?}", fov);
}

#[test]
fn fov_with_sample_map() {
    let mut fov = SampleMap::new(10, 10);
    for x in 1..10 {
        fov.set_transparent(x, 3, false);
    }
    for y in 0..10 {
        fov.set_transparent(9, y, false);
    }
    fov.calculate_fov(3, 2, 10);

    println!("{:?}", fov);
}

#[test]
fn fov_to_vector() {
    let mut fov = SampleMap::new(WIDTH, HEIGHT);

    fov.calculate_fov(POSITION_X, POSITION_Y, RADIUS);
}

#[test]
fn fov_with_wall_to_vector() {
    let mut fov = SampleMap::new(WIDTH, HEIGHT);
    let mut rng = StdRng::seed_from_u64(42);
    for _ in 0..RANDOM_WALLS {
        let (x, y) = (rng.gen_range(0..WIDTH), rng.gen_range(0..HEIGHT));
        fov.set_transparent(x, y, false);
    }
    fov.set_transparent(POSITION_X, POSITION_Y, true);

    fov.calculate_fov(POSITION_X, POSITION_Y, RADIUS);

    println!("{:?}", fov);
}
