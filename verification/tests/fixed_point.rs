use tower_defense::fixed::{
    isqrt, isqrt_up, isqrt_wide, rounded_length, scale_component, travel_distance,
};
use tower_defense::vector::distance_squared;
use tower_defense::{Vec2, Vec3};

#[test]
fn isqrt_of_squares_and_their_neighbours() {
    assert_eq!(isqrt(0), 0);
    assert_eq!(isqrt(1), 1);
    assert_eq!(isqrt(3), 1);
    assert_eq!(isqrt(4), 2);
    assert_eq!(isqrt(15), 3);
    assert_eq!(isqrt(16), 4);
    assert_eq!(isqrt(17), 4);
    assert_eq!(isqrt(37_000_000), 6082);
    assert_eq!(isqrt(1_000_000_000_000), 1_000_000);
    assert_eq!(isqrt(999_999_999_999), 999_999);
}

#[test]
fn isqrt_of_the_largest_number() {
    assert_eq!(isqrt(u64::MAX), 4_294_967_295);
}

#[test]
fn lengths_round_to_the_nearest_unit_halves_up() {
    assert_eq!(rounded_length(0), 0);
    assert_eq!(rounded_length(499), 0);
    assert_eq!(rounded_length(500), 1000);
    assert_eq!(rounded_length(1000), 1000);
    assert_eq!(rounded_length(1499), 1000);
    assert_eq!(rounded_length(1500), 2000);
}

#[test]
fn travel_is_speed_times_time_to_the_millionth() {
    assert_eq!(travel_distance(300, 16), 4_800);
    assert_eq!(travel_distance(300, 3), 900);
    assert_eq!(travel_distance(1000, 1000), 1_000_000);
    assert_eq!(travel_distance(3500, 100), 350_000);
    assert_eq!(travel_distance(300, 0), 0);
    assert_eq!(travel_distance(1, 1), 1);
    assert_eq!(travel_distance(1_000_000, 1_000_000), 1_000_000_000_000);
}

#[test]
fn wide_roots_round_down_and_up() {
    assert_eq!(isqrt_wide(0), 0);
    assert_eq!(isqrt_wide(2_000_000_000_000), 1_414_213);
    assert_eq!(isqrt_wide(u128::MAX), 18_446_744_073_709_551_615);
    assert_eq!(isqrt_up(0), 0);
    assert_eq!(isqrt_up(1), 1);
    assert_eq!(isqrt_up(2), 2);
    assert_eq!(isqrt_up(25_000_000_000_000_000_000), 5_000_000_000);
    assert_eq!(isqrt_up(2_000_000_000_000), 1_414_214);
    assert_eq!(isqrt_up(3_000_000_000_000), 1_732_051);
}

#[test]
fn scaling_rounds_toward_zero_on_both_sides() {
    assert_eq!(scale_component(7, 3, 2), 10);
    assert_eq!(scale_component(-7, 3, 2), -10);
    assert_eq!(scale_component(0, 3, 2), 0);
    assert_eq!(scale_component(6000, 300, 6082), 295);
    assert_eq!(scale_component(-1000, 300, 6082), -49);
}

#[test]
fn vectors_measure_and_subtract() {
    let a = Vec3::new(1000, 2000, 3000);
    let b = Vec3::new(4000, 6000, 3000);
    assert_eq!(a.to(b), Vec3::new(3000, 4000, 0));
    assert_eq!(a.to(b).length_squared(), 25_000_000);
    assert_eq!(distance_squared(a, b), 25_000_000);
    assert_eq!(distance_squared(b, a), 25_000_000);
    assert_eq!(a.plus(Vec3::new(-1000, 0, 5)), Vec3::new(0, 2000, 3005));
    assert_eq!(a.xz(), Vec2::new(1000, 3000));
    let p = Vec2::new(0, 3000);
    let q = Vec2::new(6000, 2000);
    assert_eq!(p.to(q), Vec2::new(6000, -1000));
    assert_eq!(p.to(q).length_squared(), 37_000_000);
    assert_eq!(p.to(q).length(), 6082);
}

#[test]
fn unit_vectors_are_a_thousand_long() {
    assert_eq!(Vec3::new(3000, 4000, 0).normalized(), Vec3::new(600, 800, 0));
    assert_eq!(Vec3::new(-3000, 0, 4000).normalized(), Vec3::new(-600, 0, 800));
    assert_eq!(Vec3::new(0, -5, 0).normalized(), Vec3::new(0, -1000, 0));
    assert_eq!(Vec3::new(2000, 2000, 2000).normalized(), Vec3::new(577, 577, 577));
}

#[test]
fn the_shortest_vectors_have_unit_vectors_too() {
    assert_eq!(Vec3::new(1, 1, 1).normalized(), Vec3::new(577, 577, 577));
    assert_eq!(Vec3::new(1, 0, 0).normalized(), Vec3::new(1000, 0, 0));
    assert_eq!(Vec3::new(0, 0, -1).normalized(), Vec3::new(0, 0, -1000));
    assert_eq!(Vec3::new(1, -1, 0).normalized(), Vec3::new(707, -707, 0));
    assert_eq!(Vec3::new(-1, 2, 2).normalized(), Vec3::new(-333, 666, 666));
    assert_eq!(Vec3::new(600, 1, 0).normalized(), Vec3::new(999, 1, 0));
}

#[test]
fn unit_vectors_are_between_998_and_1000_long() {
    let mut shortest = u64::MAX;
    let mut longest = 0;
    for x in -12..=12 {
        for y in -12..=12 {
            for z in -12..=12 {
                if x == 0 && y == 0 && z == 0 {
                    continue;
                }
                for scale in [1, 7, 1000, 166_000_000] {
                    let n = Vec3::new(x * scale, y * scale, z * scale).normalized();
                    let square = n.length_squared();
                    assert!(square >= 998 * 998);
                    assert!(square <= 1000 * 1000);
                    assert!(x * n.x >= 0 && y * n.y >= 0 && z * n.z >= 0);
                    shortest = shortest.min(square);
                    longest = longest.max(square);
                }
            }
        }
    }
    assert_eq!(longest, 1_000_000);
    assert!(shortest < 999 * 999);
}

#[test]
fn the_zero_vector_has_no_direction() {
    assert_eq!(Vec3::new(0, 0, 0).normalized(), Vec3::new(0, 0, 0));
}
