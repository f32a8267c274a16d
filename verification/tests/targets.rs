use tower_defense::target::{
    move_targets, spawn_targets, target_breach, target_death, PathError, SpawnError,
};
use tower_defense::{
    Enemy, Health, Target, TargetBreachEvent, TargetDeathEvent, TargetPath, Vec2, Vec3, Wave,
};

fn enemy(id: u64, position: Vec3, speed: i64, path_index: usize, health: i64) -> Enemy {
    Enemy {
        id,
        position,
        facing: None,
        target: Target { speed, path_index },
        health: Health { value: health },
        leg_start: position.xz(),
        walked: 0,
    }
}

fn path(points: &[(i64, i64)]) -> TargetPath {
    let mut waypoints = Vec::new();
    for (x, y) in points {
        waypoints.push(Vec2::new(*x, *y));
    }
    match TargetPath::new(waypoints) {
        Ok(path) => path,
        Err(e) => panic!("path refused: {:?}", e),
    }
}

#[test]
fn a_path_without_waypoints_is_refused() {
    assert!(matches!(TargetPath::new(Vec::new()), Err(PathError::Empty)));
}

#[test]
fn a_path_with_a_waypoint_out_of_range_is_refused() {
    let far = vec![Vec2::new(0, 0), Vec2::new(999_999_001, 0)];
    assert!(matches!(TargetPath::new(far), Err(PathError::OutOfRange)));
    let low = vec![Vec2::new(0, -999_999_001)];
    assert!(matches!(TargetPath::new(low), Err(PathError::OutOfRange)));
}

#[test]
fn a_path_on_the_limit_is_accepted() {
    let edge = vec![Vec2::new(999_999_000, -999_999_000)];
    match TargetPath::new(edge) {
        Ok(path) => {
            assert_eq!(path.len(), 1);
            assert_eq!(path.waypoints, vec![Vec2::new(999_999_000, -999_999_000)]);
        },
        Err(e) => panic!("path refused: {:?}", e),
    }
}

#[test]
fn an_enemy_walks_the_full_step_toward_its_waypoint() {
    let path = path(&[(6000, 2000), (30000, 10000), (50000, 1000)]);
    let start = enemy(0, Vec3::new(0, 0, 3000), 300, 0, 3000);
    let next = start.moved(&path, 1000);
    assert_eq!(next.position, Vec3::new(295, 0, 2951));
    assert_eq!(next.facing, Some(Vec2::new(6000, 2000)));
    assert_eq!(next.target, Target { speed: 300, path_index: 0 });
    assert_eq!(next.health, Health { value: 3000 });
    assert_eq!(next.id, 0);
    assert_eq!(next.leg_start, Vec2::new(0, 3000));
    assert_eq!(next.walked, 300_000);
}

#[test]
fn an_enemy_keeps_its_height() {
    let path = path(&[(10000, 0)]);
    let start = enemy(0, Vec3::new(0, 750, 0), 1000, 0, 1000);
    assert_eq!(start.moved(&path, 1000).position, Vec3::new(1000, 750, 0));
}

#[test]
fn an_enemy_close_to_its_waypoint_turns_to_the_next_and_stays() {
    let path = path(&[(1000, 0), (9000, 0)]);
    let near = enemy(0, Vec3::new(600, 0, 0), 300, 0, 3000);
    let next = near.moved(&path, 100);
    assert_eq!(next.position, Vec3::new(600, 0, 0));
    assert_eq!(next.facing, None);
    assert_eq!(next.target.path_index, 1);
}

#[test]
fn half_a_unit_still_counts_as_a_unit_to_go() {
    let path = path(&[(1000, 0), (9000, 0)]);
    let half = enemy(0, Vec3::new(500, 0, 0), 300, 0, 3000);
    let next = half.moved(&path, 100);
    assert_eq!(next.target.path_index, 0);
    assert_eq!(next.position, Vec3::new(530, 0, 0));
    let less = enemy(0, Vec3::new(501, 0, 0), 300, 0, 3000);
    assert_eq!(less.moved(&path, 100).target.path_index, 1);
}

#[test]
fn a_waypoint_within_the_step_counts_as_reached() {
    let path = path(&[(3000, 0), (9000, 0)]);
    let walker = enemy(0, Vec3::new(0, 0, 0), 3000, 0, 3000);
    let next = walker.moved(&path, 1000);
    assert_eq!(next.target.path_index, 1);
    assert_eq!(next.position, Vec3::new(0, 0, 0));
    let farther = enemy(0, Vec3::new(-1000, 0, 0), 3000, 0, 3000);
    let moved = farther.moved(&path, 1000);
    assert_eq!(moved.target.path_index, 0);
    assert_eq!(moved.position, Vec3::new(2000, 0, 0));
}

#[test]
fn an_enemy_may_pass_its_waypoint_by_less_than_half_a_unit() {
    let path = path(&[(600, 0), (9000, 0)]);
    let walker = enemy(0, Vec3::new(0, 0, 0), 900, 0, 3000);
    let over = walker.moved(&path, 1000);
    assert_eq!(over.position, Vec3::new(900, 0, 0));
    assert_eq!(over.target.path_index, 0);
    let back = over.moved(&path, 1000);
    assert_eq!(back.position, Vec3::new(900, 0, 0));
    assert_eq!(back.target.path_index, 1);
    assert_eq!(back.leg_start, Vec2::new(900, 0));
    assert_eq!(back.walked, 0);
}

#[test]
fn a_tick_of_no_time_moves_no_one() {
    let path = path(&[(6000, 2000)]);
    let start = enemy(0, Vec3::new(0, 0, 3000), 300, 0, 3000);
    let next = start.moved(&path, 0);
    assert_eq!(next.position, start.position);
    assert_eq!(next.target.path_index, 0);
    assert_eq!(next.facing, Some(Vec2::new(6000, 2000)));
}

#[test]
fn an_enemy_past_the_path_stays_as_it_is() {
    let path = path(&[(6000, 2000)]);
    let done = enemy(4, Vec3::new(6000, 0, 2000), 300, 1, 3000);
    assert_eq!(done.moved(&path, 1000), done);
    let beyond = enemy(4, Vec3::new(6000, 0, 2000), 300, 7, 3000);
    assert_eq!(beyond.moved(&path, 1000), beyond);
}

#[test]
fn the_waypoint_index_never_falls_and_rises_by_one_at_most() {
    let path = path(&[(6000, 2000), (30000, 10000), (50000, 1000)]);
    let mut walker = enemy(0, Vec3::new(0, 0, 3000), 5000, 0, 3000);
    let mut ticks = 0;
    while walker.target.path_index < path.len() {
        let next = walker.moved(&path, 250);
        assert!(next.target.path_index >= walker.target.path_index);
        assert!(next.target.path_index <= walker.target.path_index + 1);
        walker = next;
        ticks += 1;
        assert!(ticks < 1000);
    }
    assert_eq!(walker.target.path_index, 3);
}

#[test]
fn an_enemy_walks_a_path_in_about_its_length_over_its_speed() {
    // 10 units at 2 units a second in steps of a tenth of a second: one
    // tick to turn to the second waypoint, 48 ticks to come within half a
    // unit of it, and one tick to turn away from it.
    let path = path(&[(0, 0), (10000, 0)]);
    let mut walker = enemy(0, Vec3::new(0, 0, 0), 2000, 0, 3000);
    let mut ticks = 0;
    while walker.target.path_index < 2 {
        walker = walker.moved(&path, 100);
        ticks += 1;
        assert!(ticks < 1000);
    }
    assert_eq!(ticks, 50);
}

#[test]
fn every_enemy_of_the_store_moves() {
    let path = path(&[(10000, 0), (10000, 10000)]);
    let mut targets = vec![
        enemy(0, Vec3::new(0, 0, 0), 1000, 0, 3000),
        enemy(1, Vec3::new(10000, 0, 0), 1000, 0, 3000),
        enemy(2, Vec3::new(10000, 0, 4000), 2000, 1, 3000),
    ];
    move_targets(&mut targets, &path, 1000);
    assert_eq!(targets.len(), 3);
    assert_eq!(targets[0].position, Vec3::new(1000, 0, 0));
    assert_eq!(targets[0].target.path_index, 0);
    assert_eq!(targets[1].position, Vec3::new(10000, 0, 0));
    assert_eq!(targets[1].target.path_index, 1);
    assert_eq!(targets[2].position, Vec3::new(10000, 0, 6000));
    assert_eq!(targets[2].target.path_index, 1);
}

#[test]
fn damage_adds_up_and_may_go_below_zero() {
    let mut health = Health { value: 3000 };
    health.apply_damage(1000);
    assert_eq!(health.value, 2000);
    assert!(!health.is_dead());
    health.apply_damage(1000);
    health.apply_damage(1000);
    assert_eq!(health.value, 0);
    assert!(health.is_dead());
    health.apply_damage(1000);
    assert_eq!(health.value, -1000);
    let mut at_once = Health { value: 3000 };
    at_once.apply_damage(4000);
    assert_eq!(at_once, health);
}

#[test]
fn damage_of_nothing_changes_nothing() {
    let mut health = Health { value: 5 };
    health.apply_damage(0);
    assert_eq!(health.value, 5);
}

#[test]
fn health_stops_at_the_least_that_fits() {
    let mut health = Health { value: i64::MIN + 5 };
    health.apply_damage(10);
    assert_eq!(health.value, i64::MIN);
}

#[test]
fn the_death_scan_removes_the_dead_and_reports_each_once() {
    let mut targets = vec![
        enemy(3, Vec3::new(0, 0, 0), 300, 0, 0),
        enemy(5, Vec3::new(0, 0, 0), 300, 0, 1),
        enemy(8, Vec3::new(0, 0, 0), 300, 0, -2000),
        enemy(9, Vec3::new(0, 0, 0), 300, 0, 3000),
    ];
    let events = target_death(&mut targets);
    assert_eq!(events, vec![TargetDeathEvent { target: 3 }, TargetDeathEvent { target: 8 }]);
    assert_eq!(targets.len(), 2);
    assert_eq!(targets[0].id, 5);
    assert_eq!(targets[1].id, 9);
    let again = target_death(&mut targets);
    assert!(again.is_empty());
    assert_eq!(targets.len(), 2);
}

#[test]
fn the_death_scan_of_an_empty_store_finds_nothing() {
    let mut targets: Vec<Enemy> = Vec::new();
    assert!(target_death(&mut targets).is_empty());
    assert!(targets.is_empty());
}

#[test]
fn the_breach_scan_removes_those_past_the_last_waypoint() {
    let path = path(&[(0, 0), (10000, 0)]);
    let mut targets = vec![
        enemy(1, Vec3::new(0, 0, 0), 300, 0, 3000),
        enemy(2, Vec3::new(0, 0, 0), 300, 2, 3000),
        enemy(3, Vec3::new(0, 0, 0), 300, 1, 3000),
        enemy(4, Vec3::new(0, 0, 0), 300, 3, 3000),
    ];
    let events = target_breach(&mut targets, &path);
    assert_eq!(events, vec![TargetBreachEvent { target: 2 }, TargetBreachEvent { target: 4 }]);
    assert_eq!(targets.len(), 2);
    assert_eq!(targets[0].id, 1);
    assert_eq!(targets[1].id, 3);
    assert!(target_breach(&mut targets, &path).is_empty());
}

#[test]
fn a_wave_is_a_row_behind_its_origin() {
    let wave = Wave { count: 20, origin: Vec3::new(0, 0, 3000), spacing: 2000, speed: 300, health: 3000 };
    match spawn_targets(&wave, 0) {
        Ok(targets) => {
            assert_eq!(targets.len(), 20);
            for (i, e) in targets.iter().enumerate() {
                assert_eq!(e.id, i as u64);
                assert_eq!(e.position, Vec3::new(-2000 * (i as i64), 0, 3000));
                assert_eq!(e.facing, None);
                assert_eq!(e.target, Target { speed: 300, path_index: 0 });
                assert_eq!(e.health, Health { value: 3000 });
            }
        },
        Err(e) => panic!("wave refused: {:?}", e),
    }
}

#[test]
fn a_wave_takes_its_ids_from_the_first_free_one() {
    let wave = Wave { count: 2, origin: Vec3::new(5, 6, 7), spacing: -10, speed: 1, health: 1 };
    match spawn_targets(&wave, 40) {
        Ok(targets) => {
            assert_eq!(targets.len(), 2);
            assert_eq!(targets[0].id, 40);
            assert_eq!(targets[1].id, 41);
            assert_eq!(targets[1].position, Vec3::new(15, 6, 7));
        },
        Err(e) => panic!("wave refused: {:?}", e),
    }
}

#[test]
fn an_empty_wave_is_no_enemy() {
    let wave = Wave { count: 0, origin: Vec3::new(0, 0, 2_000_000_000), spacing: 1, speed: 1, health: 1 };
    match spawn_targets(&wave, 0) {
        Ok(targets) => assert!(targets.is_empty()),
        Err(e) => panic!("wave refused: {:?}", e),
    }
}

#[test]
fn a_wave_that_stands_still_is_refused() {
    let still = Wave { count: 1, origin: Vec3::new(0, 0, 0), spacing: 0, speed: 0, health: 1 };
    assert!(matches!(spawn_targets(&still, 0), Err(SpawnError::NonPositiveSpeed)));
    let backward = Wave { count: 0, origin: Vec3::new(0, 0, 0), spacing: 0, speed: -300, health: 1 };
    assert!(matches!(spawn_targets(&backward, 0), Err(SpawnError::NonPositiveSpeed)));
}

#[test]
fn a_wave_that_is_too_fast_is_refused() {
    let fast = Wave { count: 1, origin: Vec3::new(0, 0, 0), spacing: 0, speed: 1_000_001, health: 1 };
    assert!(matches!(spawn_targets(&fast, 0), Err(SpawnError::SpeedTooHigh)));
    let fastest = Wave { count: 1, origin: Vec3::new(0, 0, 0), spacing: 0, speed: 1_000_000, health: 1 };
    assert!(spawn_targets(&fastest, 0).is_ok());
}

#[test]
fn a_wave_that_leaves_the_map_is_refused() {
    let outside = Wave { count: 1, origin: Vec3::new(0, 1_000_000_001, 0), spacing: 0, speed: 1, health: 1 };
    assert!(matches!(spawn_targets(&outside, 0), Err(SpawnError::OutOfRange)));
    let long = Wave { count: 3, origin: Vec3::new(0, 0, 0), spacing: 500_000_001, speed: 1, health: 1 };
    assert!(matches!(spawn_targets(&long, 0), Err(SpawnError::OutOfRange)));
    let fits = Wave { count: 3, origin: Vec3::new(0, 0, 0), spacing: 500_000_000, speed: 1, health: 1 };
    assert!(spawn_targets(&fits, 0).is_ok());
    let huge = Wave { count: 2, origin: Vec3::new(0, 0, 0), spacing: i64::MIN, speed: 1, health: 1 };
    assert!(matches!(spawn_targets(&huge, 0), Err(SpawnError::OutOfRange)));
}

#[test]
fn a_wave_without_ids_is_refused() {
    let wave = Wave { count: 2, origin: Vec3::new(0, 0, 0), spacing: 0, speed: 1, health: 1 };
    assert!(matches!(spawn_targets(&wave, u64::MAX - 1), Err(SpawnError::IdsExhausted)));
    assert!(spawn_targets(&wave, u64::MAX - 2).is_ok());
}

#[test]
fn the_standard_path_is_walked_within_the_time_that_its_length_allows() {
    // Legs of 6082, 25298 and 21931 thousandths at a step of 30: the walk
    // takes no fewer ticks than the legs less the reach of each waypoint
    // allow, and no more than the legs, four thousandths for each waypoint
    // and the tick on which the enemy turns at each.
    let path = path(&[(6000, 2000), (30000, 10000), (50000, 1000)]);
    let mut walker = enemy(0, Vec3::new(0, 0, 3000), 300, 0, 3000);
    let mut ticks = 0;
    while walker.target.path_index < 3 {
        walker = walker.moved(&path, 100);
        ticks += 1;
        assert!(ticks <= 1800);
    }
    assert!(ticks >= (6082 + 25298 + 21931 - 3 * 530) / 30);
    assert!(ticks <= (6082 + 25298 + 21931 + 3 * 4) / 30 + 3);
}

#[test]
fn a_path_of_many_legs_costs_one_tick_for_each_waypoint() {
    // A square of ten units a side, walked at a unit a second in ticks of
    // 40 ms: the enemy leaves each corner when it is within half a unit of
    // it, and takes no longer than the 40 units and a tick for each of the
    // five waypoints.
    let path = path(&[(0, 0), (10000, 0), (10000, 10000), (0, 10000), (0, 0)]);
    let start = enemy(0, Vec3::new(0, 0, 0), 1000, 0, 3000);
    let ticks = ticks_to_walk(&path, start, 40);
    assert!(ticks <= (40_000_000 + 5 * 4_000) / 40_000 + 5);
    assert!(ticks >= (40_000_000 - 4 * 2 * 500_000) / 40_000);
}

#[test]
fn steps_longer_than_half_a_unit_may_pass_a_waypoint_and_come_back() {
    // Ten units in steps of 0.9: the enemy passes no waypoint by more than
    // 0.4, and a waypoint costs it no more than the tick on which it turns
    // and twice that.
    let path = path(&[(0, 0), (10000, 0), (10000, 10000)]);
    let start = enemy(0, Vec3::new(0, 0, 0), 900, 0, 3000);
    let ticks = ticks_to_walk(&path, start, 1000);
    assert!(ticks <= (20_000_000 + 3 * (4_000 + 2 * 401_000)) / 900_000 + 3);
    assert!(ticks >= 19_000_000 / 900_000);
}

#[test]
fn a_walking_tick_covers_the_step_to_within_what_rounding_costs() {
    let path = path(&[(6000, 2000)]);
    let mut walker = enemy(0, Vec3::new(-7000, 0, 9000), 300, 0, 3000);
    let goal = Vec2::new(6000, 2000);
    let mut left = walker.position.xz().to(goal).length();
    while walker.target.path_index == 0 {
        let next = walker.moved(&path, 100);
        if next.target.path_index == 0 {
            let now = next.position.xz().to(goal).length();
            assert!(now + 30 + 3 >= left);
            assert!(now + 30 <= left + 3);
            left = now;
        }
        walker = next;
    }
    assert!(left < 530);
}

fn ticks_to_walk(path: &TargetPath, start: Enemy, dt_ms: u64) -> u64 {
    let mut walker = start;
    let mut ticks = 0;
    while walker.target.path_index < path.len() {
        walker = walker.moved(path, dt_ms);
        ticks += 1;
        assert!(ticks < 10_000_000);
    }
    ticks
}

#[test]
fn a_walk_in_ticks_of_sixteen_milliseconds_loses_nothing() {
    // Ten units at 0.3 units a second: 4.8 thousandths a tick. The enemy
    // turns on the first tick, walks for as long as more than half a unit
    // is left, which is 1980 ticks, and turns again: 31.7 seconds for the
    // 31.67 that nine and a half units take.
    let path = path(&[(0, 0), (10000, 0)]);
    let start = enemy(0, Vec3::new(0, 0, 0), 300, 0, 3000);
    assert_eq!(ticks_to_walk(&path, start, 16), 1982);
    let mut walker = start.moved(&path, 16);
    for _ in 0..1000 {
        walker = walker.moved(&path, 16);
    }
    assert_eq!(walker.walked, 4_800_000);
    assert_eq!(walker.position, Vec3::new(4800, 0, 0));
}

#[test]
fn a_walk_in_ticks_of_three_milliseconds_does_not_stand_still() {
    // One unit at 0.3 units a second: 0.9 thousandths a tick.
    let path = path(&[(0, 0), (1000, 0)]);
    let start = enemy(0, Vec3::new(0, 0, 0), 300, 0, 3000);
    assert_eq!(ticks_to_walk(&path, start, 3), 559);
    let mut walker = start.moved(&path, 3);
    assert_eq!(walker.target.path_index, 1);
    walker = walker.moved(&path, 3);
    assert_eq!(walker.position, Vec3::new(0, 0, 0));
    assert_eq!(walker.walked, 900);
    walker = walker.moved(&path, 3);
    assert_eq!(walker.position, Vec3::new(1, 0, 0));
    assert_eq!(walker.walked, 1800);
    for _ in 0..98 {
        walker = walker.moved(&path, 3);
    }
    assert_eq!(walker.position, Vec3::new(90, 0, 0));
}

#[test]
fn the_slowest_enemy_in_the_shortest_tick_still_arrives() {
    // A thousandth of a unit a second, a millisecond a tick: a millionth a
    // tick. On a leg of 0.501 the enemy walks until fewer than 500
    // thousandths are left, which takes the 2000 ticks of two thousandths,
    // and turns on the next.
    let path = path(&[(501, 0)]);
    let start = enemy(0, Vec3::new(0, 0, 0), 1, 0, 3000);
    assert_eq!(ticks_to_walk(&path, start, 1), 2001);
}

#[test]
fn a_walk_across_the_plane_takes_the_time_of_its_length_at_any_tick() {
    // 25 units along (7, 24) at 0.3 units a second: 24.5 units to walk.
    let path = path(&[(0, 0), (7000, 24000)]);
    let start = enemy(0, Vec3::new(0, 0, 0), 300, 0, 3000);
    for dt in [1, 3, 7, 16, 33, 100, 250, 1000] {
        let ticks = ticks_to_walk(&path, start, dt);
        let step = 300 * dt;
        let walking = (24_500_999 + step) / step;
        assert_eq!(ticks, walking + 2);
    }
}
