use tower_defense::bullet::move_bullets;
use tower_defense::physics::{bullet_collision_detection, is_touching, BULLET_DAMAGE};
use tower_defense::{
    Bullet, Contact, Enemy, Health, Lifetime, Projectile, Target, TowerType, Vec2, Vec3,
};

fn projectile(id: u64, position: Vec3, direction: Vec3, speed: i64, remaining: u64) -> Projectile {
    Projectile {
        id,
        position,
        bullet: Bullet { direction, speed },
        lifetime: Lifetime { remaining },
        kind: TowerType::TowerA,
        origin: position,
        flown: 0,
    }
}

fn enemy(id: u64, health: i64) -> Enemy {
    Enemy {
        id,
        position: Vec3::new(0, 0, 0),
        facing: None,
        target: Target { speed: 300, path_index: 0 },
        health: Health { value: health },
        leg_start: Vec2::new(0, 0),
        walked: 0,
    }
}

#[test]
fn a_projectile_is_launched_where_the_tower_fires_from() {
    let bullet = Bullet { direction: Vec3::new(1000, 0, 0), speed: 3500 };
    let p = Projectile::launch(9, Vec3::new(1, 2, 3), bullet, 4000, TowerType::TowerA);
    assert_eq!(p, projectile(9, Vec3::new(1, 2, 3), Vec3::new(1000, 0, 0), 3500, 4000));
}

#[test]
fn a_projectile_flies_along_its_direction() {
    let p = projectile(1, Vec3::new(0, 600, 0), Vec3::new(600, 800, 0), 3500, 1000);
    let next = p.moved(100);
    assert_eq!(next.position, Vec3::new(210, 880, 0));
    assert_eq!(next.lifetime, Lifetime { remaining: 900 });
    assert_eq!(next.bullet, p.bullet);
    assert_eq!(next.id, 1);
    assert_eq!(next.origin, Vec3::new(0, 600, 0));
    assert_eq!(next.flown, 350_000);
    assert_eq!(next.kind, TowerType::TowerA);
}

#[test]
fn a_projectile_is_of_the_kind_of_its_tower() {
    let bullet = Bullet { direction: Vec3::new(0, 1000, 0), speed: 3500 };
    for kind in [TowerType::TowerA, TowerType::TowerB, TowerType::TowerC] {
        let p = Projectile::launch(1, Vec3::new(0, 0, 0), bullet, 4000, kind);
        assert_eq!(p.kind, kind);
        assert_eq!(p.moved(100).kind, kind);
    }
}

#[test]
fn a_projectile_in_short_ticks_loses_nothing() {
    // 3.5 units a second in ticks of a millisecond: 3.5 thousandths a tick.
    let mut p = projectile(1, Vec3::new(0, 600, 0), Vec3::new(600, 800, 0), 3500, 100_000);
    p = p.moved(1);
    assert_eq!(p.position, Vec3::new(2, 602, 0));
    p = p.moved(1);
    assert_eq!(p.position, Vec3::new(4, 605, 0));
    for _ in 0..998 {
        p = p.moved(1);
    }
    assert_eq!(p.flown, 3_500_000);
    assert_eq!(p.position, Vec3::new(2100, 3400, 0));
    assert_eq!(p.lifetime.remaining, 99_000);
}

#[test]
fn a_projectile_flies_backward_as_well() {
    let p = projectile(1, Vec3::new(0, 0, 0), Vec3::new(-577, -577, 577), 3500, 1000);
    assert_eq!(p.moved(100).position, Vec3::new(-201, -201, 201));
}

#[test]
fn a_projectile_without_direction_stays_and_ages() {
    let p = projectile(1, Vec3::new(5, 5, 5), Vec3::new(0, 0, 0), 3500, 1000);
    let next = p.moved(400);
    assert_eq!(next.position, Vec3::new(5, 5, 5));
    assert_eq!(next.lifetime.remaining, 600);
}

#[test]
fn projectiles_expire_when_their_time_is_up() {
    let mut bullets = vec![
        projectile(1, Vec3::new(0, 0, 0), Vec3::new(1000, 0, 0), 1000, 100),
        projectile(2, Vec3::new(0, 0, 0), Vec3::new(1000, 0, 0), 1000, 101),
        projectile(3, Vec3::new(0, 0, 0), Vec3::new(0, 0, 1000), 2000, 99),
        projectile(4, Vec3::new(0, 0, 0), Vec3::new(0, 0, 1000), 2000, 5000),
    ];
    move_bullets(&mut bullets, 100);
    assert_eq!(bullets.len(), 2);
    assert_eq!(bullets[0].id, 2);
    assert_eq!(bullets[0].position, Vec3::new(100, 0, 0));
    assert_eq!(bullets[0].lifetime.remaining, 1);
    assert_eq!(bullets[0].flown, 100_000);
    assert_eq!(bullets[1].id, 4);
    assert_eq!(bullets[1].position, Vec3::new(0, 0, 200));
    assert_eq!(bullets[1].lifetime.remaining, 4900);
    assert_eq!(bullets[1].origin, Vec3::new(0, 0, 0));
}

#[test]
fn a_projectile_with_no_time_left_goes_even_in_a_tick_of_no_time() {
    let mut bullets = vec![
        projectile(1, Vec3::new(0, 0, 0), Vec3::new(1000, 0, 0), 1000, 0),
        projectile(2, Vec3::new(0, 0, 0), Vec3::new(1000, 0, 0), 1000, 1),
    ];
    move_bullets(&mut bullets, 0);
    assert_eq!(bullets.len(), 1);
    assert_eq!(bullets[0], projectile(2, Vec3::new(0, 0, 0), Vec3::new(1000, 0, 0), 1000, 1));
}

#[test]
fn contacts_are_looked_up_as_pairs() {
    let contacts = vec![Contact { bullet: 1, target: 2 }, Contact { bullet: 3, target: 4 }];
    assert!(is_touching(&contacts, 1, 2));
    assert!(is_touching(&contacts, 3, 4));
    assert!(!is_touching(&contacts, 2, 1));
    assert!(!is_touching(&contacts, 1, 4));
    assert!(!is_touching(&Vec::new(), 1, 2));
}

#[test]
fn a_projectile_damages_what_it_touches_and_is_removed() {
    let mut targets = vec![enemy(10, 3000), enemy(11, 3000)];
    let mut bullets = vec![
        projectile(20, Vec3::new(0, 0, 0), Vec3::new(1000, 0, 0), 3500, 1000),
        projectile(21, Vec3::new(0, 0, 0), Vec3::new(1000, 0, 0), 3500, 1000),
    ];
    let contacts = vec![Contact { bullet: 21, target: 10 }];
    bullet_collision_detection(&mut targets, &mut bullets, &contacts);
    assert_eq!(BULLET_DAMAGE, 1000);
    assert_eq!(targets[0].health.value, 2000);
    assert_eq!(targets[1].health.value, 3000);
    assert_eq!(bullets.len(), 1);
    assert_eq!(bullets[0].id, 20);
}

#[test]
fn a_projectile_that_touches_two_enemies_damages_both() {
    let mut targets = vec![enemy(10, 3000), enemy(11, 500), enemy(12, 3000)];
    let mut bullets = vec![projectile(20, Vec3::new(0, 0, 0), Vec3::new(1000, 0, 0), 3500, 1000)];
    let contacts = vec![Contact { bullet: 20, target: 11 }, Contact { bullet: 20, target: 10 }];
    bullet_collision_detection(&mut targets, &mut bullets, &contacts);
    assert_eq!(targets[0].health.value, 2000);
    assert_eq!(targets[1].health.value, -500);
    assert_eq!(targets[2].health.value, 3000);
    assert!(bullets.is_empty());
}

#[test]
fn several_projectiles_on_one_enemy_add_up() {
    let mut targets = vec![enemy(10, 3000)];
    let mut bullets = vec![
        projectile(20, Vec3::new(0, 0, 0), Vec3::new(1000, 0, 0), 3500, 1000),
        projectile(21, Vec3::new(0, 0, 0), Vec3::new(1000, 0, 0), 3500, 1000),
        projectile(22, Vec3::new(0, 0, 0), Vec3::new(1000, 0, 0), 3500, 1000),
        projectile(23, Vec3::new(0, 0, 0), Vec3::new(1000, 0, 0), 3500, 1000),
    ];
    let contacts = vec![
        Contact { bullet: 20, target: 10 },
        Contact { bullet: 22, target: 10 },
        Contact { bullet: 23, target: 10 },
    ];
    bullet_collision_detection(&mut targets, &mut bullets, &contacts);
    assert_eq!(targets[0].health.value, 0);
    assert_eq!(bullets.len(), 1);
    assert_eq!(bullets[0].id, 21);
}

#[test]
fn a_contact_reported_twice_counts_once() {
    let mut targets = vec![enemy(10, 3000)];
    let mut bullets = vec![projectile(20, Vec3::new(0, 0, 0), Vec3::new(1000, 0, 0), 3500, 1000)];
    let contacts = vec![Contact { bullet: 20, target: 10 }, Contact { bullet: 20, target: 10 }];
    bullet_collision_detection(&mut targets, &mut bullets, &contacts);
    assert_eq!(targets[0].health.value, 2000);
    assert!(bullets.is_empty());
}

#[test]
fn contacts_with_what_is_not_in_the_store_do_nothing() {
    let mut targets = vec![enemy(10, 3000)];
    let mut bullets = vec![projectile(20, Vec3::new(0, 0, 0), Vec3::new(1000, 0, 0), 3500, 1000)];
    let contacts = vec![
        Contact { bullet: 20, target: 99 },
        Contact { bullet: 98, target: 10 },
        Contact { bullet: 10, target: 20 },
    ];
    bullet_collision_detection(&mut targets, &mut bullets, &contacts);
    assert_eq!(targets[0].health.value, 3000);
    assert_eq!(bullets.len(), 1);
}

#[test]
fn contact_does_not_remove_the_enemy() {
    let mut targets = vec![enemy(10, 1000)];
    let mut bullets = vec![projectile(20, Vec3::new(0, 0, 0), Vec3::new(1000, 0, 0), 3500, 1000)];
    bullet_collision_detection(&mut targets, &mut bullets, &vec![Contact { bullet: 20, target: 10 }]);
    assert_eq!(targets.len(), 1);
    assert_eq!(targets[0].health.value, 0);
}
