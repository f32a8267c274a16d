use tower_defense::player::spawn_player;
use tower_defense::tower::{
    closest_target, grey_tower_buttons, place_tower, spawn_tower, tower_base_position,
    tower_button_clicked, tower_shooting, PlaceError, PurchaseError,
};
use tower_defense::{
    Bullet, Enemy, Health, Lifetime, PlacedTower, Player, Projectile, RepeatingTimer, Target, Tower,
    TowerButtonState, TowerType, Vec3,
};

fn enemy(id: u64, position: Vec3) -> Enemy {
    Enemy {
        id,
        position,
        facing: None,
        target: Target { speed: 300, path_index: 0 },
        health: Health { value: 3000 },
        leg_start: position.xz(),
        walked: 0,
    }
}

fn tower(id: u64, position: Vec3, elapsed: u64) -> PlacedTower {
    PlacedTower {
        id,
        position,
        tower: Tower {
            shooting_timer: RepeatingTimer { elapsed, period: 500 },
            bullet_offset: Vec3::new(0, 600, 0),
            range: 4500,
        },
        tower_type: TowerType::TowerA,
    }
}

#[test]
fn every_kind_of_tower_has_the_same_gun() {
    for kind in [TowerType::TowerA, TowerType::TowerB, TowerType::TowerC] {
        let t = kind.get_tower();
        assert_eq!(t.shooting_timer, RepeatingTimer { elapsed: 0, period: 500 });
        assert_eq!(t.bullet_offset, Vec3::new(0, 600, 0));
        assert_eq!(t.range, 4500);
        let b = kind.get_bullet(Vec3::new(0, 0, 1000));
        assert_eq!(b, Bullet { direction: Vec3::new(0, 0, 1000), speed: 3500 });
    }
}

#[test]
fn the_kinds_of_tower_differ_in_price() {
    assert_eq!(TowerType::TowerA.get_tower_button().cost, 50);
    assert_eq!(TowerType::TowerB.get_tower_button().cost, 80);
    assert_eq!(TowerType::TowerC.get_tower_button().cost, 110);
}

#[test]
fn building_sites_alternate_between_two_rows() {
    assert_eq!(tower_base_position(0), Vec3::new(0, 0, 6000));
    assert_eq!(tower_base_position(1), Vec3::new(6000, 0, 0));
    assert_eq!(tower_base_position(2), Vec3::new(12000, 0, 6000));
    assert_eq!(tower_base_position(19), Vec3::new(114000, 0, 0));
}

#[test]
fn a_tower_fires_at_the_enemy_in_range_only() {
    // Range 4.5: one enemy at distance 3, one at distance 6.
    let origin = Vec3::new(0, 600, 0);
    let near_first = vec![enemy(1, Vec3::new(3000, 600, 0)), enemy(2, Vec3::new(6000, 600, 0))];
    assert_eq!(closest_target(origin, 4500, &near_first), Some(0));
    let far_first = vec![enemy(2, Vec3::new(6000, 600, 0)), enemy(1, Vec3::new(3000, 600, 0))];
    assert_eq!(closest_target(origin, 4500, &far_first), Some(1));
    let far_only = vec![enemy(2, Vec3::new(6000, 600, 0))];
    assert_eq!(closest_target(origin, 4500, &far_only), None);
}

#[test]
fn an_enemy_at_the_range_is_out_of_range() {
    let origin = Vec3::new(0, 0, 0);
    let on_the_rim = vec![enemy(1, Vec3::new(4500, 0, 0))];
    assert_eq!(closest_target(origin, 4500, &on_the_rim), None);
    let just_inside = vec![enemy(1, Vec3::new(4499, 0, 0))];
    assert_eq!(closest_target(origin, 4500, &just_inside), Some(0));
    let diagonal = vec![enemy(1, Vec3::new(2700, 3600, 0))];
    assert_eq!(closest_target(origin, 4500, &diagonal), None);
    let diagonal_inside = vec![enemy(1, Vec3::new(2700, 3599, 0))];
    assert_eq!(closest_target(origin, 4500, &diagonal_inside), Some(0));
}

#[test]
fn of_equally_near_enemies_the_first_is_picked() {
    let origin = Vec3::new(0, 0, 0);
    let targets = vec![
        enemy(1, Vec3::new(4000, 0, 0)),
        enemy(2, Vec3::new(0, 0, -2000)),
        enemy(3, Vec3::new(2000, 0, 0)),
        enemy(4, Vec3::new(0, 2000, 0)),
        enemy(5, Vec3::new(0, 0, 3000)),
    ];
    assert_eq!(closest_target(origin, 4500, &targets), Some(1));
}

#[test]
fn distance_counts_in_all_three_directions() {
    let origin = Vec3::new(1000, 600, -1000);
    let targets = vec![enemy(1, Vec3::new(1000, 4000, -1000)), enemy(2, Vec3::new(3000, 2600, 0))];
    // 3400 above against 3000 away.
    assert_eq!(closest_target(origin, 4500, &targets), Some(1));
}

#[test]
fn a_tower_without_range_or_without_enemies_fires_at_no_one() {
    let origin = Vec3::new(0, 0, 0);
    let here = vec![enemy(1, Vec3::new(0, 0, 0))];
    assert_eq!(closest_target(origin, 0, &here), None);
    assert_eq!(closest_target(origin, -4500, &here), None);
    assert_eq!(closest_target(origin, 1, &here), Some(0));
    assert_eq!(closest_target(origin, 4500, &Vec::new()), None);
}

#[test]
fn the_farthest_enemy_on_the_map_is_in_the_widest_range() {
    let origin = Vec3::new(-1_000_000_000, -1_000_000_000, -1_000_000_000);
    let far = vec![enemy(1, Vec3::new(1_000_000_000, 1_000_000_000, 1_000_000_000))];
    assert_eq!(closest_target(origin, i64::MAX, &far), Some(0));
    assert_eq!(closest_target(origin, 3_464_101_615, &far), None);
    assert_eq!(closest_target(origin, 3_464_101_616, &far), Some(0));
}

#[test]
fn a_tower_whose_timer_is_up_fires_a_projectile_at_the_nearest_enemy() {
    let mut towers = vec![tower(7, Vec3::new(0, 0, 0), 400)];
    let targets = vec![enemy(1, Vec3::new(6000, 600, 0)), enemy(2, Vec3::new(0, 600, 3000))];
    let mut bullets: Vec<Projectile> = Vec::new();
    let mut next_id: u64 = 8;
    tower_shooting(&mut towers, &targets, &mut bullets, &mut next_id, 5000, 100);
    assert_eq!(towers[0].tower.shooting_timer, RepeatingTimer { elapsed: 0, period: 500 });
    assert_eq!(
        bullets,
        vec![Projectile {
            id: 8,
            position: Vec3::new(0, 600, 0),
            bullet: Bullet { direction: Vec3::new(0, 0, 1000), speed: 3500 },
            lifetime: Lifetime { remaining: 5000 },
            kind: TowerType::TowerA,
            origin: Vec3::new(0, 600, 0),
            flown: 0,
        }]
    );
    assert_eq!(next_id, 9);
    assert_eq!(targets[1].health.value, 3000);
}

#[test]
fn a_tower_aims_along_the_line_to_the_enemy() {
    let mut towers = vec![tower(7, Vec3::new(1000, 400, 1000), 499)];
    let targets = vec![enemy(1, Vec3::new(2500, 1000, -1000))];
    let mut bullets: Vec<Projectile> = Vec::new();
    let mut next_id: u64 = 8;
    tower_shooting(&mut towers, &targets, &mut bullets, &mut next_id, 5000, 1);
    assert_eq!(bullets.len(), 1);
    assert_eq!(bullets[0].position, Vec3::new(1000, 1000, 1000));
    assert_eq!(bullets[0].bullet.direction, Vec3::new(600, 0, -800));
}

#[test]
fn a_tower_whose_timer_is_not_up_holds_its_fire() {
    let mut towers = vec![tower(7, Vec3::new(0, 0, 0), 300)];
    let targets = vec![enemy(1, Vec3::new(0, 600, 3000))];
    let mut bullets: Vec<Projectile> = Vec::new();
    let mut next_id: u64 = 8;
    tower_shooting(&mut towers, &targets, &mut bullets, &mut next_id, 5000, 100);
    assert_eq!(towers[0].tower.shooting_timer.elapsed, 400);
    assert!(bullets.is_empty());
    assert_eq!(next_id, 8);
}

#[test]
fn a_tower_with_no_one_in_range_lets_the_shot_pass() {
    let mut towers = vec![tower(7, Vec3::new(0, 0, 0), 450)];
    let targets = vec![enemy(1, Vec3::new(0, 600, 6000))];
    let mut bullets: Vec<Projectile> = Vec::new();
    let mut next_id: u64 = 8;
    tower_shooting(&mut towers, &targets, &mut bullets, &mut next_id, 5000, 100);
    assert_eq!(towers[0].tower.shooting_timer.elapsed, 0);
    assert!(bullets.is_empty());
    assert_eq!(next_id, 8);
}

#[test]
fn towers_fire_in_the_order_of_the_store() {
    let mut towers = vec![
        tower(3, Vec3::new(0, 0, 0), 499),
        tower(4, Vec3::new(100_000, 0, 0), 499),
        tower(5, Vec3::new(0, 0, 2000), 0),
        tower(6, Vec3::new(2000, 0, 0), 499),
    ];
    let targets = vec![enemy(1, Vec3::new(1000, 600, 0))];
    let old = Projectile {
        id: 2,
        position: Vec3::new(9, 9, 9),
        bullet: Bullet { direction: Vec3::new(0, 1000, 0), speed: 3500 },
        lifetime: Lifetime { remaining: 77 },
        kind: TowerType::TowerC,
        origin: Vec3::new(9, 9, 9),
        flown: 0,
    };
    let mut bullets = vec![old];
    let mut next_id: u64 = 7;
    tower_shooting(&mut towers, &targets, &mut bullets, &mut next_id, 5000, 1);
    assert_eq!(bullets.len(), 3);
    assert_eq!(bullets[0], old);
    assert_eq!(bullets[1].id, 7);
    assert_eq!(bullets[1].position, Vec3::new(0, 600, 0));
    assert_eq!(bullets[1].bullet.direction, Vec3::new(1000, 0, 0));
    assert_eq!(bullets[2].id, 8);
    assert_eq!(bullets[2].position, Vec3::new(2000, 600, 0));
    assert_eq!(bullets[2].bullet.direction, Vec3::new(-1000, 0, 0));
    assert_eq!(next_id, 9);
    assert_eq!(towers[0].tower.shooting_timer.elapsed, 0);
    assert_eq!(towers[1].tower.shooting_timer.elapsed, 0);
    assert_eq!(towers[2].tower.shooting_timer.elapsed, 1);
    assert_eq!(towers[3].tower.shooting_timer.elapsed, 0);
}

#[test]
fn a_tower_fires_at_an_enemy_on_its_muzzle_without_a_direction() {
    let mut towers = vec![tower(7, Vec3::new(0, 0, 0), 499)];
    let targets = vec![enemy(1, Vec3::new(0, 600, 0))];
    let mut bullets: Vec<Projectile> = Vec::new();
    let mut next_id: u64 = 8;
    tower_shooting(&mut towers, &targets, &mut bullets, &mut next_id, 5000, 1);
    assert_eq!(bullets.len(), 1);
    assert_eq!(bullets[0].bullet.direction, Vec3::new(0, 0, 0));
}

#[test]
fn a_tower_is_built_where_it_fits() {
    assert_eq!(
        spawn_tower(4, Vec3::new(6000, 0, 0), TowerType::TowerB),
        Some(PlacedTower {
            id: 4,
            position: Vec3::new(6000, 0, 0),
            tower: TowerType::TowerB.get_tower(),
            tower_type: TowerType::TowerB,
        })
    );
    assert!(spawn_tower(4, Vec3::new(0, 999_999_400, 0), TowerType::TowerA).is_some());
    assert_eq!(spawn_tower(4, Vec3::new(0, 999_999_401, 0), TowerType::TowerA), None);
    assert_eq!(spawn_tower(4, Vec3::new(1_000_000_001, 0, 0), TowerType::TowerA), None);
    assert_eq!(spawn_tower(4, Vec3::new(0, 0, -1_000_000_001), TowerType::TowerA), None);
}

#[test]
fn placing_a_tower_takes_the_next_id() {
    let mut towers: Vec<PlacedTower> = Vec::new();
    let mut next_id: u64 = 20;
    assert_eq!(place_tower(&mut towers, &mut next_id, Vec3::new(6000, 0, 0), TowerType::TowerC), Ok(20));
    assert_eq!(next_id, 21);
    assert_eq!(towers.len(), 1);
    assert_eq!(towers[0].id, 20);
    assert_eq!(towers[0].tower_type, TowerType::TowerC);
    assert_eq!(towers[0].position, Vec3::new(6000, 0, 0));
}

#[test]
fn a_tower_that_cannot_be_placed_changes_nothing() {
    let mut towers: Vec<PlacedTower> = Vec::new();
    let mut next_id: u64 = 20;
    assert_eq!(
        place_tower(&mut towers, &mut next_id, Vec3::new(0, 1_000_000_000, 0), TowerType::TowerC),
        Err(PlaceError::OutOfRange)
    );
    assert_eq!(next_id, 20);
    assert!(towers.is_empty());
    let mut last_id: u64 = u64::MAX;
    assert_eq!(
        place_tower(&mut towers, &mut last_id, Vec3::new(0, 0, 0), TowerType::TowerC),
        Err(PlaceError::IdsExhausted)
    );
    assert_eq!(last_id, u64::MAX);
    assert!(towers.is_empty());
}

#[test]
fn buying_a_tower_takes_the_price() {
    let mut player = spawn_player();
    let mut towers: Vec<PlacedTower> = Vec::new();
    let mut next_id: u64 = 0;
    let r = tower_button_clicked(&mut player, &mut towers, &mut next_id, Vec3::new(0, 0, 6000), TowerType::TowerB);
    assert_eq!(r, Ok(0));
    assert_eq!(player, Player { money: 20, health: 100 });
    assert_eq!(towers.len(), 1);
    assert_eq!(next_id, 1);
}

#[test]
fn a_player_with_just_the_price_can_buy() {
    let mut player = Player { money: 110, health: 100 };
    let mut towers: Vec<PlacedTower> = Vec::new();
    let mut next_id: u64 = 0;
    let r = tower_button_clicked(&mut player, &mut towers, &mut next_id, Vec3::new(0, 0, 0), TowerType::TowerC);
    assert_eq!(r, Ok(0));
    assert_eq!(player.money, 0);
}

#[test]
fn a_purchase_that_is_refused_changes_nothing() {
    let mut player = Player { money: 49, health: 100 };
    let mut towers: Vec<PlacedTower> = Vec::new();
    let mut next_id: u64 = 0;
    let poor = tower_button_clicked(&mut player, &mut towers, &mut next_id, Vec3::new(0, 0, 0), TowerType::TowerA);
    assert_eq!(poor, Err(PurchaseError::Unaffordable));
    player.money = 50;
    let outside =
        tower_button_clicked(&mut player, &mut towers, &mut next_id, Vec3::new(0, 0, 2_000_000_000), TowerType::TowerA);
    assert_eq!(outside, Err(PurchaseError::OutOfRange));
    let mut last_id: u64 = u64::MAX;
    let full = tower_button_clicked(&mut player, &mut towers, &mut last_id, Vec3::new(0, 0, 0), TowerType::TowerA);
    assert_eq!(full, Err(PurchaseError::IdsExhausted));
    assert_eq!(player, Player { money: 50, health: 100 });
    assert!(towers.is_empty());
    assert_eq!(next_id, 0);
    assert_eq!(last_id, u64::MAX);
}

#[test]
fn a_button_is_lit_while_the_player_holds_more_than_the_price() {
    let mut buttons = vec![TowerButtonState::new(50), TowerButtonState::new(80), TowerButtonState::new(110)];
    assert!(!buttons[0].affordable());
    grey_tower_buttons(&mut buttons, &Player { money: 80, health: 100 });
    assert_eq!(buttons[0].cost(), 50);
    assert_eq!(buttons[1].cost(), 80);
    assert_eq!(buttons[2].cost(), 110);
    assert!(buttons[0].affordable());
    assert!(!buttons[1].affordable());
    assert!(!buttons[2].affordable());
    grey_tower_buttons(&mut buttons, &Player { money: 111, health: 100 });
    assert!(buttons[0].affordable() && buttons[1].affordable() && buttons[2].affordable());
    grey_tower_buttons(&mut buttons, &Player { money: 0, health: 100 });
    assert!(!buttons[0].affordable() && !buttons[1].affordable() && !buttons[2].affordable());
}

#[test]
fn a_button_can_be_made_lit_or_grey() {
    let lit = TowerButtonState::with_light(80, true);
    assert_eq!(lit.cost(), 80);
    assert!(lit.affordable());
    let grey = TowerButtonState::with_light(80, false);
    assert!(!grey.affordable());
    assert_eq!(grey, TowerButtonState::new(80));
}

#[test]
fn a_tower_aims_a_unit_vector_at_an_enemy_a_hair_from_its_muzzle() {
    let mut towers = vec![tower(7, Vec3::new(0, 0, 0), 499)];
    let targets = vec![enemy(1, Vec3::new(1, 601, 1))];
    let mut bullets: Vec<Projectile> = Vec::new();
    let mut next_id: u64 = 8;
    tower_shooting(&mut towers, &targets, &mut bullets, &mut next_id, 5000, 1);
    assert_eq!(bullets.len(), 1);
    assert_eq!(bullets[0].bullet.direction, Vec3::new(577, 577, 577));
}

#[test]
fn a_tower_fires_again_only_a_full_period_after_a_late_shot() {
    let mut towers = vec![tower(7, Vec3::new(0, 0, 0), 0)];
    let targets = vec![enemy(1, Vec3::new(0, 600, 3000))];
    let mut bullets: Vec<Projectile> = Vec::new();
    let mut next_id: u64 = 8;
    tower_shooting(&mut towers, &targets, &mut bullets, &mut next_id, 5000, 900);
    assert_eq!(bullets.len(), 1);
    assert_eq!(towers[0].tower.shooting_timer.elapsed, 0);
    tower_shooting(&mut towers, &targets, &mut bullets, &mut next_id, 5000, 100);
    assert_eq!(bullets.len(), 1);
    tower_shooting(&mut towers, &targets, &mut bullets, &mut next_id, 5000, 399);
    assert_eq!(bullets.len(), 1);
    tower_shooting(&mut towers, &targets, &mut bullets, &mut next_id, 5000, 1);
    assert_eq!(bullets.len(), 2);
    assert_eq!(bullets[1].id, 9);
}

#[test]
fn projectiles_are_of_the_kind_of_the_tower_that_fires_them() {
    let mut towers = vec![tower(3, Vec3::new(0, 0, 0), 499), tower(4, Vec3::new(2000, 0, 0), 499)];
    towers[0].tower_type = TowerType::TowerB;
    towers[1].tower_type = TowerType::TowerC;
    let targets = vec![enemy(1, Vec3::new(1000, 600, 0))];
    let mut bullets: Vec<Projectile> = Vec::new();
    let mut next_id: u64 = 5;
    tower_shooting(&mut towers, &targets, &mut bullets, &mut next_id, 5000, 1);
    assert_eq!(bullets.len(), 2);
    assert_eq!(bullets[0].kind, TowerType::TowerB);
    assert_eq!(bullets[1].kind, TowerType::TowerC);
}
