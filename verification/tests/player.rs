use tower_defense::player::{give_money_on_kill, hurt_player, spawn_player};
use tower_defense::{Player, TargetBreachEvent, TargetDeathEvent};

#[test]
fn the_player_starts_with_a_hundred_of_each() {
    assert_eq!(spawn_player(), Player { money: 100, health: 100 });
}

#[test]
fn one_death_pays_ten_and_one_breach_costs_one() {
    let mut player = spawn_player();
    give_money_on_kill(&mut player, &vec![TargetDeathEvent { target: 7 }]);
    assert_eq!(player, Player { money: 110, health: 100 });
    let game_over = hurt_player(&mut player, &vec![TargetBreachEvent { target: 8 }]);
    assert_eq!(player, Player { money: 110, health: 99 });
    assert!(!game_over);
}

#[test]
fn no_events_change_nothing() {
    let mut player = Player { money: 5, health: 3 };
    give_money_on_kill(&mut player, &Vec::new());
    assert!(!hurt_player(&mut player, &Vec::new()));
    assert_eq!(player, Player { money: 5, health: 3 });
}

#[test]
fn several_deaths_pay_ten_each() {
    let mut player = Player { money: 0, health: 1 };
    let events = vec![
        TargetDeathEvent { target: 1 },
        TargetDeathEvent { target: 2 },
        TargetDeathEvent { target: 3 },
    ];
    give_money_on_kill(&mut player, &events);
    assert_eq!(player.money, 30);
}

#[test]
fn money_stops_at_the_most_that_fits() {
    let mut player = Player { money: u32::MAX - 15, health: 1 };
    let events = vec![TargetDeathEvent { target: 1 }, TargetDeathEvent { target: 2 }];
    give_money_on_kill(&mut player, &events);
    assert_eq!(player.money, u32::MAX);
}

#[test]
fn the_last_health_lost_ends_the_run() {
    let mut player = Player { money: 0, health: 2 };
    let two = vec![TargetBreachEvent { target: 1 }, TargetBreachEvent { target: 2 }];
    assert!(hurt_player(&mut player, &two));
    assert_eq!(player.health, 0);
    assert!(player.is_defeated());
}

#[test]
fn health_stops_at_zero() {
    let mut player = Player { money: 0, health: 1 };
    let three = vec![
        TargetBreachEvent { target: 1 },
        TargetBreachEvent { target: 2 },
        TargetBreachEvent { target: 3 },
    ];
    assert!(hurt_player(&mut player, &three));
    assert_eq!(player.health, 0);
}

#[test]
fn a_lost_run_is_not_lost_again() {
    let mut player = Player { money: 0, health: 0 };
    assert!(!hurt_player(&mut player, &vec![TargetBreachEvent { target: 1 }]));
    assert_eq!(player.health, 0);
}
