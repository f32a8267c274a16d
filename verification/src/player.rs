//! The player: money earned from kills, health lost to breaches.
use vstd::prelude::*;
use crate::target::{TargetBreachEvent, TargetDeathEvent};

verus! {

/// The player's account.
#[derive(Clone, Copy, Debug, PartialEq, Eq, Structural)]
pub struct Player {
    pub money: u32,
    pub health: u32,
}

/// Money the player starts with.
pub const STARTING_MONEY: u32 = 100;

/// Health the player starts with.
pub const STARTING_HEALTH: u32 = 100;

/// Money the player earns for each enemy that dies.
pub const KILL_REWARD: u32 = 10;

/// Health the player loses for each enemy that gets through.
pub const BREACH_DAMAGE: u32 = 1;

/// The player at the start of a run.
pub fn spawn_player() -> (player: Player)
    ensures
        player == (Player { money: STARTING_MONEY, health: STARTING_HEALTH }),
{
    Player { money: 100, health: 100 }
}

impl Player {
    /// The player after `kills` enemies have died: the reward for each is
    /// added to the money, which stops at the most that fits.
    pub open spec fn rewarded(self, kills: nat) -> Player {
        if self.money + KILL_REWARD * kills <= u32::MAX {
            Player { money: (self.money + KILL_REWARD * kills) as u32, ..self }
        } else {
            Player { money: u32::MAX, ..self }
        }
    }

    /// The player after `breaches` enemies have got through: each costs one
    /// point of health, which stops at zero.
    pub open spec fn hurt(self, breaches: nat) -> Player {
        if self.health >= BREACH_DAMAGE * breaches {
            Player { health: (self.health - BREACH_DAMAGE * breaches) as u32, ..self }
        } else {
            Player { health: 0, ..self }
        }
    }

    /// Whether the player can pay `cost`.
    pub open spec fn can_afford(self, cost: u32) -> bool {
        self.money >= cost
    }

    /// The player after paying `cost`.
    pub open spec fn charged(self, cost: u32) -> Player {
        Player { money: (self.money - cost) as u32, ..self }
    }

    /// Whether the run is lost: the player has no health left.
    pub open spec fn spec_is_defeated(&self) -> bool {
        self.health == 0
    }

    /// Whether the run is lost: the player has no health left.
    #[verifier::when_used_as_spec(spec_is_defeated)]
    pub fn is_defeated(&self) -> (defeated: bool)
        ensures
            defeated == self.spec_is_defeated(),
    {
        self.health == 0
    }
}

/// Pays the player the reward for every enemy that died.
pub fn give_money_on_kill(player: &mut Player, death_events: &Vec<TargetDeathEvent>)
    ensures
        *final(player) == old(player).rewarded(death_events@.len()),
{
    let n: usize = death_events.len();
    let mut i: usize = 0;
    while i < n
        invariant
            i <= n,
            n == death_events@.len(),
            *player == old(player).rewarded(i as nat),
        decreases n - i,
    {
        if player.money <= u32::MAX - KILL_REWARD {
            player.money = player.money + KILL_REWARD;
        } else {
            player.money = u32::MAX;
        }
        i += 1;
    }
}

/// Takes one point of the player's health for every enemy that got
/// through, and says whether that brought the health from above zero down to
/// zero: the moment the run is lost.
pub fn hurt_player(player: &mut Player, breach_events: &Vec<TargetBreachEvent>) -> (game_over: bool)
    ensures
        *final(player) == old(player).hurt(breach_events@.len()),
        game_over == (old(player).health > 0 && final(player).health == 0),
{
    let alive: bool = player.health > 0;
    let n: usize = breach_events.len();
    let mut i: usize = 0;
    while i < n
        invariant
            i <= n,
            n == breach_events@.len(),
            *player == old(player).hurt(i as nat),
        decreases n - i,
    {
        if player.health > 0 {
            player.health = player.health - BREACH_DAMAGE;
        }
        i += 1;
    }
    alive && player.health == 0
}

/// Rewards add up: the money after two batches of kills is the money after
/// one batch of both.
pub proof fn lemma_rewards_add_up(player: Player, first: nat, second: nat)
    ensures
        player.rewarded(first).rewarded(second) == player.rewarded(first + second),
{
}

/// Breaches add up, and health never rises: the health after two batches of
/// breaches is the health after one batch of both.
pub proof fn lemma_breaches_add_up(player: Player, first: nat, second: nat)
    ensures
        player.hurt(first).hurt(second) == player.hurt(first + second),
        player.hurt(first).health <= player.health,
{
}

} // verus!
