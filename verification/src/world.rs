//! The simulation: one store for all entities, and the tick that advances
//! it.
use vstd::prelude::*;
use crate::bullet::{
    all_bullets_wf, flown, move_bullets, outliving, Projectile, LIFETIME_LIMIT,
};
use crate::fixed::DT_LIMIT;
use crate::physics::{
    bullet_collision_detection, struck_all, unspent, unspent_bullets, Contact,
};
use crate::player::{
    give_money_on_kill, hurt_player, spawn_player, Player, STARTING_HEALTH, STARTING_MONEY,
};
use crate::store::{
    ascends, bullet_id, enemy_id, lemma_ascends_under_larger_bound, lemma_filter_ascends,
    lemma_push_ascends, lemma_same_ids_ascend, lemma_volley_ascends, tower_id,
};
use crate::target::{
    all_head_well, all_wf, breaches, deaths, living, move_targets, moved_all, on_path,
    spawn_targets, survivors,
    target_breach, target_death, walkers, waypoints_in_range, Enemy, PathError, SpawnError,
    TargetBreachEvent, TargetDeathEvent, TargetPath, Wave,
};
use crate::tower::{
    all_towers_wf, cooled_all, place_error, place_tower, purchase_error, tower_button_clicked,
    tower_shooting, volley, PlaceError, PlacedTower, PurchaseError, TowerType,
};
use crate::vector::{Vec2, Vec3};

verus! {

/// What a run starts from.
#[derive(Debug)]
pub struct Config {
    /// The path of the enemies.
    pub waypoints: Vec<Vec2>,
    /// The enemies that are on the map from the start.
    pub wave: Wave,
    /// The player's money and health at the start.
    pub player: Player,
    /// How long a projectile lives, in milliseconds.
    pub bullet_lifetime: u64,
    /// The longest time step of one tick, in milliseconds: a longer step,
    /// as after a stall, is cut down to this.
    pub max_dt: u64,
}

/// Why a configuration is refused.
#[derive(Clone, Copy, Debug, PartialEq, Eq, Structural)]
pub enum ConfigError {
    /// The path is refused.
    Path(PathError),
    /// The wave of enemies is refused.
    Wave(SpawnError),
    /// The lifetime of a projectile exceeds the lifetime limit.
    LifetimeTooLong,
    /// The longest time step exceeds the limit on time steps.
    StepTooLong,
    /// The longest time step is no time at all: nothing would ever move.
    NoStep,
}

/// Why a tick is refused.
#[derive(Clone, Copy, Debug, PartialEq, Eq, Structural)]
pub enum AdvanceError {
    /// The store could run out of ids for the projectiles of this tick.
    IdsExhausted,
}

/// The simulation's state.
#[derive(Debug)]
pub struct World {
    path: TargetPath,
    player: Player,
    targets: Vec<Enemy>,
    towers: Vec<PlacedTower>,
    bullets: Vec<Projectile>,
    death_events: Vec<TargetDeathEvent>,
    breach_events: Vec<TargetBreachEvent>,
    game_over: bool,
    next_id: u64,
    bullet_lifetime: u64,
    max_dt: u64,
}

/// The simulation's state as a mathematical value.
pub struct WorldView {
    pub waypoints: Seq<Vec2>,
    pub player: Player,
    pub targets: Seq<Enemy>,
    pub towers: Seq<PlacedTower>,
    pub bullets: Seq<Projectile>,
    /// The deaths of the last tick.
    pub death_events: Seq<TargetDeathEvent>,
    /// The breaches of the last tick.
    pub breach_events: Seq<TargetBreachEvent>,
    /// Whether the last tick took the player's last health.
    pub game_over: bool,
    /// The id that the next new entity gets.
    pub next_id: u64,
    pub bullet_lifetime: u64,
    pub max_dt: u64,
}

/// Every enemy of `targets` has a waypoint to head for.
pub open spec fn all_on_path(targets: Seq<Enemy>, waypoints_len: nat) -> bool {
    forall|i: int| 0 <= i < targets.len() ==> (#[trigger] targets[i]).target.path_index < waypoints_len
}

/// Why `waypoints` are refused as a path, if they are.
pub open spec fn path_error(waypoints: Seq<Vec2>) -> Option<PathError> {
    if waypoints.len() == 0 {
        Some(PathError::Empty)
    } else if !waypoints_in_range(waypoints) {
        Some(PathError::OutOfRange)
    } else {
        None
    }
}

/// The test that picks the towers that do not bear `id`.
pub open spec fn other_than(id: u64) -> spec_fn(PlacedTower) -> bool {
    |t: PlacedTower| t.id != id
}

/// The step that takes `amount` off the health of the enemy that bears
/// `id` and leaves every other enemy as it is.
pub open spec fn wounding(id: u64, amount: int) -> spec_fn(Enemy) -> Enemy {
    |e: Enemy|
        if e.id == id {
            Enemy { health: e.health.damaged(amount), ..e }
        } else {
            e
        }
}

impl WorldView {
    /// The path has a waypoint and fits in memory, every entity is well
    /// formed, every enemy has a waypoint to head for and stands where its
    /// way to it puts it, each kind of entity is stored in the rising order
    /// of its ids, and the limits are kept.
    pub open spec fn wf(self) -> bool {
        &&& 0 < self.waypoints.len() <= usize::MAX
        &&& waypoints_in_range(self.waypoints)
        &&& all_wf(self.targets)
        &&& all_towers_wf(self.towers)
        &&& all_bullets_wf(self.bullets)
        &&& all_on_path(self.targets, self.waypoints.len())
        &&& all_head_well(self.targets, self.waypoints)
        &&& ascends(self.targets, enemy_id(), self.next_id as int)
        &&& ascends(self.towers, tower_id(), self.next_id as int)
        &&& ascends(self.bullets, bullet_id(), self.next_id as int)
        &&& self.bullet_lifetime <= LIFETIME_LIMIT
        &&& 1 <= self.max_dt <= DT_LIMIT
    }

    /// The time step that a tick takes when the clock hands in `dt_ms`: a
    /// negative step counts as none, and one beyond the longest step is cut
    /// down to it.
    pub open spec fn clamped(self, dt_ms: int) -> int {
        if dt_ms < 0 {
            0
        } else if dt_ms > self.max_dt {
            self.max_dt as int
        } else {
            dt_ms
        }
    }

    /// Whether the store has an id left for every projectile that a tick
    /// can launch.
    pub open spec fn can_advance(self) -> bool {
        self.next_id + self.towers.len() <= u64::MAX
    }

    /// The state after the enemies of `wave` have joined the store.
    pub open spec fn reinforced(self, wave: Wave) -> WorldView {
        WorldView {
            targets: self.targets + wave.enemies(self.next_id),
            next_id: (self.next_id + wave.count) as u64,
            ..self
        }
    }

    /// The state after a tower of kind `tower_type` has been placed at
    /// `position`.
    pub open spec fn with_tower(self, position: Vec3, tower_type: TowerType) -> WorldView {
        WorldView {
            towers: self.towers.push(PlacedTower::placed(self.next_id, position, tower_type)),
            next_id: (self.next_id + 1) as u64,
            ..self
        }
    }

    /// Whether a tower in the store bears `id`.
    pub open spec fn has_tower(self, id: u64) -> bool {
        exists|i: int| 0 <= i < self.towers.len() && (#[trigger] self.towers[i]).id == id
    }

    /// The state without the tower that bears `id`.
    pub open spec fn without_tower(self, id: u64) -> WorldView {
        WorldView { towers: self.towers.filter(other_than(id)), ..self }
    }

    /// Whether an enemy in the store bears `id`.
    pub open spec fn has_target(self, id: u64) -> bool {
        exists|i: int| 0 <= i < self.targets.len() && (#[trigger] self.targets[i]).id == id
    }

    /// The state after the enemy that bears `id` has taken `amount` of
    /// damage.
    pub open spec fn damaged(self, id: u64, amount: int) -> WorldView {
        WorldView { targets: self.targets.map_values(wounding(id, amount)), ..self }
    }

    /// The enemies after they have walked for a tick.
    pub open spec fn walked(self, dt_ms: int) -> Seq<Enemy> {
        moved_all(self.targets, self.waypoints, self.clamped(dt_ms))
    }

    /// The projectiles that the towers launch during a tick.
    pub open spec fn shots(self, dt_ms: int) -> Seq<Projectile> {
        volley(
            self.towers,
            self.walked(dt_ms),
            self.clamped(dt_ms),
            self.bullet_lifetime,
            self.next_id as int,
        )
    }

    /// The enemies after walking and after the tick's contacts have done
    /// their damage, before any is removed.
    pub open spec fn battered(self, dt_ms: int, contacts: Seq<Contact>) -> Seq<Enemy> {
        struck_all(self.walked(dt_ms), self.bullets + self.shots(dt_ms), contacts)
    }

    /// The state after one tick. In order: the enemies walk; the towers
    /// cool down and fire at where the enemies now are; every projectile that
    /// touches an enemy damages it and is removed; the other projectiles fly
    /// on or expire; the enemies without health die; of the living, those
    /// past the last waypoint get through; the player is paid for the dead
    /// and hurt by the breaches.
    pub open spec fn advanced(self, dt_ms: int, contacts: Seq<Contact>) -> WorldView {
        let dt = self.clamped(dt_ms);
        let walked = self.walked(dt_ms);
        let shots = self.shots(dt_ms);
        let in_flight = self.bullets + shots;
        let battered = self.battered(dt_ms, contacts);
        let alive = survivors(battered);
        let death_events = deaths(battered);
        let breach_events = breaches(alive, self.waypoints.len());
        let player = self.player.rewarded(death_events.len()).hurt(breach_events.len());
        WorldView {
            waypoints: self.waypoints,
            player,
            targets: walkers(alive, self.waypoints.len()),
            towers: cooled_all(self.towers, dt),
            bullets: flown(unspent_bullets(in_flight, walked, contacts), dt),
            death_events,
            breach_events,
            game_over: self.player.health > 0 && player.health == 0,
            next_id: (self.next_id + shots.len()) as u64,
            bullet_lifetime: self.bullet_lifetime,
            max_dt: self.max_dt,
        }
    }
}

/// How long a projectile lives unless told otherwise, in milliseconds.
pub const STANDARD_LIFETIME: u64 = 1_000_500;

/// The longest time step unless told otherwise, in milliseconds.
pub const STANDARD_MAX_DT: u64 = 100;

impl Config {
    /// The configuration of the standard map: a path of three waypoints,
    /// twenty enemies in a row two units apart, and a player with a hundred
    /// of money and of health.
    pub open spec fn spec_standard() -> (Seq<Vec2>, Wave, Player, u64, u64) {
        (
            seq![
                Vec2 { x: 6000, y: 2000 },
                Vec2 { x: 30000, y: 10000 },
                Vec2 { x: 50000, y: 1000 },
            ],
            Wave {
                count: 20,
                origin: Vec3 { x: 0, y: 0, z: 3000 },
                spacing: 2000,
                speed: 300,
                health: 3000,
            },
            Player { money: STARTING_MONEY, health: STARTING_HEALTH },
            STANDARD_LIFETIME,
            STANDARD_MAX_DT,
        )
    }

    /// The configuration of the standard map.
    pub fn standard() -> (config: Config)
        ensures
            (config.waypoints@, config.wave, config.player, config.bullet_lifetime, config.max_dt)
                == Config::spec_standard(),
            config.error() is None,
    {
        let mut waypoints: Vec<Vec2> = Vec::new();
        waypoints.push(Vec2 { x: 6000, y: 2000 });
        waypoints.push(Vec2 { x: 30000, y: 10000 });
        waypoints.push(Vec2 { x: 50000, y: 1000 });
        let config = Config {
            waypoints,
            wave: Wave {
                count: 20,
                origin: Vec3 { x: 0, y: 0, z: 3000 },
                spacing: 2000,
                speed: 300,
                health: 3000,
            },
            player: spawn_player(),
            bullet_lifetime: STANDARD_LIFETIME,
            max_dt: STANDARD_MAX_DT,
        };
        assert(config.waypoints@ =~= Config::spec_standard().0);
        config
    }

    /// Why the configuration is refused, if it is.
    pub open spec fn error(&self) -> Option<ConfigError> {
        match path_error(self.waypoints@) {
            Some(e) => Some(ConfigError::Path(e)),
            None => match self.wave.error(0) {
                Some(e) => Some(ConfigError::Wave(e)),
                None => if self.bullet_lifetime > LIFETIME_LIMIT {
                    Some(ConfigError::LifetimeTooLong)
                } else if self.max_dt > DT_LIMIT {
                    Some(ConfigError::StepTooLong)
                } else if self.max_dt == 0 {
                    Some(ConfigError::NoStep)
                } else {
                    None
                },
            },
        }
    }

    /// The state that a run with this configuration starts in.
    pub open spec fn initial(&self) -> WorldView {
        WorldView {
            waypoints: self.waypoints@,
            player: self.player,
            targets: self.wave.enemies(0),
            towers: Seq::empty(),
            bullets: Seq::empty(),
            death_events: Seq::empty(),
            breach_events: Seq::empty(),
            game_over: false,
            next_id: self.wave.count as u64,
            bullet_lifetime: self.bullet_lifetime,
            max_dt: self.max_dt,
        }
    }
}

impl View for World {
    type V = WorldView;

    closed spec fn view(&self) -> WorldView {
        WorldView {
            waypoints: self.path.waypoints@,
            player: self.player,
            targets: self.targets@,
            towers: self.towers@,
            bullets: self.bullets@,
            death_events: self.death_events@,
            breach_events: self.breach_events@,
            game_over: self.game_over,
            next_id: self.next_id,
            bullet_lifetime: self.bullet_lifetime,
            max_dt: self.max_dt,
        }
    }
}

impl World {
    /// The state is well formed.
    pub open spec fn wf(&self) -> bool {
        self@.wf()
    }

    /// Starts a run, or says why the configuration is refused.
    pub fn new(config: Config) -> (r: Result<World, ConfigError>)
        ensures
            match r {
                Ok(world) => config.error() is None && world@ == config.initial() && world.wf(),
                Err(e) => config.error() == Some(e),
            },
    {
        let ghost initial = config.initial();
        let Config { waypoints, wave, player, bullet_lifetime, max_dt } = config;
        let path: TargetPath = match TargetPath::new(waypoints) {
            Ok(path) => path,
            Err(e) => {
                return Err(ConfigError::Path(e));
            },
        };
        let targets: Vec<Enemy> = match spawn_targets(&wave, 0) {
            Ok(targets) => targets,
            Err(e) => {
                return Err(ConfigError::Wave(e));
            },
        };
        if bullet_lifetime > LIFETIME_LIMIT {
            return Err(ConfigError::LifetimeTooLong);
        }
        if max_dt > DT_LIMIT {
            return Err(ConfigError::StepTooLong);
        }
        if max_dt == 0 {
            return Err(ConfigError::NoStep);
        }
        let world = World {
            path,
            player,
            targets,
            towers: Vec::new(),
            bullets: Vec::new(),
            death_events: Vec::new(),
            breach_events: Vec::new(),
            game_over: false,
            next_id: wave.count as u64,
            bullet_lifetime,
            max_dt,
        };
        assert(world@ =~= initial);
        Ok(world)
    }

    /// The player.
    pub fn player(&self) -> (player: Player)
        ensures
            player == self@.player,
    {
        self.player
    }

    /// The enemies in the store, in the order of their ids.
    pub fn targets(&self) -> (targets: &Vec<Enemy>)
        ensures
            targets@ == self@.targets,
    {
        &self.targets
    }

    /// The towers in the store, in the order of their ids.
    pub fn towers(&self) -> (towers: &Vec<PlacedTower>)
        ensures
            towers@ == self@.towers,
    {
        &self.towers
    }

    /// The projectiles in the store, in the order of their ids.
    pub fn bullets(&self) -> (bullets: &Vec<Projectile>)
        ensures
            bullets@ == self@.bullets,
    {
        &self.bullets
    }

    /// The waypoints of the path.
    pub fn waypoints(&self) -> (waypoints: &Vec<Vec2>)
        ensures
            waypoints@ == self@.waypoints,
    {
        &self.path.waypoints
    }

    /// The deaths that the last tick raised.
    pub fn death_events(&self) -> (events: &Vec<TargetDeathEvent>)
        ensures
            events@ == self@.death_events,
    {
        &self.death_events
    }

    /// The breaches that the last tick raised.
    pub fn breach_events(&self) -> (events: &Vec<TargetBreachEvent>)
        ensures
            events@ == self@.breach_events,
    {
        &self.breach_events
    }

    /// Whether the last tick took the player's last health.
    pub fn game_over(&self) -> (raised: bool)
        ensures
            raised == self@.game_over,
    {
        self.game_over
    }

    /// Whether the run is lost: the player has no health left.
    pub fn is_lost(&self) -> (lost: bool)
        ensures
            lost == self@.player.is_defeated(),
    {
        self.player.is_defeated()
    }

    /// Runs one tick of the simulation. `dt_ms` is the time since the last
    /// tick, in milliseconds; `contacts` are the pairs of a projectile and an
    /// enemy that touch. A tick is refused, and nothing changes, only where
    /// the store could run out of ids.
    pub fn advance(&mut self, dt_ms: i64, contacts: &Vec<Contact>) -> (r: Result<(), AdvanceError>)
        requires
            old(self).wf(),
        ensures
            final(self).wf(),
            match r {
                Ok(_) => old(self)@.can_advance() && final(self)@ == old(self)@.advanced(
                    dt_ms as int,
                    contacts@,
                ),
                Err(e) => !old(self)@.can_advance() && final(self)@ == old(self)@,
            },
    {
        let tower_count: usize = self.towers.len();
        if self.next_id > u64::MAX - (tower_count as u64) {
            return Err(AdvanceError::IdsExhausted);
        }
        let ghost before = self@;
        let ghost len = before.waypoints.len();
        let dt: u64 = if dt_ms < 0 {
            0
        } else if dt_ms as u64 > self.max_dt {
            self.max_dt
        } else {
            dt_ms as u64
        };
        assert(dt == before.clamped(dt_ms as int));

        move_targets(&mut self.targets, &self.path, dt);
        let ghost walked = self.targets@;
        proof {
            lemma_same_ids_ascend(before.targets, walked, enemy_id(), before.next_id as int);
        }

        tower_shooting(
            &mut self.towers,
            &self.targets,
            &mut self.bullets,
            &mut self.next_id,
            self.bullet_lifetime,
            dt,
        );
        let ghost shots = before.shots(dt_ms as int);
        let ghost in_flight = self.bullets@;
        proof {
            lemma_volley_ascends(
                before.bullets,
                before.towers,
                walked,
                dt as int,
                before.bullet_lifetime,
                before.next_id as int,
            );
            lemma_same_ids_ascend(before.towers, self.towers@, tower_id(), before.next_id as int);
            lemma_ascends_under_larger_bound(
                self.towers@,
                tower_id(),
                before.next_id as int,
                self.next_id as int,
            );
            lemma_ascends_under_larger_bound(walked, enemy_id(), before.next_id as int, self.next_id as int);
        }

        bullet_collision_detection(&mut self.targets, &mut self.bullets, contacts);
        let ghost battered = self.targets@;
        proof {
            assert forall|i: int| 0 <= i < battered.len() implies (#[trigger] battered[i]).heads_well(
                before.waypoints,
            ) by {
                assert(walked[i].heads_well(before.waypoints));
            }
            lemma_same_ids_ascend(walked, battered, enemy_id(), self.next_id as int);
            lemma_filter_ascends(in_flight, unspent(walked, contacts@), bullet_id(), self.next_id as int);
        }

        let ghost unspent_now = self.bullets@;
        move_bullets(&mut self.bullets, dt);
        proof {
            let outlasting = unspent_now.filter(outliving(dt as int));
            lemma_filter_ascends(unspent_now, outliving(dt as int), bullet_id(), self.next_id as int);
            lemma_same_ids_ascend(outlasting, self.bullets@, bullet_id(), self.next_id as int);
        }

        let death_events: Vec<TargetDeathEvent> = target_death(&mut self.targets);
        let ghost alive = self.targets@;
        proof {
            lemma_filter_ascends(battered, living(), enemy_id(), self.next_id as int);
            assert forall|i: int| 0 <= i < alive.len() implies (#[trigger] alive[i]).heads_well(
                before.waypoints,
            ) by {
                battered.lemma_filter_contains_rev(living(), alive[i]);
            }
        }

        let breach_events: Vec<TargetBreachEvent> = target_breach(&mut self.targets, &self.path);
        proof {
            lemma_filter_ascends(alive, on_path(len), enemy_id(), self.next_id as int);
            assert forall|i: int| 0 <= i < self.targets@.len() implies (
            #[trigger] self.targets@[i]).target.path_index < len && self.targets@[i].heads_well(
                before.waypoints,
            ) by {
                alive.lemma_filter_pred(on_path(len), i);
                alive.lemma_filter_contains_rev(on_path(len), self.targets@[i]);
            }
        }

        give_money_on_kill(&mut self.player, &death_events);
        let game_over: bool = hurt_player(&mut self.player, &breach_events);
        self.death_events = death_events;
        self.breach_events = breach_events;
        self.game_over = game_over;
        assert(self@ =~= before.advanced(dt_ms as int, contacts@));
        Ok(())
    }

    /// Adds the enemies of `wave` to the store, or says why the wave is
    /// refused; a refused wave changes nothing.
    pub fn spawn(&mut self, wave: &Wave) -> (r: Result<(), SpawnError>)
        requires
            old(self).wf(),
        ensures
            final(self).wf(),
            match r {
                Ok(_) => wave.error(old(self)@.next_id) is None && final(self)@ == old(
                    self,
                )@.reinforced(*wave),
                Err(e) => wave.error(old(self)@.next_id) == Some(e) && final(self)@ == old(self)@,
            },
    {
        let ghost before = self@;
        let mut fresh: Vec<Enemy> = match spawn_targets(wave, self.next_id) {
            Ok(fresh) => fresh,
            Err(e) => {
                return Err(e);
            },
        };
        let ghost joined = before.targets + fresh@;
        self.targets.append(&mut fresh);
        self.next_id = self.next_id + (wave.count as u64);
        proof {
            let bound = before.next_id + wave.count;
            assert forall|i: int, j: int|
                #![trigger joined[i], joined[j]]
                0 <= i < j < joined.len() implies enemy_id()(joined[i]) < enemy_id()(joined[j]) by {
                if j < before.targets.len() {
                    assert(joined[i] == before.targets[i] && joined[j] == before.targets[j]);
                } else if i < before.targets.len() {
                    assert(joined[i] == before.targets[i]);
                }
            }
            assert forall|i: int| 0 <= i < joined.len() implies enemy_id()(#[trigger] joined[i])
                < bound by {
                if i < before.targets.len() {
                    assert(joined[i] == before.targets[i]);
                }
            }
            assert forall|i: int| 0 <= i < joined.len() implies (#[trigger] joined[i]).wf() && joined[i].target.path_index
                < before.waypoints.len() && joined[i].heads_well(before.waypoints) by {
                if i < before.targets.len() {
                    assert(joined[i] == before.targets[i]);
                }
            }
            lemma_ascends_under_larger_bound(before.towers, tower_id(), before.next_id as int, bound);
            lemma_ascends_under_larger_bound(before.bullets, bullet_id(), before.next_id as int, bound);
            assert(self@ =~= before.reinforced(*wave));
        }
        Ok(())
    }

    /// Places a tower of kind `tower_type` at `position` and hands back its
    /// id. Whether the player can pay is the caller's business here; see
    /// [`World::buy_tower`]. A refused tower changes nothing.
    pub fn place_tower(&mut self, position: Vec3, tower_type: TowerType) -> (r: Result<u64, PlaceError>)
        requires
            old(self).wf(),
        ensures
            final(self).wf(),
            match r {
                Ok(id) => place_error(old(self)@.next_id, position) is None && id == old(
                    self,
                )@.next_id && final(self)@ == old(self)@.with_tower(position, tower_type),
                Err(e) => place_error(old(self)@.next_id, position) == Some(e) && final(self)@
                    == old(self)@,
            },
    {
        let ghost before = self@;
        let r = place_tower(&mut self.towers, &mut self.next_id, position, tower_type);
        proof {
            if r is Ok {
                let bound = before.next_id + 1;
                lemma_push_ascends(
                    before.towers,
                    PlacedTower::placed(before.next_id, position, tower_type),
                    tower_id(),
                    before.next_id as int,
                );
                lemma_ascends_under_larger_bound(before.targets, enemy_id(), before.next_id as int, bound);
                lemma_ascends_under_larger_bound(before.bullets, bullet_id(), before.next_id as int, bound);
                assert(self@ =~= before.with_tower(position, tower_type));
            } else {
                assert(self@ =~= before);
            }
        }
        r
    }

    /// Buys a tower of kind `tower_type` for `position`: where the player
    /// holds at least the price and the tower can be placed, takes the price
    /// and places the tower. A refused purchase changes nothing.
    pub fn buy_tower(&mut self, position: Vec3, tower_type: TowerType) -> (r: Result<u64, PurchaseError>)
        requires
            old(self).wf(),
        ensures
            final(self).wf(),
            match r {
                Ok(id) => {
                    &&& purchase_error(old(self)@.player, old(self)@.next_id, position, tower_type) is None
                    &&& id == old(self)@.next_id
                    &&& final(self)@ == (WorldView {
                        player: old(self)@.player.charged(tower_type.spec_cost()),
                        ..old(self)@.with_tower(position, tower_type)
                    })
                },
                Err(e) => {
                    &&& purchase_error(old(self)@.player, old(self)@.next_id, position, tower_type)
                        == Some(e)
                    &&& final(self)@ == old(self)@
                },
            },
    {
        let ghost before = self@;
        let r = tower_button_clicked(
            &mut self.player,
            &mut self.towers,
            &mut self.next_id,
            position,
            tower_type,
        );
        proof {
            if r is Ok {
                let bound = before.next_id + 1;
                lemma_push_ascends(
                    before.towers,
                    PlacedTower::placed(before.next_id, position, tower_type),
                    tower_id(),
                    before.next_id as int,
                );
                lemma_ascends_under_larger_bound(before.targets, enemy_id(), before.next_id as int, bound);
                lemma_ascends_under_larger_bound(before.bullets, bullet_id(), before.next_id as int, bound);
                assert(self@ =~= (WorldView {
                    player: before.player.charged(tower_type.spec_cost()),
                    ..before.with_tower(position, tower_type)
                }));
            } else {
                assert(self@ =~= before);
            }
        }
        r
    }

    /// Removes the tower that bears `id` and says whether there was one.
    /// Removing a tower that is not in the store changes nothing.
    pub fn remove_tower(&mut self, id: u64) -> (removed: bool)
        requires
            old(self).wf(),
        ensures
            final(self).wf(),
            removed == old(self)@.has_tower(id),
            final(self)@ == old(self)@.without_tower(id),
            !removed ==> final(self)@ == old(self)@,
    {
        let ghost before = self@;
        let ghost keep = other_than(id);
        let mut kept: Vec<PlacedTower> = Vec::new();
        let mut removed: bool = false;
        let n: usize = self.towers.len();
        let mut i: usize = 0;
        assert(before.towers.take(0) =~= Seq::<PlacedTower>::empty());
        proof {
            reveal(Seq::filter);
        }
        while i < n
            invariant
                i <= n,
                n == before.towers.len(),
                self@ == before,
                keep == other_than(id),
                all_towers_wf(before.towers),
                kept@ == before.towers.take(i as int).filter(keep),
                all_towers_wf(kept@),
                removed == (exists|k: int| 0 <= k < i && (#[trigger] before.towers[k]).id == id),
                !removed ==> kept@ == before.towers.take(i as int),
            decreases n - i,
        {
            let t: PlacedTower = self.towers[i];
            proof {
                let part = before.towers.take(i as int);
                assert(before.towers.take(i + 1) =~= part.push(t));
                part.lemma_filter_push(t, keep);
                assert(before.towers[i as int].wf());
            }
            if t.id == id {
                removed = true;
            } else {
                kept.push(t);
            }
            i += 1;
        }
        proof {
            assert(before.towers.take(n as int) =~= before.towers);
            lemma_filter_ascends(before.towers, keep, tower_id(), before.next_id as int);
        }
        self.towers = kept;
        assert(self@ =~= before.without_tower(id));
        removed
    }

    /// Takes `amount` off the health of the enemy that bears `target` and
    /// says whether there is such an enemy. The enemy stays in the store
    /// until the next tick's death scan, whatever its health.
    pub fn apply_damage(&mut self, target: u64, amount: u32) -> (found: bool)
        requires
            old(self).wf(),
        ensures
            final(self).wf(),
            found == old(self)@.has_target(target),
            final(self)@ == old(self)@.damaged(target, amount as int),
    {
        let ghost before = self@;
        let ghost change = wounding(target, amount as int);
        let mut found: bool = false;
        let n: usize = self.targets.len();
        let mut i: usize = 0;
        while i < n
            invariant
                i <= n,
                n == before.targets.len(),
                self.targets@.len() == n,
                before.wf(),
                change == wounding(target, amount as int),
                self@ == (WorldView { targets: self.targets@, ..before }),
                forall|k: int| 0 <= k < i ==> self.targets@[k] == change(#[trigger] before.targets[k]),
                forall|k: int| i <= k < n ==> self.targets@[k] == #[trigger] before.targets[k],
                found == (exists|k: int| 0 <= k < i && (#[trigger] before.targets[k]).id == target),
            decreases n - i,
        {
            let mut e: Enemy = self.targets[i];
            assert(e == before.targets[i as int]);
            if e.id == target {
                e.health.apply_damage(amount);
                self.targets.set(i, e);
                found = true;
            }
            i += 1;
        }
        proof {
            let changed = before.targets.map_values(change);
            assert(self.targets@ =~= changed);
            lemma_same_ids_ascend(before.targets, changed, enemy_id(), before.next_id as int);
            assert forall|k: int| 0 <= k < changed.len() implies (#[trigger] changed[k]).wf()
                && changed[k].target.path_index < before.waypoints.len() && changed[k].heads_well(
                before.waypoints,
            ) by {
                assert(before.targets[k].wf());
                assert(before.targets[k].heads_well(before.waypoints));
            }
            assert(self@ =~= before.damaged(target, amount as int));
        }
        found
    }
}

} // verus!
