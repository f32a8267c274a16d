//! Towers: their kinds, how they pick a target, and how they fire.
use vstd::prelude::*;
use crate::bullet::{all_bullets_wf, Bullet, Projectile, LIFETIME_LIMIT};
use crate::fixed::{COORD_LIMIT, DT_LIMIT};
use crate::player::Player;
use crate::target::{all_wf, Enemy};
use crate::timer::{
    lemma_after_is_wf, lemma_firing_starts_over, lemma_no_shot_within_a_period_of_the_last, total,
    RepeatingTimer,
};
use crate::vector::{dist_sq, distance_squared, Vec3};

verus! {

/// What makes an entity a tower: the timer that paces its fire, where its
/// muzzle sits relative to its position, and how far it sees.
#[derive(Clone, Copy, Debug, PartialEq, Eq, Structural)]
pub struct Tower {
    pub shooting_timer: RepeatingTimer,
    pub bullet_offset: Vec3,
    /// Radius around the firing origin, in thousandths of a unit.
    pub range: i64,
}

/// What a tower of some kind costs.
#[derive(Clone, Copy, Debug, PartialEq, Eq, Structural)]
pub struct TowerButtonAttributes {
    pub cost: u32,
}

/// The kinds of tower.
#[derive(Clone, Copy, Debug, PartialEq, Eq, Structural)]
pub enum TowerType {
    TowerA,
    TowerB,
    TowerC,
}

/// A tower in the store.
#[derive(Clone, Copy, Debug, PartialEq, Eq, Structural)]
pub struct PlacedTower {
    pub id: u64,
    pub position: Vec3,
    pub tower: Tower,
    pub tower_type: TowerType,
}

/// Milliseconds between two shots of a tower.
pub const SHOOTING_PERIOD: u64 = 500;

/// Height of a tower's muzzle above its position.
pub const MUZZLE_HEIGHT: i64 = 600;

/// How far a tower sees.
pub const TOWER_RANGE: i64 = 4500;

/// How fast a tower's projectile flies.
pub const BULLET_SPEED: i64 = 3500;

impl TowerType {
    /// The tower that a kind stands for, ready to be placed.
    pub open spec fn spec_get_tower(self) -> Tower {
        Tower {
            shooting_timer: RepeatingTimer { elapsed: 0, period: SHOOTING_PERIOD },
            bullet_offset: Vec3 { x: 0, y: MUZZLE_HEIGHT, z: 0 },
            range: TOWER_RANGE,
        }
    }

    /// The tower that a kind stands for, ready to be placed.
    pub fn get_tower(&self) -> (tower: Tower)
        ensures
            tower == self.spec_get_tower(),
            tower.shooting_timer.wf(),
    {
        match self {
            TowerType::TowerA => Tower {
                shooting_timer: RepeatingTimer { elapsed: 0, period: 500 },
                bullet_offset: Vec3 { x: 0, y: 600, z: 0 },
                range: 4500,
            },
            TowerType::TowerB => Tower {
                shooting_timer: RepeatingTimer { elapsed: 0, period: 500 },
                bullet_offset: Vec3 { x: 0, y: 600, z: 0 },
                range: 4500,
            },
            TowerType::TowerC => Tower {
                shooting_timer: RepeatingTimer { elapsed: 0, period: 500 },
                bullet_offset: Vec3 { x: 0, y: 600, z: 0 },
                range: 4500,
            },
        }
    }

    /// The price of a tower of this kind.
    pub open spec fn spec_cost(self) -> u32 {
        match self {
            TowerType::TowerA => 50,
            TowerType::TowerB => 80,
            TowerType::TowerC => 110,
        }
    }

    /// What the button that buys a tower of this kind shows.
    pub fn get_tower_button(&self) -> (attributes: TowerButtonAttributes)
        ensures
            attributes.cost == self.spec_cost(),
    {
        match self {
            TowerType::TowerA => TowerButtonAttributes { cost: 50 },
            TowerType::TowerB => TowerButtonAttributes { cost: 80 },
            TowerType::TowerC => TowerButtonAttributes { cost: 110 },
        }
    }

    /// The projectile of this kind of tower, flying along `direction`.
    pub open spec fn spec_get_bullet(self, direction: Vec3) -> Bullet {
        Bullet { direction, speed: BULLET_SPEED }
    }

    /// The projectile of this kind of tower, flying along `direction`.
    pub fn get_bullet(&self, direction: Vec3) -> (bullet: Bullet)
        ensures
            bullet == self.spec_get_bullet(direction),
    {
        match self {
            TowerType::TowerA => Bullet { direction, speed: 3500 },
            TowerType::TowerB => Bullet { direction, speed: 3500 },
            TowerType::TowerC => Bullet { direction, speed: 3500 },
        }
    }
}

/// Whether `position` lies strictly closer to `origin` than `range`.
pub open spec fn in_range(origin: Vec3, range: i64, position: Vec3) -> bool {
    range > 0 && dist_sq(origin, position) < range * range
}

/// Whether any of `targets` lies in range of `origin`.
pub open spec fn any_in_range(origin: Vec3, range: i64, targets: Seq<Enemy>) -> bool {
    exists|i: int| 0 <= i < targets.len() && in_range(origin, range, (#[trigger] targets[i]).position)
}

/// `targets[i]` is as close to `origin` as any of `targets`, and the first
/// in the store that is so close.
pub open spec fn is_nearest(origin: Vec3, targets: Seq<Enemy>, i: int) -> bool {
    &&& 0 <= i < targets.len()
    &&& forall|j: int|
        0 <= j < targets.len() ==> dist_sq(origin, targets[i].position) <= dist_sq(
            origin,
            (#[trigger] targets[j]).position,
        )
    &&& forall|j: int|
        0 <= j < i ==> dist_sq(origin, targets[i].position) < dist_sq(
            origin,
            (#[trigger] targets[j]).position,
        )
}

/// The index of the nearest of `targets` (meaningful where there is one).
pub open spec fn nearest(origin: Vec3, targets: Seq<Enemy>) -> int {
    choose|i: int| is_nearest(origin, targets, i)
}

/// The enemy a tower at `origin` fires at: the nearest one, if it lies in
/// range; among equally near ones the first in the store.
pub open spec fn closest_in_range(origin: Vec3, range: i64, targets: Seq<Enemy>) -> Option<int> {
    if any_in_range(origin, range, targets) {
        Some(nearest(origin, targets))
    } else {
        None
    }
}

/// At most one index is the nearest.
pub proof fn lemma_nearest_unique(origin: Vec3, targets: Seq<Enemy>, i: int, k: int)
    requires
        is_nearest(origin, targets, i),
        is_nearest(origin, targets, k),
    ensures
        i == k,
{
    if i < k {
        assert(dist_sq(origin, targets[k].position) < dist_sq(origin, targets[i].position));
        assert(dist_sq(origin, targets[i].position) <= dist_sq(origin, targets[k].position));
    } else if k < i {
        assert(dist_sq(origin, targets[i].position) < dist_sq(origin, targets[k].position));
        assert(dist_sq(origin, targets[k].position) <= dist_sq(origin, targets[i].position));
    }
}

/// Among any enemies there is a nearest one.
pub proof fn lemma_nearest_exists(origin: Vec3, targets: Seq<Enemy>)
    requires
        targets.len() > 0,
    ensures
        is_nearest(origin, targets, nearest(origin, targets)),
    decreases targets.len(),
{
    let last = targets.len() - 1;
    if targets.len() == 1 {
        assert(is_nearest(origin, targets, 0));
    } else {
        let init = targets.drop_last();
        lemma_nearest_exists(origin, init);
        let k = nearest(origin, init);
        assert(init[k] == targets[k]);
        assert forall|j: int| 0 <= j < last implies dist_sq(origin, targets[k].position) <= dist_sq(
            origin,
            (#[trigger] targets[j]).position,
        ) by {
            assert(init[j] == targets[j]);
        }
        assert forall|j: int| 0 <= j < k implies dist_sq(origin, targets[k].position) < dist_sq(
            origin,
            (#[trigger] targets[j]).position,
        ) by {
            assert(init[j] == targets[j]);
        }
        if dist_sq(origin, targets[last].position) < dist_sq(origin, targets[k].position) {
            assert(is_nearest(origin, targets, last));
        } else {
            assert(is_nearest(origin, targets, k));
        }
    }
}

/// Targeting is correct: the enemy that a tower fires at lies strictly
/// within its range and is as near as any, and a tower that fires at no one
/// has no enemy within its range.
pub proof fn lemma_targeting_is_correct(origin: Vec3, range: i64, targets: Seq<Enemy>)
    ensures
        match closest_in_range(origin, range, targets) {
            Some(i) => is_nearest(origin, targets, i) && in_range(
                origin,
                range,
                targets[i].position,
            ),
            None => forall|j: int|
                0 <= j < targets.len() ==> !in_range(origin, range, (#[trigger] targets[j]).position),
        },
{
    if any_in_range(origin, range, targets) {
        let j = choose|j: int|
            0 <= j < targets.len() && in_range(origin, range, (#[trigger] targets[j]).position);
        lemma_nearest_exists(origin, targets);
        let i = nearest(origin, targets);
        assert(dist_sq(origin, targets[i].position) <= dist_sq(origin, targets[j].position));
    }
}

/// Picks the enemy that a tower at `origin` fires at, if any is in range.
///
/// A tower never fires at an enemy at `range` or farther, and where several
/// are in range it picks one at the least distance: the first of them in the
/// store.
pub fn closest_target(origin: Vec3, range: i64, targets: &Vec<Enemy>) -> (r: Option<usize>)
    requires
        origin.within(COORD_LIMIT as int),
        all_wf(targets@),
    ensures
        r is None <==> !any_in_range(origin, range, targets@),
        r matches Some(i) ==> is_nearest(origin, targets@, i as int) && in_range(
            origin,
            range,
            targets@[i as int].position,
        ),
        r matches Some(i) ==> closest_in_range(origin, range, targets@) == Some(i as int),
        r is None ==> closest_in_range(origin, range, targets@) is None,
{
    let n: usize = targets.len();
    if n == 0 || range <= 0 {
        return None;
    }
    let mut best: usize = 0;
    let mut best_d: u64 = distance_squared(origin, targets[0].position);
    let mut i: usize = 1;
    while i < n
        invariant
            1 <= i <= n,
            n == targets@.len(),
            origin.within(COORD_LIMIT as int),
            all_wf(targets@),
            best < i,
            best_d == dist_sq(origin, targets@[best as int].position),
            forall|j: int|
                0 <= j < i ==> best_d <= dist_sq(origin, (#[trigger] targets@[j]).position),
            forall|j: int|
                0 <= j < best ==> best_d < dist_sq(origin, (#[trigger] targets@[j]).position),
        decreases n - i,
    {
        let d: u64 = distance_squared(origin, targets[i].position);
        if d < best_d {
            best = i;
            best_d = d;
        }
        i += 1;
    }
    assert(is_nearest(origin, targets@, best as int));
    let r: u128 = range as u128;
    assert(r * r <= 0x7fff_ffff_ffff_ffff * 0x7fff_ffff_ffff_ffff) by (nonlinear_arith)
        requires
            0 <= r <= 0x7fff_ffff_ffff_ffff,
    ;
    if (best_d as u128) < r * r {
        proof {
            assert(in_range(origin, range, targets@[best as int].position));
            let k = nearest(origin, targets@);
            lemma_nearest_unique(origin, targets@, best as int, k);
        }
        Some(best)
    } else {
        None
    }
}

impl PlacedTower {
    /// The point a tower fires from: its position moved by the muzzle offset.
    pub open spec fn origin(self) -> Vec3 {
        self.position.spec_plus(self.tower.bullet_offset)
    }

    /// The timer is well formed, and the tower and its firing origin lie
    /// within the coordinate limit.
    pub open spec fn wf(self) -> bool {
        &&& self.tower.shooting_timer.wf()
        &&& self.position.within(COORD_LIMIT as int)
        &&& -COORD_LIMIT <= self.position.x + self.tower.bullet_offset.x <= COORD_LIMIT
        &&& -COORD_LIMIT <= self.position.y + self.tower.bullet_offset.y <= COORD_LIMIT
        &&& -COORD_LIMIT <= self.position.z + self.tower.bullet_offset.z <= COORD_LIMIT
    }

    /// A tower of kind `tower_type` at `position`.
    pub open spec fn placed(id: u64, position: Vec3, tower_type: TowerType) -> PlacedTower {
        PlacedTower { id, position, tower: tower_type.spec_get_tower(), tower_type }
    }

    /// Whether a tower at `position` and its muzzle fit within the
    /// coordinate limit.
    pub open spec fn fits(position: Vec3) -> bool {
        &&& position.within(COORD_LIMIT as int)
        &&& position.y + MUZZLE_HEIGHT <= COORD_LIMIT
    }

    /// The tower with its timer advanced by `dt_ms`.
    pub open spec fn cooled(self, dt_ms: int) -> PlacedTower {
        PlacedTower {
            tower: Tower { shooting_timer: self.tower.shooting_timer.ticked(dt_ms), ..self.tower },
            ..self
        }
    }

    /// The projectile, if any, that the tower launches during a tick of
    /// `dt_ms`, given the id it would bear. The tower launches one when its
    /// timer reaches the period and an enemy is in range; it aims at where
    /// that enemy is now.
    pub open spec fn shot(self, targets: Seq<Enemy>, dt_ms: int, lifetime_ms: u64, id: u64) -> Option<
        Projectile,
    > {
        if self.tower.shooting_timer.fires(dt_ms) {
            match closest_in_range(self.origin(), self.tower.range, targets) {
                Some(i) => Some(
                    Projectile::launched(
                        id,
                        self.origin(),
                        self.tower_type.spec_get_bullet(
                            self.origin().spec_to(targets[i].position).spec_normalized(),
                        ),
                        lifetime_ms,
                        self.tower_type,
                    ),
                ),
                None => None,
            }
        } else {
            None
        }
    }
}

/// A tower fires when it is due and has someone to fire at: it launches a
/// projectile on exactly the ticks on which its timer reaches the period
/// while an enemy is in range, from its firing origin, toward the nearest
/// enemy in range.
pub proof fn lemma_tower_fires_when_due(
    tower: PlacedTower,
    targets: Seq<Enemy>,
    dt_ms: int,
    lifetime_ms: u64,
    id: u64,
)
    ensures
        tower.shot(targets, dt_ms, lifetime_ms, id) is Some <==> tower.tower.shooting_timer.fires(
            dt_ms,
        ) && any_in_range(tower.origin(), tower.tower.range, targets),
        tower.shot(targets, dt_ms, lifetime_ms, id) matches Some(p) ==> {
            &&& p.id == id
            &&& p.position == tower.origin()
            &&& p.origin == tower.origin()
            &&& p.kind == tower.tower_type
            &&& p.flown == 0
            &&& p.lifetime.remaining == lifetime_ms
            &&& exists|i: int|
                {
                    &&& is_nearest(tower.origin(), targets, i)
                    &&& in_range(tower.origin(), tower.tower.range, (#[trigger] targets[i]).position)
                    &&& p.bullet.direction == tower.origin().spec_to(
                        targets[i].position,
                    ).spec_normalized()
                }
        },
{
    lemma_targeting_is_correct(tower.origin(), tower.tower.range, targets);
    if tower.shot(targets, dt_ms, lifetime_ms, id) is Some {
        let i = closest_in_range(tower.origin(), tower.tower.range, targets)->0;
        assert(in_range(tower.origin(), tower.tower.range, targets[i].position));
    }
}

/// Builds a tower of kind `tower_type` at `position`; `None` where the tower
/// or its muzzle would lie outside the coordinate limit.
pub fn spawn_tower(id: u64, position: Vec3, tower_type: TowerType) -> (r: Option<PlacedTower>)
    ensures
        r is Some <==> PlacedTower::fits(position),
        r matches Some(tower) ==> tower == PlacedTower::placed(id, position, tower_type)
            && tower.wf(),
{
    if position.x < -COORD_LIMIT || position.x > COORD_LIMIT || position.y < -COORD_LIMIT
        || position.y > COORD_LIMIT - MUZZLE_HEIGHT || position.z < -COORD_LIMIT || position.z
        > COORD_LIMIT {
        None
    } else {
        Some(PlacedTower { id, position, tower: tower_type.get_tower(), tower_type })
    }
}

/// Where the `index`-th building site for a tower lies: six units apart
/// along `x`, by turns at depth six and at depth zero.
pub fn tower_base_position(index: u32) -> (p: Vec3)
    ensures
        p.x == 6000 * index,
        p.y == 0,
        p.z == (if index % 2 == 0 { 6000int } else { 0int }),
{
    let z: i64 = if index % 2 == 0 {
        6000
    } else {
        0
    };
    Vec3 { x: 6000 * (index as i64), y: 0, z }
}

/// Every tower of `towers` is well formed.
pub open spec fn all_towers_wf(towers: Seq<PlacedTower>) -> bool {
    forall|i: int| 0 <= i < towers.len() ==> (#[trigger] towers[i]).wf()
}

/// Every tower of `towers` with its timer advanced by `dt_ms`.
pub open spec fn cooled_all(towers: Seq<PlacedTower>, dt_ms: int) -> Seq<PlacedTower> {
    towers.map_values(|t: PlacedTower| t.cooled(dt_ms))
}

/// The projectiles that `towers` launch during a tick of `dt_ms`, in the
/// order of the towers, with ids counted up from `first_id`.
pub open spec fn volley(
    towers: Seq<PlacedTower>,
    targets: Seq<Enemy>,
    dt_ms: int,
    lifetime_ms: u64,
    first_id: int,
) -> Seq<Projectile>
    decreases towers.len(),
{
    if towers.len() == 0 {
        Seq::empty()
    } else {
        let earlier = volley(towers.drop_last(), targets, dt_ms, lifetime_ms, first_id);
        match towers.last().shot(targets, dt_ms, lifetime_ms, (first_id + earlier.len()) as u64) {
            Some(p) => earlier.push(p),
            None => earlier,
        }
    }
}

/// Whether the projectile `p` is what `tower` launches at `targets` when it
/// is due: it starts at the tower's firing origin and flies along the unit
/// vector toward the nearest enemy, which lies strictly in range.
pub open spec fn aimed_by(tower: PlacedTower, targets: Seq<Enemy>, dt_ms: int, p: Projectile) -> bool {
    &&& tower.tower.shooting_timer.fires(dt_ms)
    &&& p.position == tower.origin()
    &&& p.origin == tower.origin()
    &&& exists|i: int|
        {
            &&& is_nearest(tower.origin(), targets, i)
            &&& in_range(tower.origin(), tower.tower.range, (#[trigger] targets[i]).position)
            &&& p.bullet.direction == tower.origin().spec_to(targets[i].position).spec_normalized()
        }
}

/// No tower fires at an enemy out of range, and every tower that fires
/// aims at the nearest enemy. Every projectile that the towers of a store
/// launch in a tick is launched by one of them that is due, from its firing
/// origin, toward the enemy nearest to that origin, which lies strictly in
/// its range; and where no tower has an enemy in range, none is launched.
pub proof fn lemma_volley_is_aimed(
    towers: Seq<PlacedTower>,
    targets: Seq<Enemy>,
    dt_ms: int,
    lifetime_ms: u64,
    first_id: int,
)
    ensures
        forall|k: int|
            0 <= k < volley(towers, targets, dt_ms, lifetime_ms, first_id).len() ==> exists|t: int|
                0 <= t < towers.len() && aimed_by(
                    #[trigger] towers[t],
                    targets,
                    dt_ms,
                    #[trigger] volley(towers, targets, dt_ms, lifetime_ms, first_id)[k],
                ),
        (forall|t: int|
            0 <= t < towers.len() ==> !any_in_range(
                (#[trigger] towers[t]).origin(),
                towers[t].tower.range,
                targets,
            )) ==> volley(towers, targets, dt_ms, lifetime_ms, first_id).len() == 0,
    decreases towers.len(),
{
    if towers.len() > 0 {
        let init = towers.drop_last();
        let last = towers.last();
        lemma_volley_is_aimed(init, targets, dt_ms, lifetime_ms, first_id);
        let earlier = volley(init, targets, dt_ms, lifetime_ms, first_id);
        let all = volley(towers, targets, dt_ms, lifetime_ms, first_id);
        let id = (first_id + earlier.len()) as u64;
        lemma_tower_fires_when_due(last, targets, dt_ms, lifetime_ms, id);
        assert forall|k: int| 0 <= k < all.len() implies exists|t: int|
            0 <= t < towers.len() && aimed_by(#[trigger] towers[t], targets, dt_ms, #[trigger] all[k]) by {
            if k < earlier.len() {
                assert(all[k] == earlier[k]);
                let t = choose|t: int|
                    0 <= t < init.len() && aimed_by(#[trigger] init[t], targets, dt_ms, earlier[k]);
                assert(init[t] == towers[t]);
                assert(aimed_by(towers[t], targets, dt_ms, all[k]));
            } else {
                let p = last.shot(targets, dt_ms, lifetime_ms, id)->0;
                assert(all[k] == p);
                assert(towers[towers.len() - 1] == last);
                assert(aimed_by(towers[towers.len() - 1], targets, dt_ms, all[k]));
            }
        }
        if forall|t: int|
            0 <= t < towers.len() ==> !any_in_range(
                (#[trigger] towers[t]).origin(),
                towers[t].tower.range,
                targets,
            ) {
            assert forall|t: int| 0 <= t < init.len() implies !any_in_range(
                (#[trigger] init[t]).origin(),
                init[t].tower.range,
                targets,
            ) by {
                assert(init[t] == towers[t]);
            }
            assert(towers[towers.len() - 1] == last);
        }
    }
}

/// A tower waits a full period between two shots. After a tick on which
/// its timer fires, the tower launches nothing on any tick while the time
/// steps since, that of the tick included, add up to less than the period,
/// however many enemies are in range.
pub proof fn lemma_tower_waits_a_period(
    tower: PlacedTower,
    first: nat,
    since: Seq<nat>,
    now: nat,
    targets: Seq<Enemy>,
    lifetime_ms: u64,
    first_id: int,
)
    requires
        tower.tower.shooting_timer.wf(),
        tower.tower.shooting_timer.fires(first as int),
        total(since) + now < tower.tower.shooting_timer.period,
    ensures
        ({
            let waiting = PlacedTower {
                tower: Tower {
                    shooting_timer: tower.tower.shooting_timer.ticked(first as int).after(since),
                    ..tower.tower
                },
                ..tower
            };
            &&& waiting.tower.shooting_timer.elapsed == total(since)
            &&& waiting.shot(targets, now as int, lifetime_ms, first_id as u64) is None
            &&& volley(seq![waiting], targets, now as int, lifetime_ms, first_id).len() == 0
        }),
{
    lemma_no_shot_within_a_period_of_the_last(tower.tower.shooting_timer, first, since);
    lemma_firing_starts_over(tower.tower.shooting_timer, first);
    lemma_after_is_wf(tower.tower.shooting_timer.ticked(first as int), since);
    let waiting = PlacedTower {
        tower: Tower {
            shooting_timer: tower.tower.shooting_timer.ticked(first as int).after(since),
            ..tower.tower
        },
        ..tower
    };
    let one = seq![waiting];
    assert(one.drop_last() =~= Seq::<PlacedTower>::empty());
    assert(one.last() == waiting);
    assert(volley(one.drop_last(), targets, now as int, lifetime_ms, first_id).len() == 0);
}

/// A tower that is due fires once and starts over: when the time gathered
/// since its timer last started over reaches the period while an enemy is in
/// range, the tower launches exactly one projectile in the tick, and its
/// timer starts over from nothing.
pub proof fn lemma_due_tower_fires_once(
    tower: PlacedTower,
    targets: Seq<Enemy>,
    dt_ms: int,
    lifetime_ms: u64,
    first_id: int,
)
    requires
        tower.tower.shooting_timer.wf(),
        0 <= dt_ms,
        tower.tower.shooting_timer.elapsed + dt_ms >= tower.tower.shooting_timer.period,
        any_in_range(tower.origin(), tower.tower.range, targets),
    ensures
        volley(seq![tower], targets, dt_ms, lifetime_ms, first_id).len() == 1,
        aimed_by(tower, targets, dt_ms, volley(seq![tower], targets, dt_ms, lifetime_ms, first_id)[0]),
        tower.cooled(dt_ms).tower.shooting_timer.elapsed == 0,
        tower.cooled(dt_ms).tower.shooting_timer.period == tower.tower.shooting_timer.period,
{
    let one = seq![tower];
    assert(one.drop_last() =~= Seq::<PlacedTower>::empty());
    assert(one.last() == tower);
    assert(volley(one.drop_last(), targets, dt_ms, lifetime_ms, first_id).len() == 0);
    lemma_tower_fires_when_due(tower, targets, dt_ms, lifetime_ms, first_id as u64);
}

/// No more projectiles are launched than there are towers.
pub proof fn lemma_volley_len(
    towers: Seq<PlacedTower>,
    targets: Seq<Enemy>,
    dt_ms: int,
    lifetime_ms: u64,
    first_id: int,
)
    ensures
        volley(towers, targets, dt_ms, lifetime_ms, first_id).len() <= towers.len(),
    decreases towers.len(),
{
    if towers.len() > 0 {
        lemma_volley_len(towers.drop_last(), targets, dt_ms, lifetime_ms, first_id);
    }
}

/// Advances every tower's timer by one tick and lets each tower whose timer
/// reaches its period fire at the nearest enemy in range. A tower with no
/// enemy in range lets the shot pass: its timer starts over all the same.
/// No enemy is changed.
pub fn tower_shooting(
    towers: &mut Vec<PlacedTower>,
    targets: &Vec<Enemy>,
    bullets: &mut Vec<Projectile>,
    next_id: &mut u64,
    lifetime_ms: u64,
    dt_ms: u64,
)
    requires
        all_towers_wf(old(towers)@),
        all_wf(targets@),
        all_bullets_wf(old(bullets)@),
        lifetime_ms <= LIFETIME_LIMIT,
        dt_ms <= DT_LIMIT,
        *old(next_id) + old(towers)@.len() <= u64::MAX,
    ensures
        final(towers)@ == cooled_all(old(towers)@, dt_ms as int),
        final(bullets)@ == old(bullets)@ + volley(
            old(towers)@,
            targets@,
            dt_ms as int,
            lifetime_ms,
            *old(next_id) as int,
        ),
        *final(next_id) == *old(next_id) + volley(
            old(towers)@,
            targets@,
            dt_ms as int,
            lifetime_ms,
            *old(next_id) as int,
        ).len(),
        all_towers_wf(final(towers)@),
        all_bullets_wf(final(bullets)@),
{
    let ghost towers_before = towers@;
    let ghost bullets_before = bullets@;
    let ghost first_id = *next_id as int;
    let n: usize = towers.len();
    let mut i: usize = 0;
    assert(towers_before.take(0) =~= Seq::<PlacedTower>::empty());
    assert(bullets@ =~= bullets_before + Seq::<Projectile>::empty());
    while i < n
        invariant
            i <= n,
            n == towers_before.len(),
            towers@.len() == n,
            all_towers_wf(towers_before),
            all_wf(targets@),
            all_bullets_wf(bullets@),
            lifetime_ms <= LIFETIME_LIMIT,
            dt_ms <= DT_LIMIT,
            first_id + n <= u64::MAX,
            forall|j: int| 0 <= j < i ==> towers@[j] == (#[trigger] towers_before[j]).cooled(dt_ms as int),
            forall|j: int| 0 <= j < i ==> (#[trigger] towers@[j]).wf(),
            forall|j: int| i <= j < n ==> towers@[j] == #[trigger] towers_before[j],
            bullets@ == bullets_before + volley(
                towers_before.take(i as int),
                targets@,
                dt_ms as int,
                lifetime_ms,
                first_id,
            ),
            *next_id == first_id + volley(
                towers_before.take(i as int),
                targets@,
                dt_ms as int,
                lifetime_ms,
                first_id,
            ).len(),
        decreases n - i,
    {
        let ghost earlier = volley(
            towers_before.take(i as int),
            targets@,
            dt_ms as int,
            lifetime_ms,
            first_id,
        );
        proof {
            lemma_volley_len(towers_before.take(i as int), targets@, dt_ms as int, lifetime_ms, first_id);
            assert(towers_before.take(i + 1).drop_last() =~= towers_before.take(i as int));
            assert(towers_before.take(i + 1).last() == towers_before[i as int]);
            assert(towers_before[i as int].wf());
        }
        let mut tower: PlacedTower = towers[i];
        let fired: bool = tower.tower.shooting_timer.tick(dt_ms);
        if fired {
            let origin: Vec3 = tower.position.plus(tower.tower.bullet_offset);
            match closest_target(origin, tower.tower.range, targets) {
                Some(k) => {
                    let direction: Vec3 = origin.to(targets[k].position).normalized();
                    let bullet: Bullet = tower.tower_type.get_bullet(direction);
                    let shot: Projectile = Projectile::launch(
                        *next_id,
                        origin,
                        bullet,
                        lifetime_ms,
                        tower.tower_type,
                    );
                    bullets.push(shot);
                    *next_id = *next_id + 1;
                    assert(bullets@ =~= bullets_before + earlier.push(shot));
                },
                None => {},
            }
        }
        towers.set(i, tower);
        i += 1;
    }
    assert(towers_before.take(n as int) =~= towers_before);
    assert(towers@ =~= cooled_all(towers_before, dt_ms as int));
}

/// Why a tower cannot be placed.
#[derive(Clone, Copy, Debug, PartialEq, Eq, Structural)]
pub enum PlaceError {
    /// The tower or its muzzle would lie outside the coordinate limit.
    OutOfRange,
    /// The store has run out of ids.
    IdsExhausted,
}

/// Why a tower cannot be bought.
#[derive(Clone, Copy, Debug, PartialEq, Eq, Structural)]
pub enum PurchaseError {
    /// The player holds less than the price.
    Unaffordable,
    /// The tower or its muzzle would lie outside the coordinate limit.
    OutOfRange,
    /// The store has run out of ids.
    IdsExhausted,
}

/// Why a tower cannot be placed at `position` when the next free id is
/// `next_id`, if it cannot.
pub open spec fn place_error(next_id: u64, position: Vec3) -> Option<PlaceError> {
    if !PlacedTower::fits(position) {
        Some(PlaceError::OutOfRange)
    } else if next_id == u64::MAX {
        Some(PlaceError::IdsExhausted)
    } else {
        None
    }
}

/// Adds a tower of kind `tower_type` at `position` to the store and hands
/// back its id. Whether the player can pay is not asked here. Where the
/// tower is refused, nothing changes.
pub fn place_tower(
    towers: &mut Vec<PlacedTower>,
    next_id: &mut u64,
    position: Vec3,
    tower_type: TowerType,
) -> (r: Result<u64, PlaceError>)
    ensures
        match r {
            Ok(id) => {
                &&& place_error(*old(next_id), position) is None
                &&& id == *old(next_id)
                &&& *final(next_id) == id + 1
                &&& final(towers)@ == old(towers)@.push(PlacedTower::placed(id, position, tower_type))
                &&& PlacedTower::placed(id, position, tower_type).wf()
            },
            Err(e) => {
                &&& place_error(*old(next_id), position) == Some(e)
                &&& *final(next_id) == *old(next_id)
                &&& final(towers)@ == old(towers)@
            },
        },
{
    let id: u64 = *next_id;
    match spawn_tower(id, position, tower_type) {
        None => Err(PlaceError::OutOfRange),
        Some(tower) => {
            if id == u64::MAX {
                return Err(PlaceError::IdsExhausted);
            }
            towers.push(tower);
            *next_id = id + 1;
            Ok(id)
        },
    }
}

/// Why the player cannot buy a tower of kind `tower_type` for `position`,
/// if they cannot.
pub open spec fn purchase_error(
    player: Player,
    next_id: u64,
    position: Vec3,
    tower_type: TowerType,
) -> Option<PurchaseError> {
    if !player.can_afford(tower_type.spec_cost()) {
        Some(PurchaseError::Unaffordable)
    } else {
        match place_error(next_id, position) {
            Some(PlaceError::OutOfRange) => Some(PurchaseError::OutOfRange),
            Some(PlaceError::IdsExhausted) => Some(PurchaseError::IdsExhausted),
            None => None,
        }
    }
}

/// Buys a tower: where the player holds at least the price and the tower
/// can be placed, takes the price and places the tower. Where the purchase
/// is refused, nothing changes.
pub fn tower_button_clicked(
    player: &mut Player,
    towers: &mut Vec<PlacedTower>,
    next_id: &mut u64,
    position: Vec3,
    tower_type: TowerType,
) -> (r: Result<u64, PurchaseError>)
    ensures
        match r {
            Ok(id) => {
                &&& purchase_error(*old(player), *old(next_id), position, tower_type) is None
                &&& id == *old(next_id)
                &&& *final(next_id) == id + 1
                &&& *final(player) == old(player).charged(tower_type.spec_cost())
                &&& final(towers)@ == old(towers)@.push(PlacedTower::placed(id, position, tower_type))
                &&& PlacedTower::placed(id, position, tower_type).wf()
            },
            Err(e) => {
                &&& purchase_error(*old(player), *old(next_id), position, tower_type) == Some(e)
                &&& *final(player) == *old(player)
                &&& *final(next_id) == *old(next_id)
                &&& final(towers)@ == old(towers)@
            },
        },
{
    let cost: u32 = tower_type.get_tower_button().cost;
    if player.money < cost {
        return Err(PurchaseError::Unaffordable);
    }
    match place_tower(towers, next_id, position, tower_type) {
        Err(PlaceError::OutOfRange) => Err(PurchaseError::OutOfRange),
        Err(PlaceError::IdsExhausted) => Err(PurchaseError::IdsExhausted),
        Ok(id) => {
            player.money = player.money - cost;
            Ok(id)
        },
    }
}

/// What a tower's button knows: the price, and whether it is lit.
#[derive(Clone, Copy, Debug, PartialEq, Eq)]
pub struct TowerButtonState {
    cost: u32,
    affordable: bool,
}

impl TowerButtonState {
    /// The price that the button asks.
    pub closed spec fn spec_cost(&self) -> u32 {
        self.cost
    }

    /// Whether the button is lit.
    pub closed spec fn spec_affordable(&self) -> bool {
        self.affordable
    }

    /// A button for `cost`, not lit.
    pub fn new(cost: u32) -> (state: TowerButtonState)
        ensures
            state.spec_cost() == cost,
            !state.spec_affordable(),
    {
        TowerButtonState { cost, affordable: false }
    }

    /// A button for `cost` that is lit or not as `affordable` says.
    pub fn with_light(cost: u32, affordable: bool) -> (state: TowerButtonState)
        ensures
            state.spec_cost() == cost,
            state.spec_affordable() == affordable,
    {
        TowerButtonState { cost, affordable }
    }

    /// The price that the button asks.
    #[verifier::when_used_as_spec(spec_cost)]
    pub fn cost(&self) -> (cost: u32)
        ensures
            cost == self.spec_cost(),
    {
        self.cost
    }

    /// Whether the button is lit.
    #[verifier::when_used_as_spec(spec_affordable)]
    pub fn affordable(&self) -> (affordable: bool)
        ensures
            affordable == self.spec_affordable(),
    {
        self.affordable
    }
}

/// Lights every button whose price lies below the player's money and greys
/// the others.
pub fn grey_tower_buttons(buttons: &mut Vec<TowerButtonState>, player: &Player)
    ensures
        final(buttons)@.len() == old(buttons)@.len(),
        forall|i: int|
            0 <= i < old(buttons)@.len() ==> (#[trigger] final(buttons)@[i]).spec_cost() == old(
                buttons,
            )@[i].spec_cost(),
        forall|i: int|
            0 <= i < old(buttons)@.len() ==> (#[trigger] final(buttons)@[i]).spec_affordable() == (
            player.money > old(buttons)@[i].spec_cost()),
{
    let ghost before = buttons@;
    let n: usize = buttons.len();
    let mut i: usize = 0;
    while i < n
        invariant
            i <= n,
            n == before.len(),
            buttons@.len() == n,
            forall|j: int| 0 <= j < n ==> (#[trigger] buttons@[j]).spec_cost() == before[j].spec_cost(),
            forall|j: int|
                0 <= j < i ==> (#[trigger] buttons@[j]).spec_affordable() == (player.money
                    > before[j].spec_cost()),
        decreases n - i,
    {
        let cost: u32 = buttons[i].cost();
        buttons.set(i, TowerButtonState { cost, affordable: player.money > cost });
        i += 1;
    }
}

} // verus!
