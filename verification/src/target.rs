//! Enemies: the path they follow, their health, and how they move and die.
use vstd::prelude::*;
use crate::fixed::{
    round_to_unit, rounded_length, scale_component, scale_toward_zero, travel, travel_distance,
    COORD_LIMIT, DT_LIMIT, HALF_SCALE, SCALE, SPEED_LIMIT, WAYPOINT_LIMIT,
};
use crate::vector::{abs, Vec2, Vec3};

verus! {

/// What makes an entity an enemy: how fast it walks and which waypoint it
/// is heading for.
#[derive(Clone, Copy, Debug, PartialEq, Eq, Structural)]
pub struct Target {
    /// Ground speed, in thousandths of a unit per second.
    pub speed: i64,
    /// Index of the waypoint the enemy is heading for.
    pub path_index: usize,
}

/// The waypoints that every enemy passes through, in order.
#[derive(Debug)]
pub struct TargetPath {
    pub waypoints: Vec<Vec2>,
}

/// Remaining hit points, in thousandths of a point.
#[derive(Clone, Copy, Debug, PartialEq, Eq, Structural)]
pub struct Health {
    pub value: i64,
}

/// Raised once for each enemy that the death scan removes.
#[derive(Clone, Copy, Debug, PartialEq, Eq, Structural)]
pub struct TargetDeathEvent {
    /// The enemy that died.
    pub target: u64,
}

/// Raised once for each enemy that leaves the path at its far end.
#[derive(Clone, Copy, Debug, PartialEq, Eq, Structural)]
pub struct TargetBreachEvent {
    /// The enemy that got through.
    pub target: u64,
}

/// An enemy in the store.
#[derive(Clone, Copy, Debug, PartialEq, Eq, Structural)]
pub struct Enemy {
    pub id: u64,
    pub position: Vec3,
    /// The ground-plane point the enemy looks at; `None` until it first moves.
    pub facing: Option<Vec2>,
    pub target: Target,
    pub health: Health,
    /// The ground-plane point from which the enemy set out for the waypoint
    /// it is heading for.
    pub leg_start: Vec2,
    /// The way it has covered since it set out, in millionths of a unit.
    pub walked: u64,
}

/// The most way that an enemy can have covered on one leg: the longest leg
/// and the half unit by which it may pass a waypoint.
pub const WALK_LIMIT: u64 = 4_294_967_797_000;

/// Why a path is refused.
#[derive(Clone, Copy, Debug, PartialEq, Eq, Structural)]
pub enum PathError {
    /// The path has no waypoint.
    Empty,
    /// A waypoint lies outside the waypoint limit.
    OutOfRange,
}

/// Every waypoint of `waypoints` lies within the waypoint limit.
pub open spec fn waypoints_in_range(waypoints: Seq<Vec2>) -> bool {
    forall|i: int| 0 <= i < waypoints.len() ==> (#[trigger] waypoints[i]).within(WAYPOINT_LIMIT as int)
}

impl TargetPath {
    /// The path has a waypoint, and every waypoint lies within the limit.
    pub open spec fn wf(&self) -> bool {
        0 < self.waypoints@.len() <= usize::MAX && waypoints_in_range(self.waypoints@)
    }

    /// Accepts a list of waypoints as a path.
    pub fn new(waypoints: Vec<Vec2>) -> (r: Result<TargetPath, PathError>)
        ensures
            waypoints@.len() == 0 <==> r == Err::<TargetPath, PathError>(PathError::Empty),
            waypoints@.len() > 0 && !waypoints_in_range(waypoints@) <==> r == Err::<
                TargetPath,
                PathError,
            >(PathError::OutOfRange),
            r matches Ok(path) ==> path.waypoints@ == waypoints@ && path.wf(),
    {
        if waypoints.len() == 0 {
            return Err(PathError::Empty);
        }
        let mut i: usize = 0;
        while i < waypoints.len()
            invariant
                i <= waypoints.len(),
                forall|j: int| 0 <= j < i ==> (#[trigger] waypoints@[j]).within(WAYPOINT_LIMIT as int),
            decreases waypoints.len() - i,
        {
            let w = waypoints[i];
            if w.x < -WAYPOINT_LIMIT || w.x > WAYPOINT_LIMIT || w.y < -WAYPOINT_LIMIT || w.y
                > WAYPOINT_LIMIT {
                return Err(PathError::OutOfRange);
            }
            i += 1;
        }
        Ok(TargetPath { waypoints })
    }

    /// The number of waypoints.
    pub fn len(&self) -> (n: usize)
        ensures
            n == self.waypoints@.len(),
    {
        self.waypoints.len()
    }
}

impl Health {
    /// The health left after `amount` of damage. It may fall below zero, and
    /// stops at the least value that fits.
    pub open spec fn damaged(self, amount: int) -> Health {
        if self.value - amount >= i64::MIN {
            Health { value: (self.value - amount) as i64 }
        } else {
            Health { value: i64::MIN }
        }
    }

    /// Takes `amount` off the health.
    pub fn apply_damage(&mut self, amount: u32)
        ensures
            *final(self) == old(self).damaged(amount as int),
            final(self).value <= old(self).value,
    {
        let a: i64 = amount as i64;
        if self.value >= i64::MIN + a {
            self.value = self.value - a;
        } else {
            self.value = i64::MIN;
        }
    }

    /// Whether the entity is due for removal by the death scan.
    pub open spec fn spec_is_dead(self) -> bool {
        self.value <= 0
    }

    /// Whether the entity is due for removal by the death scan.
    #[verifier::when_used_as_spec(spec_is_dead)]
    pub fn is_dead(self) -> (dead: bool)
        ensures
            dead == self.spec_is_dead(),
    {
        self.value <= 0
    }
}

/// Damage adds up: two hits take off what one hit of their sum takes off.
pub proof fn lemma_damage_accumulates(h: Health, first: nat, second: nat)
    ensures
        h.damaged(first as int).damaged(second as int) == h.damaged((first + second) as int),
{
}

/// Damage never raises health above what it was.
pub proof fn lemma_damage_never_heals(h: Health, amount: nat)
    ensures
        h.damaged(amount as int).value <= h.value,
{
}

/// The share `way / (len * 1000)` of a coordinate `d` of a leg of length
/// `len`, for a way that passes the end of the leg by no more than 501
/// thousandths: it keeps the sign of the coordinate and passes its far end
/// by no more than that.
pub proof fn lemma_walk_stays_near(d: int, way: int, len: int)
    requires
        abs(d) <= len,
        0 < len,
        0 <= way <= len * 1000 + 501_000,
    ensures
        d >= 0 ==> 0 <= scale_toward_zero(d, way, len * 1000) <= d + 501,
        d <= 0 ==> d - 501 <= scale_toward_zero(d, way, len * 1000) <= 0,
        way <= len * 1000 ==> abs(scale_toward_zero(d, way, len * 1000)) <= abs(d),
{
    let a = abs(d);
    let den = len * 1000;
    assert(0 <= a * way / den <= a + 501) by (nonlinear_arith)
        requires
            0 <= a <= len,
            0 < len,
            den == len * 1000,
            0 <= way <= den + 501_000,
    ;
    assert(way <= den ==> a * way / den <= a) by (nonlinear_arith)
        requires
            0 <= a,
            0 < den,
            0 <= way,
    ;
    assert(0int * way / den == 0) by (nonlinear_arith)
        requires
            0 < den,
    ;
}

impl Enemy {
    /// The enemy and the start of its leg are inside the coordinate limit,
    /// it walks at a positive speed within the speed limit, and the way it
    /// has covered on its leg is within the limit of that.
    pub open spec fn wf(self) -> bool {
        &&& self.position.within(COORD_LIMIT as int)
        &&& self.leg_start.within(COORD_LIMIT as int)
        &&& 0 < self.target.speed <= SPEED_LIMIT
        &&& self.walked <= WALK_LIMIT
    }

    /// The leg that the enemy is on: the displacement on the ground plane
    /// from where it set out to `waypoint`.
    pub open spec fn leg_to(self, waypoint: Vec2) -> Vec2 {
        self.leg_start.spec_to(waypoint)
    }

    /// The distance left to `waypoint`, in thousandths: the length of the
    /// leg less the way covered. It is negative once the enemy has passed
    /// the waypoint.
    pub open spec fn distance_to(self, waypoint: Vec2) -> int {
        self.leg_to(waypoint).norm() - (self.walked as int) / (SCALE as int)
    }

    /// Whether the enemy, heading for `waypoint`, walks on during a tick in
    /// which it can cover `step` millionths: it does while the distance left,
    /// rounded to whole units, exceeds the step.
    pub open spec fn walks_on(self, waypoint: Vec2, step: int) -> bool {
        round_to_unit(self.distance_to(waypoint)) * SCALE > step
    }

    /// The ground-plane point where the way that the enemy has covered on
    /// its leg to `waypoint` puts it: the start of the leg, moved along the
    /// leg by the way, every coordinate rounded toward the start.
    pub open spec fn place(self, waypoint: Vec2) -> Vec2 {
        let d = self.leg_to(waypoint);
        let len = d.norm();
        if self.walked == 0 {
            self.leg_start
        } else {
            Vec2 {
                x: (self.leg_start.x + scale_toward_zero(
                    d.x as int,
                    self.walked as int,
                    len * SCALE,
                )) as i64,
                y: (self.leg_start.y + scale_toward_zero(
                    d.y as int,
                    self.walked as int,
                    len * SCALE,
                )) as i64,
            }
        }
    }

    /// The enemy stands where its way puts it on its leg to `waypoint`, and
    /// has not walked farther than half a unit and a thousandth past the
    /// waypoint.
    pub open spec fn on_leg(self, waypoint: Vec2) -> bool {
        &&& self.position.spec_xz() == self.place(waypoint)
        &&& self.walked > 0 ==> self.leg_to(waypoint).norm() >= HALF_SCALE && self.walked
            <= self.leg_to(waypoint).norm() * SCALE + 501_000
    }

    /// The enemy after walking `step` millionths straight toward `waypoint`,
    /// now facing it. It stands where the whole way that it has covered on
    /// this leg puts it, so that no part of any step is lost.
    pub open spec fn stepped_toward(self, waypoint: Vec2, step: int) -> Enemy {
        let further = Enemy { walked: (self.walked + step) as u64, facing: Some(waypoint), ..self };
        Enemy {
            position: Vec3 {
                x: further.place(waypoint).x,
                y: self.position.y,
                z: further.place(waypoint).y,
            },
            ..further
        }
    }

    /// The enemy with its sights on the next waypoint, setting out from
    /// where it stands.
    pub open spec fn past_waypoint(self) -> Enemy {
        Enemy {
            target: Target {
                path_index: (self.target.path_index + 1) as usize,
                ..self.target
            },
            leg_start: self.position.spec_xz(),
            walked: 0,
            ..self
        }
    }

    /// The enemy after one tick of `dt_ms` milliseconds on the path
    /// `waypoints`. It walks the full step toward its waypoint, or, once
    /// close enough, counts the waypoint as reached and stays where it is for
    /// this tick. An enemy that has left the path behind stays as it is.
    pub open spec fn spec_moved(self, waypoints: Seq<Vec2>, dt_ms: int) -> Enemy {
        if self.target.path_index >= waypoints.len() {
            self
        } else {
            let waypoint = waypoints[self.target.path_index as int];
            let step = travel(self.target.speed as int, dt_ms);
            if self.walks_on(waypoint, step) {
                self.stepped_toward(waypoint, step)
            } else {
                self.past_waypoint()
            }
        }
    }

    /// While the enemy has a waypoint to head for, it stands where its way
    /// to that waypoint puts it.
    pub open spec fn heads_well(self, waypoints: Seq<Vec2>) -> bool {
        self.target.path_index < waypoints.len() ==> self.on_leg(
            waypoints[self.target.path_index as int],
        )
    }

    /// Whether the enemy has passed the last of `waypoints`.
    pub open spec fn breached(self, waypoints_len: nat) -> bool {
        self.target.path_index >= waypoints_len
    }

    /// An enemy that sets out from `position`.
    pub open spec fn starting(id: u64, position: Vec3, speed: i64, health: i64) -> Enemy {
        Enemy {
            id,
            position,
            facing: None,
            target: Target { speed, path_index: 0 },
            health: Health { value: health },
            leg_start: position.spec_xz(),
            walked: 0,
        }
    }

    /// Moves the enemy through one tick.
    pub fn moved(self, path: &TargetPath, dt_ms: u64) -> (r: Enemy)
        requires
            self.wf(),
            path.wf(),
            dt_ms <= DT_LIMIT,
            self.heads_well(path.waypoints@),
        ensures
            r == self.spec_moved(path.waypoints@, dt_ms as int),
            r.wf(),
            r.heads_well(path.waypoints@),
            r.id == self.id,
            r.health == self.health,
            r.target.speed == self.target.speed,
            r.target.path_index == self.target.path_index || r.target.path_index
                == self.target.path_index + 1,
            r.target.path_index <= path.waypoints@.len() || r.target.path_index
                == self.target.path_index,
    {
        if self.target.path_index >= path.waypoints.len() {
            return self;
        }
        let waypoint: Vec2 = path.waypoints[self.target.path_index];
        let step: u64 = travel_distance(self.target.speed, dt_ms);
        let d: Vec2 = self.leg_start.to(waypoint);
        let len: u64 = d.length();
        let gone: u64 = self.walked / 1000;
        if len >= gone + 500 && rounded_length(len - gone) * 1000 > step {
            let way: u64 = self.walked + step;
            proof {
                lemma_walk_stays_near(d.x as int, way as int, len as int);
                lemma_walk_stays_near(d.y as int, way as int, len as int);
            }
            let x: i64 = if way == 0 {
                self.leg_start.x
            } else {
                self.leg_start.x + scale_component(d.x, way, len * 1000)
            };
            let z: i64 = if way == 0 {
                self.leg_start.y
            } else {
                self.leg_start.y + scale_component(d.y, way, len * 1000)
            };
            Enemy {
                id: self.id,
                position: Vec3 { x, y: self.position.y, z },
                facing: Some(waypoint),
                target: self.target,
                health: self.health,
                leg_start: self.leg_start,
                walked: way,
            }
        } else {
            Enemy {
                id: self.id,
                position: self.position,
                facing: self.facing,
                target: Target {
                    speed: self.target.speed,
                    path_index: self.target.path_index + 1,
                },
                health: self.health,
                leg_start: self.position.xz(),
                walked: 0,
            }
        }
    }
}

/// Every enemy of `targets` is well formed.
pub open spec fn all_wf(targets: Seq<Enemy>) -> bool {
    forall|i: int| 0 <= i < targets.len() ==> (#[trigger] targets[i]).wf()
}

/// Every enemy of `targets` stands where its way to its waypoint puts it.
pub open spec fn all_head_well(targets: Seq<Enemy>, waypoints: Seq<Vec2>) -> bool {
    forall|i: int| 0 <= i < targets.len() ==> (#[trigger] targets[i]).heads_well(waypoints)
}

/// Every enemy of `targets` after one tick on the path `waypoints`.
pub open spec fn moved_all(targets: Seq<Enemy>, waypoints: Seq<Vec2>, dt_ms: int) -> Seq<Enemy> {
    targets.map_values(|e: Enemy| e.spec_moved(waypoints, dt_ms))
}

/// Moves every enemy through one tick: toward its waypoint, or on to the
/// next waypoint.
pub fn move_targets(targets: &mut Vec<Enemy>, path: &TargetPath, dt_ms: u64)
    requires
        all_wf(old(targets)@),
        all_head_well(old(targets)@, path.waypoints@),
        path.wf(),
        dt_ms <= DT_LIMIT,
    ensures
        final(targets)@ == moved_all(old(targets)@, path.waypoints@, dt_ms as int),
        all_wf(final(targets)@),
        all_head_well(final(targets)@, path.waypoints@),
        forall|i: int|
            0 <= i < old(targets)@.len() ==> {
                let before = old(targets)@[i];
                let after = #[trigger] final(targets)@[i];
                &&& after.id == before.id
                &&& after.health == before.health
                &&& before.target.path_index <= after.target.path_index <= before.target.path_index
                    + 1
            },
{
    let ghost before = targets@;
    let n: usize = targets.len();
    let mut i: usize = 0;
    while i < n
        invariant
            i <= n,
            n == before.len(),
            targets@.len() == n,
            path.wf(),
            dt_ms <= DT_LIMIT,
            all_wf(before),
            all_head_well(before, path.waypoints@),
            forall|j: int|
                0 <= j < i ==> targets@[j] == (#[trigger] before[j]).spec_moved(
                    path.waypoints@,
                    dt_ms as int,
                ),
            forall|j: int|
                0 <= j < i ==> (#[trigger] targets@[j]).wf() && targets@[j].heads_well(
                    path.waypoints@,
                ),
            forall|j: int|
                0 <= j < i ==> (#[trigger] targets@[j]).id == before[j].id && targets@[j].health
                    == before[j].health && before[j].target.path_index
                    <= targets@[j].target.path_index <= before[j].target.path_index + 1,
            forall|j: int| i <= j < n ==> targets@[j] == #[trigger] before[j],
        decreases n - i,
    {
        let enemy: Enemy = targets[i];
        assert(before[i as int].wf() && before[i as int].heads_well(path.waypoints@));
        let next: Enemy = enemy.moved(path, dt_ms);
        targets.set(i, next);
        i += 1;
    }
    assert(targets@ =~= moved_all(before, path.waypoints@, dt_ms as int));
    assert forall|j: int| 0 <= j < targets@.len() implies (#[trigger] targets@[j]).heads_well(
        path.waypoints@,
    ) by {
        assert(targets@[j].wf());
    }
}

/// The test that picks the enemies with no health left.
pub open spec fn dead() -> spec_fn(Enemy) -> bool {
    |e: Enemy| e.health.value <= 0
}

/// The test that picks the enemies with health left.
pub open spec fn living() -> spec_fn(Enemy) -> bool {
    |e: Enemy| e.health.value > 0
}

/// The event that reports the death of an enemy.
pub open spec fn death_of() -> spec_fn(Enemy) -> TargetDeathEvent {
    |e: Enemy| TargetDeathEvent { target: e.id }
}

/// The enemies of `targets` that the death scan leaves in the store.
pub open spec fn survivors(targets: Seq<Enemy>) -> Seq<Enemy> {
    targets.filter(living())
}

/// The events that the death scan raises on `targets`: one for each enemy
/// with no health left, in the order of the store.
pub open spec fn deaths(targets: Seq<Enemy>) -> Seq<TargetDeathEvent> {
    targets.filter(dead()).map_values(death_of())
}

/// Removes every enemy whose health is zero or less and raises one death
/// event for each.
pub fn target_death(targets: &mut Vec<Enemy>) -> (events: Vec<TargetDeathEvent>)
    ensures
        final(targets)@ == survivors(old(targets)@),
        events@ == deaths(old(targets)@),
        all_wf(old(targets)@) ==> all_wf(final(targets)@),
{
    let ghost before = targets@;
    let mut kept: Vec<Enemy> = Vec::new();
    let mut events: Vec<TargetDeathEvent> = Vec::new();
    let n: usize = targets.len();
    let mut i: usize = 0;
    assert(before.take(0) =~= Seq::<Enemy>::empty());
    proof {
        reveal(Seq::filter);
    }
    while i < n
        invariant
            i <= n,
            n == before.len(),
            targets@ == before,
            kept@ == survivors(before.take(i as int)),
            events@ == deaths(before.take(i as int)),
            all_wf(before) ==> all_wf(kept@),
        decreases n - i,
    {
        let e: Enemy = targets[i];
        proof {
            let part = before.take(i as int);
            assert(before.take(i + 1) =~= part.push(e));
            part.lemma_filter_push(e, living());
            part.lemma_filter_push(e, dead());
            if e.health.value <= 0 {
                assert(part.filter(dead()).push(e).map_values(death_of()) =~= part.filter(
                    dead(),
                ).map_values(death_of()).push(TargetDeathEvent { target: e.id }));
            }
        }
        if e.health.is_dead() {
            events.push(TargetDeathEvent { target: e.id });
        } else {
            kept.push(e);
        }
        i += 1;
    }
    assert(before.take(n as int) =~= before);
    *targets = kept;
    events
}

/// A scan removes nothing that the scan before it left: whatever `pick`
/// keeps, nothing of it fails `pick`.
pub proof fn lemma_filter_leaves_none<A>(s: Seq<A>, pick: spec_fn(A) -> bool, drop: spec_fn(A) -> bool)
    requires
        forall|a: A| #[trigger] pick(a) ==> !drop(a),
    ensures
        s.filter(pick).filter(drop) == Seq::<A>::empty(),
        s.filter(pick).filter(pick) == s.filter(pick),
    decreases s.len(),
{
    reveal(Seq::filter);
    if s.len() > 0 {
        lemma_filter_leaves_none(s.drop_last(), pick, drop);
        let rest = s.drop_last().filter(pick);
        if pick(s.last()) {
            rest.lemma_filter_push(s.last(), drop);
            rest.lemma_filter_push(s.last(), pick);
        }
    }
}

/// Death comes once: after a death scan, a second scan finds no one dead
/// and leaves the store as it is.
pub proof fn lemma_death_comes_once(targets: Seq<Enemy>)
    ensures
        deaths(survivors(targets)) == Seq::<TargetDeathEvent>::empty(),
        survivors(survivors(targets)) == survivors(targets),
{
    lemma_filter_leaves_none(targets, living(), dead());
    assert(Seq::<Enemy>::empty().map_values(death_of()) =~= Seq::<TargetDeathEvent>::empty());
}

/// The test that picks the enemies that have passed the last of
/// `waypoints_len` waypoints.
pub open spec fn off_path(waypoints_len: nat) -> spec_fn(Enemy) -> bool {
    |e: Enemy| e.target.path_index >= waypoints_len
}

/// The test that picks the enemies that still have a waypoint to head for.
pub open spec fn on_path(waypoints_len: nat) -> spec_fn(Enemy) -> bool {
    |e: Enemy| e.target.path_index < waypoints_len
}

/// The event that reports that an enemy got through.
pub open spec fn breach_of() -> spec_fn(Enemy) -> TargetBreachEvent {
    |e: Enemy| TargetBreachEvent { target: e.id }
}

/// The enemies of `targets` that the breach scan leaves in the store.
pub open spec fn walkers(targets: Seq<Enemy>, waypoints_len: nat) -> Seq<Enemy> {
    targets.filter(on_path(waypoints_len))
}

/// The events that the breach scan raises on `targets`: one for each enemy
/// past the last waypoint, in the order of the store.
pub open spec fn breaches(targets: Seq<Enemy>, waypoints_len: nat) -> Seq<TargetBreachEvent> {
    targets.filter(off_path(waypoints_len)).map_values(breach_of())
}

/// Removes every enemy that has passed the last waypoint and raises one
/// breach event for each.
pub fn target_breach(targets: &mut Vec<Enemy>, path: &TargetPath) -> (events: Vec<TargetBreachEvent>)
    ensures
        final(targets)@ == walkers(old(targets)@, path.waypoints@.len()),
        events@ == breaches(old(targets)@, path.waypoints@.len()),
        all_wf(old(targets)@) ==> all_wf(final(targets)@),
{
    let ghost before = targets@;
    let ghost len = path.waypoints@.len();
    let path_len: usize = path.waypoints.len();
    let mut kept: Vec<Enemy> = Vec::new();
    let mut events: Vec<TargetBreachEvent> = Vec::new();
    let n: usize = targets.len();
    let mut i: usize = 0;
    assert(before.take(0) =~= Seq::<Enemy>::empty());
    proof {
        reveal(Seq::filter);
    }
    while i < n
        invariant
            i <= n,
            n == before.len(),
            targets@ == before,
            path_len == len,
            kept@ == walkers(before.take(i as int), len),
            events@ == breaches(before.take(i as int), len),
            all_wf(before) ==> all_wf(kept@),
        decreases n - i,
    {
        let e: Enemy = targets[i];
        proof {
            let part = before.take(i as int);
            assert(before.take(i + 1) =~= part.push(e));
            part.lemma_filter_push(e, on_path(len));
            part.lemma_filter_push(e, off_path(len));
            if e.target.path_index >= len {
                assert(part.filter(off_path(len)).push(e).map_values(breach_of()) =~= part.filter(
                    off_path(len),
                ).map_values(breach_of()).push(TargetBreachEvent { target: e.id }));
            }
        }
        if e.target.path_index >= path_len {
            events.push(TargetBreachEvent { target: e.id });
        } else {
            kept.push(e);
        }
        i += 1;
    }
    assert(before.take(n as int) =~= before);
    *targets = kept;
    events
}

/// Why a wave of enemies is refused.
#[derive(Clone, Copy, Debug, PartialEq, Eq, Structural)]
pub enum SpawnError {
    /// The speed is zero or negative: the enemies would never arrive.
    NonPositiveSpeed,
    /// The speed exceeds the speed limit.
    SpeedTooHigh,
    /// An enemy would start outside the coordinate limit.
    OutOfRange,
    /// The store has run out of ids.
    IdsExhausted,
}

/// A row of enemies to spawn: the first at `origin`, each further one
/// `spacing` behind the one before it along `x`.
#[derive(Clone, Copy, Debug, PartialEq, Eq, Structural)]
pub struct Wave {
    pub count: u32,
    pub origin: Vec3,
    pub spacing: i64,
    pub speed: i64,
    pub health: i64,
}

impl Wave {
    /// Where the `i`-th enemy of the wave starts.
    pub open spec fn position(self, i: int) -> Vec3 {
        Vec3 { x: (self.origin.x - self.spacing * i) as i64, y: self.origin.y, z: self.origin.z }
    }

    /// The `i`-th enemy of the wave: at its place in the row, heading for
    /// the first waypoint, at full health.
    pub open spec fn enemy(self, i: int, first_id: u64) -> Enemy {
        Enemy::starting((first_id + i) as u64, self.position(i), self.speed, self.health)
    }

    /// The enemies of the wave, with ids counted up from `first_id`.
    pub open spec fn enemies(self, first_id: u64) -> Seq<Enemy> {
        Seq::new(self.count as nat, |i: int| self.enemy(i, first_id))
    }

    /// Why the wave is refused, if it is.
    pub open spec fn error(self, first_id: u64) -> Option<SpawnError> {
        if self.speed <= 0 {
            Some(SpawnError::NonPositiveSpeed)
        } else if self.speed > SPEED_LIMIT {
            Some(SpawnError::SpeedTooHigh)
        } else if self.count > 0 && !(self.origin.within(COORD_LIMIT as int) && -COORD_LIMIT
            <= self.origin.x - self.spacing * (self.count - 1) <= COORD_LIMIT) {
            Some(SpawnError::OutOfRange)
        } else if first_id + self.count > u64::MAX {
            Some(SpawnError::IdsExhausted)
        } else {
            None
        }
    }
}

/// Every enemy of a row lies between its first and its last.
proof fn lemma_row_between_ends(origin: int, spacing: int, last: int, i: int)
    by (nonlinear_arith)
    requires
        0 <= i <= last,
        -COORD_LIMIT <= origin <= COORD_LIMIT,
        -COORD_LIMIT <= origin - spacing * last <= COORD_LIMIT,
    ensures
        -COORD_LIMIT <= origin - spacing * i <= COORD_LIMIT,
{
}

/// Every enemy of `targets` stands where its leg starts and has not yet
/// walked: so it stands where its way puts it, whatever it heads for.
pub open spec fn all_set_out(targets: Seq<Enemy>) -> bool {
    forall|i: int|
        0 <= i < targets.len() ==> (#[trigger] targets[i]).walked == 0 && targets[i].leg_start
            == targets[i].position.spec_xz()
}

/// Builds the enemies of a wave, or says why the wave is refused.
pub fn spawn_targets(wave: &Wave, first_id: u64) -> (r: Result<Vec<Enemy>, SpawnError>)
    ensures
        match r {
            Ok(targets) => wave.error(first_id) is None && targets@ == wave.enemies(first_id)
                && all_wf(targets@) && all_set_out(targets@),
            Err(e) => wave.error(first_id) == Some(e),
        },
{
    if wave.speed <= 0 {
        return Err(SpawnError::NonPositiveSpeed);
    }
    if wave.speed > SPEED_LIMIT {
        return Err(SpawnError::SpeedTooHigh);
    }
    if wave.count > 0 {
        let o: Vec3 = wave.origin;
        if o.x < -COORD_LIMIT || o.x > COORD_LIMIT || o.y < -COORD_LIMIT || o.y > COORD_LIMIT
            || o.z < -COORD_LIMIT || o.z > COORD_LIMIT {
            return Err(SpawnError::OutOfRange);
        }
        let last: i128 = (wave.count - 1) as i128;
        let s: i128 = wave.spacing as i128;
        assert(-0x8000_0000_0000_0000 * 0x1_0000_0000 <= s * last <= 0x8000_0000_0000_0000
            * 0x1_0000_0000) by (nonlinear_arith)
            requires
                -0x8000_0000_0000_0000 <= s <= 0x8000_0000_0000_0000,
                0 <= last <= 0x1_0000_0000,
        ;
        let end: i128 = (o.x as i128) - s * last;
        if end < -(COORD_LIMIT as i128) || end > COORD_LIMIT as i128 {
            return Err(SpawnError::OutOfRange);
        }
    }
    if first_id > u64::MAX - (wave.count as u64) {
        return Err(SpawnError::IdsExhausted);
    }
    let mut targets: Vec<Enemy> = Vec::new();
    let mut i: u32 = 0;
    while i < wave.count
        invariant
            i <= wave.count,
            wave.error(first_id) is None,
            targets@.len() == i,
            forall|j: int| 0 <= j < i ==> targets@[j] == wave.enemy(j, first_id),
            forall|j: int| 0 <= j < i ==> (#[trigger] targets@[j]).wf(),
        decreases wave.count - i,
    {
        proof {
            lemma_row_between_ends(
                wave.origin.x as int,
                wave.spacing as int,
                wave.count - 1,
                i as int,
            );
        }
        let back: i128 = (wave.spacing as i128) * (i as i128);
        let x: i64 = ((wave.origin.x as i128) - back) as i64;
        targets.push(
            Enemy {
                id: first_id + (i as u64),
                position: Vec3 { x, y: wave.origin.y, z: wave.origin.z },
                facing: None,
                target: Target { speed: wave.speed, path_index: 0 },
                health: Health { value: wave.health },
                leg_start: Vec2 { x, y: wave.origin.z },
                walked: 0,
            },
        );
        i += 1;
    }
    assert(targets@ =~= wave.enemies(first_id));
    Ok(targets)
}

} // verus!
