//! Projectiles: straight flight and a limited lifetime.
use vstd::prelude::*;
use crate::fixed::{
    scale_component, scale_toward_zero, travel, travel_distance, COORD_LIMIT, DT_LIMIT, SCALE,
    SPEED_LIMIT,
};
use crate::tower::TowerType;
use crate::vector::{abs, Vec3};

verus! {

/// Longest lifetime of a projectile, in milliseconds.
pub const LIFETIME_LIMIT: u64 = 1_000_000_000;

/// No projectile ever leaves `-EXTENT ..= EXTENT` on any axis: the bound is
/// the coordinate limit and the farthest flight, at the speed limit for the
/// lifetime limit.
pub const EXTENT: i64 = 1_001_000_000_000;

/// What makes an entity a projectile: where it flies and how fast.
#[derive(Clone, Copy, Debug, PartialEq, Eq, Structural)]
pub struct Bullet {
    /// Unit vector of the flight, in thousandths.
    pub direction: Vec3,
    /// Speed, in thousandths of a unit per second.
    pub speed: i64,
}

/// The time a projectile has left, in milliseconds.
#[derive(Clone, Copy, Debug, PartialEq, Eq, Structural)]
pub struct Lifetime {
    pub remaining: u64,
}

/// A projectile in the store.
#[derive(Clone, Copy, Debug, PartialEq, Eq, Structural)]
pub struct Projectile {
    pub id: u64,
    pub position: Vec3,
    pub bullet: Bullet,
    pub lifetime: Lifetime,
    /// The kind of tower that launched the projectile.
    pub kind: TowerType,
    /// Where the projectile was launched.
    pub origin: Vec3,
    /// The way it has flown since, in millionths of a unit.
    pub flown: u64,
}

/// The longest flight: at the speed limit for the lifetime limit, in
/// millionths of a unit.
pub const FLIGHT_LIMIT: u64 = 1_000_000_000_000_000;

/// Millionths of a unit that a unit vector of a thousand thousandths turns
/// into one thousandth.
pub const FLIGHT_SCALE: u64 = 1_000_000;

/// The share of a flight that falls to one coordinate of its direction.
proof fn lemma_flight_share(dir: int, flown: int)
    requires
        abs(dir) <= 1000,
        0 <= flown <= FLIGHT_LIMIT,
    ensures
        abs(scale_toward_zero(dir, flown, FLIGHT_SCALE as int)) <= 1_000_000_000_000,
        abs(dir) * flown / (FLIGHT_SCALE as int) <= 1_000_000_000_000,
{
    let a = abs(dir);
    assert(0 <= a * flown <= 1000 * 1_000_000_000_000_000) by (nonlinear_arith)
        requires
            0 <= a <= 1000,
            0 <= flown <= 1_000_000_000_000_000,
    ;
}

/// The way flown and the way still to fly make up the same flight before
/// and after a tick.
proof fn lemma_flight_splits(speed: int, remaining: int, dt: int)
    by (nonlinear_arith)
    requires
        0 <= speed,
        0 <= dt <= remaining,
    ensures
        speed * dt + speed * (remaining - dt) == speed * remaining,
        0 <= speed * dt,
        0 <= speed * (remaining - dt),
{
}

/// The farthest flight at the limits is within the limit of flights.
proof fn lemma_flight_within_limits(speed: int, remaining: int)
    by (nonlinear_arith)
    requires
        0 <= speed <= SPEED_LIMIT,
        0 <= remaining <= LIFETIME_LIMIT,
    ensures
        0 <= speed * remaining <= FLIGHT_LIMIT,
{
}

impl Projectile {
    /// Where the way that the projectile has flown puts it: its origin,
    /// moved along its direction by the way, every coordinate rounded toward
    /// the origin.
    pub open spec fn place(self) -> Vec3 {
        let dir = self.bullet.direction;
        Vec3 {
            x: (self.origin.x + scale_toward_zero(
                dir.x as int,
                self.flown as int,
                FLIGHT_SCALE as int,
            )) as i64,
            y: (self.origin.y + scale_toward_zero(
                dir.y as int,
                self.flown as int,
                FLIGHT_SCALE as int,
            )) as i64,
            z: (self.origin.z + scale_toward_zero(
                dir.z as int,
                self.flown as int,
                FLIGHT_SCALE as int,
            )) as i64,
        }
    }

    /// The direction is no longer than a unit vector, speed and lifetime are
    /// within their limits, the projectile was launched within the
    /// coordinate limit, its whole flight, flown and still to fly, is within
    /// the limit of flights, and it is where its flight puts it; so it stays
    /// within the extent.
    pub open spec fn wf(self) -> bool {
        &&& self.bullet.direction.within(SCALE as int)
        &&& 0 <= self.bullet.speed <= SPEED_LIMIT
        &&& self.lifetime.remaining <= LIFETIME_LIMIT
        &&& self.origin.within(COORD_LIMIT as int)
        &&& self.flown + self.bullet.speed * self.lifetime.remaining <= FLIGHT_LIMIT
        &&& self.position == self.place()
    }

    /// A projectile launched from `origin` by a tower of kind `kind`.
    pub open spec fn launched(
        id: u64,
        origin: Vec3,
        bullet: Bullet,
        lifetime_ms: u64,
        kind: TowerType,
    ) -> Projectile {
        Projectile {
            id,
            position: origin,
            bullet,
            lifetime: Lifetime { remaining: lifetime_ms },
            kind,
            origin,
            flown: 0,
        }
    }

    /// Launches a projectile from `origin`.
    pub fn launch(id: u64, origin: Vec3, bullet: Bullet, lifetime_ms: u64, kind: TowerType) -> (p:
        Projectile)
        requires
            origin.within(COORD_LIMIT as int),
            bullet.direction.within(SCALE as int),
            0 <= bullet.speed <= SPEED_LIMIT,
            lifetime_ms <= LIFETIME_LIMIT,
        ensures
            p == Projectile::launched(id, origin, bullet, lifetime_ms, kind),
            p.wf(),
    {
        proof {
            lemma_flight_within_limits(bullet.speed as int, lifetime_ms as int);
        }
        Projectile {
            id,
            position: origin,
            bullet,
            lifetime: Lifetime { remaining: lifetime_ms },
            kind,
            origin,
            flown: 0,
        }
    }

    /// Whether the projectile is still alive after a tick of `dt_ms`.
    pub open spec fn outlives(self, dt_ms: int) -> bool {
        self.lifetime.remaining > dt_ms
    }

    /// The projectile after flying for `dt_ms` milliseconds: it is where the
    /// whole way that it has flown along its direction puts it, so that no
    /// part of any step is lost, and has that much less time left.
    pub open spec fn spec_moved(self, dt_ms: int) -> Projectile {
        let further = Projectile {
            lifetime: Lifetime { remaining: (self.lifetime.remaining - dt_ms) as u64 },
            flown: (self.flown + travel(self.bullet.speed as int, dt_ms)) as u64,
            ..self
        };
        Projectile { position: further.place(), ..further }
    }

    /// Flies the projectile through one tick that it outlives.
    pub fn moved(self, dt_ms: u64) -> (r: Projectile)
        requires
            self.wf(),
            self.outlives(dt_ms as int),
            dt_ms <= DT_LIMIT,
        ensures
            r == self.spec_moved(dt_ms as int),
            r.wf(),
            r.id == self.id,
    {
        let step: u64 = travel_distance(self.bullet.speed, dt_ms);
        let dir: Vec3 = self.bullet.direction;
        proof {
            lemma_flight_splits(
                self.bullet.speed as int,
                self.lifetime.remaining as int,
                dt_ms as int,
            );
        }
        let flown: u64 = self.flown + step;
        proof {
            lemma_flight_share(dir.x as int, flown as int);
            lemma_flight_share(dir.y as int, flown as int);
            lemma_flight_share(dir.z as int, flown as int);
        }
        let dx: i64 = scale_component(dir.x, flown, 1_000_000);
        let dy: i64 = scale_component(dir.y, flown, 1_000_000);
        let dz: i64 = scale_component(dir.z, flown, 1_000_000);
        Projectile {
            id: self.id,
            position: Vec3 { x: self.origin.x + dx, y: self.origin.y + dy, z: self.origin.z + dz },
            bullet: self.bullet,
            lifetime: Lifetime { remaining: self.lifetime.remaining - dt_ms },
            kind: self.kind,
            origin: self.origin,
            flown,
        }
    }
}

/// No part of a flight is lost, and no projectile homes: flying for one time
/// and then for another is flying for both at once, to the last thousandth,
/// and through all of it the projectile keeps the direction that it was
/// launched with, its speed, its origin and its id.
pub proof fn lemma_flight_adds_up(p: Projectile, first_ms: int, second_ms: int)
    requires
        p.wf(),
        0 <= first_ms,
        0 <= second_ms,
        first_ms + second_ms <= p.lifetime.remaining,
    ensures
        p.spec_moved(first_ms).spec_moved(second_ms) == p.spec_moved(first_ms + second_ms),
        p.spec_moved(first_ms).bullet == p.bullet,
        p.spec_moved(first_ms).origin == p.origin,
        p.spec_moved(first_ms).kind == p.kind,
        p.spec_moved(first_ms).id == p.id,
        p.spec_moved(first_ms).flown == p.flown + p.bullet.speed * first_ms,
        p.spec_moved(first_ms).lifetime.remaining == p.lifetime.remaining - first_ms,
        p.spec_moved(first_ms).wf(),
        p.position.within(EXTENT as int),
{
    lemma_flight_share(p.bullet.direction.x as int, p.flown as int);
    lemma_flight_share(p.bullet.direction.y as int, p.flown as int);
    lemma_flight_share(p.bullet.direction.z as int, p.flown as int);
    lemma_flight_splits(p.bullet.speed as int, p.lifetime.remaining as int, first_ms);
    let speed = p.bullet.speed as int;
    let rem = p.lifetime.remaining as int;
    assert(speed * (first_ms + second_ms) == speed * first_ms + speed * second_ms) by (nonlinear_arith);
    assert(0 <= speed * first_ms <= speed * rem && 0 <= speed * second_ms && speed * (first_ms
        + second_ms) <= speed * rem) by (nonlinear_arith)
        requires
            0 <= speed,
            0 <= first_ms,
            0 <= second_ms,
            first_ms + second_ms <= rem,
    ;
}

/// Every projectile of `bullets` is well formed.
pub open spec fn all_bullets_wf(bullets: Seq<Projectile>) -> bool {
    forall|i: int| 0 <= i < bullets.len() ==> (#[trigger] bullets[i]).wf()
}

/// The test that keeps the projectiles that outlive a tick of `dt_ms`.
pub open spec fn outliving(dt_ms: int) -> spec_fn(Projectile) -> bool {
    |b: Projectile| b.outlives(dt_ms)
}

/// The step that flies a projectile through a tick of `dt_ms`.
pub open spec fn flying(dt_ms: int) -> spec_fn(Projectile) -> Projectile {
    |b: Projectile| b.spec_moved(dt_ms)
}

/// The projectiles that are left of `bullets` after a tick of `dt_ms`: those
/// whose lifetime has not run out, each flown on, in their old order.
pub open spec fn flown(bullets: Seq<Projectile>, dt_ms: int) -> Seq<Projectile> {
    bullets.filter(outliving(dt_ms)).map_values(flying(dt_ms))
}

/// Flies every projectile through one tick and removes, without further
/// effect, those whose lifetime runs out during it.
pub fn move_bullets(bullets: &mut Vec<Projectile>, dt_ms: u64)
    requires
        all_bullets_wf(old(bullets)@),
        dt_ms <= DT_LIMIT,
    ensures
        final(bullets)@ == flown(old(bullets)@, dt_ms as int),
        all_bullets_wf(final(bullets)@),
{
    let ghost before = bullets@;
    let mut kept: Vec<Projectile> = Vec::new();
    let n: usize = bullets.len();
    let mut i: usize = 0;
    assert(before.take(0) =~= Seq::<Projectile>::empty());
    proof {
        reveal(Seq::filter);
    }
    while i < n
        invariant
            i <= n,
            n == before.len(),
            bullets@ == before,
            dt_ms <= DT_LIMIT,
            all_bullets_wf(before),
            kept@ == flown(before.take(i as int), dt_ms as int),
            all_bullets_wf(kept@),
        decreases n - i,
    {
        let b: Projectile = bullets[i];
        proof {
            let part = before.take(i as int);
            assert(before.take(i + 1) =~= part.push(b));
            part.lemma_filter_push(b, outliving(dt_ms as int));
            assert(before[i as int].wf());
            if b.outlives(dt_ms as int) {
                assert(part.filter(outliving(dt_ms as int)).push(b).map_values(
                    flying(dt_ms as int),
                ) =~= part.filter(outliving(dt_ms as int)).map_values(flying(dt_ms as int)).push(
                    b.spec_moved(dt_ms as int),
                ));
            }
        }
        if b.lifetime.remaining > dt_ms {
            kept.push(b.moved(dt_ms));
        }
        i += 1;
    }
    assert(before.take(n as int) =~= before);
    *bullets = kept;
}

} // verus!
