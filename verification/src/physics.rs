//! Contact between projectiles and enemies.
//!
//! Which projectile touches which enemy is found out elsewhere and handed in
//! as a list of contacts; what a contact does is decided here.
use vstd::prelude::*;
use crate::bullet::{all_bullets_wf, Projectile};
use crate::target::{all_wf, lemma_damage_accumulates, Enemy, Health};

verus! {

/// A projectile and an enemy that touch.
#[derive(Clone, Copy, Debug, PartialEq, Eq, Structural)]
pub struct Contact {
    pub bullet: u64,
    pub target: u64,
}

/// What one projectile takes off an enemy's health.
pub const BULLET_DAMAGE: u32 = 1000;

/// Whether `contacts` report that the projectile `bullet` touches the enemy
/// `target`.
pub open spec fn touching(contacts: Seq<Contact>, bullet: u64, target: u64) -> bool {
    contacts.contains(Contact { bullet, target })
}

/// Looks a pair up in the contacts.
pub fn is_touching(contacts: &Vec<Contact>, bullet: u64, target: u64) -> (r: bool)
    ensures
        r == touching(contacts@, bullet, target),
{
    let n: usize = contacts.len();
    let mut i: usize = 0;
    while i < n
        invariant
            i <= n,
            n == contacts@.len(),
            forall|j: int| 0 <= j < i ==> contacts@[j] != (Contact { bullet, target }),
        decreases n - i,
    {
        let c: Contact = contacts[i];
        if c.bullet == bullet && c.target == target {
            return true;
        }
        i += 1;
    }
    false
}

/// The test that picks the projectiles that touch the enemy `target`.
pub open spec fn touching_bullet(contacts: Seq<Contact>, target: u64) -> spec_fn(Projectile) -> bool {
    |b: Projectile| touching(contacts, b.id, target)
}

/// The number of projectiles among `bullets` that touch the enemy `target`.
pub open spec fn hits_on(bullets: Seq<Projectile>, contacts: Seq<Contact>, target: u64) -> nat {
    bullets.filter(touching_bullet(contacts, target)).len()
}

/// The enemy after every projectile that touches it has done its damage.
pub open spec fn struck(e: Enemy, bullets: Seq<Projectile>, contacts: Seq<Contact>) -> Enemy {
    Enemy { health: e.health.damaged(hits_on(bullets, contacts, e.id) * BULLET_DAMAGE), ..e }
}

/// Every enemy of `targets` after the projectiles that touch it have done
/// their damage.
pub open spec fn struck_all(targets: Seq<Enemy>, bullets: Seq<Projectile>, contacts: Seq<Contact>) -> Seq<
    Enemy,
> {
    targets.map_values(|e: Enemy| struck(e, bullets, contacts))
}

/// Whether the projectile touches any of `targets`.
pub open spec fn spent(b: Projectile, targets: Seq<Enemy>, contacts: Seq<Contact>) -> bool {
    exists|i: int| 0 <= i < targets.len() && touching(contacts, b.id, (#[trigger] targets[i]).id)
}

/// The test that picks the projectiles that touch none of `targets`.
pub open spec fn unspent(targets: Seq<Enemy>, contacts: Seq<Contact>) -> spec_fn(Projectile) -> bool {
    |b: Projectile| !spent(b, targets, contacts)
}

/// The projectiles of `bullets` that touch none of `targets`.
pub open spec fn unspent_bullets(
    bullets: Seq<Projectile>,
    targets: Seq<Enemy>,
    contacts: Seq<Contact>,
) -> Seq<Projectile> {
    bullets.filter(unspent(targets, contacts))
}

/// Every contact counts once: an enemy that `k` projectiles of the store
/// touch loses `k` times the damage of one, neither more nor less, as long as
/// its health fits; below the least health that fits it stops there. Nothing
/// else of the enemy changes, and an enemy that nothing touches is left as
/// it is.
pub proof fn lemma_every_contact_counts_once(e: Enemy, bullets: Seq<Projectile>, contacts: Seq<Contact>)
    ensures
        hits_on(bullets, contacts, e.id) <= bullets.len(),
        struck(e, bullets, contacts) == (Enemy {
            health: e.health.damaged(hits_on(bullets, contacts, e.id) * BULLET_DAMAGE),
            ..e
        }),
        e.health.value - hits_on(bullets, contacts, e.id) * BULLET_DAMAGE >= i64::MIN ==> struck(
            e,
            bullets,
            contacts,
        ).health.value == e.health.value - hits_on(bullets, contacts, e.id) * BULLET_DAMAGE,
        hits_on(bullets, contacts, e.id) == 0 ==> struck(e, bullets, contacts) == e,
        struck(e, bullets, contacts).health.value <= e.health.value,
{
    bullets.lemma_filter_len(touching_bullet(contacts, e.id));
    assert(0 <= hits_on(bullets, contacts, e.id) * BULLET_DAMAGE) by (nonlinear_arith)
        requires
            0 <= hits_on(bullets, contacts, e.id),
            BULLET_DAMAGE == 1000,
    ;
}

/// One more projectile that touches an enemy costs it one more hit, and one
/// that does not touch it costs it nothing.
pub proof fn lemma_hits_add_up(bullets: Seq<Projectile>, b: Projectile, contacts: Seq<Contact>, target: u64)
    ensures
        hits_on(bullets.push(b), contacts, target) == hits_on(bullets, contacts, target) + (if touching(
            contacts,
            b.id,
            target,
        ) {
            1nat
        } else {
            0nat
        }),
        hits_on(Seq::<Projectile>::empty(), contacts, target) == 0,
{
    reveal(Seq::filter);
    bullets.lemma_filter_push(b, touching_bullet(contacts, target));
}

/// Whether the projectile `bullet` touches any of `targets`.
fn touches_any(contacts: &Vec<Contact>, bullet: &Projectile, targets: &Vec<Enemy>) -> (r: bool)
    ensures
        r == spent(*bullet, targets@, contacts@),
{
    let n: usize = targets.len();
    let mut i: usize = 0;
    while i < n
        invariant
            i <= n,
            n == targets@.len(),
            forall|j: int| 0 <= j < i ==> !touching(contacts@, bullet.id, (#[trigger] targets@[j]).id),
        decreases n - i,
    {
        if is_touching(contacts, bullet.id, targets[i].id) {
            return true;
        }
        i += 1;
    }
    false
}

/// Lets every projectile do its damage to every enemy it touches.
fn strike(e: Enemy, bullets: &Vec<Projectile>, contacts: &Vec<Contact>) -> (r: Enemy)
    ensures
        r == struck(e, bullets@, contacts@),
{
    let ghost pick = touching_bullet(contacts@, e.id);
    let mut health: Health = e.health;
    let n: usize = bullets.len();
    let mut j: usize = 0;
    assert(bullets@.take(0) =~= Seq::<Projectile>::empty());
    proof {
        reveal(Seq::filter);
    }
    while j < n
        invariant
            j <= n,
            n == bullets@.len(),
            pick == touching_bullet(contacts@, e.id),
            health == e.health.damaged(bullets@.take(j as int).filter(pick).len() * BULLET_DAMAGE),
        decreases n - j,
    {
        let b: Projectile = bullets[j];
        proof {
            let part = bullets@.take(j as int);
            assert(bullets@.take(j + 1) =~= part.push(b));
            part.lemma_filter_push(b, pick);
            lemma_damage_accumulates(
                e.health,
                part.filter(pick).len() * (BULLET_DAMAGE as nat),
                BULLET_DAMAGE as nat,
            );
        }
        if is_touching(contacts, b.id, e.id) {
            health.apply_damage(BULLET_DAMAGE);
        }
        j += 1;
    }
    assert(bullets@.take(n as int) =~= bullets@);
    Enemy { health, ..e }
}

/// Resolves the contacts of one tick. Every projectile that touches an
/// enemy takes [`BULLET_DAMAGE`] off that enemy's health, once for each
/// enemy it touches, and is then removed; a projectile that touches two
/// enemies damages both. Projectiles that touch no enemy stay.
pub fn bullet_collision_detection(
    targets: &mut Vec<Enemy>,
    bullets: &mut Vec<Projectile>,
    contacts: &Vec<Contact>,
)
    ensures
        final(targets)@ == struck_all(old(targets)@, old(bullets)@, contacts@),
        final(bullets)@ == unspent_bullets(old(bullets)@, old(targets)@, contacts@),
        all_wf(old(targets)@) ==> all_wf(final(targets)@),
        all_bullets_wf(old(bullets)@) ==> all_bullets_wf(final(bullets)@),
{
    let ghost targets_before = targets@;
    let ghost bullets_before = bullets@;
    let n: usize = targets.len();
    let mut i: usize = 0;
    while i < n
        invariant
            i <= n,
            n == targets_before.len(),
            targets@.len() == n,
            bullets@ == bullets_before,
            forall|k: int|
                0 <= k < i ==> targets@[k] == struck(#[trigger] targets_before[k], bullets_before, contacts@),
            forall|k: int| i <= k < n ==> targets@[k] == #[trigger] targets_before[k],
        decreases n - i,
    {
        let e: Enemy = targets[i];
        let hit: Enemy = strike(e, bullets, contacts);
        targets.set(i, hit);
        i += 1;
    }
    assert(targets@ =~= struck_all(targets_before, bullets_before, contacts@));
    assert(all_wf(targets_before) ==> all_wf(targets@)) by {
        if all_wf(targets_before) {
            assert forall|k: int| 0 <= k < targets@.len() implies (#[trigger] targets@[k]).wf() by {
                assert(targets_before[k].wf());
            }
        }
    }
    let ghost keep = unspent(targets_before, contacts@);
    let mut kept: Vec<Projectile> = Vec::new();
    let m: usize = bullets.len();
    let mut j: usize = 0;
    assert(bullets_before.take(0) =~= Seq::<Projectile>::empty());
    proof {
        reveal(Seq::filter);
    }
    while j < m
        invariant
            j <= m,
            m == bullets_before.len(),
            bullets@ == bullets_before,
            targets@.len() == targets_before.len(),
            forall|k: int| 0 <= k < targets@.len() ==> (#[trigger] targets@[k]).id == targets_before[k].id,
            keep == unspent(targets_before, contacts@),
            kept@ == bullets_before.take(j as int).filter(keep),
            all_bullets_wf(bullets_before) ==> all_bullets_wf(kept@),
        decreases m - j,
    {
        let b: Projectile = bullets[j];
        let touched: bool = touches_any(contacts, &b, targets);
        proof {
            let part = bullets_before.take(j as int);
            assert(bullets_before.take(j + 1) =~= part.push(b));
            part.lemma_filter_push(b, keep);
            if spent(b, targets@, contacts@) {
                let k = choose|k: int|
                    0 <= k < targets@.len() && touching(contacts@, b.id, (#[trigger] targets@[k]).id);
                assert(touching(contacts@, b.id, targets_before[k].id));
            }
            if spent(b, targets_before, contacts@) {
                let k = choose|k: int|
                    0 <= k < targets_before.len() && touching(
                        contacts@,
                        b.id,
                        (#[trigger] targets_before[k]).id,
                    );
                assert(touching(contacts@, b.id, targets@[k].id));
            }
            if all_bullets_wf(bullets_before) {
                assert(bullets_before[j as int].wf());
            }
        }
        if !touched {
            kept.push(b);
        }
        j += 1;
    }
    assert(bullets_before.take(m as int) =~= bullets_before);
    *bullets = kept;
}

} // verus!
