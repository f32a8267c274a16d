//! The order of the entity store: ids are handed out in rising order, each
//! kind of entity is kept in the order of its ids, and so no two entities of
//! a kind bear the same id.
use vstd::prelude::*;
use crate::bullet::Projectile;
use crate::target::Enemy;
use crate::tower::{volley, PlacedTower};

verus! {

/// The ids of `s`, read off by `key`, rise strictly and stay below `bound`.
pub open spec fn ascends<A>(s: Seq<A>, key: spec_fn(A) -> u64, bound: int) -> bool {
    &&& forall|i: int, j: int|
        #![trigger s[i], s[j]]
        0 <= i < j < s.len() ==> key(s[i]) < key(s[j])
    &&& forall|i: int| 0 <= i < s.len() ==> key(#[trigger] s[i]) < bound
}

/// Reads the id off an enemy.
pub open spec fn enemy_id() -> spec_fn(Enemy) -> u64 {
    |e: Enemy| e.id
}

/// Reads the id off a tower.
pub open spec fn tower_id() -> spec_fn(PlacedTower) -> u64 {
    |t: PlacedTower| t.id
}

/// Reads the id off a projectile.
pub open spec fn bullet_id() -> spec_fn(Projectile) -> u64 {
    |b: Projectile| b.id
}

/// In a store in rising order, two entries with one id are one entry.
pub proof fn lemma_ascending_ids_are_unique<A>(s: Seq<A>, key: spec_fn(A) -> u64, bound: int, i: int, j: int)
    requires
        ascends(s, key, bound),
        0 <= i < s.len(),
        0 <= j < s.len(),
        key(s[i]) == key(s[j]),
    ensures
        i == j,
{
    if i < j {
        assert(key(s[i]) < key(s[j]));
    } else if j < i {
        assert(key(s[j]) < key(s[i]));
    }
}

/// A store in rising order stays so under a larger bound.
pub proof fn lemma_ascends_under_larger_bound<A>(s: Seq<A>, key: spec_fn(A) -> u64, bound: int, larger: int)
    requires
        ascends(s, key, bound),
        bound <= larger,
    ensures
        ascends(s, key, larger),
{
}

/// Removing entries keeps a store in rising order.
pub proof fn lemma_filter_ascends<A>(s: Seq<A>, pick: spec_fn(A) -> bool, key: spec_fn(A) -> u64, bound: int)
    requires
        ascends(s, key, bound),
    ensures
        ascends(s.filter(pick), key, bound),
    decreases s.len(),
{
    reveal(Seq::filter);
    if s.len() > 0 {
        let init = s.drop_last();
        let last = s.last();
        assert(ascends(init, key, bound)) by {
            assert forall|i: int, j: int|
                #![trigger init[i], init[j]]
                0 <= i < j < init.len() implies key(init[i]) < key(init[j]) by {
                assert(init[i] == s[i] && init[j] == s[j]);
            }
            assert forall|i: int| 0 <= i < init.len() implies key(#[trigger] init[i]) < bound by {
                assert(init[i] == s[i]);
            }
        }
        lemma_filter_ascends(init, pick, key, bound);
        let kept = init.filter(pick);
        if pick(last) {
            let all = kept.push(last);
            assert forall|i: int| 0 <= i < kept.len() implies key(#[trigger] kept[i]) < key(last) by {
                init.lemma_filter_contains_rev(pick, kept[i]);
                let k = choose|k: int| 0 <= k < init.len() && init[k] == kept[i];
                assert(init[k] == s[k]);
                assert(last == s[s.len() - 1]);
            }
            assert(last == s[s.len() - 1]);
            assert forall|i: int, j: int|
                #![trigger all[i], all[j]]
                0 <= i < j < all.len() implies key(all[i]) < key(all[j]) by {
                if j < kept.len() {
                    assert(all[i] == kept[i] && all[j] == kept[j]);
                } else {
                    assert(all[i] == kept[i]);
                }
            }
            assert forall|i: int| 0 <= i < all.len() implies key(#[trigger] all[i]) < bound by {
                if i < kept.len() {
                    assert(all[i] == kept[i]);
                }
            }
        }
    }
}

/// Changing entries without touching their ids keeps a store in rising
/// order.
pub proof fn lemma_same_ids_ascend<A>(s: Seq<A>, changed: Seq<A>, key: spec_fn(A) -> u64, bound: int)
    requires
        ascends(s, key, bound),
        changed.len() == s.len(),
        forall|i: int| 0 <= i < s.len() ==> key(#[trigger] changed[i]) == key(s[i]),
    ensures
        ascends(changed, key, bound),
{
    assert forall|i: int, j: int|
        #![trigger changed[i], changed[j]]
        0 <= i < j < changed.len() implies key(changed[i]) < key(changed[j]) by {
        assert(key(s[i]) < key(s[j]));
    }
    assert forall|i: int| 0 <= i < changed.len() implies key(#[trigger] changed[i]) < bound by {
        assert(key(s[i]) < bound);
    }
}

/// Adding an entry that bears the next free id keeps a store in rising
/// order.
pub proof fn lemma_push_ascends<A>(s: Seq<A>, entry: A, key: spec_fn(A) -> u64, bound: int)
    requires
        ascends(s, key, bound),
        key(entry) == bound,
    ensures
        ascends(s.push(entry), key, bound + 1),
{
    let all = s.push(entry);
    assert forall|i: int, j: int|
        #![trigger all[i], all[j]]
        0 <= i < j < all.len() implies key(all[i]) < key(all[j]) by {
        if j < s.len() {
            assert(all[i] == s[i] && all[j] == s[j]);
        } else {
            assert(all[i] == s[i]);
        }
    }
    assert forall|i: int| 0 <= i < all.len() implies key(#[trigger] all[i]) < bound + 1 by {
        if i < s.len() {
            assert(all[i] == s[i]);
        }
    }
}

/// The projectiles that towers launch take the next free ids in turn, so
/// the store of projectiles stays in rising order.
pub proof fn lemma_volley_ascends(
    bullets: Seq<Projectile>,
    towers: Seq<PlacedTower>,
    targets: Seq<Enemy>,
    dt_ms: int,
    lifetime_ms: u64,
    first_id: int,
)
    requires
        ascends(bullets, bullet_id(), first_id),
        0 <= first_id,
        first_id + towers.len() <= u64::MAX,
    ensures
        volley(towers, targets, dt_ms, lifetime_ms, first_id).len() <= towers.len(),
        ascends(
            bullets + volley(towers, targets, dt_ms, lifetime_ms, first_id),
            bullet_id(),
            first_id + volley(towers, targets, dt_ms, lifetime_ms, first_id).len(),
        ),
    decreases towers.len(),
{
    if towers.len() == 0 {
        assert(bullets + Seq::<Projectile>::empty() =~= bullets);
    } else {
        lemma_volley_ascends(bullets, towers.drop_last(), targets, dt_ms, lifetime_ms, first_id);
        let earlier = volley(towers.drop_last(), targets, dt_ms, lifetime_ms, first_id);
        let id = (first_id + earlier.len()) as u64;
        match towers.last().shot(targets, dt_ms, lifetime_ms, id) {
            Some(p) => {
                lemma_push_ascends(bullets + earlier, p, bullet_id(), first_id + earlier.len());
                assert((bullets + earlier).push(p) =~= bullets + earlier.push(p));
            },
            None => {},
        }
    }
}

} // verus!
