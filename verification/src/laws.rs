//! What holds of every tick.
use vstd::prelude::*;
use crate::physics::Contact;
use crate::store::{
    ascends, enemy_id, lemma_ascending_ids_are_unique, lemma_filter_ascends, lemma_same_ids_ascend,
};
use crate::target::{
    breach_of, dead, death_of, living, moved_all, off_path, on_path, survivors, Enemy,
    TargetBreachEvent, TargetDeathEvent,
};
use crate::vector::Vec2;
use crate::world::WorldView;

verus! {

/// The enemies of a tick keep their places and their ids while they walk and
/// take damage: the `i`-th enemy after both is the `i`-th enemy of the store,
/// moved by the tick's time step and struck; damage changes nothing but its
/// health.
pub proof fn lemma_battered_keeps_ids(w: WorldView, dt_ms: int, contacts: Seq<Contact>)
    requires
        w.wf(),
    ensures
        w.battered(dt_ms, contacts).len() == w.targets.len(),
        forall|i: int|
            0 <= i < w.targets.len() ==> (#[trigger] w.battered(dt_ms, contacts)[i]).id
                == w.targets[i].id,
        forall|i: int|
            0 <= i < w.targets.len() ==> (#[trigger] w.battered(dt_ms, contacts)[i]) == (Enemy {
                health: w.battered(dt_ms, contacts)[i].health,
                ..w.targets[i].spec_moved(w.waypoints, w.clamped(dt_ms))
            }),
        ascends(w.battered(dt_ms, contacts), enemy_id(), w.next_id as int),
{
    let battered = w.battered(dt_ms, contacts);
    lemma_same_ids_ascend(w.targets, battered, enemy_id(), w.next_id as int);
}

/// An enemy that is still in the store after a tick was in the store before
/// it and has been battered in between: whatever is left of the tick's
/// enemies is one of them.
pub proof fn lemma_left_was_battered(w: WorldView, dt_ms: int, contacts: Seq<Contact>, j: int) -> (i: int)
    requires
        w.wf(),
        0 <= j < w.advanced(dt_ms, contacts).targets.len(),
    ensures
        0 <= i < w.targets.len(),
        w.advanced(dt_ms, contacts).targets[j] == w.battered(dt_ms, contacts)[i],
        w.battered(dt_ms, contacts)[i].health.value > 0,
        w.battered(dt_ms, contacts)[i].target.path_index < w.waypoints.len(),
{
    let battered = w.battered(dt_ms, contacts);
    let alive = survivors(battered);
    let left = w.advanced(dt_ms, contacts).targets;
    let len = w.waypoints.len();
    alive.lemma_filter_pred(on_path(len), j);
    alive.lemma_filter_contains_rev(on_path(len), left[j]);
    let k = choose|k: int| 0 <= k < alive.len() && alive[k] == left[j];
    battered.lemma_filter_pred(living(), k);
    battered.lemma_filter_contains_rev(living(), alive[k]);
    let i = choose|i: int| 0 <= i < battered.len() && battered[i] == alive[k];
    i
}

/// Progress along the path is monotonic: an enemy that is in the store
/// before and after a tick heads for the same waypoint as before or for the
/// next one, never for an earlier one and never for one further on.
pub proof fn lemma_progress_is_monotonic(
    w: WorldView,
    dt_ms: int,
    contacts: Seq<Contact>,
    i: int,
    j: int,
)
    requires
        w.wf(),
        0 <= i < w.targets.len(),
        0 <= j < w.advanced(dt_ms, contacts).targets.len(),
        w.advanced(dt_ms, contacts).targets[j].id == w.targets[i].id,
    ensures
        w.targets[i].target.path_index <= w.advanced(dt_ms, contacts).targets[j].target.path_index
            <= w.targets[i].target.path_index + 1,
{
    let battered = w.battered(dt_ms, contacts);
    lemma_battered_keeps_ids(w, dt_ms, contacts);
    let k = lemma_left_was_battered(w, dt_ms, contacts, j);
    assert(battered[k].id == w.targets[k].id);
    lemma_ascending_ids_are_unique(w.targets, enemy_id(), w.next_id as int, i, k);
    assert(w.targets[i].target.path_index < w.waypoints.len());
}

/// An enemy that is in the store before and after a tick has walked through
/// the tick as an enemy left to itself does, and has lost no more than its
/// health: what holds of every walking enemy holds of it.
pub proof fn lemma_survivor_has_walked(
    w: WorldView,
    dt_ms: int,
    contacts: Seq<Contact>,
    i: int,
    j: int,
)
    requires
        w.wf(),
        0 <= i < w.targets.len(),
        0 <= j < w.advanced(dt_ms, contacts).targets.len(),
        w.advanced(dt_ms, contacts).targets[j].id == w.targets[i].id,
    ensures
        w.advanced(dt_ms, contacts).targets[j] == (Enemy {
            health: w.advanced(dt_ms, contacts).targets[j].health,
            ..w.targets[i].spec_moved(w.waypoints, w.clamped(dt_ms))
        }),
        0 < w.advanced(dt_ms, contacts).targets[j].health.value <= w.targets[i].health.value,
{
    let battered = w.battered(dt_ms, contacts);
    lemma_battered_keeps_ids(w, dt_ms, contacts);
    let k = lemma_left_was_battered(w, dt_ms, contacts, j);
    assert(battered[k].id == w.targets[k].id);
    lemma_ascending_ids_are_unique(w.targets, enemy_id(), w.next_id as int, i, k);
}

/// Walking moves every enemy of a store on by one waypoint at most and none
/// back, whatever the time step, and leaves each its id and its health.
pub proof fn lemma_all_move_on_by_one_at_most(targets: Seq<Enemy>, waypoints: Seq<Vec2>, dt_ms: int)
    requires
        waypoints.len() <= usize::MAX,
        forall|i: int| 0 <= i < targets.len() ==> (#[trigger] targets[i]).target.path_index < waypoints.len(),
    ensures
        moved_all(targets, waypoints, dt_ms).len() == targets.len(),
        forall|i: int|
            0 <= i < targets.len() ==> {
                let after = #[trigger] moved_all(targets, waypoints, dt_ms)[i];
                &&& targets[i].target.path_index <= after.target.path_index <= targets[i].target.path_index + 1
                &&& after.id == targets[i].id
                &&& after.health == targets[i].health
                &&& after.target.speed == targets[i].target.speed
            },
{
    assert forall|i: int| 0 <= i < targets.len() implies {
        let after = #[trigger] moved_all(targets, waypoints, dt_ms)[i];
        &&& targets[i].target.path_index <= after.target.path_index <= targets[i].target.path_index + 1
        &&& after.id == targets[i].id
        &&& after.health == targets[i].health
        &&& after.target.speed == targets[i].target.speed
    } by {
        assert(targets[i].target.path_index < waypoints.len());
        lemma_one_waypoint_per_tick(targets[i], waypoints, dt_ms);
    }
}

/// Every enemy moves on by at most one waypoint in a tick, whether it stays
/// in the store or leaves it.
pub proof fn lemma_one_waypoint_per_tick(e: Enemy, waypoints: Seq<Vec2>, dt_ms: int)
    requires
        e.target.path_index < usize::MAX,
    ensures
        e.target.path_index <= e.spec_moved(waypoints, dt_ms).target.path_index
            <= e.target.path_index + 1,
        e.spec_moved(waypoints, dt_ms).id == e.id,
        e.spec_moved(waypoints, dt_ms).health == e.health,
{
}

/// Death takes precedence: an enemy whose health is spent by the end of a
/// tick is reported dead, is never reported to have got through, whatever
/// waypoint it has reached, and is gone from the store.
pub proof fn lemma_death_takes_precedence(w: WorldView, dt_ms: int, contacts: Seq<Contact>, i: int)
    requires
        w.wf(),
        0 <= i < w.targets.len(),
        w.battered(dt_ms, contacts)[i].health.value <= 0,
    ensures
        w.advanced(dt_ms, contacts).death_events.contains(
            TargetDeathEvent { target: w.targets[i].id },
        ),
        !w.advanced(dt_ms, contacts).breach_events.contains(
            TargetBreachEvent { target: w.targets[i].id },
        ),
        forall|j: int|
            0 <= j < w.advanced(dt_ms, contacts).targets.len() ==> (#[trigger] w.advanced(
                dt_ms,
                contacts,
            ).targets[j]).id != w.targets[i].id,
{
    let after = w.advanced(dt_ms, contacts);
    let battered = w.battered(dt_ms, contacts);
    let alive = survivors(battered);
    let len = w.waypoints.len();
    let id = w.targets[i].id;
    lemma_battered_keeps_ids(w, dt_ms, contacts);

    // The dead enemy is among the dead, so its death is among the events.
    let fallen = battered.filter(dead());
    battered.lemma_filter_contains(dead(), i);
    let m = choose|m: int| 0 <= m < fallen.len() && fallen[m] == battered[i];
    assert(after.death_events[m] == death_of()(fallen[m]));

    // Whoever is alive is someone else.
    assert forall|k: int| 0 <= k < alive.len() implies (#[trigger] alive[k]).id != id by {
        battered.lemma_filter_pred(living(), k);
        battered.lemma_filter_contains_rev(living(), alive[k]);
        let b = choose|b: int| 0 <= b < battered.len() && battered[b] == alive[k];
        if alive[k].id == id {
            lemma_ascending_ids_are_unique(battered, enemy_id(), w.next_id as int, b, i);
        }
    }
    let through = alive.filter(off_path(len));
    assert forall|n: int| 0 <= n < after.breach_events.len() implies after.breach_events[n]
        != (TargetBreachEvent { target: id }) by {
        assert(after.breach_events[n] == breach_of()(through[n]));
        alive.lemma_filter_contains_rev(off_path(len), through[n]);
        let k = choose|k: int| 0 <= k < alive.len() && alive[k] == through[n];
        assert(alive[k].id != id);
    }
    assert forall|j: int| 0 <= j < after.targets.len() implies (#[trigger] after.targets[j]).id
        != id by {
        alive.lemma_filter_contains_rev(on_path(len), after.targets[j]);
        let k = choose|k: int| 0 <= k < alive.len() && alive[k] == after.targets[j];
        assert(alive[k].id != id);
    }
}

/// No enemy both dies and gets through in one tick.
pub proof fn lemma_death_excludes_breach(w: WorldView, dt_ms: int, contacts: Seq<Contact>, id: u64)
    requires
        w.wf(),
    ensures
        !(w.advanced(dt_ms, contacts).death_events.contains(TargetDeathEvent { target: id })
            && w.advanced(dt_ms, contacts).breach_events.contains(TargetBreachEvent { target: id })),
{
    let after = w.advanced(dt_ms, contacts);
    let battered = w.battered(dt_ms, contacts);
    lemma_battered_keeps_ids(w, dt_ms, contacts);
    if after.death_events.contains(TargetDeathEvent { target: id }) {
        let fallen = battered.filter(dead());
        let m = choose|m: int|
            0 <= m < after.death_events.len() && after.death_events[m] == (TargetDeathEvent {
                target: id,
            });
        assert(after.death_events[m] == death_of()(fallen[m]));
        battered.lemma_filter_pred(dead(), m);
        battered.lemma_filter_contains_rev(dead(), fallen[m]);
        let i = choose|i: int| 0 <= i < battered.len() && battered[i] == fallen[m];
        lemma_death_takes_precedence(w, dt_ms, contacts, i);
    }
}

/// The player is paid for every death and hurt by every breach, and by
/// nothing else: a tick on which enemies die and none gets through earns the
/// reward and costs no health. Health never rises, so a run that is lost
/// stays lost.
pub proof fn lemma_player_settles_the_events(w: WorldView, dt_ms: int, contacts: Seq<Contact>)
    ensures
        w.advanced(dt_ms, contacts).player == w.player.rewarded(
            w.advanced(dt_ms, contacts).death_events.len(),
        ).hurt(w.advanced(dt_ms, contacts).breach_events.len()),
        w.advanced(dt_ms, contacts).breach_events.len() == 0 ==> w.advanced(
            dt_ms,
            contacts,
        ).player.health == w.player.health,
        w.advanced(dt_ms, contacts).player.health <= w.player.health,
        w.advanced(dt_ms, contacts).player.money >= w.player.money,
        w.player.is_defeated() ==> w.advanced(dt_ms, contacts).player.is_defeated(),
{
}

/// Each enemy is named by one event at most: the deaths of a tick name
/// their enemies in the rising order of the ids, and so do its breaches.
pub proof fn lemma_events_name_each_enemy_once(w: WorldView, dt_ms: int, contacts: Seq<Contact>)
    requires
        w.wf(),
    ensures
        forall|m: int, n: int|
            #![trigger w.advanced(dt_ms, contacts).death_events[m], w.advanced(dt_ms, contacts).death_events[n]]
            0 <= m < n < w.advanced(dt_ms, contacts).death_events.len() ==> w.advanced(
                dt_ms,
                contacts,
            ).death_events[m].target < w.advanced(dt_ms, contacts).death_events[n].target,
        forall|m: int, n: int|
            #![trigger w.advanced(dt_ms, contacts).breach_events[m], w.advanced(dt_ms, contacts).breach_events[n]]
            0 <= m < n < w.advanced(dt_ms, contacts).breach_events.len() ==> w.advanced(
                dt_ms,
                contacts,
            ).breach_events[m].target < w.advanced(dt_ms, contacts).breach_events[n].target,
{
    let after = w.advanced(dt_ms, contacts);
    let battered = w.battered(dt_ms, contacts);
    let alive = survivors(battered);
    let len = w.waypoints.len();
    lemma_battered_keeps_ids(w, dt_ms, contacts);
    lemma_filter_ascends(battered, dead(), enemy_id(), w.next_id as int);
    lemma_filter_ascends(battered, living(), enemy_id(), w.next_id as int);
    lemma_filter_ascends(alive, off_path(len), enemy_id(), w.next_id as int);
    let fallen = battered.filter(dead());
    let through = alive.filter(off_path(len));
    assert forall|m: int, n: int|
        #![trigger after.death_events[m], after.death_events[n]]
        0 <= m < n < after.death_events.len() implies after.death_events[m].target
        < after.death_events[n].target by {
        assert(enemy_id()(fallen[m]) < enemy_id()(fallen[n]));
    }
    assert forall|m: int, n: int|
        #![trigger after.breach_events[m], after.breach_events[n]]
        0 <= m < n < after.breach_events.len() implies after.breach_events[m].target
        < after.breach_events[n].target by {
        assert(enemy_id()(through[m]) < enemy_id()(through[n]));
    }
}

/// Towers stay put: a tick changes nothing of a tower but its timer, and
/// neither adds a tower nor takes one away.
pub proof fn lemma_towers_stay_put(w: WorldView, dt_ms: int, contacts: Seq<Contact>)
    ensures
        w.advanced(dt_ms, contacts).towers.len() == w.towers.len(),
        forall|i: int|
            0 <= i < w.towers.len() ==> (#[trigger] w.advanced(dt_ms, contacts).towers[i]) == w.towers[i].cooled(
                w.clamped(dt_ms),
            ),
        forall|i: int|
            0 <= i < w.towers.len() ==> {
                let after = #[trigger] w.advanced(dt_ms, contacts).towers[i];
                &&& after.id == w.towers[i].id
                &&& after.position == w.towers[i].position
                &&& after.tower_type == w.towers[i].tower_type
                &&& after.tower.range == w.towers[i].tower.range
                &&& after.tower.bullet_offset == w.towers[i].tower.bullet_offset
                &&& after.tower.shooting_timer.period == w.towers[i].tower.shooting_timer.period
            },
{
}

} // verus!
