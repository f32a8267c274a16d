//! How an enemy walks its path: it is granted every part of every step, it
//! reaches each waypoint neither early nor late, and it leaves the path in
//! the time that the length of the path allows.
use vstd::prelude::*;
use vstd::arithmetic::div_mod::{
    lemma_div_is_ordered, lemma_div_pos_is_pos, lemma_fundamental_div_mod,
    lemma_fundamental_div_mod_converse,
};
use crate::fixed::{
    floor_sqrt, is_floor_sqrt, lemma_floor_sqrt_exists, lemma_square_monotone, round_to_unit,
    scale_toward_zero, travel, DT_LIMIT, WAYPOINT_LIMIT,
};
use crate::target::{lemma_walk_stays_near, waypoints_in_range, Enemy};
use crate::vector::{abs, lemma_component_below_length, lemma_square_nonnegative, Vec2};

verus! {

/// The share `part * num / den` of a part, with its remainder bounded.
proof fn lemma_share(part: int, num: int, den: int)
    by (nonlinear_arith)
    requires
        0 <= part,
        0 <= num,
        0 < den,
    ensures
        0 <= part * num / den,
        (part * num / den) * den <= part * num,
        part * num < (part * num / den) * den + den,
{
}

/// A sum of two squares below a square keeps each root below the root.
proof fn lemma_roots_below(x: int, y: int, r: int)
    by (nonlinear_arith)
    requires
        0 <= x,
        0 <= y,
        0 <= r,
        x * x + y * y < r * r,
    ensures
        x < r,
        y < r,
{
}

/// Dividing both sides of a comparison of squares by a common square.
proof fn lemma_cancel_square(k: int, small: int, large: int)
    by (nonlinear_arith)
    requires
        0 < k,
        k * k * small < k * k * large,
    ensures
        small < large,
{
}

/// The square of a product is the product of the squares.
proof fn lemma_square_of_product(p: int, q: int)
    by (nonlinear_arith)
    ensures
        (p * q) * (p * q) == (p * p) * (q * q),
        (p * q) * (p * q) == (q * q) * (p * p),
{
}

/// A factor times a sum is the sum of the factor times each part.
proof fn lemma_factor_of_sum(k: int, x: int, y: int)
    by (nonlinear_arith)
    ensures
        k * (x + y) == k * x + k * y,
{
}

/// Scaling both sides of `len^2 * small <= t^2 * large` apart: from bounds on
/// the squares of two products to a bound on the sums.
proof fn lemma_sum_of_scaled_squares_below(
    len: int,
    p: int,
    q: int,
    t: int,
    a: int,
    b: int,
)
    requires
        (len * p) * (len * p) <= (a * t) * (a * t),
        (len * q) * (len * q) <= (b * t) * (b * t),
    ensures
        len * len * (p * p + q * q) <= t * t * (a * a + b * b),
{
    lemma_square_of_product(len, p);
    lemma_square_of_product(len, q);
    lemma_square_of_product(a, t);
    lemma_square_of_product(b, t);
    lemma_factor_of_sum(len * len, p * p, q * q);
    lemma_factor_of_sum(t * t, a * a, b * b);
}

/// The integer square root lies between two bounds whose squares enclose the
/// number.
proof fn lemma_floor_sqrt_between(n: int, low: int, high: int)
    requires
        0 <= low,
        low * low <= n < high * high,
        0 <= high,
    ensures
        low <= floor_sqrt(n) < high,
{
    lemma_square_nonnegative(low);
    lemma_floor_sqrt_exists(n);
    let r = floor_sqrt(n);
    if r < low {
        lemma_square_monotone(r + 1, low);
    }
    if r >= high {
        lemma_square_monotone(high, r);
    }
}

/// The square of a number is the square of its absolute value.
proof fn lemma_square_of_abs(c: int)
    by (nonlinear_arith)
    ensures
        c * c == abs(c) * abs(c),
{
}

/// What is left of a leg `(a, b)` of length `len` after a way of `way`
/// millionths along it that does not pass its end, in absolute coordinates:
/// the enemy stands no farther from the end than the distance left and two
/// thousandths.
proof fn lemma_short_of_waypoint(a: int, b: int, len: int, way: int)
    requires
        0 <= a,
        0 <= b,
        is_floor_sqrt(a * a + b * b, len),
        0 < len,
        0 <= way <= len * 1000,
    ensures
        0 <= a - a * way / (len * 1000),
        0 <= b - b * way / (len * 1000),
        ({
            let left_a = a - a * way / (len * 1000);
            let left_b = b - b * way / (len * 1000);
            let r = len - way / 1000;
            left_a * left_a + left_b * left_b < (r + 3) * (r + 3)
        }),
{
    let den = len * 1000;
    let t = den - way;
    let r = len - way / 1000;
    let u = a * way / den;
    let v = b * way / den;
    lemma_share(a, way, den);
    lemma_share(b, way, den);
    let la = a - u;
    let lb = b - v;
    assert(den * la >= a * t && den * la < a * t + den) by (nonlinear_arith)
        requires
            la == a - u,
            t == den - way,
            u * den <= a * way,
            a * way < u * den + den,
    ;
    assert(den * lb >= b * t && den * lb < b * t + den) by (nonlinear_arith)
        requires
            lb == b - v,
            t == den - way,
            v * den <= b * way,
            b * way < v * den + den,
    ;
    assert(0 <= a * t && 0 <= b * t) by (nonlinear_arith)
        requires
            0 <= a,
            0 <= b,
            0 <= t,
    ;
    assert(la >= 0 && lb >= 0) by (nonlinear_arith)
        requires
            den * la >= 0,
            den * lb >= 0,
            0 < den,
    ;
    let n = a * a + b * b;
    let left = la * la + lb * lb;
    let x = if la >= 1 {
        la - 1
    } else {
        0
    };
    let y = if lb >= 1 {
        lb - 1
    } else {
        0
    };
    assert(0 <= den * x <= a * t) by (nonlinear_arith)
        requires
            x == if la >= 1 {
                la - 1
            } else {
                0
            },
            den * la < a * t + den,
            0 <= a * t,
            0 < den,
            0 <= la,
    ;
    assert(0 <= den * y <= b * t) by (nonlinear_arith)
        requires
            y == if lb >= 1 {
                lb - 1
            } else {
                0
            },
            den * lb < b * t + den,
            0 <= b * t,
            0 < den,
            0 <= lb,
    ;
    lemma_square_monotone(den * x, a * t);
    lemma_square_monotone(den * y, b * t);
    lemma_sum_of_scaled_squares_below(den, x, y, t, a, b);
    // The way left, in thousandths, is at most the distance left.
    assert(0 <= t <= 1000 * r && 0 <= r <= len);
    let bound = den * (r + 1);
    assert(0 <= t * (len + 1) <= bound) by (nonlinear_arith)
        requires
            0 <= t <= 1000 * r,
            0 <= r <= len,
            den == len * 1000,
            bound == den * (r + 1),
    ;
    lemma_square_monotone(t * (len + 1), bound);
    lemma_square_of_product(t, len + 1);
    lemma_square_of_product(den, r + 1);
    assert(t * t * n <= (t * t) * ((len + 1) * (len + 1))) by (nonlinear_arith)
        requires
            n <= (len + 1) * (len + 1),
            0 <= t * t,
    ;
    if t == 0 {
        assert(t * t * n == 0) by (nonlinear_arith)
            requires
                t == 0,
        ;
        assert(0 < den * den * ((r + 1) * (r + 1))) by (nonlinear_arith)
            requires
                0 < den,
                0 <= r,
        ;
    } else {
        assert(t * t * n < (t * t) * ((len + 1) * (len + 1))) by (nonlinear_arith)
            requires
                n < (len + 1) * (len + 1),
                0 < t,
        ;
    }
    assert(den * den * (x * x + y * y) < den * den * ((r + 1) * (r + 1)));
    lemma_cancel_square(den, x * x + y * y, (r + 1) * (r + 1));
    lemma_roots_below(x, y, r + 1);
    assert(left < (r + 3) * (r + 3)) by (nonlinear_arith)
        requires
            left == la * la + lb * lb,
            0 <= la <= x + 1,
            0 <= lb <= y + 1,
            x * x + y * y < (r + 1) * (r + 1),
            0 <= x <= r,
            0 <= y <= r,
    ;
}

/// What a leg `(a, b)` of length `len` is overshot by after a way of `way`
/// millionths that passes its end, in absolute coordinates: the enemy stands
/// no farther past the end than the thousandths by which the way exceeds the
/// leg, and two.
proof fn lemma_past_waypoint(a: int, b: int, len: int, way: int)
    requires
        0 <= a,
        0 <= b,
        is_floor_sqrt(a * a + b * b, len),
        0 < len,
        len * 1000 < way,
        way / 1000 - len + 1 <= 2 * len,
    ensures
        0 <= a * way / (len * 1000) - a,
        0 <= b * way / (len * 1000) - b,
        ({
            let over_a = a * way / (len * 1000) - a;
            let over_b = b * way / (len * 1000) - b;
            let past = way / 1000 - len;
            over_a * over_a + over_b * over_b < (past + 3) * (past + 3)
        }),
{
    let den = len * 1000;
    let e = way - den;
    let eps = way / 1000 - len + 1;
    let u = a * way / den;
    let v = b * way / den;
    lemma_share(a, way, den);
    lemma_share(b, way, den);
    let oa = u - a;
    let ob = v - b;
    assert(0 <= den * oa + den - 1 && den * oa <= a * e) by (nonlinear_arith)
        requires
            oa == u - a,
            e == way - den,
            u * den <= a * way,
            a * way < u * den + den,
            0 <= a,
            0 < e,
    ;
    assert(0 <= den * ob + den - 1 && den * ob <= b * e) by (nonlinear_arith)
        requires
            ob == v - b,
            e == way - den,
            v * den <= b * way,
            b * way < v * den + den,
            0 <= b,
            0 < e,
    ;
    assert(oa >= 0 && ob >= 0) by (nonlinear_arith)
        requires
            0 <= den * oa + den - 1,
            0 <= den * ob + den - 1,
            0 < den,
    ;
    assert(0 <= den * oa && 0 <= den * ob) by (nonlinear_arith)
        requires
            0 <= oa,
            0 <= ob,
            0 < den,
    ;
    lemma_square_monotone(den * oa, a * e);
    lemma_square_monotone(den * ob, b * e);
    let n = a * a + b * b;
    let over = oa * oa + ob * ob;
    lemma_sum_of_scaled_squares_below(den, oa, ob, e, a, b);
    assert(0 < e <= 1000 * eps && 1 <= eps);
    let bound = den * (eps + 2);
    assert(0 <= e * (len + 1) <= bound) by (nonlinear_arith)
        requires
            0 < e <= 1000 * eps,
            1 <= eps <= 2 * len,
            0 < len,
            den == len * 1000,
            bound == den * (eps + 2),
    ;
    lemma_square_monotone(e * (len + 1), bound);
    lemma_square_of_product(e, len + 1);
    lemma_square_of_product(den, eps + 2);
    assert(e * e * n < (e * e) * ((len + 1) * (len + 1))) by (nonlinear_arith)
        requires
            n < (len + 1) * (len + 1),
            0 < e,
    ;
    assert(den * den * over < den * den * ((eps + 2) * (eps + 2)));
    lemma_cancel_square(den, over, (eps + 2) * (eps + 2));
}

/// The length of a displacement whose coordinates are within a limit, as an
/// integer square root with its bounds.
proof fn lemma_length_of(d: Vec2)
    ensures
        is_floor_sqrt(d.norm_sq(), d.norm()),
        abs(d.x as int) <= d.norm(),
        abs(d.y as int) <= d.norm(),
        d.norm_sq() == abs(d.x as int) * abs(d.x as int) + abs(d.y as int) * abs(d.y as int),
        d.within(2_000_000_000) ==> d.norm() < 0x1_0000_0000,
{
    lemma_square_of_abs(d.x as int);
    lemma_square_of_abs(d.y as int);
    lemma_square_nonnegative(d.x as int);
    lemma_square_nonnegative(d.y as int);
    lemma_floor_sqrt_exists(d.norm_sq());
    lemma_component_below_length(d.x as int, d.y * d.y);
    lemma_component_below_length(d.y as int, d.x * d.x);
    if d.within(2_000_000_000) {
        let a = abs(d.x as int);
        let b = abs(d.y as int);
        assert(a * a + b * b < 0x1_0000_0000 * 0x1_0000_0000) by (nonlinear_arith)
            requires
                0 <= a <= 2_000_000_000,
                0 <= b <= 2_000_000_000,
        ;
        lemma_floor_sqrt_between(d.norm_sq(), 0, 0x1_0000_0000);
    }
}

/// How far an enemy stands from `waypoint` at most, going by the way it has
/// covered: the distance left, or the distance by which it has passed the
/// waypoint, and two thousandths that rounding may cost.
pub open spec fn standing_bound(e: Enemy, waypoint: Vec2) -> int {
    abs(e.distance_to(waypoint)) + 2
}

/// Whether an enemy stands where the way that it has covered puts it, to
/// within rounding: no farther from `waypoint` than [`standing_bound`].
pub open spec fn stands_near(e: Enemy, waypoint: Vec2) -> bool {
    e.position.spec_xz().spec_to(waypoint).norm() <= standing_bound(e, waypoint)
}

/// By how many millionths a step of `step` can take an enemy past a
/// waypoint: an enemy walks only while half a unit or more is left, so only
/// a step of more than that can pass the waypoint, and by what it has over.
pub open spec fn overshoot(step: int) -> int {
    if step > 499_000 {
        step - 499_000
    } else {
        0
    }
}

/// Whether an enemy is where walking at `step` millionths a tick can have
/// brought it: it stands where its way puts it, and has not passed
/// `waypoint` by more than a step can.
pub open spec fn on_its_way(e: Enemy, waypoint: Vec2, step: int) -> bool {
    stands_near(e, waypoint) && e.distance_to(waypoint) * 1000 >= -overshoot(step)
}

/// An enemy that has just set out stands where its leg starts.
pub open spec fn has_set_out(e: Enemy) -> bool {
    e.walked == 0 && e.leg_start == e.position.spec_xz()
}

/// A walking tick grants the whole step. The way covered grows by exactly
/// the step, the enemy stays on its leg and within the coordinate limit, and
/// it stands where the whole way puts it: no farther from the waypoint than
/// the distance left, or the distance by which the step has taken it past
/// the waypoint, and two thousandths.
pub proof fn lemma_walking_covers_the_step(e: Enemy, waypoint: Vec2, step: int)
    requires
        e.wf(),
        waypoint.within(WAYPOINT_LIMIT as int),
        0 <= step,
        e.walks_on(waypoint, step),
    ensures
        ({
            let next = e.stepped_toward(waypoint, step);
            &&& next.wf()
            &&& next.walked == e.walked + step
            &&& next.leg_start == e.leg_start
            &&& next.target == e.target
            &&& next.distance_to(waypoint) == e.leg_to(waypoint).norm() - (e.walked + step) / 1000
            &&& -501 <= next.distance_to(waypoint) <= e.distance_to(waypoint)
            &&& e.distance_to(waypoint) >= 500
            &&& on_its_way(next, waypoint, step)
        }),
{
    let d = e.leg_to(waypoint);
    let a = abs(d.x as int);
    let b = abs(d.y as int);
    let len = d.norm();
    let way = e.walked + step;
    lemma_length_of(d);
    lemma_walk_stays_near(d.x as int, way, len);
    lemma_walk_stays_near(d.y as int, way, len);
    let next = e.stepped_toward(waypoint, step);
    let left = next.position.spec_xz().spec_to(waypoint);
    let den = len * 1000;
    let u = a * way / den;
    let v = b * way / den;
    assert(abs(scale_toward_zero(d.x as int, way, den)) == u);
    assert(abs(scale_toward_zero(d.y as int, way, den)) == v);
    lemma_square_of_abs(left.x as int);
    lemma_square_of_abs(left.y as int);
    lemma_square_nonnegative(left.x as int);
    lemma_square_nonnegative(left.y as int);
    if way <= den {
        lemma_short_of_waypoint(a, b, len, way);
        if way == 0 {
            assert(a * 0 / den == 0 && b * 0 / den == 0) by (nonlinear_arith)
                requires
                    0 < den,
            ;
        }
        assert(abs(left.x as int) == a - u);
        assert(abs(left.y as int) == b - v);
        let r = len - way / 1000;
        lemma_floor_sqrt_between(left.norm_sq(), 0, r + 3);
    } else {
        lemma_past_waypoint(a, b, len, way);
        assert(abs(left.x as int) == u - a);
        assert(abs(left.y as int) == v - b);
        let past = way / 1000 - len;
        lemma_floor_sqrt_between(left.norm_sq(), 0, past + 3);
    }
}

/// A tick leaves a well-formed enemy well formed, moves it on by at most one
/// waypoint, and never back.
pub proof fn lemma_moved_is_wf(e: Enemy, waypoints: Seq<Vec2>, dt_ms: int)
    requires
        e.wf(),
        waypoints_in_range(waypoints),
        waypoints.len() <= usize::MAX,
        0 <= dt_ms <= DT_LIMIT,
    ensures
        e.spec_moved(waypoints, dt_ms).wf(),
        e.spec_moved(waypoints, dt_ms).target.speed == e.target.speed,
        e.target.path_index <= e.spec_moved(waypoints, dt_ms).target.path_index,
        e.spec_moved(waypoints, dt_ms).target.path_index <= e.target.path_index + 1,
        e.target.path_index < waypoints.len() ==> e.spec_moved(
            waypoints,
            dt_ms,
        ).target.path_index <= waypoints.len(),
{
    if e.target.path_index < waypoints.len() {
        let waypoint = waypoints[e.target.path_index as int];
        let step = travel(e.target.speed as int, dt_ms);
        assert(0 <= step) by (nonlinear_arith)
            requires
                step == e.target.speed * dt_ms,
                0 <= e.target.speed,
                0 <= dt_ms,
        ;
        if e.walks_on(waypoint, step) {
            lemma_walking_covers_the_step(e, waypoint, step);
        }
    }
}

/// The enemy after `ticks` ticks of `dt_ms` milliseconds each on the path
/// `waypoints`, left to walk undisturbed.
pub open spec fn after_ticks(e: Enemy, waypoints: Seq<Vec2>, dt_ms: int, ticks: nat) -> Enemy
    decreases ticks,
{
    if ticks == 0 {
        e
    } else {
        after_ticks(e.spec_moved(waypoints, dt_ms), waypoints, dt_ms, (ticks - 1) as nat)
    }
}

/// However long an enemy walks, it stays well formed and never heads for an
/// earlier waypoint than before.
pub proof fn lemma_walking_never_turns_back(e: Enemy, waypoints: Seq<Vec2>, dt_ms: int, ticks: nat)
    requires
        e.wf(),
        waypoints_in_range(waypoints),
        waypoints.len() <= usize::MAX,
        0 <= dt_ms <= DT_LIMIT,
    ensures
        after_ticks(e, waypoints, dt_ms, ticks).wf(),
        e.target.path_index <= after_ticks(e, waypoints, dt_ms, ticks).target.path_index
            <= e.target.path_index + ticks,
    decreases ticks,
{
    if ticks > 0 {
        lemma_moved_is_wf(e, waypoints, dt_ms);
        lemma_walking_never_turns_back(
            e.spec_moved(waypoints, dt_ms),
            waypoints,
            dt_ms,
            (ticks - 1) as nat,
        );
    }
}

/// Walking for some ticks and then for some more is walking for all of
/// them.
pub proof fn lemma_ticks_add_up(e: Enemy, waypoints: Seq<Vec2>, dt_ms: int, first: nat, second: nat)
    ensures
        after_ticks(after_ticks(e, waypoints, dt_ms, first), waypoints, dt_ms, second) == after_ticks(
            e,
            waypoints,
            dt_ms,
            first + second,
        ),
    decreases first,
{
    if first > 0 {
        lemma_ticks_add_up(
            e.spec_moved(waypoints, dt_ms),
            waypoints,
            dt_ms,
            (first - 1) as nat,
            second,
        );
    }
}

/// No part of a step is lost: an enemy that walks for `ticks` ticks has
/// been granted `ticks` times its speed times the time step, to the last
/// millionth, and stands where that whole way puts it. It walks on for as
/// long as the distance left, rounded, exceeds the step; that distance being
/// no shorter before the last of the ticks than before the others, the last
/// decides.
pub proof fn lemma_no_step_is_lost(e: Enemy, waypoints: Seq<Vec2>, dt_ms: int, ticks: nat)
    requires
        e.wf(),
        waypoints_in_range(waypoints),
        e.target.path_index < waypoints.len() <= usize::MAX,
        0 <= dt_ms <= DT_LIMIT,
        ticks > 0,
        round_to_unit(
            e.leg_to(waypoints[e.target.path_index as int]).norm() - (e.walked + (ticks - 1)
                * travel(e.target.speed as int, dt_ms)) / 1000,
        ) * 1000 > travel(e.target.speed as int, dt_ms),
    ensures
        after_ticks(e, waypoints, dt_ms, ticks) == e.stepped_toward(
            waypoints[e.target.path_index as int],
            ticks * travel(e.target.speed as int, dt_ms),
        ),
        after_ticks(e, waypoints, dt_ms, ticks).walked == e.walked + ticks * travel(
            e.target.speed as int,
            dt_ms,
        ),
        after_ticks(e, waypoints, dt_ms, ticks).target.path_index == e.target.path_index,
    decreases ticks,
{
    let step = travel(e.target.speed as int, dt_ms);
    let waypoint = waypoints[e.target.path_index as int];
    assert(0 <= step) by (nonlinear_arith)
        requires
            step == e.target.speed * dt_ms,
            0 <= e.target.speed,
            0 <= dt_ms,
    ;
    assert(0 <= (ticks - 1) * step && (ticks - 1) * step + step == ticks * step) by (nonlinear_arith)
        requires
            0 <= step,
            ticks >= 1,
    ;
    assert(e.walks_on(waypoint, step));
    lemma_walking_covers_the_step(e, waypoint, step);
    let next = e.spec_moved(waypoints, dt_ms);
    assert(after_ticks(next, waypoints, dt_ms, 0) == next);
    if ticks > 1 {
        assert((ticks - 2) * step + step == (ticks - 1) * step) by (nonlinear_arith);
        assert(0 <= (ticks - 2) * step) by (nonlinear_arith)
            requires
                0 <= step,
                ticks >= 2,
        ;
        lemma_no_step_is_lost(next, waypoints, dt_ms, (ticks - 1) as nat);
        assert(next.stepped_toward(waypoint, (ticks - 1) * step) == e.stepped_toward(
            waypoint,
            ticks * step,
        ));
    } else {
        assert(ticks * step == step) by (nonlinear_arith)
            requires
                ticks == 1,
        ;
    }
}

/// The most ticks that an enemy takes to turn to its next waypoint when it
/// has `walked` millionths of a leg of `len` thousandths behind it and
/// covers `step` millionths a tick: the ticks that it walks, which end
/// within half a unit of the waypoint, and the tick on which it turns.
pub open spec fn ticks_to_turn(len: int, walked: int, step: int) -> nat {
    let ahead = (len - 500) * 1000 + 999 - walked;
    if ahead < 0 {
        1
    } else {
        (ahead / step + 2) as nat
    }
}

/// An enemy reaches its waypoint neither early nor late. For every time
/// step of a millisecond or more there is a tick on which the enemy turns to
/// its next waypoint, and that tick comes when the step has been granted
/// often enough to bring the enemy within half a unit of the waypoint: not
/// before, and at most one walking tick and the turning tick after. Until
/// then every tick has granted it the whole step. Where it turns, the
/// distance left rounds to no more than a step, the enemy has not passed the
/// waypoint by more than a step can, it stands within two thousandths of
/// where its way puts it, and it sets out from there.
pub proof fn lemma_turning_tick(e: Enemy, waypoints: Seq<Vec2>, dt_ms: int) -> (tick: nat)
    requires
        e.wf(),
        waypoints_in_range(waypoints),
        e.target.path_index < waypoints.len() <= usize::MAX,
        1 <= dt_ms <= DT_LIMIT,
        on_its_way(
            e,
            waypoints[e.target.path_index as int],
            travel(e.target.speed as int, dt_ms),
        ),
    ensures
        1 <= tick <= ticks_to_turn(
            e.leg_to(waypoints[e.target.path_index as int]).norm(),
            e.walked as int,
            travel(e.target.speed as int, dt_ms),
        ),
        tick * travel(e.target.speed as int, dt_ms) >= (e.leg_to(
            waypoints[e.target.path_index as int],
        ).norm() - 499) * 1000 - e.walked,
        after_ticks(e, waypoints, dt_ms, (tick - 1) as nat).target.path_index
            == e.target.path_index,
        after_ticks(e, waypoints, dt_ms, tick).wf(),
        after_ticks(e, waypoints, dt_ms, tick).id == e.id,
        after_ticks(e, waypoints, dt_ms, tick).target.path_index == e.target.path_index + 1,
        after_ticks(e, waypoints, dt_ms, tick).target.speed == e.target.speed,
        has_set_out(after_ticks(e, waypoints, dt_ms, tick)),
        ({
            let step = travel(e.target.speed as int, dt_ms);
            let way = e.walked + (tick - 1) * step;
            let left = e.leg_to(waypoints[e.target.path_index as int]).norm() - way / 1000;
            &&& round_to_unit(left) * 1000 <= step
            &&& left * 1000 >= -overshoot(step)
            &&& after_ticks(e, waypoints, dt_ms, tick).leg_start.spec_to(
                waypoints[e.target.path_index as int],
            ).norm() <= abs(left) + 2
        }),
    decreases e.leg_to(waypoints[e.target.path_index as int]).norm() * 1000 + 1_000_000 - e.walked,
{
    let step = travel(e.target.speed as int, dt_ms);
    let waypoint = waypoints[e.target.path_index as int];
    let len = e.leg_to(waypoint).norm();
    assert(1 <= step) by (nonlinear_arith)
        requires
            step == e.target.speed * dt_ms,
            1 <= e.target.speed,
            1 <= dt_ms,
    ;
    lemma_length_of(e.leg_to(waypoint));
    let next = e.spec_moved(waypoints, dt_ms);
    lemma_moved_is_wf(e, waypoints, dt_ms);
    assert(after_ticks(next, waypoints, dt_ms, 0) == next);
    assert(after_ticks(e, waypoints, dt_ms, 0) == e);
    assert(after_ticks(e, waypoints, dt_ms, 1) == next);
    if !e.walks_on(waypoint, step) {
        if (len - 500) * 1000 + 999 - e.walked >= 0 {
            lemma_div_pos_is_pos((len - 500) * 1000 + 999 - e.walked, step);
        }
        assert(0 * step == 0) by (nonlinear_arith);
        1
    } else {
        lemma_walking_covers_the_step(e, waypoint, step);
        let rest = lemma_turning_tick(next, waypoints, dt_ms);
        lemma_ticks_add_up(e, waypoints, dt_ms, 1, rest);
        lemma_ticks_add_up(e, waypoints, dt_ms, 1, (rest - 1) as nat);
        let ahead = (len - 500) * 1000 + 999 - e.walked;
        assert(ahead >= 0);
        lemma_div_pos_is_pos(ahead, step);
        if ahead - step >= 0 {
            lemma_div_pos_is_pos(ahead - step, step);
            assert((ahead - step) / step + 1 == ahead / step) by (nonlinear_arith)
                requires
                    0 < step,
            ;
        }
        assert((rest + 1) * step == rest * step + step) by (nonlinear_arith);
        assert(step + (rest - 1) * step == rest * step) by (nonlinear_arith);
        rest + 1
    }
}

/// The product of the squared lengths of two vectors is the square of
/// their dot product and the square of their cross product together.
proof fn lemma_lagrange(ux: int, uy: int, vx: int, vy: int)
    ensures
        (ux * ux + uy * uy) * (vx * vx + vy * vy) == (ux * vx + uy * vy) * (ux * vx + uy * vy) + (
        ux * vy - uy * vx) * (ux * vy - uy * vx),
{
    let p = ux * vx;
    let q = uy * vy;
    let r = ux * vy;
    let t = uy * vx;
    lemma_square_of_product(ux, vx);
    lemma_square_of_product(uy, vy);
    lemma_square_of_product(ux, vy);
    lemma_square_of_product(uy, vx);
    lemma_binomial(p, q);
    lemma_binomial(r, -t);
    assert((-t) * (-t) == t * t) by (nonlinear_arith);
    assert(r * (-t) == -(r * t)) by (nonlinear_arith);
    assert(p * q == r * t) by (nonlinear_arith)
        requires
            p == ux * vx,
            q == uy * vy,
            r == ux * vy,
            t == uy * vx,
    ;
    let uu = ux * ux + uy * uy;
    lemma_factor_of_sum(uu, vx * vx, vy * vy);
    assert(uu * (vx * vx) == (ux * ux) * (vx * vx) + (uy * uy) * (vx * vx)) by (nonlinear_arith)
        requires
            uu == ux * ux + uy * uy,
    ;
    assert(uu * (vy * vy) == (ux * ux) * (vy * vy) + (uy * uy) * (vy * vy)) by (nonlinear_arith)
        requires
            uu == ux * ux + uy * uy,
    ;
}

/// The squared length of a sum of two vectors.
proof fn lemma_square_of_sum(ux: int, uy: int, vx: int, vy: int)
    by (nonlinear_arith)
    ensures
        (ux + vx) * (ux + vx) + (uy + vy) * (uy + vy) == (ux * ux + uy * uy) + (vx * vx + vy * vy)
            + 2 * (ux * vx + uy * vy),
{
}

/// The square of a sum of two numbers.
proof fn lemma_binomial(p: int, q: int)
    by (nonlinear_arith)
    ensures
        (p + q) * (p + q) == p * p + q * q + 2 * (p * q),
{
}

/// A product of two numbers, each below a bound, is below the product of
/// the bounds.
proof fn lemma_product_below(x: int, x_bound: int, y: int, y_bound: int)
    by (nonlinear_arith)
    requires
        0 <= x < x_bound,
        0 <= y < y_bound,
    ensures
        x * y < x_bound * y_bound,
{
}

/// The triangle inequality for lengths rounded down: the length of a sum of
/// two vectors exceeds the sum of their lengths by one at most.
pub proof fn lemma_triangle(ux: int, uy: int, vx: int, vy: int)
    ensures
        floor_sqrt((ux + vx) * (ux + vx) + (uy + vy) * (uy + vy)) <= floor_sqrt(ux * ux + uy * uy)
            + floor_sqrt(vx * vx + vy * vy) + 1,
        0 <= floor_sqrt(ux * ux + uy * uy),
        0 <= floor_sqrt(vx * vx + vy * vy),
{
    let uu = ux * ux + uy * uy;
    let vv = vx * vx + vy * vy;
    let dot = ux * vx + uy * vy;
    let cross = ux * vy - uy * vx;
    lemma_square_nonnegative(ux);
    lemma_square_nonnegative(uy);
    lemma_square_nonnegative(vx);
    lemma_square_nonnegative(vy);
    lemma_square_nonnegative(ux + vx);
    lemma_square_nonnegative(uy + vy);
    lemma_square_nonnegative(cross);
    lemma_floor_sqrt_exists(uu);
    lemma_floor_sqrt_exists(vv);
    let a = floor_sqrt(uu) + 1;
    let b = floor_sqrt(vv) + 1;
    let p = a * b;
    lemma_lagrange(ux, uy, vx, vy);
    lemma_product_below(uu, a * a, vv, b * b);
    lemma_square_of_product(a, b);
    assert(dot * dot < p * p);
    assert(0 < p) by (nonlinear_arith)
        requires
            p == a * b,
            0 < a,
            0 < b,
    ;
    if dot >= p {
        lemma_square_monotone(p, dot);
    }
    lemma_square_of_sum(ux, uy, vx, vy);
    lemma_binomial(a, b);
    lemma_floor_sqrt_between((ux + vx) * (ux + vx) + (uy + vy) * (uy + vy), 0, a + b);
}

/// The length of the leg of the path that ends in the waypoint `k`, rounded
/// down.
pub open spec fn leg(waypoints: Seq<Vec2>, k: int) -> int {
    waypoints[k - 1].spec_to(waypoints[k]).norm()
}

/// The length of the path from the waypoint `from` to its end: the sum of
/// the legs, each rounded down.
pub open spec fn path_length(waypoints: Seq<Vec2>, from: int) -> int
    decreases waypoints.len() - from,
{
    if from + 1 >= waypoints.len() || from < 0 {
        0
    } else {
        leg(waypoints, from + 1) + path_length(waypoints, from + 1)
    }
}

/// An enemy heads for no earlier waypoint after more ticks than after
/// fewer.
pub proof fn lemma_later_is_further(e: Enemy, waypoints: Seq<Vec2>, dt_ms: int, fewer: nat, more: nat)
    requires
        e.wf(),
        waypoints_in_range(waypoints),
        waypoints.len() <= usize::MAX,
        0 <= dt_ms <= DT_LIMIT,
        fewer <= more,
    ensures
        after_ticks(e, waypoints, dt_ms, fewer).target.path_index <= after_ticks(
            e,
            waypoints,
            dt_ms,
            more,
        ).target.path_index,
{
    lemma_ticks_add_up(e, waypoints, dt_ms, fewer, (more - fewer) as nat);
    lemma_walking_never_turns_back(e, waypoints, dt_ms, fewer);
    lemma_walking_never_turns_back(
        after_ticks(e, waypoints, dt_ms, fewer),
        waypoints,
        dt_ms,
        (more - fewer) as nat,
    );
}

/// A path of one leg takes the time of its length. An enemy that sets out
/// at the first of two waypoints, `len` thousandths from the second, leaves
/// the path on a tick that exists for every time step of a millisecond or
/// more, and not on any tick before it. By the tick before that one the
/// steps granted since the first tick, on which the enemy only turns to the
/// second waypoint, have brought it within half a unit of the second
/// waypoint; and all the ticks are no more than the steps that this takes,
/// and three: the two ticks on which it turns, and one on which the last
/// step is rounded up.
pub proof fn lemma_one_leg_takes_its_time(e: Enemy, waypoints: Seq<Vec2>, dt_ms: int) -> (ticks: nat)
    requires
        e.wf(),
        waypoints_in_range(waypoints),
        waypoints.len() == 2,
        1 <= dt_ms <= DT_LIMIT,
        e.target.path_index == 0,
        has_set_out(e),
        e.leg_start == waypoints[0],
    ensures
        2 <= ticks <= ticks_to_turn(
            leg(waypoints, 1),
            0,
            travel(e.target.speed as int, dt_ms),
        ) + 1,
        (ticks - 1) * travel(e.target.speed as int, dt_ms) >= (leg(waypoints, 1) - 499) * 1000,
        after_ticks(e, waypoints, dt_ms, ticks).breached(2),
        forall|k: nat| k < ticks ==> !(#[trigger] after_ticks(e, waypoints, dt_ms, k)).breached(2),
{
    let step = travel(e.target.speed as int, dt_ms);
    let first = waypoints[0];
    // Standing on the first waypoint, the enemy turns on the first tick.
    let d = e.leg_to(first);
    assert(d.x == 0 && d.y == 0);
    assert(d.norm_sq() == 0) by (nonlinear_arith)
        requires
            d.x == 0,
            d.y == 0,
            d.norm_sq() == d.x * d.x + d.y * d.y,
    ;
    lemma_floor_sqrt_between(0, 0, 1);
    assert(on_its_way(e, first, step));
    let turn = lemma_turning_tick(e, waypoints, dt_ms);
    assert(turn == 1);
    let turned = after_ticks(e, waypoints, dt_ms, 1);
    assert(after_ticks(e.spec_moved(waypoints, dt_ms), waypoints, dt_ms, 0) == e.spec_moved(
        waypoints,
        dt_ms,
    ));
    assert(turned.leg_start == first);
    // From there it walks the leg.
    lemma_length_of(turned.leg_to(waypoints[1]));
    assert(on_its_way(turned, waypoints[1], step));
    let rest = lemma_turning_tick(turned, waypoints, dt_ms);
    lemma_ticks_add_up(e, waypoints, dt_ms, 1, rest);
    lemma_ticks_add_up(e, waypoints, dt_ms, 1, (rest - 1) as nat);
    let ticks = rest + 1;
    assert forall|k: nat| k < ticks implies !(#[trigger] after_ticks(
        e,
        waypoints,
        dt_ms,
        k,
    )).breached(2) by {
        lemma_later_is_further(e, waypoints, dt_ms, k, rest);
    }
    ticks
}

/// What a waypoint may cost an enemy beyond the way to it, in millionths:
/// four thousandths of rounding, and twice what a step can take it past the
/// waypoint, which it has to make good.
pub open spec fn waypoint_slack(step: int) -> int {
    4000 + 2 * overshoot(step)
}

/// The most way that an enemy which has just set out walks before it leaves
/// the path, in millionths: its leg, the legs that follow, and for every
/// waypoint ahead what it may cost.
pub open spec fn way_to_breach(e: Enemy, waypoints: Seq<Vec2>, step: int) -> int {
    let ahead = waypoints.len() - e.target.path_index;
    e.leg_to(waypoints[e.target.path_index as int]).norm() * 1000 + path_length(
        waypoints,
        e.target.path_index as int,
    ) * 1000 + ahead * waypoint_slack(step)
}

/// The most ticks that an enemy which has just set out takes to leave the
/// path: the ticks in which its steps make up the way, and one tick for
/// every waypoint ahead, on which it turns.
pub open spec fn ticks_to_breach(e: Enemy, waypoints: Seq<Vec2>, dt_ms: int) -> int {
    let step = travel(e.target.speed as int, dt_ms);
    way_to_breach(e, waypoints, step) / step + (waypoints.len() - e.target.path_index)
}

/// Whole steps count in full: a number of steps and a way, divided by the
/// step, are the number and the way divided by the step.
proof fn lemma_whole_steps(steps: int, way: int, step: int)
    requires
        0 < step,
    ensures
        (steps * step + way) / step == steps + way / step,
        (steps * step) / step == steps,
{
    lemma_fundamental_div_mod(way, step);
    let q = way / step;
    let r = way % step;
    assert(steps * step + way == (steps + q) * step + r) by (nonlinear_arith)
        requires
            way == step * q + r,
    ;
    lemma_fundamental_div_mod_converse(steps * step + way, step, steps + q, r);
    lemma_fundamental_div_mod_converse(steps * step, step, steps, 0);
}

/// The path is never negative in length.
proof fn lemma_path_length_is_no_less_than_nothing(waypoints: Seq<Vec2>, from: int)
    ensures
        0 <= path_length(waypoints, from),
    decreases waypoints.len() - from,
{
    if !(from + 1 >= waypoints.len() || from < 0) {
        lemma_path_length_is_no_less_than_nothing(waypoints, from + 1);
        lemma_length_of(waypoints[from].spec_to(waypoints[from + 1]));
    }
}

/// Every enemy walks the path to its end in time. For every time step of a
/// millisecond or more, an enemy that has just set out has passed the last
/// waypoint after [`ticks_to_breach`] ticks, and stays past it ever after:
/// after the ticks whose steps make up the way from where it stands to its
/// waypoint and on along the legs of the path, and for every waypoint ahead
/// the one tick on which it turns and the steps that make up four
/// thousandths of rounding and twice what a step can take it past a
/// waypoint. The half unit within which a waypoint counts as reached only
/// shortens the walk.
pub proof fn lemma_path_is_walked_in_time(e: Enemy, waypoints: Seq<Vec2>, dt_ms: int, ticks: nat)
    requires
        e.wf(),
        waypoints_in_range(waypoints),
        e.target.path_index < waypoints.len() <= usize::MAX,
        1 <= dt_ms <= DT_LIMIT,
        has_set_out(e),
        ticks >= ticks_to_breach(e, waypoints, dt_ms),
    ensures
        after_ticks(e, waypoints, dt_ms, ticks).breached(waypoints.len()),
    decreases waypoints.len() - e.target.path_index,
{
    let step = travel(e.target.speed as int, dt_ms);
    assert(1 <= step) by (nonlinear_arith)
        requires
            step == e.target.speed * dt_ms,
            1 <= e.target.speed,
            1 <= dt_ms,
    ;
    let i = e.target.path_index as int;
    let old = waypoints[i];
    let len = e.leg_to(old).norm();
    let ahead_count = waypoints.len() - i;
    let slack = waypoint_slack(step);
    lemma_length_of(e.leg_to(old));
    assert(on_its_way(e, old, step));
    let turn = lemma_turning_tick(e, waypoints, dt_ms);
    let turned = after_ticks(e, waypoints, dt_ms, turn);
    let way = (turn - 1) * step;
    let left = len - way / 1000;
    assert(0 <= way) by (nonlinear_arith)
        requires
            way == (turn - 1) * step,
            1 <= turn,
            0 < step,
    ;
    lemma_whole_steps(turn - 1, 0, step);
    lemma_path_length_is_no_less_than_nothing(waypoints, i);
    let budget = way_to_breach(e, waypoints, step);
    assert(ahead_count * slack >= slack) by (nonlinear_arith)
        requires
            ahead_count >= 1,
            slack >= 0,
    ;
    // The way walked on this leg is within what the leg and one waypoint
    // may take.
    assert(way <= len * 1000 + abs(left) * 1000 + 999);
    assert(way <= budget);
    lemma_div_is_ordered(way, budget, step);
    assert(turn <= ticks);
    let rest = (ticks - turn) as nat;
    lemma_ticks_add_up(e, waypoints, dt_ms, turn, rest);
    if i + 1 >= waypoints.len() {
        lemma_walking_never_turns_back(turned, waypoints, dt_ms, rest);
    } else {
        // From where it turns, the enemy is no farther from its new waypoint
        // than the leg and its distance from the old waypoint together.
        let new = waypoints[i + 1];
        let back = turned.leg_start.spec_to(old);
        let along = old.spec_to(new);
        let onward = turned.leg_start.spec_to(new);
        assert(old.within(WAYPOINT_LIMIT as int));
        assert(new.within(WAYPOINT_LIMIT as int));
        assert(onward.x == back.x + along.x && onward.y == back.y + along.y);
        lemma_triangle(back.x as int, back.y as int, along.x as int, along.y as int);
        assert(onward.norm_sq() == (back.x + along.x) * (back.x + along.x) + (back.y + along.y) * (
        back.y + along.y));
        assert(onward.norm() <= back.norm() + along.norm() + 1);
        lemma_length_of(onward);
        let next_budget = way_to_breach(turned, waypoints, step);
        assert((ahead_count - 1) * slack + slack == ahead_count * slack) by (nonlinear_arith);
        assert(path_length(waypoints, i) == leg(waypoints, i + 1) + path_length(waypoints, i + 1));
        assert(way + next_budget <= budget);
        lemma_whole_steps(turn - 1, next_budget, step);
        lemma_div_is_ordered(way + next_budget, budget, step);
        lemma_path_is_walked_in_time(turned, waypoints, dt_ms, rest);
    }
}

/// The least way that an enemy which has just set out walks before it
/// leaves the path, in millionths: its leg and the legs that follow, less,
/// for every waypoint ahead, the unit that turning within half a unit of a
/// waypoint can save it before and after the waypoint, and a step.
pub open spec fn way_before_breach(e: Enemy, waypoints: Seq<Vec2>, step: int) -> int {
    let ahead = waypoints.len() - e.target.path_index;
    e.leg_to(waypoints[e.target.path_index as int]).norm() * 1000 + path_length(
        waypoints,
        e.target.path_index as int,
    ) * 1000 - ahead * (step + 1_002_000)
}

/// No enemy leaves the path early. For every time step of a millisecond or
/// more, an enemy that has just set out and has left the path after some
/// ticks has had, in those ticks, the steps that make up at least
/// [`way_before_breach`], and a tick for every waypoint.
pub proof fn lemma_path_is_not_walked_early(e: Enemy, waypoints: Seq<Vec2>, dt_ms: int, ticks: nat)
    requires
        e.wf(),
        waypoints_in_range(waypoints),
        e.target.path_index < waypoints.len() <= usize::MAX,
        1 <= dt_ms <= DT_LIMIT,
        has_set_out(e),
        after_ticks(e, waypoints, dt_ms, ticks).breached(waypoints.len()),
    ensures
        ticks * travel(e.target.speed as int, dt_ms) >= way_before_breach(
            e,
            waypoints,
            travel(e.target.speed as int, dt_ms),
        ),
        ticks >= waypoints.len() - e.target.path_index,
    decreases waypoints.len() - e.target.path_index,
{
    let step = travel(e.target.speed as int, dt_ms);
    assert(1 <= step) by (nonlinear_arith)
        requires
            step == e.target.speed * dt_ms,
            1 <= e.target.speed,
            1 <= dt_ms,
    ;
    let i = e.target.path_index as int;
    let old = waypoints[i];
    let len = e.leg_to(old).norm();
    lemma_length_of(e.leg_to(old));
    assert(on_its_way(e, old, step));
    let turn = lemma_turning_tick(e, waypoints, dt_ms);
    if ticks < turn {
        lemma_later_is_further(e, waypoints, dt_ms, ticks, (turn - 1) as nat);
    }
    let turned = after_ticks(e, waypoints, dt_ms, turn);
    let rest = (ticks - turn) as nat;
    lemma_ticks_add_up(e, waypoints, dt_ms, turn, rest);
    assert(ticks * step == turn * step + rest * step) by (nonlinear_arith)
        requires
            ticks == turn + rest,
    ;
    assert(0 <= rest * step) by (nonlinear_arith)
        requires
            0 <= rest,
            0 < step,
    ;
    let ahead_count = waypoints.len() - i;
    let cost = step + 1_002_000;
    assert((ahead_count - 1) * cost + cost == ahead_count * cost) by (nonlinear_arith);
    if i + 1 < waypoints.len() {
        let new = waypoints[i + 1];
        let back = turned.leg_start.spec_to(old);
        let along = old.spec_to(new);
        let onward = turned.leg_start.spec_to(new);
        assert(old.within(WAYPOINT_LIMIT as int));
        assert(new.within(WAYPOINT_LIMIT as int));
        assert(along.x == onward.x - back.x && along.y == onward.y - back.y);
        // The leg is no longer than the way round by where the enemy stands.
        lemma_triangle(onward.x as int, onward.y as int, -back.x, -back.y);
        assert((-back.x) * (-back.x) + (-back.y) * (-back.y) == back.norm_sq()) by (nonlinear_arith)
            requires
                back.norm_sq() == back.x * back.x + back.y * back.y,
        ;
        assert(along.norm_sq() == (onward.x + (-back.x)) * (onward.x + (-back.x)) + (onward.y + (
        -back.y)) * (onward.y + (-back.y)));
        assert(along.norm() <= onward.norm() + back.norm() + 1);
        assert(path_length(waypoints, i) == leg(waypoints, i + 1) + path_length(waypoints, i + 1));
        lemma_path_is_not_walked_early(turned, waypoints, dt_ms, rest);
    } else {
        assert(path_length(waypoints, i) == 0);
        assert(0 * cost == 0) by (nonlinear_arith);
    }
}

} // verus!
