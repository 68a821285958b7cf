//! The movement step: from where a unit wants to go to the velocity and the
//! turn it asks of the physics side.

use vstd::prelude::*;
use crate::components::{MeleeAbilityState, Velocity};
use crate::geometry::{dist2, Position};
use crate::orders::Mover;
use crate::world::{slot_view, snapshot, Attackable, Turn, UnitBundle, UnitView, World};

verus! {

/// A unit closer to its goal than this many world units has arrived.
pub const ARRIVAL_EPSILON: u32 = 2;

/// Frames per second of the reference step against which overshooting is
/// judged.
pub const FRAME_RATE: u32 = 60;

/// `r` is the integer square root of `n`.
pub open spec fn is_sqrt(n: int, r: int) -> bool {
    0 <= r && r * r <= n < (r + 1) * (r + 1)
}

/// The integer square root: the largest number whose square is at most `n`.
pub open spec fn isqrt(n: int) -> int {
    choose|r: int| is_sqrt(n, r)
}

/// A number has one integer square root.
pub proof fn lemma_sqrt_unique(n: int, a: int, b: int)
    requires
        is_sqrt(n, a),
        is_sqrt(n, b),
    ensures
        a == b,
{
    if a < b {
        assert((a + 1) * (a + 1) <= b * b) by (nonlinear_arith)
            requires
                0 <= a + 1 <= b,
        ;
    } else if b < a {
        assert((b + 1) * (b + 1) <= a * a) by (nonlinear_arith)
            requires
                0 <= b + 1 <= a,
        ;
    }
}

/// Every number that is not negative has an integer square root.
pub proof fn lemma_sqrt_exists(n: int)
    requires
        0 <= n,
    ensures
        is_sqrt(n, isqrt(n)),
    decreases n,
{
    if n == 0 {
        assert(is_sqrt(0, 0));
    } else {
        lemma_sqrt_exists(n - 1);
        let r = isqrt(n - 1);
        if (r + 1) * (r + 1) <= n {
            assert((r + 2) * (r + 2) > (r + 1) * (r + 1) + 1) by (nonlinear_arith)
                requires
                    0 <= r,
            ;
            assert(is_sqrt(n, r + 1));
        } else {
            assert(is_sqrt(n, r));
        }
    }
}

/// Computes the integer square root by bisection.
pub fn integer_sqrt(n: u128) -> (r: u64)
    ensures
        is_sqrt(n as int, r as int),
        r == isqrt(n as int),
{
    let mut lo: u128 = 0;
    let mut hi: u128 = 0x1_0000_0000_0000_0000;
    assert(hi * hi > n) by (nonlinear_arith)
        requires
            hi == 0x1_0000_0000_0000_0000,
            n <= u128::MAX,
    ;
    while hi - lo > 1
        invariant
            lo < hi <= 0x1_0000_0000_0000_0000,
            lo * lo <= n < hi * hi,
        decreases hi - lo,
    {
        let mid: u128 = lo + (hi - lo) / 2;
        assert(mid * mid <= 0xFFFF_FFFF_FFFF_FFFF * 0xFFFF_FFFF_FFFF_FFFF) by (nonlinear_arith)
            requires
                0 <= mid <= 0xFFFF_FFFF_FFFF_FFFF,
        ;
        if mid * mid <= n {
            lo = mid;
        } else {
            hi = mid;
        }
    }
    proof {
        assert(hi == lo + 1);
        assert(is_sqrt(n as int, lo as int));
        lemma_sqrt_unique(n as int, lo as int, isqrt(n as int));
    }
    lo as u64
}

// ---------------------------------------------------------------------------
// Turning
// ---------------------------------------------------------------------------
/// The tangent of the tolerated angle between facing and goal, five degrees,
/// as the fraction `TOLERANCE_NUM / TOLERANCE_DEN`.
pub const TOLERANCE_NUM: i128 = 874_887;

/// See `TOLERANCE_NUM`.
pub const TOLERANCE_DEN: i128 = 10_000_000;

/// The absolute value.
pub open spec fn magnitude(v: int) -> int {
    if v < 0 {
        -v
    } else {
        v
    }
}

/// The scalar product of `facing` and `(dx, dy)`: positive when they point
/// the same way.
pub open spec fn dot(facing: Position, dx: int, dy: int) -> int {
    facing.x * dx + facing.y * dy
}

/// The cross product of `facing` and `(dx, dy)`: zero when they lie on one
/// line.
pub open spec fn cross(facing: Position, dx: int, dy: int) -> int {
    facing.x * dy - facing.y * dx
}

/// `facing` points within five degrees of the direction `(dx, dy)`.
pub open spec fn aligned(facing: Position, dx: int, dy: int) -> bool {
    dot(facing, dx, dy) > 0 && magnitude(cross(facing, dx, dy)) * TOLERANCE_DEN <= dot(
        facing,
        dx,
        dy,
    ) * TOLERANCE_NUM
}

/// The turn a unit at `from` that looks along `facing` asks for in order to
/// look at `to`: none if it already looks there within five degrees, or if
/// `to` is where it stands.
pub open spec fn turn_request(
    facing: Position,
    from: Position,
    to: Position,
    max_millidegrees: u64,
) -> Option<Turn> {
    let dx = to.x - from.x;
    let dy = to.y - from.y;
    if (dx == 0 && dy == 0) || aligned(facing, dx, dy) {
        None
    } else {
        Some(Turn { toward_x: dx as i64, toward_y: dy as i64, max_millidegrees })
    }
}

/// A product is bounded by the product of the bounds of its factors.
pub proof fn lemma_product_bound(a: int, b: int, bound_a: int, bound_b: int)
    by (nonlinear_arith)
    requires
        -bound_a <= a <= bound_a,
        -bound_b <= b <= bound_b,
    ensures
        -(bound_a * bound_b) <= a * b <= bound_a * bound_b,
{
}

/// Decides whether a unit has to turn before it can act towards `to`, and
/// by how much at most: `max_rotation` is in thousandths of a degree.
pub fn rotate_towards(facing: Position, from: Position, to: Position, max_rotation: u64) -> (r:
    Option<Turn>)
    ensures
        r == turn_request(facing, from, to, max_rotation),
{
    let dx: i128 = to.x as i128 - from.x as i128;
    let dy: i128 = to.y as i128 - from.y as i128;
    if dx == 0 && dy == 0 {
        return None;
    }
    let fx: i128 = facing.x as i128;
    let fy: i128 = facing.y as i128;
    proof {
        lemma_product_bound(fx as int, dx as int, 0x8000_0000, 0x1_0000_0000);
        lemma_product_bound(fy as int, dy as int, 0x8000_0000, 0x1_0000_0000);
        lemma_product_bound(fx as int, dy as int, 0x8000_0000, 0x1_0000_0000);
        lemma_product_bound(fy as int, dx as int, 0x8000_0000, 0x1_0000_0000);
    }
    let d: i128 = fx * dx + fy * dy;
    let c: i128 = fx * dy - fy * dx;
    let c_abs: i128 = if c < 0 {
        -c
    } else {
        c
    };
    if d > 0 && c_abs * TOLERANCE_DEN <= d * TOLERANCE_NUM {
        None
    } else {
        Some(Turn { toward_x: dx as i64, toward_y: dy as i64, max_millidegrees: max_rotation })
    }
}

// ---------------------------------------------------------------------------
// Velocity
// ---------------------------------------------------------------------------
/// The length of the offset `(dx, dy)` in thousandths of a world unit,
/// rounded down.
pub open spec fn length_milli(dx: int, dy: int) -> int {
    isqrt((dx * dx + dy * dy) * 1_000_000)
}

/// The speed, in thousandths of a world unit per second, of a unit that is
/// `(dx, dy)` from its goal.
///
/// It is the unit's own speed, unless the goal is less than one reference
/// frame of travel away: then it is the distance the unit would cover in
/// `dt` milliseconds, at most the distance to the goal, divided by the frame
/// rate.
pub open spec fn speed_to_apply(dx: int, dy: int, speed: u32, dt: u32) -> int {
    if FRAME_RATE * FRAME_RATE * (dx * dx + dy * dy) < speed * speed {
        let travel = speed * dt;
        let step = if travel < length_milli(dx, dy) {
            travel
        } else {
            length_milli(dx, dy)
        };
        step / (FRAME_RATE as int)
    } else {
        speed * 1000
    }
}

/// The share `d / len` of `speed`, rounded towards zero; `len` is in
/// thousandths.
pub open spec fn scaled(d: int, speed: int, len: int) -> int {
    if len <= 0 {
        0
    } else if d >= 0 {
        (d * 1000 * speed) / len
    } else {
        -(((-d) * 1000 * speed) / len)
    }
}

/// The velocity of a unit that is `(dx, dy)` from its goal: along the
/// offset, as fast as `speed_to_apply` says.
pub open spec fn seek_velocity(dx: int, dy: int, speed: u32, dt: u32) -> Velocity {
    let len = length_milli(dx, dy);
    let v = speed_to_apply(dx, dy, speed, dt);
    Velocity { x: scaled(dx, v, len) as i64, y: scaled(dy, v, len) as i64 }
}

/// A component of an offset is never longer than the offset.
pub proof fn lemma_component_within_length(d: int, other: int, len: int)
    requires
        is_sqrt((d * d + other * other) * 1_000_000, len),
    ensures
        magnitude(d) * 1000 <= len,
{
    let a = magnitude(d) * 1000;
    assert(a * a == d * d * 1_000_000) by (nonlinear_arith)
        requires
            a == magnitude(d) * 1000,
    ;
    assert(other * other >= 0) by (nonlinear_arith);
    if a > len {
        assert((len + 1) * (len + 1) <= a * a) by (nonlinear_arith)
            requires
                0 <= len + 1 <= a,
        ;
    }
}

/// A share of a speed is never more than the speed.
pub proof fn lemma_share_bound(a: int, speed: int, len: int)
    requires
        0 <= a <= len,
        0 < len,
        0 <= speed,
    ensures
        0 <= (a * speed) / len <= speed,
{
    assert(a * speed <= len * speed) by (nonlinear_arith)
        requires
            0 <= a <= len,
            0 <= speed,
    ;
    assert(0 <= a * speed) by (nonlinear_arith)
        requires
            0 <= a,
            0 <= speed,
    ;
    vstd::arithmetic::div_mod::lemma_div_is_ordered(a * speed, len * speed, len);
    vstd::arithmetic::div_mod::lemma_div_multiples_vanish(speed, len);
    vstd::arithmetic::div_mod::lemma_div_is_ordered(0, a * speed, len);
}

/// A unit is never asked to go faster than its speed, and never away from
/// its goal: each component of its velocity has the sign of the offset and
/// is at most the speed.
pub proof fn lemma_velocity_bounded(dx: int, dy: int, speed: u32, dt: u32)
    requires
        -0x1_0000_0000 < dx < 0x1_0000_0000,
        -0x1_0000_0000 < dy < 0x1_0000_0000,
    ensures
        0 <= speed_to_apply(dx, dy, speed, dt) <= speed * 1000,
        magnitude(seek_velocity(dx, dy, speed, dt).x as int) <= speed * 1000,
        magnitude(seek_velocity(dx, dy, speed, dt).y as int) <= speed * 1000,
        dx >= 0 ==> seek_velocity(dx, dy, speed, dt).x >= 0,
        dx <= 0 ==> seek_velocity(dx, dy, speed, dt).x <= 0,
        dy >= 0 ==> seek_velocity(dx, dy, speed, dt).y >= 0,
        dy <= 0 ==> seek_velocity(dx, dy, speed, dt).y <= 0,
{
    let n = (dx * dx + dy * dy) * 1_000_000;
    assert(dx * dx >= 0 && dy * dy >= 0) by (nonlinear_arith);
    lemma_sqrt_exists(n);
    let len = length_milli(dx, dy);
    let v = speed_to_apply(dx, dy, speed, dt);
    assert(0 <= v <= speed * 1000) by {
        if FRAME_RATE * FRAME_RATE * (dx * dx + dy * dy) < speed * speed {
            let travel = speed * dt;
            assert(0 <= travel) by (nonlinear_arith)
                requires
                    travel == speed * dt,
                    0 <= speed,
                    0 <= dt,
            ;
            // the goal is less than a frame of travel away
            assert(len * len <= n);
            assert(FRAME_RATE * FRAME_RATE == 3600) by (nonlinear_arith)
                requires
                    FRAME_RATE == 60,
            ;
            if len > speed * 1000 {
                assert((speed * 1000) * (speed * 1000) < len * len) by (nonlinear_arith)
                    requires
                        0 <= speed * 1000 < len,
                ;
                assert((speed * 1000) * (speed * 1000) == speed * speed * 1_000_000)
                    by (nonlinear_arith);
                assert(false);
            }
        }
    }
    lemma_component_within_length(dx, dy, len);
    assert((dy * dy + dx * dx) * 1_000_000 == n);
    lemma_component_within_length(dy, dx, len);
    lemma_scaled_bounded(dx, v, len);
    lemma_scaled_bounded(dy, v, len);
}

/// The share of a speed that falls to a component of the offset has the
/// sign of the component and is at most the speed.
pub proof fn lemma_scaled_bounded(d: int, speed: int, len: int)
    requires
        magnitude(d) * 1000 <= len,
        0 <= speed,
    ensures
        -speed <= scaled(d, speed, len) <= speed,
        d >= 0 ==> scaled(d, speed, len) >= 0,
        d <= 0 ==> scaled(d, speed, len) <= 0,
{
    if len > 0 {
        if d == 0 {
            assert(d * 1000 * speed == 0) by (nonlinear_arith)
                requires
                    d == 0,
            ;
            assert(0int / len == 0) by (nonlinear_arith)
                requires
                    len > 0,
            ;
        } else if d > 0 {
            lemma_share_bound(d * 1000, speed, len);
        } else {
            lemma_share_bound((-d) * 1000, speed, len);
        }
    }
}

/// One component of the velocity.
fn scale(d: i128, speed: u64, len: u64) -> (r: i64)
    requires
        magnitude(d as int) * 1000 <= len,
        speed <= 0x1_0000_0000 * 1000,
        len <= 0x1000_0000_0000,
    ensures
        r == scaled(d as int, speed as int, len as int),
        magnitude(r as int) <= speed,
{
    if len == 0 {
        return 0;
    }
    let a: u128 = if d < 0 {
        (-d) as u128
    } else {
        d as u128
    };
    let a_milli: u128 = a * 1000;
    proof {
        lemma_share_bound(a_milli as int, speed as int, len as int);
        assert(a_milli * speed <= 0x1000_0000_0000 * (0x1_0000_0000 * 1000)) by (nonlinear_arith)
            requires
                0 <= a_milli <= 0x1000_0000_0000,
                0 <= speed <= 0x1_0000_0000 * 1000,
        ;
        assert(a * 1000 * speed == a_milli * speed);
    }
    let q: u128 = a_milli * (speed as u128) / (len as u128);
    if d < 0 {
        -(q as i64)
    } else {
        q as i64
    }
}

/// Computes the velocity of a unit at `from` that heads for `to` at `speed`
/// world units per second, in a tick of `dt` milliseconds.
pub fn velocity_towards(from: Position, to: Position, speed: u32, dt: u32) -> (v: Velocity)
    ensures
        v == seek_velocity(to.x - from.x, to.y - from.y, speed, dt),
{
    let dx: i128 = to.x as i128 - from.x as i128;
    let dy: i128 = to.y as i128 - from.y as i128;
    let len2: u128 = from.distance_squared(&to);
    proof {
        crate::geometry::lemma_dist2_properties(from, to);
        assert(dist2(from, to) == dx * dx + dy * dy) by (nonlinear_arith)
            requires
                dx == to.x - from.x,
                dy == to.y - from.y,
                dist2(from, to) == (from.x - to.x) * (from.x - to.x) + (from.y - to.y) * (from.y
                    - to.y),
        ;
    }
    let len: u64 = integer_sqrt(len2 * 1_000_000);
    proof {
        lemma_component_within_length(dx as int, dy as int, len as int);
        assert((dy * dy + dx * dx) * 1_000_000 == (dx * dx + dy * dy) * 1_000_000);
        lemma_component_within_length(dy as int, dx as int, len as int);
        if len > 0x1000_0000_0000 {
            assert(0x1000_0000_0000 * 0x1000_0000_0000 < len * len) by (nonlinear_arith)
                requires
                    0x1000_0000_0000 < len,
            ;
        }
    }
    let wide: u128 = speed as u128;
    assert(wide * wide <= 0x1_0000_0000 * 0x1_0000_0000) by (nonlinear_arith)
        requires
            0 <= wide <= 0x1_0000_0000,
    ;
    let frames: u128 = 3600;
    assert(frames == FRAME_RATE * FRAME_RATE) by (nonlinear_arith)
        requires
            frames == 3600,
            FRAME_RATE == 60,
    ;
    assert(speed as u64 * dt as u64 <= 0xFFFF_FFFF * 0xFFFF_FFFF) by (nonlinear_arith)
        requires
            speed <= 0xFFFF_FFFF,
            dt <= 0xFFFF_FFFF,
    ;
    let apply: u64 = if frames * len2 < wide * wide {
        let travel: u64 = speed as u64 * dt as u64;
        let step: u64 = if travel < len {
            travel
        } else {
            len
        };
        step / (FRAME_RATE as u64)
    } else {
        speed as u64 * 1000
    };
    assert(apply == speed_to_apply(dx as int, dy as int, speed, dt));
    assert(apply <= 0x1_0000_0000 * 1000) by {
        if frames * len2 < wide * wide {
            assert(len <= 0x1000_0000_0000);
        }
    }
    Velocity { x: scale(dx, apply, len), y: scale(dy, apply, len) }
}

// ---------------------------------------------------------------------------
// The movement step
// ---------------------------------------------------------------------------
/// The most a unit may turn in a tick of `dt` milliseconds, in thousandths
/// of a degree.
pub open spec fn turn_limit(rotation_speed: u32, dt: u32) -> u64 {
    (rotation_speed * dt) as u64
}

/// One movement step of one unit. `target` is what the handle of an attack
/// in preparation resolves to.
///
/// A unit preparing a strike stands still and, if it turns before it moves,
/// turns to its target. A unit that has arrived is left alone. A unit closer
/// to its goal than `ARRIVAL_EPSILON` has arrived and stops. A unit that
/// turns before it moves and does not face its goal stands and turns. Every
/// other unit with a speed heads for its goal.
pub open spec fn mover_step(u: UnitView, target: Option<Attackable>, dt: u32) -> UnitView {
    let here = u.transform.translation;
    let goal = u.mover.target_position;
    if u.melee_ability_state is WillAttack {
        UnitView {
            velocity: Velocity::zero(),
            turn: match (u.rotate_before_move, target) {
                (Some(r), Some(t)) => turn_request(
                    u.transform.facing,
                    here,
                    t.position,
                    turn_limit(r.rotation_speed, dt),
                ),
                _ => None,
            },
            ..u
        }
    } else if u.mover.is_target_reached {
        UnitView { turn: None, ..u }
    } else if dist2(here, goal) < ARRIVAL_EPSILON * ARRIVAL_EPSILON {
        UnitView {
            mover: Mover { target_position: goal, is_target_reached: true },
            velocity: Velocity::zero(),
            turn: None,
            ..u
        }
    } else {
        let turn = match u.rotate_before_move {
            Some(r) => turn_request(
                u.transform.facing,
                here,
                goal,
                turn_limit(r.rotation_speed, dt),
            ),
            None => None,
        };
        if turn is Some {
            UnitView { velocity: Velocity::zero(), turn, ..u }
        } else if u.speed.speed == 0 {
            UnitView { turn: None, ..u }
        } else {
            UnitView {
                velocity: seek_velocity(goal.x - here.x, goal.y - here.y, u.speed.speed, dt),
                turn: None,
                ..u
            }
        }
    }
}

fn limit_of(rotation_speed: u32, dt: u32) -> (r: u64)
    ensures
        r == turn_limit(rotation_speed, dt),
{
    assert(rotation_speed as u64 * dt as u64 <= 0xFFFF_FFFF * 0xFFFF_FFFF) by (nonlinear_arith)
        requires
            rotation_speed <= 0xFFFF_FFFF,
            dt <= 0xFFFF_FFFF,
    ;
    rotation_speed as u64 * dt as u64
}

/// Runs one movement step on `unit` for a tick of `dt` milliseconds.
pub fn steer(unit: &mut UnitBundle, target: Option<Attackable>, dt: u32)
    ensures
        final(unit)@ == mover_step(old(unit)@, target, dt),
{
    let here: Position = unit.transform.translation;
    let goal: Position = unit.mover.target_position;
    if let MeleeAbilityState::WillAttack(_) = unit.melee_ability_state {
        unit.velocity = Velocity::zero();
        unit.turn = match (unit.rotate_before_move, target) {
            (Some(r), Some(t)) => rotate_towards(
                unit.transform.facing,
                here,
                t.position,
                limit_of(r.rotation_speed, dt),
            ),
            _ => None,
        };
        return ;
    }
    unit.turn = None;
    if unit.mover.is_target_reached {
        return ;
    }
    if here.distance_squared(&goal) < (ARRIVAL_EPSILON as u128) * (ARRIVAL_EPSILON as u128) {
        unit.mover.is_target_reached = true;
        unit.velocity = Velocity::zero();
        return ;
    }
    if let Some(r) = unit.rotate_before_move {
        let turn: Option<Turn> = rotate_towards(
            unit.transform.facing,
            here,
            goal,
            limit_of(r.rotation_speed, dt),
        );
        if turn.is_some() {
            unit.turn = turn;
            unit.velocity = Velocity::zero();
            return ;
        }
    }
    if unit.speed.speed == 0 {
        return ;
    }
    unit.velocity = velocity_towards(here, goal, unit.speed.speed, dt);
}

/// Slot `i` of the world after one movement step.
pub open spec fn mover_slot(w: Seq<Option<UnitView>>, i: int, dt: u32) -> Option<UnitView> {
    match w[i] {
        Some(u) => Some(mover_step(u, crate::systems::melee_sight(w, u), dt)),
        None => None,
    }
}

/// The world after one movement step of every unit.
pub open spec fn mover_world(w: Seq<Option<UnitView>>, dt: u32) -> Seq<Option<UnitView>> {
    Seq::new(w.len(), |i: int| mover_slot(w, i, dt))
}

/// The movement step over all units, for a tick of `dt` milliseconds.
pub fn mover_update(world: &mut World, dt: u32)
    ensures
        final(world)@ == mover_world(old(world)@, dt),
{
    let others: Vec<Option<Attackable>> = world.attackables();
    let n: usize = world.units.len();
    let ghost w = world@;
    let mut i: usize = 0;
    while i < n
        invariant
            i <= n,
            n == world.units@.len(),
            n == w.len(),
            w == old(world)@,
            others@ == snapshot(w),
            forall|j: int| 0 <= j < i ==> #[trigger] world@[j] == mover_slot(w, j, dt),
            forall|j: int| i <= j < n ==> #[trigger] world@[j] == w[j],
        decreases n - i,
    {
        let ghost before = world.units@;
        let ghost before_view = world@;
        assert(forall|j: int| 0 <= j < n ==> before_view[j] == slot_view(before[j]));
        assert(before_view[i as int] == w[i as int]);
        match &mut world.units[i] {
            Some(u) => {
                let target: Option<Attackable> = match u.melee_ability_state {
                    MeleeAbilityState::WillAttack(attack) => crate::systems::resolve(
                        &others,
                        attack.target_entity,
                    ),
                    _ => None,
                };
                steer(u, target, dt);
            },
            None => {},
        }
        assert forall|j: int| 0 <= j < n implies #[trigger] world@[j] == (if j == i {
            mover_slot(w, j, dt)
        } else {
            before_view[j]
        }) by {
            assert(world@[j] == slot_view(world.units@[j]));
        }
        i += 1;
    }
    assert(world@ =~= mover_world(w, dt));
}

/// A unit at rest: it has arrived and asks for no velocity.
pub open spec fn at_rest(u: UnitView) -> bool {
    u.mover.is_target_reached && u.velocity == Velocity::zero()
}

/// A unit after the movement steps of several ticks, with no new goal set in
/// between; `ticks` gives, for each tick, what the unit's attack target
/// resolved to and the length of the tick.
pub open spec fn mover_steps(u: UnitView, ticks: Seq<(Option<Attackable>, u32)>) -> UnitView
    decreases ticks.len(),
{
    if ticks.len() == 0 {
        u
    } else {
        mover_step(mover_steps(u, ticks.drop_last()), ticks.last().0, ticks.last().1)
    }
}

/// Arrival: a unit on its way that is closer to its goal than
/// `ARRIVAL_EPSILON`, and is not preparing a strike, comes to rest.
pub proof fn lemma_arrival(u: UnitView, target: Option<Attackable>, dt: u32)
    requires
        !(u.melee_ability_state is WillAttack),
        !u.mover.is_target_reached,
        dist2(u.transform.translation, u.mover.target_position) < ARRIVAL_EPSILON
            * ARRIVAL_EPSILON,
    ensures
        at_rest(mover_step(u, target, dt)),
        mover_step(u, target, dt).mover.target_position == u.mover.target_position,
{
}

/// Arrival is stable: a unit at rest stays at rest, where it is and with
/// the goal it has, through any number of movement steps, whatever its
/// state, its targets and the lengths of the ticks.
pub proof fn lemma_rest_is_stable(u: UnitView, ticks: Seq<(Option<Attackable>, u32)>)
    requires
        at_rest(u),
    ensures
        at_rest(mover_steps(u, ticks)),
        mover_steps(u, ticks).mover == u.mover,
        mover_steps(u, ticks).transform == u.transform,
    decreases ticks.len(),
{
    if ticks.len() > 0 {
        lemma_rest_is_stable(u, ticks.drop_last());
        lemma_step_keeps_state(mover_steps(u, ticks.drop_last()), ticks.last().0, ticks.last().1);
    }
}

/// The movement step writes the arrival flag, the velocity and the turn, and
/// nothing else: it never moves a unit, changes its goal or touches its
/// combat state.
pub proof fn lemma_step_keeps_state(u: UnitView, target: Option<Attackable>, dt: u32)
    ensures
        mover_step(u, target, dt) == (UnitView {
            mover: mover_step(u, target, dt).mover,
            velocity: mover_step(u, target, dt).velocity,
            turn: mover_step(u, target, dt).turn,
            ..u
        }),
        mover_step(u, target, dt).mover.target_position == u.mover.target_position,
        u.mover.is_target_reached ==> mover_step(u, target, dt).mover.is_target_reached,
        u.melee_ability_state is WillAttack ==> mover_step(u, target, dt).velocity
            == Velocity::zero(),
{
}

} // verus!
