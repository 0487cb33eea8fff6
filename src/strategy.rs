use vstd::prelude::*;

use crate::vector3::{
    Vector3, dist, sq_dist, UNIT, trunc_div, clamp, heading, trunc_div_exec, clamp_exec,
};

verus! {

/// A waypoint counts as reached once the entity is closer to it than this:
/// four world units, in thousandths.
pub const ARRIVAL_DISTANCE: i64 = 4000;

/// How long a spin lasts by default, in milliseconds.
pub const SPIN_TIME_MS: i64 = 4000;

/// How long a jump lasts by default, in milliseconds.
pub const JUMP_TIME_MS: i64 = 4000;

/// How high a jump rises by default: ten world units, in thousandths.
pub const JUMP_HEIGHT: u32 = 10_000;

/// The kinematic state handed to a movement strategy on each tick.
#[derive(Clone, Copy, Debug, PartialEq, Eq, Structural)]
pub struct MovementInfo {
    pub position: Vector3,
    pub direction: Vector3,
    /// World units per second (radians per second when spinning).
    pub speed: u32,
}

/// Distance covered at `speed` world units per second in `dt`
/// milliseconds, in thousandths of a unit: exactly `speed * dt`.
pub open spec fn travel(speed: u32, dt: u32) -> int {
    speed as int * dt as int
}

/// The point `step` units from `pos` toward `target` (rounded toward `pos`).
pub open spec fn advance(pos: Vector3, target: Vector3, step: int) -> Vector3 {
    let d = dist(pos, target);
    if d == 0 {
        pos
    } else {
        Vector3 {
            x: clamp(pos.x + trunc_div((target.x - pos.x) * step, d)),
            y: clamp(pos.y + trunc_div((target.y - pos.y) * step, d)),
            z: clamp(pos.z + trunc_div((target.z - pos.z) * step, d)),
        }
    }
}

/// One in the fixed point of the series below: `10^18`.
pub const TRIG_ONE: u128 = 1_000_000_000_000_000_000;

/// Pi over two, times `10^18`, rounded.
pub const HALF_PI_E18: u128 = 1_570_796_326_794_896_619;

/// Pi over four, times `10^18`, rounded down.
pub const QUARTER_PI_E18: u128 = 785_398_163_397_448_309;

/// A turn, as four times `HALF_PI_E18`.
pub const TURN_E18: u128 = 6_283_185_307_179_586_476;

/// One Horner step of a Taylor series: `1 - t2 * h / k`, in fixed point.
pub open spec fn trig_step(t2: int, h: int, k: int) -> int {
    TRIG_ONE - (t2 * h) / (k * (TRIG_ONE as int))
}

/// `sin t` in fixed point, for `t` between 0 and pi/4 in fixed point: the
/// Taylor polynomial up to `t^13`, whose remainder is below `10^-13` there.
pub open spec fn sin_series(t: int) -> int {
    let t2 = t * t / (TRIG_ONE as int);
    let h = trig_step(
        t2,
        trig_step(
            t2,
            trig_step(t2, trig_step(t2, trig_step(t2, trig_step(t2, TRIG_ONE as int, 156), 110), 72), 42),
            20,
        ),
        6,
    );
    t * h / (TRIG_ONE as int)
}

/// `cos t` in fixed point, for `t` between 0 and pi/4 in fixed point: the
/// Taylor polynomial up to `t^14`, whose remainder is below `10^-13` there.
pub open spec fn cos_series(t: int) -> int {
    let t2 = t * t / (TRIG_ONE as int);
    trig_step(
        t2,
        trig_step(
            t2,
            trig_step(
                t2,
                trig_step(t2, trig_step(t2, trig_step(t2, trig_step(t2, TRIG_ONE as int, 182), 132), 90), 56),
                30,
            ),
            12,
        ),
        2,
    )
}

/// A fixed-point value of `10^18` scale, rounded to the nearest millionth
/// (`v >= 0`).
pub open spec fn to_unit(v: int) -> int {
    (v + 500_000_000_000) / 1_000_000_000_000
}

/// `(UNIT * sin a, UNIT * cos a)` for an angle of `a` milliradians, each
/// rounded to the nearest integer: the angle is reduced modulo a turn to a
/// quarter turn and an offset of at most pi/4, where the Taylor series
/// above are evaluated.
pub open spec fn sin_cos(a: int) -> (int, int) {
    let r = (a * 1_000_000_000_000_000) % (TURN_E18 as int);
    let q0 = r / (HALF_PI_E18 as int);
    let t0 = r % (HALF_PI_E18 as int);
    let up = t0 > QUARTER_PI_E18;
    let q = if up { q0 + 1 } else { q0 };
    let t = if up { HALF_PI_E18 - t0 } else { t0 };
    let s = if up { -to_unit(sin_series(t)) } else { to_unit(sin_series(t)) };
    let c = to_unit(cos_series(t));
    let qq = q % 4;
    if qq == 0 {
        (s, c)
    } else if qq == 1 {
        (c, -s)
    } else if qq == 2 {
        (-s, -c)
    } else {
        (-c, s)
    }
}

/// `dir` turned about the vertical axis by `a` milliradians.
pub open spec fn rotate_y(dir: Vector3, a: int) -> Vector3 {
    let (s, c) = sin_cos(a);
    Vector3 {
        x: clamp(trunc_div(dir.x * c - dir.z * s, UNIT as int)),
        y: dir.y,
        z: clamp(trunc_div(dir.x * s + dir.z * c, UNIT as int)),
    }
}

/// Bound on the rise or travel of one tick: `u32::MAX * u32::MAX` is below it.
pub const MAX_RISE: i128 = 0x1_0000_0000_0000_0000;

fn travel_exec(speed: u32, dt: u32) -> (r: u64)
    ensures
        r == travel(speed, dt),
        r < MAX_RISE,
{
    assert(speed as int * dt as int <= 0xffff_ffff * 0xffff_ffff) by (nonlinear_arith)
        requires speed <= 0xffff_ffffu32, dt <= 0xffff_ffffu32;
    let m: u64 = speed as u64 * dt as u64;
    m
}

/// A coordinate times a fixed-point factor stays far inside `i128`.
proof fn lemma_mul_bounded(a: int, b: int)
    requires
        -0x8000_0000 <= a <= 0x7fff_ffff,
        -UNIT <= b <= UNIT,
    ensures
        -0x80_0000_0000_0000 <= a * b <= 0x80_0000_0000_0000,
{
    assert(-0x80_0000_0000_0000 <= a * b <= 0x80_0000_0000_0000) by (nonlinear_arith)
        requires
            -0x8000_0000 <= a <= 0x7fff_ffff,
            -1_000_000 <= b <= 1_000_000,
    {
        if a >= 0 && b >= 0 {
            assert(a * b <= 0x8000_0000 * 1_000_000) by (nonlinear_arith)
                requires 0 <= a <= 0x8000_0000, 0 <= b <= 1_000_000;
        } else if a >= 0 {
            assert(a * (-b) <= 0x8000_0000 * 1_000_000) by (nonlinear_arith)
                requires 0 <= a <= 0x8000_0000, 0 <= -b <= 1_000_000;
        } else if b >= 0 {
            assert((-a) * b <= 0x8000_0000 * 1_000_000) by (nonlinear_arith)
                requires 0 <= -a <= 0x8000_0000, 0 <= b <= 1_000_000;
        } else {
            assert((-a) * (-b) <= 0x8000_0000 * 1_000_000) by (nonlinear_arith)
                requires 0 <= -a <= 0x8000_0000, 0 <= -b <= 1_000_000;
        }
    }
}

proof fn lemma_trig_step_bounds(t2: int, h: int, k: int)
    requires
        0 <= t2 <= TRIG_ONE,
        0 <= h <= TRIG_ONE,
        k >= 2,
    ensures
        0 <= trig_step(t2, h, k) <= TRIG_ONE,
{
    let f = TRIG_ONE as int;
    assert(0 <= (t2 * h) / (k * f) <= f) by (nonlinear_arith)
        requires 0 <= t2 <= f, 0 <= h <= f, k >= 2, f > 0;
}

fn trig_step_exec(t2: u128, h: u128, k: u128) -> (r: u128)
    requires
        t2 <= TRIG_ONE,
        h <= TRIG_ONE,
        2 <= k <= 200,
    ensures
        r == trig_step(t2 as int, h as int, k as int),
        r <= TRIG_ONE,
{
    proof {
        lemma_trig_step_bounds(t2 as int, h as int, k as int);
    }
    let ghost f = TRIG_ONE as int;
    assert((t2 as int) * (h as int) <= f * f) by (nonlinear_arith)
        requires t2 <= f, h <= f, f > 0;
    assert((k as int) * f <= 200 * f) by (nonlinear_arith)
        requires k <= 200, f > 0;
    TRIG_ONE - (t2 * h) / (k * TRIG_ONE)
}

fn square_exec(t: u128) -> (t2: u128)
    requires
        t <= QUARTER_PI_E18,
    ensures
        t2 == (t as int) * (t as int) / (TRIG_ONE as int),
        t2 <= TRIG_ONE,
{
    let ghost f = TRIG_ONE as int;
    assert((t as int) * (t as int) <= f * f) by (nonlinear_arith)
        requires t <= f, f > 0;
    assert((t as int) * (t as int) / f <= f) by (nonlinear_arith)
        requires (t as int) * (t as int) <= f * f, f > 0;
    t * t / TRIG_ONE
}

fn sin_series_exec(t: u128) -> (r: u128)
    requires
        t <= QUARTER_PI_E18,
    ensures
        r == sin_series(t as int),
        r <= TRIG_ONE,
{
    let t2 = square_exec(t);
    let h = trig_step_exec(t2, TRIG_ONE, 156);
    let h = trig_step_exec(t2, h, 110);
    let h = trig_step_exec(t2, h, 72);
    let h = trig_step_exec(t2, h, 42);
    let h = trig_step_exec(t2, h, 20);
    let h = trig_step_exec(t2, h, 6);
    let ghost f = TRIG_ONE as int;
    assert((t as int) * (h as int) <= f * f) by (nonlinear_arith)
        requires t <= f, h <= f, f > 0;
    assert((t as int) * (h as int) / f <= f) by (nonlinear_arith)
        requires (t as int) * (h as int) <= f * f, f > 0;
    t * h / TRIG_ONE
}

fn cos_series_exec(t: u128) -> (r: u128)
    requires
        t <= QUARTER_PI_E18,
    ensures
        r == cos_series(t as int),
        r <= TRIG_ONE,
{
    let t2 = square_exec(t);
    let h = trig_step_exec(t2, TRIG_ONE, 182);
    let h = trig_step_exec(t2, h, 132);
    let h = trig_step_exec(t2, h, 90);
    let h = trig_step_exec(t2, h, 56);
    let h = trig_step_exec(t2, h, 30);
    let h = trig_step_exec(t2, h, 12);
    trig_step_exec(t2, h, 2)
}

fn to_unit_exec(v: u128) -> (r: i128)
    requires
        v <= TRIG_ONE,
    ensures
        r == to_unit(v as int),
        0 <= r <= UNIT,
{
    ((v + 500_000_000_000) / 1_000_000_000_000) as i128
}

/// `(UNIT * sin a, UNIT * cos a)`, rounded, for `a` milliradians.
fn sin_cos_exec(a: u64) -> (r: (i128, i128))
    ensures
        (r.0 as int, r.1 as int) == sin_cos(a as int),
        -UNIT <= r.0 <= UNIT,
        -UNIT <= r.1 <= UNIT,
{
    let x: u128 = a as u128 * 1_000_000_000_000_000;
    let r: u128 = x % TURN_E18;
    let q0: u128 = r / HALF_PI_E18;
    let t0: u128 = r % HALF_PI_E18;
    let up = t0 > QUARTER_PI_E18;
    let q: u128 = if up { q0 + 1 } else { q0 };
    let t: u128 = if up { HALF_PI_E18 - t0 } else { t0 };
    let sv = to_unit_exec(sin_series_exec(t));
    let s: i128 = if up { -sv } else { sv };
    let c = to_unit_exec(cos_series_exec(t));
    let qq = q % 4;
    if qq == 0 {
        (s, c)
    } else if qq == 1 {
        (c, -s)
    } else if qq == 2 {
        (-s, -c)
    } else {
        (-c, s)
    }
}

/// `dir` turned about the vertical axis by `a` milliradians.
fn rotate_exec(dir: Vector3, a: u64) -> (r: Vector3)
    ensures
        r == rotate_y(dir, a as int),
{
    let (s, c) = sin_cos_exec(a);
    let (dx, dz) = (dir.x as i128, dir.z as i128);
    proof {
        lemma_mul_bounded(dx as int, c as int);
        lemma_mul_bounded(dz as int, s as int);
        lemma_mul_bounded(dx as int, s as int);
        lemma_mul_bounded(dz as int, c as int);
    }
    let x = clamp_exec(trunc_div_exec(dx * c - dz * s, UNIT as i128));
    let z = clamp_exec(trunc_div_exec(dx * s + dz * c, UNIT as i128));
    Vector3 { x, y: dir.y, z }
}

/// One coordinate of `advance`.
fn advance_coord(p: i32, t: i32, step: u64, d: u64) -> (r: i32)
    requires
        d > 0,
        step < MAX_RISE,
    ensures
        r == clamp(p + trunc_div((t - p) * step, d as int)),
{
    let o: i128 = t as i128 - p as i128;
    assert(-0x1_0000_0000_0000_0000_0000_0000_0000 < o * step < 0x1_0000_0000_0000_0000_0000_0000_0000) by (nonlinear_arith)
        requires -0x1_0000_0000 <= o <= 0x1_0000_0000, 0 <= step < 0x1_0000_0000_0000_0000;
    let q = trunc_div_exec(o * step as i128, d as i128);
    assert(-0x1_0000_0000_0000_0000_0000_0000_0000 <= q <= 0x1_0000_0000_0000_0000_0000_0000_0000) by (nonlinear_arith)
        requires q == trunc_div(o * step, d as int), d >= 1, -0x1_0000_0000_0000_0000_0000_0000_0000 < o * step < 0x1_0000_0000_0000_0000_0000_0000_0000;
    clamp_exec(p as i128 + q)
}

/// The moving entity as one tick of path-following leaves it: the position
/// `step` units toward `target`, and the heading toward `target`.
fn step_toward(pos: Vector3, target: Vector3, step: u64) -> (r: (Vector3, Vector3))
    requires
        step < MAX_RISE,
    ensures
        r == (advance(pos, target, step as int), heading(pos, target)),
{
    let d = pos.distance(&target);
    let h = pos.unit_toward(&target);
    if d == 0 {
        return (pos, h);
    }
    let np = Vector3 {
        x: advance_coord(pos.x, target.x, step, d),
        y: advance_coord(pos.y, target.y, step, d),
        z: advance_coord(pos.z, target.z, step, d),
    };
    (np, h)
}

/// A per-tick motion algorithm. Once completed, a call changes nothing and
/// returns the entity's position and direction as they were.
pub trait MovementStrategy: Sized {
    /// The strategy has finished.
    spec fn completed(&self) -> bool;

    /// Bounds that every state of the strategy keeps.
    spec fn inv(&self) -> bool;

    /// The state after one call with `entity` and `dt`.
    spec fn next(&self, entity: MovementInfo, dt: u32) -> Self;

    /// The position and direction that one call with `entity` and `dt` returns.
    spec fn output(&self, entity: MovementInfo, dt: u32) -> (Vector3, Vector3);

    /// One tick of `dt` milliseconds: the entity's new position and direction.
    fn move_entity(&mut self, entity: MovementInfo, dt: u32) -> (r: (Vector3, Vector3))
        requires
            old(self).inv(),
        ensures
            *final(self) == old(self).next(entity, dt),
            r == old(self).output(entity, dt),
            final(self).inv(),
            old(self).completed() ==> *final(self) == *old(self) && r == (
            entity.position,
            entity.direction,
            ),
    ;

    fn is_completed(&self) -> (r: bool)
        ensures
            r == self.completed(),
    ;
}

/// Follows a sequence of waypoints in order.
pub struct PathStrategy {
    pub path: Vec<Vector3>,
    /// The waypoint headed for.
    pub index: usize,
}

impl PathStrategy {
    /// A strategy with no waypoints: completed from the start.
    pub fn new() -> (r: PathStrategy)
        ensures
            r.path@ == Seq::<Vector3>::empty(),
            r.index == 0,
    {
        PathStrategy { path: Vec::new(), index: 0 }
    }

    pub fn from_path(path: Vec<Vector3>) -> (r: PathStrategy)
        ensures
            r.path == path,
            r.index == 0,
    {
        PathStrategy { index: 0, path }
    }

    /// The direct line from `start` to `end`.
    pub fn from_start_end(start: Vector3, end: Vector3) -> (r: PathStrategy)
        ensures
            r.path@ == seq![start, end],
            r.index == 0,
    {
        let mut path: Vec<Vector3> = Vec::new();
        path.push(start);
        path.push(end);
        PathStrategy { index: 0, path }
    }
}

impl MovementStrategy for PathStrategy {
    open spec fn completed(&self) -> bool {
        self.index >= self.path@.len()
    }

    open spec fn inv(&self) -> bool {
        self.index <= self.path@.len()
    }

    /// Moves the cursor on once the new position is within
    /// `ARRIVAL_DISTANCE` of the waypoint.
    open spec fn next(&self, entity: MovementInfo, dt: u32) -> PathStrategy {
        if self.completed() {
            *self
        } else {
            let target = self.path@[self.index as int];
            let pos = advance(entity.position, target, travel(entity.speed, dt));
            PathStrategy {
                path: self.path,
                index: if sq_dist(pos, target) < ARRIVAL_DISTANCE * ARRIVAL_DISTANCE {
                    (self.index + 1) as usize
                } else {
                    self.index
                },
            }
        }
    }

    /// Moves `speed * dt` toward the current waypoint, facing it.
    open spec fn output(&self, entity: MovementInfo, dt: u32) -> (Vector3, Vector3) {
        if self.completed() {
            (entity.position, entity.direction)
        } else {
            let target = self.path@[self.index as int];
            (
                advance(entity.position, target, travel(entity.speed, dt)),
                heading(entity.position, target),
            )
        }
    }

    fn move_entity(&mut self, entity: MovementInfo, dt: u32) -> (r: (Vector3, Vector3)) {
        if self.index >= self.path.len() {
            return (entity.position, entity.direction);
        }
        let target = self.path[self.index];
        let step = travel_exec(entity.speed, dt);
        let (pos, dir) = step_toward(entity.position, target, step);
        let arrival = (ARRIVAL_DISTANCE * ARRIVAL_DISTANCE) as u128;
        if pos.sq_distance(&target) < arrival {
            self.index = self.index + 1;
        }
        (pos, dir)
    }

    fn is_completed(&self) -> (r: bool) {
        self.index >= self.path.len()
    }
}

/// Once the inner strategy completes, turns the entity in place about the
/// vertical axis, at `speed` radians per second, for `time` milliseconds.
pub struct SpinDecorator<T: MovementStrategy> {
    pub strat: T,
    /// Milliseconds of spinning left.
    pub time: i64,
}

impl<T: MovementStrategy> SpinDecorator<T> {
    pub fn new(strat: T, time: i64) -> (r: SpinDecorator<T>)
        ensures
            r.strat == strat,
            r.time == time,
    {
        SpinDecorator { strat, time }
    }
}

impl<T: MovementStrategy> MovementStrategy for SpinDecorator<T> {
    open spec fn completed(&self) -> bool {
        self.time <= 0
    }

    open spec fn inv(&self) -> bool {
        self.strat.inv()
    }

    open spec fn next(&self, entity: MovementInfo, dt: u32) -> SpinDecorator<T> {
        if self.completed() {
            *self
        } else if !self.strat.completed() {
            SpinDecorator { strat: self.strat.next(entity, dt), time: self.time }
        } else {
            SpinDecorator { strat: self.strat, time: (self.time - dt) as i64 }
        }
    }

    /// Passes the call to the inner strategy until it completes; then keeps
    /// the position and turns the direction by `speed * dt` milliradians.
    open spec fn output(&self, entity: MovementInfo, dt: u32) -> (Vector3, Vector3) {
        if self.completed() {
            (entity.position, entity.direction)
        } else if !self.strat.completed() {
            self.strat.output(entity, dt)
        } else {
            (entity.position, rotate_y(entity.direction, entity.speed as int * dt as int))
        }
    }

    fn move_entity(&mut self, entity: MovementInfo, dt: u32) -> (r: (Vector3, Vector3)) {
        if self.time <= 0 {
            return (entity.position, entity.direction);
        }
        if !self.strat.is_completed() {
            return self.strat.move_entity(entity, dt);
        }
        assert(entity.speed as int * dt as int <= 0xffff_ffff * 0xffff_ffff) by (nonlinear_arith)
            requires entity.speed <= 0xffff_ffffu32, dt <= 0xffff_ffffu32;
        let angle: u64 = entity.speed as u64 * dt as u64;
        let dir = rotate_exec(entity.direction, angle);
        self.time = self.time - dt as i64;
        (entity.position, dir)
    }

    fn is_completed(&self) -> (r: bool) {
        self.time <= 0
    }
}

/// Once the inner strategy completes, moves the entity up and down between
/// its starting height and `height` above it, at `speed`, for `time`
/// milliseconds.
pub struct JumpDecorator<T: MovementStrategy> {
    pub strat: T,
    /// Milliseconds of jumping left.
    pub time: i64,
    pub height: u32,
    pub going_up: bool,
    /// How far above the starting height the entity is.
    pub y_level: i128,
}

impl<T: MovementStrategy> JumpDecorator<T> {
    pub fn new(strat: T, time: i64, height: u32) -> (r: JumpDecorator<T>)
        ensures
            r.strat == strat,
            r.time == time,
            r.height == height,
            r.going_up,
            r.y_level == 0,
    {
        JumpDecorator { strat, time, height, going_up: true, y_level: 0 }
    }
}

impl<T: MovementStrategy> MovementStrategy for JumpDecorator<T> {
    open spec fn completed(&self) -> bool {
        self.time <= 0
    }

    open spec fn inv(&self) -> bool {
        &&& self.strat.inv()
        &&& self.going_up ==> -MAX_RISE <= self.y_level <= self.height
        &&& !self.going_up ==> 0 <= self.y_level <= self.height + MAX_RISE
    }

    /// Rising, the level turns to falling once it reaches `height`;
    /// falling, it turns to rising once it is back at zero.
    open spec fn next(&self, entity: MovementInfo, dt: u32) -> JumpDecorator<T> {
        if self.completed() {
            *self
        } else if !self.strat.completed() {
            JumpDecorator { strat: self.strat.next(entity, dt), ..*self }
        } else {
            let rise = travel(entity.speed, dt);
            let level = if self.going_up {
                self.y_level + rise
            } else {
                self.y_level - rise
            };
            JumpDecorator {
                strat: self.strat,
                time: (self.time - dt) as i64,
                height: self.height,
                going_up: if self.going_up {
                    level < self.height
                } else {
                    level <= 0
                },
                y_level: level as i128,
            }
        }
    }

    /// Passes the call to the inner strategy until it completes; then moves
    /// the position up or down by `speed * dt` and keeps the direction.
    open spec fn output(&self, entity: MovementInfo, dt: u32) -> (Vector3, Vector3) {
        if self.completed() {
            (entity.position, entity.direction)
        } else if !self.strat.completed() {
            self.strat.output(entity, dt)
        } else {
            let rise = travel(entity.speed, dt);
            let p = entity.position;
            let y = if self.going_up {
                p.y + rise
            } else {
                p.y - rise
            };
            (Vector3 { x: p.x, y: clamp(y), z: p.z }, entity.direction)
        }
    }

    fn move_entity(&mut self, entity: MovementInfo, dt: u32) -> (r: (Vector3, Vector3)) {
        if self.time <= 0 {
            return (entity.position, entity.direction);
        }
        if !self.strat.is_completed() {
            return self.strat.move_entity(entity, dt);
        }
        let rise = travel_exec(entity.speed, dt) as i128;
        let p = entity.position;
        let y: i32;
        if self.going_up {
            y = clamp_exec(p.y as i128 + rise as i128);
            self.y_level = self.y_level + rise;
            if self.y_level >= self.height as i128 {
                self.going_up = false;
            }
        } else {
            y = clamp_exec(p.y as i128 - rise as i128);
            self.y_level = self.y_level - rise;
            if self.y_level <= 0 {
                self.going_up = true;
            }
        }
        self.time = self.time - dt as i64;
        (Vector3 { x: p.x, y, z: p.z }, entity.direction)
    }

    fn is_completed(&self) -> (r: bool) {
        self.time <= 0
    }
}

/// The jump decorator after the calls `ticks` (entity state and `dt` each).
pub open spec fn jump_after<T: MovementStrategy>(
    j: JumpDecorator<T>,
    ticks: Seq<(MovementInfo, u32)>,
) -> JumpDecorator<T>
    decreases ticks.len(),
{
    if ticks.len() == 0 {
        j
    } else {
        jump_after(j, ticks.drop_last()).next(ticks.last().0, ticks.last().1)
    }
}

/// Milliseconds of the calls in `ticks` that found the decorator active:
/// not completed, with its inner strategy completed.
pub open spec fn jump_active_ms<T: MovementStrategy>(
    j: JumpDecorator<T>,
    ticks: Seq<(MovementInfo, u32)>,
) -> int
    decreases ticks.len(),
{
    if ticks.len() == 0 {
        0
    } else {
        let prev = jump_after(j, ticks.drop_last());
        jump_active_ms(j, ticks.drop_last()) + if !prev.completed() && prev.strat.completed() {
            ticks.last().1 as int
        } else {
            0
        }
    }
}

/// The timer of a jump decorator runs only while it is active: after any
/// calls, passed on to the inner strategy or not, it has lost exactly the
/// active milliseconds, and the decorator is completed exactly when these
/// reach the timer it started with.
pub proof fn lemma_jump_timer_bounds_activity<T: MovementStrategy>(
    j: JumpDecorator<T>,
    ticks: Seq<(MovementInfo, u32)>,
)
    ensures
        jump_after(j, ticks).time == j.time - jump_active_ms(j, ticks),
        jump_after(j, ticks).completed() <==> jump_active_ms(j, ticks) >= j.time,
    decreases ticks.len(),
{
    if ticks.len() > 0 {
        lemma_jump_timer_bounds_activity(j, ticks.drop_last());
    }
}

} // verus!
