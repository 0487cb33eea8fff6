use transit::strategy::{
    JumpDecorator, MovementInfo, MovementStrategy, PathStrategy, SpinDecorator, JUMP_HEIGHT,
    JUMP_TIME_MS, SPIN_TIME_MS,
};
use transit::vector3::{Vector3, UNIT};

fn v(x: i32, y: i32, z: i32) -> Vector3 {
    Vector3::new(x, y, z)
}

fn info(position: Vector3, direction: Vector3, speed: u32) -> MovementInfo {
    MovementInfo { position, direction, speed }
}

#[test]
fn path_following_moves_and_completes() {
    let mut s = PathStrategy::from_path(vec![v(0, 0, 0), v(10_000, 0, 0)]);
    let dir0 = v(0, 0, 0);
    // Starting on the first waypoint: it is reached without moving.
    let (p, d) = s.move_entity(info(v(0, 0, 0), dir0, 5), 1000);
    assert_eq!(p, v(0, 0, 0));
    assert_eq!(d, v(0, 0, 0));
    assert!(!s.is_completed());
    // One second at speed 5 toward (10, 0, 0).
    let (p, d) = s.move_entity(info(p, d, 5), 1000);
    assert_eq!(p, v(5_000, 0, 0));
    assert_eq!(d, v(UNIT as i32, 0, 0));
    assert!(!s.is_completed());
    // Two seconds in all: within 4 of (10, 0, 0).
    let (p, d) = s.move_entity(info(p, d, 5), 1000);
    assert_eq!(p, v(10_000, 0, 0));
    assert!(s.is_completed());
    // Further calls change nothing.
    let (p2, d2) = s.move_entity(info(p, d, 5), 1000);
    assert_eq!((p2, d2), (p, d));
    assert!(s.is_completed());
}

#[test]
fn path_following_small_steps() {
    let mut s = PathStrategy::from_start_end(v(0, 0, 0), v(0, 0, -30_000));
    let mut pos = v(0, 0, 0);
    let mut dir = v(0, 0, 0);
    let mut ticks = 0;
    while !s.is_completed() {
        let (p, d) = s.move_entity(info(pos, dir, 10), 100);
        pos = p;
        dir = d;
        ticks += 1;
        assert!(ticks < 100);
    }
    // First waypoint on tick 1, then 1 unit per tick until within 4 of -30.
    assert_eq!(ticks, 28);
    assert_eq!(pos, v(0, 0, -27_000));
    assert_eq!(dir, v(0, 0, -(UNIT as i32)));
}

#[test]
fn empty_path_is_completed() {
    let mut s = PathStrategy::new();
    assert!(s.is_completed());
    let (p, d) = s.move_entity(info(v(1, 2, 3), v(4, 5, 6), 9), 1000);
    assert_eq!((p, d), (v(1, 2, 3), v(4, 5, 6)));
}

#[test]
fn zero_speed_and_zero_dt_stay_put() {
    let mut s = PathStrategy::from_start_end(v(100_000, 0, 0), v(200_000, 0, 0));
    let (p, _) = s.move_entity(info(v(0, 0, 0), v(0, 0, 0), 0), 1000);
    assert_eq!(p, v(0, 0, 0));
    let (p, _) = s.move_entity(info(v(0, 0, 0), v(0, 0, 0), 7), 0);
    assert_eq!(p, v(0, 0, 0));
    assert!(!s.is_completed());
}

#[test]
fn jump_rises_then_falls() {
    let mut j = JumpDecorator::new(PathStrategy::new(), 4000, 10_000);
    let dir = v(1, 0, 0);
    let (p, d) = j.move_entity(info(v(0, 0, 0), dir, 10), 1000);
    assert_eq!(p, v(0, 10_000, 0));
    assert_eq!(d, dir);
    assert!(!j.going_up);
    assert_eq!(j.y_level, 10_000);
    let (p, _) = j.move_entity(info(p, dir, 10), 1000);
    assert_eq!(p, v(0, 0, 0));
    assert!(j.going_up);
    assert_eq!(j.y_level, 0);
    assert!(!j.is_completed());
    let (p, _) = j.move_entity(info(p, dir, 10), 1000);
    let (p, _) = j.move_entity(info(p, dir, 10), 1000);
    assert!(j.is_completed());
    // The timer bounds the active time: nothing moves afterwards.
    let (p2, _) = j.move_entity(info(p, dir, 10), 1000);
    assert_eq!(p2, p);
}

#[test]
fn jump_waits_for_inner_strategy() {
    let inner = PathStrategy::from_start_end(v(0, 0, 0), v(10_000, 0, 0));
    let mut j = JumpDecorator::new(inner, JUMP_TIME_MS, JUMP_HEIGHT);
    let (p, _) = j.move_entity(info(v(0, 0, 0), v(0, 0, 0), 5), 1000);
    assert_eq!(p, v(0, 0, 0));
    let (p, _) = j.move_entity(info(p, v(0, 0, 0), 5), 1000);
    assert_eq!(p, v(5_000, 0, 0));
    assert_eq!(j.time, JUMP_TIME_MS);
    let (p, _) = j.move_entity(info(p, v(0, 0, 0), 5), 1000);
    assert_eq!(p, v(10_000, 0, 0));
    assert!(j.strat.is_completed());
    let (p, _) = j.move_entity(info(p, v(0, 0, 0), 5), 1000);
    assert_eq!(p, v(10_000, 5_000, 0));
    assert_eq!(j.time, JUMP_TIME_MS - 1000);
}

#[test]
fn spin_turns_in_place() {
    let mut s = SpinDecorator::new(PathStrategy::new(), SPIN_TIME_MS);
    let dir = v(UNIT as i32, 0, 0);
    // Speed 1 rad/s for 1571 ms: about a quarter turn.
    let (p, d) = s.move_entity(info(v(3, 4, 5), dir, 1), 1571);
    assert_eq!(p, v(3, 4, 5));
    assert_eq!(d, v(-204, 0, UNIT as i32));
    assert_eq!(s.time, SPIN_TIME_MS - 1571);
}

#[test]
fn spin_zero_angle_keeps_direction() {
    let mut s = SpinDecorator::new(PathStrategy::new(), 10);
    let dir = v(123_456, 7, -654_321);
    let (_, d) = s.move_entity(info(v(0, 0, 0), dir, 0), 5);
    assert_eq!(d, dir);
    assert!(!s.is_completed());
    let (_, _) = s.move_entity(info(v(0, 0, 0), dir, 0), 5);
    assert!(s.is_completed());
}

#[test]
fn spin_half_turn_reverses() {
    let mut s = SpinDecorator::new(PathStrategy::new(), 1);
    let dir = v(UNIT as i32, 5, 0);
    let (_, d) = s.move_entity(info(v(0, 0, 0), dir, 1), 3142);
    assert_eq!(d, v(-(UNIT as i32), 5, -407));
}

#[test]
fn decorators_nest() {
    let path = PathStrategy::from_start_end(v(0, 0, 0), v(0, 0, 0));
    let mut s = JumpDecorator::new(SpinDecorator::new(path, 1000), 1000, 10_000);
    let dir = v(UNIT as i32, 0, 0);
    let mut pos = v(0, 0, 0);
    // Path: two ticks; spin: one tick of 1000 ms; then the jump.
    for _ in 0..3 {
        let (p, _) = s.move_entity(info(pos, dir, 10), 1000);
        pos = p;
        assert_eq!(pos, v(0, 0, 0));
    }
    assert!(s.strat.is_completed());
    let (p, d) = s.move_entity(info(pos, dir, 10), 1000);
    assert_eq!(p, v(0, 10_000, 0));
    assert_eq!(d, dir);
    assert!(s.is_completed());
}

#[test]
fn short_ticks_still_move() {
    // Speed 10 with 50 ms ticks: half a unit per tick.
    let mut s = PathStrategy::from_start_end(v(0, 0, 0), v(0, 20_000, 0));
    let (p, _) = s.move_entity(info(v(0, 0, 0), v(0, 0, 0), 10), 50);
    assert_eq!(p, v(0, 0, 0));
    let (p, d) = s.move_entity(info(p, v(0, 0, 0), 10), 50);
    assert_eq!(p, v(0, 500, 0));
    assert_eq!(d, v(0, UNIT as i32, 0));
    let (p, _) = s.move_entity(info(p, d, 10), 50);
    assert_eq!(p, v(0, 1_000, 0));
}

#[test]
fn jump_oscillates_with_short_ticks() {
    let mut j = JumpDecorator::new(PathStrategy::new(), 10_000, 1_000);
    let dir = v(0, 0, 0);
    let mut p = v(0, 0, 0);
    let mut ys = Vec::new();
    for _ in 0..6 {
        let (q, _) = j.move_entity(info(p, dir, 10), 50);
        p = q;
        ys.push(p.y);
    }
    assert_eq!(ys, vec![500, 1_000, 500, 0, 500, 1_000]);
}

#[test]
fn unit_direction_on_a_diagonal() {
    let mut s = PathStrategy::from_start_end(v(0, 0, 0), v(1_000, 1_000, 0));
    let (p, _) = s.move_entity(info(v(0, 0, 0), v(0, 0, 0), 1), 1);
    let (_, d) = s.move_entity(info(p, v(0, 0, 0), 1), 1);
    assert_eq!(d, v(707_106, 707_106, 0));
}

#[test]
fn spin_one_radian_matches_sine_and_cosine() {
    let mut s = SpinDecorator::new(PathStrategy::new(), SPIN_TIME_MS);
    let (_, d) = s.move_entity(info(v(0, 0, 0), v(UNIT as i32, 0, 0), 1), 1000);
    // cos 1 = 0.5403023..., sin 1 = 0.8414709...
    assert_eq!(d, v(540_302, 0, 841_471));
}

#[test]
fn spin_keeps_direction_length() {
    let mut s = SpinDecorator::new(PathStrategy::new(), 1_000_000);
    let mut d = v(UNIT as i32, 0, 0);
    for _ in 0..100 {
        let (_, nd) = s.move_entity(info(v(0, 0, 0), d, 1), 785);
        d = nd;
    }
    let len2 = d.x as i64 * d.x as i64 + d.z as i64 * d.z as i64;
    let unit2 = UNIT * UNIT;
    assert!((len2 - unit2).abs() < unit2 / 1000);
    assert_eq!(d, v(-999_112, 0, 39_771));
}
