use sphere_sandbox::circle::{Circle, Color, Vec2};
use sphere_sandbox::engine::{Config, Engine};

fn test_config(gravity: i64) -> Config {
    Config {
        screen_width: 1_280_000,
        screen_height: 720_000,
        margin: 50_000,
        gravity,
        time_speed: 100,
    }
}

fn circle(
    px: i64,
    py: i64,
    vx: i64,
    vy: i64,
    amortization: i64,
    mass: i64,
    radius: i64,
    is_static: bool,
) -> Circle {
    Circle::new(
        Vec2 { x: px, y: py },
        Vec2 { x: vx, y: vy },
        amortization,
        mass,
        radius,
        Color { r: 0, g: 0, b: 0, a: 0 },
        is_static,
    )
}

/// Two equal dynamic circles, radius 10, mass 1, amortization 1.0, centers
/// 15 units apart, closing at speed 5 each: one step reverses both
/// velocities along the line joining them.
#[test]
fn head_on_pair_reverses_velocities() {
    let mut e = Engine::new(test_config(0));
    e.add_circle(circle(600_000, 300_000, 5_000, 0, 1_000, 1_000, 10_000, false));
    e.add_circle(circle(615_000, 300_000, -5_000, 0, 1_000, 1_000, 10_000, false));
    e.update(1);
    let c = e.get_circles();
    assert_eq!(c[0].velocity.x, -5_000);
    assert_eq!(c[1].velocity.x, 5_000);
    assert_eq!(c[0].velocity.y, 0);
    assert_eq!(c[1].velocity.y, 0);
    // the overlap of 5 units is split evenly along the normal
    assert_eq!(c[0].position.x, 597_500);
    assert_eq!(c[1].position.x, 617_500);
}

/// A static circle overlapped by 4 units by a dynamic circle moving away:
/// after one step only the dynamic circle has moved, and its displacement
/// along the normal is at least the pre-step overlap.
#[test]
fn static_overlap_displaces_only_dynamic() {
    let mut e = Engine::new(test_config(0));
    e.add_circle(circle(400_000, 300_000, 0, 0, 1_000, 1_000, 10_000, true));
    e.add_circle(circle(416_000, 300_000, 20_000, 0, 1_000, 1_000, 10_000, false));
    e.update(1_000);
    let c = e.get_circles();
    assert_eq!(c[0].position.x, 400_000);
    assert_eq!(c[0].position.y, 300_000);
    assert_eq!(c[0].velocity.x, 0);
    // half the 4-unit overlap from correction, plus 2 units of integration
    assert_eq!(c[1].position.x, 420_000);
    assert!(c[1].position.x - 416_000 >= 4_000);
    assert_eq!(c[1].position.y, 300_000);
}

/// A dynamic circle with its left edge one unit past the margin, moving
/// left: after one zero-length step its left edge sits exactly on the
/// margin and its horizontal velocity has flipped, scaled by the
/// amortization.
#[test]
fn wall_bounce_clamps_and_damps() {
    let cfg = test_config(9_807);
    let body = circle(59_000, 300_000, -5_000, 0, 800, 1_000, 10_000, false);
    let mut e = Engine { config: cfg, circles: vec![body] };
    e.update(0);
    let c = e.get_circles();
    assert_eq!(c[0].position.x - c[0].radius, 50_000);
    assert_eq!(c[0].velocity.x, 4_000);
    // gravity still accelerates the body, but a zero step moves nothing
    assert_eq!(c[0].velocity.y, 9_807);
    assert_eq!(c[0].position.y, 300_000);
}

/// Two equal circles closing along a diagonal: the impulse is exchanged
/// along the computed normal and the projected relative velocity
/// reverses, on both axes at once.
#[test]
fn diagonal_head_on_reverses_projection() {
    let mut e = Engine::new(test_config(0));
    e.add_circle(circle(600_000, 300_000, 3_000, 3_000, 1_000, 1_000, 10_000, false));
    e.add_circle(circle(610_000, 310_000, -3_000, -3_000, 1_000, 1_000, 10_000, false));
    e.update(0);
    let c = e.get_circles();
    assert_eq!(c[0].velocity.x, -2_998);
    assert_eq!(c[0].velocity.y, -2_998);
    assert_eq!(c[1].velocity.x, 2_998);
    assert_eq!(c[1].velocity.y, 2_998);
    assert_eq!(c[0].position.x, 597_930);
    assert_eq!(c[0].position.y, 297_930);
    assert_eq!(c[1].position.x, 612_070);
    assert_eq!(c[1].position.y, 312_070);
}

/// A body in a corner is corrected on both axes in the same step: the
/// four boundary checks are independent, not mutually exclusive.
#[test]
fn corner_clamps_both_axes() {
    let cfg = test_config(0);
    let body = circle(55_000, 55_000, -2_000, -3_000, 500, 1_000, 10_000, false);
    let mut e = Engine { config: cfg, circles: vec![body] };
    e.update(0);
    let c = e.get_circles();
    assert_eq!(c[0].position.x, 60_000);
    assert_eq!(c[0].position.y, 60_000);
    assert_eq!(c[0].velocity.x, 1_000);
    assert_eq!(c[0].velocity.y, 1_500);
}

/// A dynamic circle approaching a static one exchanges an impulse that
/// still counts the static partner's stored mass in the denominator; with
/// equal masses and amortization one, the dynamic circle is left at rest
/// while the overlap is corrected.
#[test]
fn impulse_against_static_partner() {
    let mut e = Engine::new(test_config(0));
    e.add_circle(circle(400_000, 300_000, 0, 0, 1_000, 1_000, 10_000, true));
    e.add_circle(circle(416_000, 300_000, -10_000, 0, 1_000, 1_000, 10_000, false));
    e.update(0);
    let c = e.get_circles();
    assert_eq!(c[0].velocity.x, 0);
    assert_eq!(c[0].position.x, 400_000);
    assert_eq!(c[1].velocity.x, 0);
    assert_eq!(c[1].position.x, 418_000);
}

/// An engine with no bodies steps without error and stays empty.
#[test]
fn empty_engine_steps() {
    let mut e = Engine::new(test_config(9_807));
    e.update(1_000);
    assert_eq!(e.get_objects_amount(), 0);
    assert_eq!(e.get_circles().len(), 0);
}

/// A dynamic circle added outside the walls is clamped on insertion; a
/// static circle added outside the walls is left where it was built.
#[test]
fn add_circle_clamps_dynamic_only() {
    let mut e = Engine::new(test_config(0));
    e.add_circle(circle(0, 300_000, 0, 0, 1_000, 1_000, 10_000, false));
    e.add_circle(circle(10_000, 10_000, 0, 0, 1_000, 1_000, 10_000, true));
    let c = e.get_circles();
    assert_eq!(c[0].position.x, 60_000);
    assert_eq!(c[0].position.x - c[0].radius, 50_000);
    assert_eq!(c[1].position.x, 10_000);
    assert_eq!(c[1].position.y, 10_000);
}

/// A static circle keeps a bit-identical state over many steps, even while
/// a dynamic circle keeps crashing into it under gravity.
#[test]
fn static_state_is_immutable_over_steps() {
    let mut e = Engine::new(test_config(9_807));
    e.add_circle(circle(400_000, 300_000, 0, 0, 900, 1_000, 20_000, true));
    e.add_circle(circle(400_000, 265_000, 0, 2_000, 1_000, 1_000, 20_000, false));
    for _ in 0..10 {
        e.update(100);
        let c = e.get_circles();
        assert_eq!(c[0].position.x, 400_000);
        assert_eq!(c[0].position.y, 300_000);
        assert_eq!(c[0].velocity.x, 0);
        assert_eq!(c[0].velocity.y, 0);
    }
}

/// A detected overlap with zero approach speed is still corrected: the
/// distance between the centers strictly grows in one step.
#[test]
fn overlap_is_pushed_apart_without_approach() {
    let mut e = Engine::new(test_config(0));
    e.add_circle(circle(600_000, 300_000, 0, 0, 1_000, 1_000, 10_000, false));
    e.add_circle(circle(612_000, 300_000, 0, 0, 1_000, 1_000, 10_000, false));
    e.update(0);
    let c = e.get_circles();
    // the 8-unit overlap is split evenly: 4 units each way
    assert_eq!(c[0].position.x, 596_000);
    assert_eq!(c[1].position.x, 616_000);
    let before: i64 = 12_000;
    let after = c[1].position.x - c[0].position.x;
    assert!(after > before);
}

/// Exactly coincident centers fall back to the fixed downward normal, so
/// the correction is deterministic and vertical.
#[test]
fn coincident_centers_use_downward_normal() {
    let mut e = Engine::new(test_config(0));
    e.add_circle(circle(600_000, 300_000, 0, 0, 1_000, 1_000, 10_000, false));
    e.add_circle(circle(600_000, 300_000, 0, 0, 1_000, 1_000, 10_000, false));
    e.update(0);
    let c = e.get_circles();
    assert_eq!(c[0].position.x, 600_000);
    assert_eq!(c[1].position.x, 600_000);
    assert_eq!(c[0].position.y, 290_000);
    assert_eq!(c[1].position.y, 310_000);
}

/// A zero-length step confines every dynamic body that fits between the
/// margins, wherever it was placed.
#[test]
fn zero_step_confines_all_dynamic_bodies() {
    let cfg = test_config(9_807);
    let bodies = vec![
        circle(0, 0, 0, 0, 1_000, 1_000, 10_000, false),
        circle(1_280_000, 720_000, 0, 0, 1_000, 1_000, 10_000, false),
        circle(640_000, -50_000, 0, 0, 1_000, 1_000, 10_000, false),
    ];
    let mut e = Engine { config: cfg, circles: bodies };
    e.update(0);
    for c in e.get_circles() {
        assert!(c.position.x - c.radius >= 50_000);
        assert!(c.position.x + c.radius <= 1_280_000 - 50_000);
        assert!(c.position.y - c.radius >= 50_000);
        assert!(c.position.y + c.radius <= 720_000 - 50_000);
    }
}

/// A lone dynamic body in free fall: gravity raises the downward velocity
/// by `g` per step, and the position advances by the scaled velocity.
#[test]
fn free_fall_accelerates_downward() {
    let mut e = Engine::new(test_config(9_807));
    e.add_circle(circle(600_000, 300_000, 0, 0, 1_000, 1_000, 10_000, false));
    e.update(1_000);
    let c = e.get_circles();
    assert_eq!(c[0].velocity.y, 9_807);
    // 9.807 units per second over a tenth of a scaled second
    assert_eq!(c[0].position.y, 300_980);
    assert_eq!(c[0].position.x, 600_000);
}
