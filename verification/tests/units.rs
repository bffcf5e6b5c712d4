use sphere_sandbox::circle::{Circle, Color, Vec2};
use sphere_sandbox::engine::{Config, Engine};
use sphere_sandbox::fixed::{LIMIT, SCALE};
use sphere_sandbox::settings;

fn plain(px: i64, py: i64, is_static: bool) -> Circle {
    Circle::new(
        Vec2 { x: px, y: py },
        Vec2 { x: 0, y: 0 },
        1_000,
        2_000,
        10_000,
        Color { r: 1, g: 2, b: 3, a: 4 },
        is_static,
    )
}

#[test]
fn new_keeps_all_parts() {
    let c = plain(100, 200, false);
    assert_eq!(c.position.x, 100);
    assert_eq!(c.position.y, 200);
    assert_eq!(c.velocity.x, 0);
    assert_eq!(c.amortization, 1_000);
    assert_eq!(c.mass, 2_000);
    assert_eq!(c.radius, 10_000);
    assert_eq!(c.color, Color { r: 1, g: 2, b: 3, a: 4 });
    assert!(!c.is_static);
}

#[test]
fn apply_force_divides_by_mass() {
    let mut c = plain(0, 0, false);
    c.apply_force(Vec2 { x: 1_000, y: -500 });
    // mass 2.0: each component gains force / 2
    assert_eq!(c.velocity.x, 500);
    assert_eq!(c.velocity.y, -250);
}

#[test]
fn apply_force_ignores_static_flag() {
    // force application is unconditional; the engine gates it
    let mut c = plain(0, 0, true);
    c.apply_force(Vec2 { x: 1_000, y: 0 });
    assert_eq!(c.velocity.x, 500);
}

#[test]
fn apply_force_saturates_at_limit() {
    let mut c = Circle::new(
        Vec2 { x: 0, y: 0 },
        Vec2 { x: 0, y: 0 },
        1_000,
        1,
        1,
        Color { r: 0, g: 0, b: 0, a: 0 },
        false,
    );
    c.apply_force(Vec2 { x: LIMIT, y: 0 });
    assert_eq!(c.velocity.x, LIMIT);
}

#[test]
fn apply_offset_moves_dynamic_only() {
    let mut d = plain(1_000, 2_000, false);
    d.apply_offset(Vec2 { x: 30, y: -40 });
    assert_eq!(d.position.x, 1_030);
    assert_eq!(d.position.y, 1_960);
    let mut s = plain(1_000, 2_000, true);
    s.apply_offset(Vec2 { x: 30, y: -40 });
    assert_eq!(s.position.x, 1_000);
    assert_eq!(s.position.y, 2_000);
}

#[test]
fn update_scales_velocity_by_time() {
    let mut c = plain(10_000, 0, false);
    c.velocity = Vec2 { x: 3_000, y: -1_000 };
    c.update(500, 100);
    // 3 units/s for half a second at a tenth speed: 0.15 units
    assert_eq!(c.position.x, 10_150);
    assert_eq!(c.position.y, -50);
}

#[test]
fn update_leaves_static_in_place() {
    let mut c = plain(10_000, 0, true);
    c.velocity = Vec2 { x: 3_000, y: 0 };
    c.update(500, 100);
    assert_eq!(c.position.x, 10_000);
}

#[test]
fn scale_and_default_config() {
    assert_eq!(SCALE, 1_000);
    let cfg = settings::default_config();
    assert_eq!(cfg.screen_width, 1_280 * SCALE);
    assert_eq!(cfg.screen_height, 720 * SCALE);
    assert_eq!(cfg.margin, 50 * SCALE);
    assert_eq!(cfg.time_speed, 100);
    assert_eq!(cfg.gravity, 9_807);
}

#[test]
fn engine_keeps_insertion_order() {
    let cfg = Config {
        screen_width: 1_280_000,
        screen_height: 720_000,
        margin: 50_000,
        gravity: 0,
        time_speed: 100,
    };
    let mut e = Engine::new(cfg);
    e.add_circle(plain(100_000, 100_000, false));
    e.add_circle(plain(200_000, 100_000, true));
    e.add_circle(plain(300_000, 100_000, false));
    assert_eq!(e.get_objects_amount(), 3);
    let c = e.get_circles();
    assert_eq!(c[0].position.x, 100_000);
    assert_eq!(c[1].position.x, 200_000);
    assert_eq!(c[2].position.x, 300_000);
    assert!(c[1].is_static);
}
