//! The physics engine: wall confinement, pairwise collision resolution,
//! gravity and forward integration, once per body per step.
//!
//! Every executable routine here is proved to follow the spec functions
//! [`wall_confined`], [`pair_resolved`] and [`stepped`], which state the
//! whole per-step algorithm over circle models.

use vstd::prelude::*;

verus! {

use crate::circle::Circle;
use crate::circle::CircleModel;
use crate::circle::Vec2;
use crate::circle::force_applied;
use crate::circle::integrated;
use crate::circle::offset_applied;
use crate::fixed::LIMIT;
use crate::fixed::SCALE;
use crate::fixed::absi;
use crate::fixed::clip;
use crate::fixed::clip_to;
use crate::fixed::div_s;
use crate::fixed::div_trunc;
use crate::fixed::isqrt;
use crate::fixed::lemma_mul_bounds;
use crate::fixed::lemma_sqrt_floor;
use crate::fixed::lemma_tdiv_abs_le;
use crate::fixed::lemma_tdiv_pos;
use crate::fixed::mul_s;
use crate::fixed::sqrt_floor;
use crate::fixed::tdiv;

/// The simulation constants: screen bounds, the wall margin, gravity and
/// the global time-scale multiplier.
#[derive(Clone, Copy, Debug)]
pub struct Config {
    pub screen_width: i64,
    pub screen_height: i64,
    pub margin: i64,
    pub gravity: i64,
    pub time_speed: i64,
}

/// The mathematical view of a [`Config`].
pub ghost struct ConfigModel {
    pub width: int,
    pub height: int,
    pub margin: int,
    pub gravity: int,
    pub time_speed: int,
}

impl ConfigModel {
    /// All constants are representable; sizes, margin and time scale are
    /// nonnegative.
    pub open spec fn wf(self) -> bool {
        &&& 0 <= self.width <= LIMIT as int
        &&& 0 <= self.height <= LIMIT as int
        &&& 0 <= self.margin <= LIMIT as int
        &&& -(LIMIT as int) <= self.gravity <= LIMIT as int
        &&& 0 <= self.time_speed <= LIMIT as int
    }
}

impl View for Config {
    type V = ConfigModel;

    open spec fn view(&self) -> ConfigModel {
        ConfigModel {
            width: self.screen_width as int,
            height: self.screen_height as int,
            margin: self.margin as int,
            gravity: self.gravity as int,
            time_speed: self.time_speed as int,
        }
    }
}

/// Wall confinement of one circle: on each axis independently, if the
/// circle's edge crosses the margin, the center is clamped so the edge sits
/// exactly on the margin and the velocity component is negated and damped.
/// Static circles are exempt entirely.
pub open spec fn wall_confined(cfg: ConfigModel, b: CircleModel) -> CircleModel {
    if b.is_static {
        b
    } else {
        let b1 = if b.px - b.radius < cfg.margin {
            CircleModel {
                px: clip(cfg.margin + b.radius),
                vx: clip(mul_s(b.vx, -b.amortization)),
                ..b
            }
        } else {
            b
        };
        let b2 = if b1.px + b1.radius > cfg.width - cfg.margin {
            CircleModel {
                px: clip(cfg.width - cfg.margin - b1.radius),
                vx: clip(mul_s(b1.vx, -b1.amortization)),
                ..b1
            }
        } else {
            b1
        };
        let b3 = if b2.py - b2.radius < cfg.margin {
            CircleModel {
                py: clip(cfg.margin + b2.radius),
                vy: clip(mul_s(b2.vy, -b2.amortization)),
                ..b2
            }
        } else {
            b2
        };
        let b4 = if b3.py + b3.radius > cfg.height - cfg.margin {
            CircleModel {
                py: clip(cfg.height - cfg.margin - b3.radius),
                vy: clip(mul_s(b3.vy, -b3.amortization)),
                ..b3
            }
        } else {
            b3
        };
        b4
    }
}

/// Squared distance between the two centers.
pub open spec fn dist2(bi: CircleModel, bj: CircleModel) -> int {
    (bj.px - bi.px) * (bj.px - bi.px) + (bj.py - bi.py) * (bj.py - bi.py)
}

/// Distance between the two centers, rounded down.
pub open spec fn center_dist(bi: CircleModel, bj: CircleModel) -> int {
    sqrt_floor(dist2(bi, bj))
}

/// Two circles collide exactly when the distance between their centers is
/// strictly below the sum of their radii.
pub open spec fn colliding(bi: CircleModel, bj: CircleModel) -> bool {
    center_dist(bi, bj) < bi.radius + bj.radius
}

/// The unit collision normal from `bi` to `bj`, at scale. When the centers
/// coincide exactly the direction is undefined; the engine then falls back
/// deterministically to the downward axis `(0, SCALE)`.
pub open spec fn collision_normal(bi: CircleModel, bj: CircleModel) -> (int, int) {
    let dx = bj.px - bi.px;
    let dy = bj.py - bi.py;
    let d = center_dist(bi, bj);
    if d > 0 {
        (tdiv(dx * (SCALE as int), d), tdiv(dy * (SCALE as int), d))
    } else {
        (0, SCALE as int)
    }
}

/// Relative velocity of `bj` with respect to `bi`, projected on the
/// collision normal.
pub open spec fn approach_dot(bi: CircleModel, bj: CircleModel) -> int {
    let (nx, ny) = collision_normal(bi, bj);
    tdiv((bj.vx - bi.vx) * nx + (bj.vy - bi.vy) * ny, SCALE as int)
}

/// Collision response for one pair, `bi` standing earlier in the
/// collection than `bj`. If the pair is not colliding both are returned
/// unchanged. Otherwise an impulse along the normal is exchanged when the
/// bodies approach each other (using the first body's amortization only),
/// and the overlap is split evenly and pushed apart along the normal;
/// static bodies are never displaced and never have their velocity
/// changed.
pub open spec fn pair_resolved(bi: CircleModel, bj: CircleModel) -> (CircleModel, CircleModel) {
    if !colliding(bi, bj) {
        (bi, bj)
    } else {
        let (nx, ny) = collision_normal(bi, bj);
        let dot = approach_dot(bi, bj);
        let imp = if dot < 0 {
            let den = div_s(SCALE as int, bi.mass) + div_s(SCALE as int, bj.mass);
            let mag = div_s(-mul_s((SCALE as int) + bi.amortization, dot), den);
            let ix = mul_s(nx, mag);
            let iy = mul_s(ny, mag);
            let bi1 = if bi.is_static {
                bi
            } else {
                CircleModel {
                    vx: clip(bi.vx - div_s(ix, bi.mass)),
                    vy: clip(bi.vy - div_s(iy, bi.mass)),
                    ..bi
                }
            };
            let bj1 = if bj.is_static {
                bj
            } else {
                CircleModel {
                    vx: clip(bj.vx + div_s(ix, bj.mass)),
                    vy: clip(bj.vy + div_s(iy, bj.mass)),
                    ..bj
                }
            };
            (bi1, bj1)
        } else {
            (bi, bj)
        };
        let overlap = (bi.radius + bj.radius) - center_dist(bi, bj);
        let half = tdiv(overlap, 2);
        let sx = mul_s(nx, half);
        let sy = mul_s(ny, half);
        (offset_applied(imp.0, -sx, -sy), offset_applied(imp.1, sx, sy))
    }
}

/// Gravity applied to one circle: a force of `(0, gravity * mass)`.
pub open spec fn gravity_applied(cfg: ConfigModel, b: CircleModel) -> CircleModel {
    force_applied(b, 0, clip(mul_s(cfg.gravity, b.mass)))
}

/// The sequence after resolving the pair `(i, j)` in place.
pub open spec fn pair_step(s: Seq<CircleModel>, i: int, j: int) -> Seq<CircleModel> {
    let r = pair_resolved(s[i], s[j]);
    s.update(i, r.0).update(j, r.1)
}

/// The sequence after resolving the pairs `(i, i + 1)` up to `(i, j - 1)`,
/// in index order.
pub open spec fn pairs_upto(s: Seq<CircleModel>, i: int, j: int) -> Seq<CircleModel>
    decreases j - i,
{
    if j <= i + 1 {
        s
    } else {
        pair_step(pairs_upto(s, i, j - 1), i, j - 1)
    }
}

/// One body's share of a step: collisions against every later body, then —
/// for dynamic bodies only — wall confinement, gravity and integration.
pub open spec fn body_step(cfg: ConfigModel, s: Seq<CircleModel>, i: int, dt: int) -> Seq<
    CircleModel,
> {
    let s1 = pairs_upto(s, i, s.len() as int);
    if s1[i].is_static {
        s1
    } else {
        s1.update(
            i,
            integrated(gravity_applied(cfg, wall_confined(cfg, s1[i])), dt, cfg.time_speed),
        )
    }
}

/// The sequence after the first `i` bodies have taken their share of the
/// step, in index order.
pub open spec fn step_upto(cfg: ConfigModel, s: Seq<CircleModel>, dt: int, i: int) -> Seq<
    CircleModel,
> decreases i {
    if i <= 0 {
        s
    } else {
        body_step(cfg, step_upto(cfg, s, dt, i - 1), i - 1, dt)
    }
}

/// The whole step: every body takes its share, in insertion order,
/// mutating in place, so earlier bodies' corrections are visible to later
/// bodies within the same step.
pub open spec fn stepped(cfg: ConfigModel, s: Seq<CircleModel>, dt: int) -> Seq<CircleModel> {
    step_upto(cfg, s, dt, s.len() as int)
}

/// The models of a sequence of circles.
pub open spec fn model_seq(s: Seq<Circle>) -> Seq<CircleModel> {
    s.map_values(|c: Circle| c@)
}

proof fn lemma_model_seq_push(s: Seq<Circle>, c: Circle)
    ensures
        model_seq(s.push(c)) == model_seq(s).push(c@),
{
    assert(model_seq(s.push(c)) =~= model_seq(s).push(c@));
}

proof fn lemma_model_seq_update(s: Seq<Circle>, i: int, c: Circle)
    requires
        0 <= i < s.len(),
    ensures
        model_seq(s.update(i, c)) == model_seq(s).update(i, c@),
{
    assert(model_seq(s.update(i, c)) =~= model_seq(s).update(i, c@));
}

/// Wall confinement, on one circle.
fn handle_wall_collisions(config: &Config, circle: &mut Circle)
    requires
        config@.wf(),
        old(circle)@.wf(),
    ensures
        final(circle)@ == wall_confined(config@, old(circle)@),
        final(circle)@.wf(),
{
    if !circle.is_static {
        let radius = circle.radius;
        if circle.position.x - radius < config.margin {
            proof {
                lemma_mul_bounds(
                    circle.velocity.x as int,
                    -(circle.amortization as int),
                    LIMIT as int,
                    LIMIT as int,
                );
                lemma_tdiv_abs_le(
                    (circle.velocity.x as int) * (-(circle.amortization as int)),
                    SCALE as int,
                );
            }
            circle.position.x = clip_to(config.margin as i128 + radius as i128);
            circle.velocity.x = clip_to(
                div_trunc(circle.velocity.x as i128 * -(circle.amortization as i128), SCALE as i128),
            );
        }
        if circle.position.x + radius > config.screen_width - config.margin {
            proof {
                lemma_mul_bounds(
                    circle.velocity.x as int,
                    -(circle.amortization as int),
                    LIMIT as int,
                    LIMIT as int,
                );
                lemma_tdiv_abs_le(
                    (circle.velocity.x as int) * (-(circle.amortization as int)),
                    SCALE as int,
                );
            }
            circle.position.x = clip_to(
                config.screen_width as i128 - config.margin as i128 - radius as i128,
            );
            circle.velocity.x = clip_to(
                div_trunc(circle.velocity.x as i128 * -(circle.amortization as i128), SCALE as i128),
            );
        }
        if circle.position.y - radius < config.margin {
            proof {
                lemma_mul_bounds(
                    circle.velocity.y as int,
                    -(circle.amortization as int),
                    LIMIT as int,
                    LIMIT as int,
                );
                lemma_tdiv_abs_le(
                    (circle.velocity.y as int) * (-(circle.amortization as int)),
                    SCALE as int,
                );
            }
            circle.position.y = clip_to(config.margin as i128 + radius as i128);
            circle.velocity.y = clip_to(
                div_trunc(circle.velocity.y as i128 * -(circle.amortization as i128), SCALE as i128),
            );
        }
        if circle.position.y + radius > config.screen_height - config.margin {
            proof {
                lemma_mul_bounds(
                    circle.velocity.y as int,
                    -(circle.amortization as int),
                    LIMIT as int,
                    LIMIT as int,
                );
                lemma_tdiv_abs_le(
                    (circle.velocity.y as int) * (-(circle.amortization as int)),
                    SCALE as int,
                );
            }
            circle.position.y = clip_to(
                config.screen_height as i128 - config.margin as i128 - radius as i128,
            );
            circle.velocity.y = clip_to(
                div_trunc(circle.velocity.y as i128 * -(circle.amortization as i128), SCALE as i128),
            );
        }
    }
}

/// Collision response for one pair of circles.
#[verifier::rlimit(60)]
fn resolve_collision(bi: Circle, bj: Circle) -> (r: (Circle, Circle))
    requires
        bi@.wf(),
        bj@.wf(),
    ensures
        (r.0@, r.1@) == pair_resolved(bi@, bj@),
        r.0@.wf(),
        r.1@.wf(),
{
    let dx = bj.position.x as i128 - bi.position.x as i128;
    let dy = bj.position.y as i128 - bi.position.y as i128;
    proof {
        lemma_mul_bounds(dx as int, dx as int, 2 * LIMIT as int, 2 * LIMIT as int);
        lemma_mul_bounds(dy as int, dy as int, 2 * LIMIT as int, 2 * LIMIT as int);
    }
    let d2 = dx * dx + dy * dy;
    proof {
        assert(d2 >= 0) by (nonlinear_arith)
            requires
                d2 == dx * dx + dy * dy,
        ;
    }
    let du = isqrt(d2 as u128);
    proof {
        lemma_sqrt_floor(d2 as int);
        assert(du as int <= 4_000_000_000_000) by (nonlinear_arith)
            requires
                du as int >= 0,
                (du as int) * (du as int) <= d2 as int,
                d2 as int <= 8_000_000_000_000_000_000_000_000,
        ;
    }
    let d = du as i128;
    let cd = bi.radius as i128 + bj.radius as i128;
    proof {
        assert(d >= 0);
        assert(d * d <= d2 < (d + 1) * (d + 1));
        assert(absi(dx as int) <= d && absi(dy as int) <= d) by (nonlinear_arith)
            requires
                d >= 0,
                d2 < (d + 1) * (d + 1),
                d2 == (dx as int) * (dx as int) + (dy as int) * (dy as int),
        ;
    }
    if d < cd {
        let ghost mi = bi@;
        let ghost mj = bj@;
        assert(colliding(mi, mj));
        let (nx, ny): (i128, i128) = if d > 0 {
            proof {
                lemma_mul_bounds(dx as int, SCALE as int, 2 * LIMIT as int, SCALE as int);
                lemma_mul_bounds(dy as int, SCALE as int, 2 * LIMIT as int, SCALE as int);
                lemma_tdiv_abs_le(dx as int * (SCALE as int), d as int);
                lemma_tdiv_abs_le(dy as int * (SCALE as int), d as int);
                assert(absi(tdiv(dx as int * (SCALE as int), d as int)) <= SCALE as int) by {
                    lemma_div_scaled_by_dist(dx as int, d as int);
                }
                assert(absi(tdiv(dy as int * (SCALE as int), d as int)) <= SCALE as int) by {
                    lemma_div_scaled_by_dist(dy as int, d as int);
                }
            }
            (div_trunc(dx * SCALE as i128, d), div_trunc(dy * SCALE as i128, d))
        } else {
            (0, SCALE as i128)
        };
        assert((nx as int, ny as int) == collision_normal(mi, mj));
        assert(absi(nx as int) <= SCALE as int && absi(ny as int) <= SCALE as int);
        let rvx = bj.velocity.x as i128 - bi.velocity.x as i128;
        let rvy = bj.velocity.y as i128 - bi.velocity.y as i128;
        proof {
            lemma_mul_bounds(rvx as int, nx as int, 2 * LIMIT as int, SCALE as int);
            lemma_mul_bounds(rvy as int, ny as int, 2 * LIMIT as int, SCALE as int);
            lemma_tdiv_abs_le(rvx as int * nx as int + rvy as int * ny as int, SCALE as int);
        }
        let dot = div_trunc(rvx * nx + rvy * ny, SCALE as i128);
        assert(dot as int == approach_dot(mi, mj));
        let mut ci = bi;
        let mut cj = bj;
        if dot < 0 {
            proof {
                lemma_inv_mass_pos(bi.mass as int);
                lemma_inv_mass_pos(bj.mass as int);
            }
            let inv_i = div_trunc(SCALE as i128 * SCALE as i128, bi.mass as i128);
            let inv_j = div_trunc(SCALE as i128 * SCALE as i128, bj.mass as i128);
            let den = inv_i + inv_j;
            proof {
                assert(den >= 2);
                lemma_mul_bounds(
                    SCALE as int + bi.amortization as int,
                    dot as int,
                    2 * LIMIT as int,
                    4 * LIMIT as int * SCALE as int,
                );
                lemma_tdiv_abs_le((SCALE as int + bi.amortization as int) * dot as int, SCALE as int);
            }
            let t = div_trunc((SCALE as i128 + bi.amortization as i128) * dot, SCALE as i128);
            let ghost tb: int = 8 * LIMIT as int * LIMIT as int * SCALE as int;
            proof {
                lemma_mul_bounds(-(t as int), SCALE as int, tb, SCALE as int);
                lemma_tdiv_abs_le(-(t as int) * SCALE as int, den as int);
            }
            let mag = div_trunc(-t * SCALE as i128, den);
            proof {
                lemma_mul_bounds(nx as int, mag as int, SCALE as int, tb * SCALE as int);
                lemma_mul_bounds(ny as int, mag as int, SCALE as int, tb * SCALE as int);
                lemma_tdiv_abs_le(nx as int * mag as int, SCALE as int);
                lemma_tdiv_abs_le(ny as int * mag as int, SCALE as int);
            }
            let ix = div_trunc(nx * mag, SCALE as i128);
            let iy = div_trunc(ny * mag, SCALE as i128);
            proof {
                lemma_mul_bounds(ix as int, SCALE as int, tb * SCALE as int * SCALE as int, SCALE as int);
                lemma_mul_bounds(iy as int, SCALE as int, tb * SCALE as int * SCALE as int, SCALE as int);
                lemma_tdiv_abs_le(ix as int * SCALE as int, bi.mass as int);
                lemma_tdiv_abs_le(iy as int * SCALE as int, bi.mass as int);
                lemma_tdiv_abs_le(ix as int * SCALE as int, bj.mass as int);
                lemma_tdiv_abs_le(iy as int * SCALE as int, bj.mass as int);
            }
            if !ci.is_static {
                ci.velocity.x = clip_to(
                    ci.velocity.x as i128 - div_trunc(ix * SCALE as i128, ci.mass as i128),
                );
                ci.velocity.y = clip_to(
                    ci.velocity.y as i128 - div_trunc(iy * SCALE as i128, ci.mass as i128),
                );
            }
            if !cj.is_static {
                cj.velocity.x = clip_to(
                    cj.velocity.x as i128 + div_trunc(ix * SCALE as i128, cj.mass as i128),
                );
                cj.velocity.y = clip_to(
                    cj.velocity.y as i128 + div_trunc(iy * SCALE as i128, cj.mass as i128),
                );
            }
        }
        let overlap = cd - d;
        let half = div_trunc(overlap, 2);
        proof {
            lemma_tdiv_abs_le(overlap as int, 2);
            lemma_mul_bounds(nx as int, half as int, SCALE as int, 2 * LIMIT as int);
            lemma_mul_bounds(ny as int, half as int, SCALE as int, 2 * LIMIT as int);
            lemma_tdiv_abs_le(nx as int * half as int, SCALE as int);
            lemma_tdiv_abs_le(ny as int * half as int, SCALE as int);
        }
        let sx = div_trunc(nx * half, SCALE as i128);
        let sy = div_trunc(ny * half, SCALE as i128);
        if !ci.is_static {
            ci.position.x = clip_to(ci.position.x as i128 - sx);
            ci.position.y = clip_to(ci.position.y as i128 - sy);
        }
        if !cj.is_static {
            cj.position.x = clip_to(cj.position.x as i128 + sx);
            cj.position.y = clip_to(cj.position.y as i128 + sy);
        }
        assert(ci@ == pair_resolved(mi, mj).0);
        assert(cj@ == pair_resolved(mi, mj).1);
        (ci, cj)
    } else {
        assert(!colliding(bi@, bj@));
        (bi, bj)
    }
}

/// The physics engine: a configuration and an ordered collection of
/// circles, advanced in place once per [`Engine::update`] call.
pub struct Engine {
    pub config: Config,
    pub circles: Vec<Circle>,
}

impl Engine {
    /// The models of the owned circles, in insertion order.
    pub open spec fn bodies(self) -> Seq<CircleModel> {
        model_seq(self.circles@)
    }

    /// The configuration is well formed, and so is every owned circle.
    pub open spec fn wf(self) -> bool {
        &&& self.config@.wf()
        &&& forall|k: int| 0 <= k < self.bodies().len() ==> (#[trigger] self.bodies()[k]).wf()
    }

    /// An empty engine over the given configuration.
    pub fn new(config: Config) -> (e: Engine)
        requires
            config@.wf(),
        ensures
            e.wf(),
            e.config == config,
            e.bodies() == Seq::<CircleModel>::empty(),
    {
        let e = Engine { config, circles: Vec::new() };
        proof {
            assert(e.bodies() =~= Seq::<CircleModel>::empty());
        }
        e
    }

    /// Appends a circle and immediately wall-clamps it, so no dynamic body
    /// ever starts clipped into a boundary; static bodies are exempt from
    /// the clamp and keep their constructed position.
    pub fn add_circle(&mut self, circle: Circle)
        requires
            old(self).wf(),
            circle@.wf(),
        ensures
            final(self).wf(),
            final(self).config == old(self).config,
            final(self).bodies() == old(self).bodies().push(
                wall_confined(old(self).config@, circle@),
            ),
    {
        let ghost s0 = self.circles@;
        self.circles.push(circle);
        proof {
            lemma_model_seq_push(s0, circle);
        }
        let last = self.circles.len() - 1;
        let mut c = self.circles[last];
        handle_wall_collisions(&self.config, &mut c);
        self.circles[last] = c;
        proof {
            lemma_model_seq_update(s0.push(circle), last as int, c);
            assert(model_seq(s0).push(circle@).update(last as int, c@) =~= model_seq(s0).push(c@));
            assert forall|k: int|
                0 <= k < self.bodies().len() implies (#[trigger] self.bodies()[k]).wf() by {
                if k < s0.len() {
                    assert(self.bodies()[k] == old(self).bodies()[k]);
                    assert(old(self).bodies()[k].wf());
                } else {
                    assert(self.bodies()[k] == c@);
                }
            }
        }
    }

    /// Read access to the owned circles, in insertion order.
    pub fn get_circles(&self) -> (r: &Vec<Circle>)
        ensures
            r == &self.circles,
    {
        &self.circles
    }

    /// The number of owned circles.
    pub fn get_objects_amount(&self) -> (n: usize)
        ensures
            n == self.bodies().len(),
    {
        self.circles.len()
    }

    /// Advances the simulation by `delta_time`, internally scaled by the
    /// configured time speed. Each body, in insertion order, resolves
    /// collisions against every later body, then — if dynamic — is
    /// wall-confined, accelerated by gravity and integrated, all in place.
    pub fn update(&mut self, delta_time: i64)
        requires
            old(self).wf(),
            0 <= delta_time <= LIMIT,
        ensures
            final(self).wf(),
            final(self).config == old(self).config,
            final(self).bodies() == stepped(old(self).config@, old(self).bodies(), delta_time as int),
    {
        let ghost cfg0 = self.config@;
        let ghost s0 = self.bodies();
        let n = self.circles.len();
        let mut i: usize = 0;
        while i < n
            invariant
                self.config@ == cfg0,
                self.config == old(self).config,
                cfg0.wf(),
                0 <= delta_time <= LIMIT,
                i <= n,
                n == self.circles.len(),
                n == s0.len(),
                self.bodies() == step_upto(cfg0, s0, delta_time as int, i as int),
                forall|k: int|
                    0 <= k < self.bodies().len() ==> (#[trigger] self.bodies()[k]).wf(),
            decreases n - i,
        {
            let ghost si = self.bodies();
            let mut j: usize = i + 1;
            while j < n
                invariant
                    self.config@ == cfg0,
                    self.config == old(self).config,
                    cfg0.wf(),
                    i < j <= n,
                    n == self.circles.len(),
                    self.bodies() == pairs_upto(si, i as int, j as int),
                    forall|k: int|
                        0 <= k < self.bodies().len() ==> (#[trigger] self.bodies()[k]).wf(),
                decreases n - j,
            {
                let ghost sj = self.circles@;
                let bi = self.circles[i];
                let bj = self.circles[j];
                proof {
                    assert(bi@ == self.bodies()[i as int]);
                    assert(self.bodies()[i as int].wf());
                    assert(bj@ == self.bodies()[j as int]);
                    assert(self.bodies()[j as int].wf());
                }
                let (nbi, nbj) = resolve_collision(bi, bj);
                self.circles[i] = nbi;
                self.circles[j] = nbj;
                proof {
                    lemma_model_seq_update(sj, i as int, nbi);
                    lemma_model_seq_update(sj.update(i as int, nbi), j as int, nbj);
                    assert(self.bodies() == pair_step(pairs_upto(si, i as int, j as int), i as int, j as int));
                    assert(self.bodies() == pairs_upto(si, i as int, j as int + 1));
                }
                j = j + 1;
            }
            let ghost s1 = self.bodies();
            assert(s1 == pairs_upto(si, i as int, n as int));
            let ci = self.circles[i];
            if !ci.is_static {
                let ghost sp = self.circles@;
                let mut c = ci;
                proof {
                    assert(ci@ == self.bodies()[i as int]);
                    assert(self.bodies()[i as int].wf());
                }
                handle_wall_collisions(&self.config, &mut c);
                proof {
                    lemma_mul_bounds(
                        self.config.gravity as int,
                        c.mass as int,
                        LIMIT as int,
                        SCALE as int * SCALE as int,
                    );
                }
                let fy = clip_to(
                    div_trunc(self.config.gravity as i128 * c.mass as i128, SCALE as i128),
                );
                c.apply_force(Vec2 { x: 0, y: fy });
                c.update(delta_time, self.config.time_speed);
                self.circles[i] = c;
                proof {
                    lemma_model_seq_update(sp, i as int, c);
                    assert(c@ == integrated(
                        gravity_applied(cfg0, wall_confined(cfg0, s1[i as int])),
                        delta_time as int,
                        cfg0.time_speed,
                    ));
                    assert(self.bodies() == body_step(cfg0, si, i as int, delta_time as int));
                }
            } else {
                proof {
                    assert(self.bodies() == body_step(cfg0, si, i as int, delta_time as int));
                }
            }
            proof {
                assert(self.bodies() == step_upto(cfg0, s0, delta_time as int, i as int + 1));
            }
            i = i + 1;
        }
        proof {
            assert(self.bodies() == stepped(cfg0, s0, delta_time as int));
        }
    }
}

/// For a mass within range, the scaled reciprocal mass is at least one.
pub(crate) proof fn lemma_inv_mass_pos(m: int)
    requires
        1 <= m <= (SCALE as int) * (SCALE as int),
    ensures
        1 <= tdiv((SCALE as int) * (SCALE as int), m) <= (SCALE as int) * (SCALE as int),
{
    lemma_tdiv_pos((SCALE as int) * (SCALE as int), m);
    let t = tdiv((SCALE as int) * (SCALE as int), m);
    assert(t >= 1) by (nonlinear_arith)
        requires
            1 <= m <= 1000000,
            t >= 0,
            1000000 < m * (t + 1),
    ;
    lemma_tdiv_abs_le((SCALE as int) * (SCALE as int), m);
}

/// A component of a difference vector, scaled and divided by the vector's
/// floored length, stays within one scale unit.
pub(crate) proof fn lemma_div_scaled_by_dist(dx: int, d: int)
    requires
        d >= 1,
        absi(dx) <= d,
    ensures
        absi(tdiv(dx * (SCALE as int), d)) <= SCALE as int,
{
    lemma_tdiv_pos(absi(dx) * (SCALE as int), d);
    assert(absi(dx * (SCALE as int)) == absi(dx) * (SCALE as int)) by (nonlinear_arith);
    assert(absi(dx) * (SCALE as int) <= d * (SCALE as int)) by (nonlinear_arith)
        requires
            absi(dx) <= d,
    ;
    let q = tdiv(absi(dx) * (SCALE as int), d);
    assert(q <= SCALE as int) by (nonlinear_arith)
        requires
            d >= 1,
            d * q <= absi(dx) * (SCALE as int),
            absi(dx) * (SCALE as int) <= d * (SCALE as int),
    ;
    if dx >= 0 {
        assert(tdiv(dx * (SCALE as int), d) == q);
    } else {
        crate::fixed::lemma_tdiv_neg(absi(dx) * (SCALE as int), d);
        assert(dx * (SCALE as int) == -(absi(dx) * (SCALE as int))) by (nonlinear_arith)
            requires
                dx < 0,
        ;
    }
    crate::fixed::lemma_tdiv_abs_le(dx * (SCALE as int), d);
}

} // verus!
