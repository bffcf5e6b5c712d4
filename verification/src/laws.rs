//! The engine's laws: properties of the step algorithm, stated over the
//! spec functions of [`crate::engine`] and proved once for all inputs.

use vstd::prelude::*;

verus! {

use crate::circle::CircleModel;
use crate::circle::integrated;
use crate::engine::ConfigModel;
use crate::engine::approach_dot;
use crate::engine::body_step;
use crate::engine::center_dist;
use crate::engine::colliding;
use crate::engine::collision_normal;
use crate::engine::dist2;
use crate::engine::gravity_applied;
use crate::engine::pair_resolved;
use crate::engine::pairs_upto;
use crate::engine::step_upto;
use crate::engine::stepped;
use crate::engine::wall_confined;
use crate::fixed::LIMIT;
use crate::fixed::SCALE;
use crate::fixed::absi;
use crate::fixed::clip;
use crate::fixed::div_s;
use crate::fixed::lemma_sqrt_floor;
use crate::fixed::lemma_sqrt_floor_unique;
use crate::fixed::lemma_tdiv_zero;
use crate::fixed::lemma_tdiv_abs_eq;
use crate::fixed::lemma_tdiv_abs_le;
use crate::fixed::lemma_tdiv_exact;
use crate::fixed::lemma_tdiv_ordered;
use crate::fixed::lemma_tdiv_pos;
use crate::fixed::mul_s;
use crate::fixed::tdiv;

/// The circle sits fully between the margins, on both axes.
pub open spec fn contained(cfg: ConfigModel, b: CircleModel) -> bool {
    &&& cfg.margin <= b.px - b.radius
    &&& b.px + b.radius <= cfg.width - cfg.margin
    &&& cfg.margin <= b.py - b.radius
    &&& b.py + b.radius <= cfg.height - cfg.margin
}

/// Wall containment: wall confinement leaves any dynamic circle that fits
/// between the margins fully inside them, on both axes. The per-step
/// update applies this confinement to every dynamic body before gravity
/// and integration, and `add_circle` applies it on insertion.
pub proof fn lemma_wall_containment(cfg: ConfigModel, b: CircleModel)
    requires
        cfg.wf(),
        b.wf(),
        !b.is_static,
        2 * b.radius <= cfg.width - 2 * cfg.margin,
        2 * b.radius <= cfg.height - 2 * cfg.margin,
    ensures
        contained(cfg, wall_confined(cfg, b)),
{
    assert(clip(cfg.margin + b.radius) == cfg.margin + b.radius);
    assert(clip(cfg.width - cfg.margin - b.radius) == cfg.width - cfg.margin - b.radius);
    assert(clip(cfg.height - cfg.margin - b.radius) == cfg.height - cfg.margin - b.radius);
}

/// A pair resolution never flips the static flag, and leaves a static
/// partner entirely unchanged.
pub proof fn lemma_pair_resolved_static(bi: CircleModel, bj: CircleModel)
    ensures
        pair_resolved(bi, bj).0.is_static == bi.is_static,
        pair_resolved(bi, bj).1.is_static == bj.is_static,
        bi.is_static ==> pair_resolved(bi, bj).0 == bi,
        bj.is_static ==> pair_resolved(bi, bj).1 == bj,
{
}

proof fn lemma_pairs_upto_static(s: Seq<CircleModel>, i: int, j: int, k: int)
    requires
        0 <= i < s.len(),
        i + 1 <= j <= s.len(),
        0 <= k < s.len(),
    ensures
        pairs_upto(s, i, j).len() == s.len(),
        pairs_upto(s, i, j)[k].is_static == s[k].is_static,
        s[k].is_static ==> pairs_upto(s, i, j)[k] == s[k],
    decreases j - i,
{
    if j <= i + 1 {
    } else {
        lemma_pairs_upto_static(s, i, j - 1, k);
        lemma_pairs_upto_static(s, i, j - 1, i);
        lemma_pairs_upto_static(s, i, j - 1, j - 1);
        let p = pairs_upto(s, i, j - 1);
        lemma_pair_resolved_static(p[i], p[j - 1]);
    }
}

proof fn lemma_body_step_static(cfg: ConfigModel, s: Seq<CircleModel>, i: int, dt: int, k: int)
    requires
        0 <= i < s.len(),
        0 <= k < s.len(),
        s[k].is_static,
    ensures
        body_step(cfg, s, i, dt).len() == s.len(),
        body_step(cfg, s, i, dt)[k] == s[k],
{
    lemma_pairs_upto_static(s, i, s.len() as int, k);
    lemma_pairs_upto_static(s, i, s.len() as int, i);
}

proof fn lemma_step_upto_static(cfg: ConfigModel, s: Seq<CircleModel>, dt: int, m: int, k: int)
    requires
        0 <= m <= s.len(),
        0 <= k < s.len(),
        s[k].is_static,
    ensures
        step_upto(cfg, s, dt, m).len() == s.len(),
        step_upto(cfg, s, dt, m)[k] == s[k],
    decreases m,
{
    if m > 0 {
        lemma_step_upto_static(cfg, s, dt, m - 1, k);
        lemma_body_step_static(cfg, step_upto(cfg, s, dt, m - 1), m - 1, dt, k);
    }
}

/// Static immutability: a whole step leaves every static body, position
/// and velocity included, exactly as it was.
pub proof fn lemma_static_immutable(cfg: ConfigModel, s: Seq<CircleModel>, dt: int, k: int)
    requires
        0 <= k < s.len(),
        s[k].is_static,
    ensures
        stepped(cfg, s, dt).len() == s.len(),
        stepped(cfg, s, dt)[k] == s[k],
{
    lemma_step_upto_static(cfg, s, dt, s.len() as int, k);
}

/// The state after running a whole step for each entry of `dts`, in order.
pub open spec fn stepped_many(cfg: ConfigModel, s: Seq<CircleModel>, dts: Seq<int>) -> Seq<
    CircleModel,
> decreases dts.len() {
    if dts.len() == 0 {
        s
    } else {
        stepped_many(cfg, stepped(cfg, s, dts[0]), dts.subrange(1, dts.len() as int))
    }
}

/// Static immutability over any number of steps: however many steps run,
/// a static body's state is bit-identical to what was added.
pub proof fn lemma_static_immutable_many(
    cfg: ConfigModel,
    s: Seq<CircleModel>,
    dts: Seq<int>,
    k: int,
)
    requires
        0 <= k < s.len(),
        s[k].is_static,
    ensures
        stepped_many(cfg, s, dts).len() == s.len(),
        stepped_many(cfg, s, dts)[k] == s[k],
    decreases dts.len(),
{
    if dts.len() > 0 {
        lemma_static_immutable(cfg, s, dts[0], k);
        lemma_static_immutable_many(cfg, stepped(cfg, s, dts[0]), dts.subrange(1, dts.len() as int), k);
    }
}

/// A pair resolution keeps every non-kinematic field of both bodies, and
/// keeps both well formed.
proof fn lemma_pair_resolved_keeps(bi: CircleModel, bj: CircleModel)
    requires
        bi.wf(),
        bj.wf(),
    ensures
        pair_resolved(bi, bj).0.wf(),
        pair_resolved(bi, bj).1.wf(),
        pair_resolved(bi, bj).0.radius == bi.radius,
        pair_resolved(bi, bj).1.radius == bj.radius,
        pair_resolved(bi, bj).0.is_static == bi.is_static,
        pair_resolved(bi, bj).1.is_static == bj.is_static,
{
}

/// Wall confinement, gravity and integration keep the body well formed
/// and its non-kinematic fields unchanged; a zero-length integration and
/// gravity also keep the position.
proof fn lemma_body_phase_keeps(cfg: ConfigModel, b: CircleModel, dt: int, ts: int)
    requires
        cfg.wf(),
        b.wf(),
    ensures
        wall_confined(cfg, b).wf(),
        wall_confined(cfg, b).radius == b.radius,
        wall_confined(cfg, b).is_static == b.is_static,
        gravity_applied(cfg, b).wf(),
        gravity_applied(cfg, b).radius == b.radius,
        gravity_applied(cfg, b).is_static == b.is_static,
        gravity_applied(cfg, b).px == b.px,
        gravity_applied(cfg, b).py == b.py,
        integrated(b, dt, ts).wf(),
        integrated(b, dt, ts).radius == b.radius,
        integrated(b, dt, ts).is_static == b.is_static,
        integrated(b, 0, ts).px == b.px,
        integrated(b, 0, ts).py == b.py,
{
    assert(b.vx * 0 == 0) by (nonlinear_arith);
    assert(b.vy * 0 == 0) by (nonlinear_arith);
    lemma_tdiv_zero(SCALE as int);
    assert(mul_s(b.vx, 0) == 0);
    assert(mul_s(b.vy, 0) == 0);
    assert(0 * ts == 0) by (nonlinear_arith);
}

/// All bodies stay well formed across one body's pair pass, radius and
/// the static flag are untouched everywhere, and bodies standing before
/// the current one are not touched at all.
proof fn lemma_pairs_upto_wf(s: Seq<CircleModel>, i: int, j: int)
    requires
        0 <= i < s.len(),
        i + 1 <= j <= s.len(),
        forall|k: int| 0 <= k < s.len() ==> (#[trigger] s[k]).wf(),
    ensures
        pairs_upto(s, i, j).len() == s.len(),
        forall|k: int| 0 <= k < s.len() ==> (#[trigger] pairs_upto(s, i, j)[k]).wf(),
        forall|k: int|
            0 <= k < s.len() ==> (#[trigger] pairs_upto(s, i, j)[k]).radius == s[k].radius,
        forall|k: int|
            0 <= k < s.len() ==> (#[trigger] pairs_upto(s, i, j)[k]).is_static == s[k].is_static,
        forall|k: int| 0 <= k < i ==> (#[trigger] pairs_upto(s, i, j)[k]) == s[k],
    decreases j - i,
{
    if j <= i + 1 {
    } else {
        lemma_pairs_upto_wf(s, i, j - 1);
        let p = pairs_upto(s, i, j - 1);
        lemma_pair_resolved_keeps(p[i], p[j - 1]);
    }
}

/// Indices below `i` are not touched by the `i`-th body's share of the
/// step.
proof fn lemma_body_step_untouched(cfg: ConfigModel, s: Seq<CircleModel>, i: int, dt: int)
    requires
        0 <= i < s.len(),
        forall|k: int| 0 <= k < s.len() ==> (#[trigger] s[k]).wf(),
    ensures
        body_step(cfg, s, i, dt).len() == s.len(),
        forall|k: int| 0 <= k < i ==> (#[trigger] body_step(cfg, s, i, dt)[k]) == s[k],
{
    lemma_pairs_upto_wf(s, i, s.len() as int);
}

/// Every body stays well formed across a whole prefix of the step, with
/// radius and static flag untouched.
proof fn lemma_step_upto_wf(cfg: ConfigModel, s: Seq<CircleModel>, dt: int, m: int)
    requires
        cfg.wf(),
        0 <= m <= s.len(),
        forall|k: int| 0 <= k < s.len() ==> (#[trigger] s[k]).wf(),
    ensures
        step_upto(cfg, s, dt, m).len() == s.len(),
        forall|k: int| 0 <= k < s.len() ==> (#[trigger] step_upto(cfg, s, dt, m)[k]).wf(),
        forall|k: int|
            0 <= k < s.len() ==> (#[trigger] step_upto(cfg, s, dt, m)[k]).radius == s[k].radius,
        forall|k: int|
            0 <= k < s.len() ==> (#[trigger] step_upto(cfg, s, dt, m)[k]).is_static
                == s[k].is_static,
    decreases m,
{
    if m > 0 {
        lemma_step_upto_wf(cfg, s, dt, m - 1);
        let p = step_upto(cfg, s, dt, m - 1);
        lemma_pairs_upto_wf(p, m - 1, s.len() as int);
        let q = pairs_upto(p, m - 1, s.len() as int);
        lemma_body_phase_keeps(cfg, wall_confined(cfg, q[m - 1]), dt, cfg.time_speed);
        lemma_body_phase_keeps(cfg, gravity_applied(cfg, wall_confined(cfg, q[m - 1])), dt, cfg.time_speed);
        lemma_body_phase_keeps(cfg, q[m - 1], dt, cfg.time_speed);
    }
}

/// Once a body has taken its share of the step, later bodies' shares do
/// not move it.
proof fn lemma_step_upto_frozen(cfg: ConfigModel, s: Seq<CircleModel>, dt: int, m: int, k: int)
    requires
        cfg.wf(),
        0 <= k < m <= s.len(),
        forall|n: int| 0 <= n < s.len() ==> (#[trigger] s[n]).wf(),
    ensures
        step_upto(cfg, s, dt, m)[k] == step_upto(cfg, s, dt, k + 1)[k],
    decreases m,
{
    if m > k + 1 {
        lemma_step_upto_frozen(cfg, s, dt, m - 1, k);
        lemma_step_upto_wf(cfg, s, dt, m - 1);
        lemma_body_step_untouched(cfg, step_upto(cfg, s, dt, m - 1), m - 1, dt);
    }
}

/// Wall containment over a whole step: a zero-length step leaves every
/// dynamic body that fits between the margins fully inside them, whatever
/// collisions were resolved on the way. (A step of nonzero length then
/// moves each body by its scaled velocity from that confined position.)
pub proof fn lemma_step_containment(cfg: ConfigModel, s: Seq<CircleModel>, k: int)
    requires
        cfg.wf(),
        0 <= k < s.len(),
        forall|n: int| 0 <= n < s.len() ==> (#[trigger] s[n]).wf(),
        !s[k].is_static,
        2 * s[k].radius <= cfg.width - 2 * cfg.margin,
        2 * s[k].radius <= cfg.height - 2 * cfg.margin,
    ensures
        contained(cfg, stepped(cfg, s, 0)[k]),
{
    lemma_step_upto_frozen(cfg, s, 0, s.len() as int, k);
    let p = step_upto(cfg, s, 0, k);
    lemma_step_upto_wf(cfg, s, 0, k);
    lemma_pairs_upto_wf(p, k, s.len() as int);
    let q = pairs_upto(p, k, s.len() as int);
    assert(step_upto(cfg, s, 0, k + 1) == body_step(cfg, p, k, 0));
    assert(!q[k].is_static);
    lemma_wall_containment(cfg, q[k]);
    let w = wall_confined(cfg, q[k]);
    lemma_body_phase_keeps(cfg, q[k], 0, cfg.time_speed);
    lemma_body_phase_keeps(cfg, w, 0, cfg.time_speed);
    lemma_body_phase_keeps(cfg, gravity_applied(cfg, w), 0, cfg.time_speed);
}

/// Momentum reversal in a head-on collision: for two colliding dynamic
/// circles aligned on the x axis, with equal mass, amortization exactly
/// one, and an approach speed clearly above the fixed-point rounding
/// floor, one resolution reverses the sign of the relative velocity along
/// the normal.
pub proof fn lemma_head_on_reversal(bi: CircleModel, bj: CircleModel)
    requires
        bi.wf(),
        bj.wf(),
        !bi.is_static,
        !bj.is_static,
        bj.py == bi.py,
        bi.px < bj.px,
        colliding(bi, bj),
        bj.mass == bi.mass,
        2 * bi.mass <= (SCALE as int) * (SCALE as int),
        bi.amortization == SCALE as int,
        (bi.vx - bj.vx) * bi.mass >= 4 * (SCALE as int) + 4 * bi.mass,
        8 * absi(bi.vx) <= LIMIT as int,
        8 * absi(bj.vx) <= LIMIT as int,
    ensures
        approach_dot(bi, bj) < 0,
        ({
            let r = pair_resolved(bi, bj);
            r.1.vx - r.0.vx > 0
        }),
{
    let s = SCALE as int;
    let dx = bj.px - bi.px;
    let m = bi.mass;
    let a = bi.vx - bj.vx;
    assert(a >= 1) by (nonlinear_arith)
        requires
            a * m >= 4 * 1000 + 4 * m,
            m >= 1,
    ;
    // the distance is exactly dx, and the normal is exactly (SCALE, 0)
    assert(dist2(bi, bj) == dx * dx);
    assert(0 <= dx * dx < (dx + 1) * (dx + 1)) by (nonlinear_arith)
        requires
            dx >= 1,
    ;
    lemma_sqrt_floor_unique(dx * dx, dx);
    let d = center_dist(bi, bj);
    assert(d == dx);
    assert(dx * s == s * dx) by (nonlinear_arith);
    lemma_tdiv_exact(s, dx);
    lemma_tdiv_zero(dx);
    assert(collision_normal(bi, bj) == (s, 0 as int));
    // the projected approach speed is exactly the relative x velocity
    assert((bj.vx - bi.vx) * s == (-a) * s) by (nonlinear_arith)
        requires
            bj.vx - bi.vx == -a,
    ;
    assert((bj.vy - bi.vy) * 0 == 0) by (nonlinear_arith);
    lemma_tdiv_exact(-a, s);
    assert(approach_dot(bi, bj) == -a);
    // the reciprocal-mass sum
    let q = tdiv(s * s, m);
    lemma_tdiv_pos(s * s, m);
    assert(q >= 2) by (nonlinear_arith)
        requires
            2 * m <= 1000000,
            m >= 1,
            q >= 0,
            1000000 < m * (q + 1),
    ;
    // the impulse magnitude
    assert(-mul_s(s + s, -a) == 2 * a) by {
        assert((s + s) * (-a) == (-2 * a) * s) by (nonlinear_arith)
            requires
                s == 1000,
        ;
        lemma_tdiv_exact(-2 * a, s);
    }
    let mag = tdiv(2 * a * s, 2 * q);
    assert(div_s(2 * a, 2 * q) == mag) by {
        assert((2 * a) * s == 2 * a * s) by (nonlinear_arith);
    }
    lemma_tdiv_pos(2 * a * s, 2 * q);
    assert(q * mag <= a * s && a * s < q * (mag + 1)) by (nonlinear_arith)
        requires
            (2 * q) * mag <= 2 * a * s,
            2 * a * s < (2 * q) * (mag + 1),
    ;
    // the impulse vector is (mag, 0)
    assert(s * mag == mag * s) by (nonlinear_arith);
    lemma_tdiv_exact(mag, s);
    assert(mul_s(s, mag) == mag);
    assert(0 * mag == 0) by (nonlinear_arith);
    lemma_tdiv_zero(s);
    assert(mul_s(0, mag) == 0);
    // the velocity change on each body
    let w = tdiv(mag * s, m);
    assert(div_s(mag, m) == w);
    assert(mag * s >= 0) by (nonlinear_arith)
        requires
            mag >= 0,
            s == 1000,
    ;
    lemma_tdiv_pos(mag * s, m);
    assert(0 * s == 0) by (nonlinear_arith);
    lemma_tdiv_zero(m);
    assert(div_s(0, m) == 0);
    // the reversal bound: a + 1 <= 2 * w <= 4 * a
    assert(2 * w >= a + 1 && w <= 2 * a) by (nonlinear_arith)
        requires
            m >= 1,
            2 * m <= 1000000,
            q >= 2,
            a >= 1,
            mag >= 0,
            w >= 0,
            q * m <= 1000000,
            1000000 < (q + 1) * m,
            q * mag <= a * 1000,
            a * 1000 < q * (mag + 1),
            w * m <= mag * 1000,
            mag * 1000 < m * (w + 1),
            a * m >= 4 * 1000 + 4 * m,
    ;
    // no clipping on the updated velocities
    assert(clip(bi.vx - w) == bi.vx - w);
    assert(clip(bj.vx + w) == bj.vx + w);
    let r = pair_resolved(bi, bj);
    assert(r.0.vx == bi.vx - w);
    assert(r.1.vx == bj.vx + w);
    assert(r.1.vx - r.0.vx == -a + 2 * w);
}

/// The floor bounds of one scaled normal component, written over the
/// magnitudes: `|n| * d <= |dc| * SCALE < d * (|n| + 1)`, with the sign of
/// the component following the axis difference.
proof fn lemma_normal_floor(dc: int, d: int)
    requires
        d >= 1,
    ensures
        absi(tdiv(dc * (SCALE as int), d)) * d <= absi(dc) * (SCALE as int),
        absi(dc) * (SCALE as int) < d * (absi(tdiv(dc * (SCALE as int), d)) + 1),
        dc >= 0 ==> tdiv(dc * (SCALE as int), d) >= 0,
        dc <= 0 ==> tdiv(dc * (SCALE as int), d) <= 0,
{
    assert(absi(dc * (SCALE as int)) == absi(dc) * (SCALE as int)) by (nonlinear_arith);
    assert(dc >= 0 ==> dc * (SCALE as int) >= 0) by (nonlinear_arith);
    assert(dc <= 0 ==> dc * (SCALE as int) <= 0) by (nonlinear_arith);
    lemma_tdiv_abs_eq(dc * (SCALE as int), d);
    lemma_tdiv_abs_le(dc * (SCALE as int), d);
    lemma_tdiv_pos(absi(dc) * (SCALE as int), d);
    assert(absi(dc) * (SCALE as int) >= 0) by (nonlinear_arith);
    let t = tdiv(absi(dc) * (SCALE as int), d);
    assert(t * d == d * t) by (nonlinear_arith);
}

/// The squared scaled normal is close to one: `nx*nx + ny*ny` is at least
/// `SCALE * (SCALE - 4)`, whatever the orientation.
proof fn lemma_normal_length(dx: int, dy: int, d: int)
    requires
        d >= 1,
        absi(dx) <= d,
        absi(dy) <= d,
        dx * dx + dy * dy >= d * d,
    ensures
        ({
            let nx = tdiv(dx * (SCALE as int), d);
            let ny = tdiv(dy * (SCALE as int), d);
            nx * nx + ny * ny >= (SCALE as int) * (SCALE as int) - 4 * (SCALE as int)
        }),
{
    let s = SCALE as int;
    let nx = tdiv(dx * s, d);
    let ny = tdiv(dy * s, d);
    lemma_normal_floor(dx, d);
    lemma_normal_floor(dy, d);
    assert(nx * nx == absi(nx) * absi(nx)) by (nonlinear_arith)
        requires
            absi(nx) == nx || absi(nx) == -nx,
    ;
    assert(ny * ny == absi(ny) * absi(ny)) by (nonlinear_arith)
        requires
            absi(ny) == ny || absi(ny) == -ny,
    ;
    assert(dx * dx == absi(dx) * absi(dx)) by (nonlinear_arith)
        requires
            absi(dx) == dx || absi(dx) == -dx,
    ;
    assert(dy * dy == absi(dy) * absi(dy)) by (nonlinear_arith)
        requires
            absi(dy) == dy || absi(dy) == -dy,
    ;
    assert(absi(nx) * d >= absi(dx) * s - d) by (nonlinear_arith)
        requires
            absi(dx) * s < d * (absi(nx) + 1),
    ;
    assert(absi(ny) * d >= absi(dy) * s - d) by (nonlinear_arith)
        requires
            absi(dy) * s < d * (absi(ny) + 1),
    ;
    assert(nx * nx * (d * d) >= dx * dx * (s * s) - 2 * d * (absi(dx) * s)) by (nonlinear_arith)
        requires
            d >= 1,
            s == 1000,
            absi(nx) * d >= absi(dx) * s - d,
            absi(nx) >= 0,
            absi(dx) >= 0,
            nx * nx == absi(nx) * absi(nx),
            dx * dx == absi(dx) * absi(dx),
    ;
    assert(ny * ny * (d * d) >= dy * dy * (s * s) - 2 * d * (absi(dy) * s)) by (nonlinear_arith)
        requires
            d >= 1,
            s == 1000,
            absi(ny) * d >= absi(dy) * s - d,
            absi(ny) >= 0,
            absi(dy) >= 0,
            ny * ny == absi(ny) * absi(ny),
            dy * dy == absi(dy) * absi(dy),
    ;
    assert((dx * dx + dy * dy) * (s * s) >= (d * d) * (s * s)) by (nonlinear_arith)
        requires
            s == 1000,
            dx * dx + dy * dy >= d * d,
    ;
    assert(2 * d * (absi(dx) * s) + 2 * d * (absi(dy) * s) <= 4 * (d * d) * s) by (nonlinear_arith)
        requires
            d >= 1,
            s == 1000,
            0 <= absi(dx) <= d,
            0 <= absi(dy) <= d,
    ;
    assert((nx * nx + ny * ny) * (d * d) >= (d * d) * (s * s - 4 * s)) by (nonlinear_arith)
        requires
            nx * nx * (d * d) >= dx * dx * (s * s) - 2 * d * (absi(dx) * s),
            ny * ny * (d * d) >= dy * dy * (s * s) - 2 * d * (absi(dy) * s),
            (dx * dx + dy * dy) * (s * s) >= (d * d) * (s * s),
            2 * d * (absi(dx) * s) + 2 * d * (absi(dy) * s) <= 4 * (d * d) * s,
    ;
    assert(nx * nx + ny * ny >= s * s - 4 * s) by (nonlinear_arith)
        requires
            d >= 1,
            (nx * nx + ny * ny) * (d * d) >= (d * d) * (s * s - 4 * s),
    ;
}

/// Momentum reversal in any orientation: for two colliding dynamic
/// circles with equal mass, amortization exactly one, separated centers,
/// and an approach speed along the computed normal clearly above the
/// fixed-point rounding floor, one resolution reverses the sign of the
/// relative velocity projected on that normal.
pub proof fn lemma_approach_reversal(bi: CircleModel, bj: CircleModel)
    requires
        bi.wf(),
        bj.wf(),
        !bi.is_static,
        !bj.is_static,
        colliding(bi, bj),
        center_dist(bi, bj) >= 1,
        bj.mass == bi.mass,
        2 * bi.mass <= (SCALE as int) * (SCALE as int),
        bi.amortization == SCALE as int,
        (-approach_dot(bi, bj)) * bi.mass >= 16 * (SCALE as int) + 16 * bi.mass,
        16 * absi(bi.vx) <= LIMIT as int,
        16 * absi(bi.vy) <= LIMIT as int,
        16 * absi(bj.vx) <= LIMIT as int,
        16 * absi(bj.vy) <= LIMIT as int,
    ensures
        approach_dot(bi, bj) < 0,
        ({
            let r = pair_resolved(bi, bj);
            let n = collision_normal(bi, bj);
            (r.1.vx - r.0.vx) * n.0 + (r.1.vy - r.0.vy) * n.1 > 0
        }),
{
    let s = SCALE as int;
    let lim = LIMIT as int;
    let m = bi.mass;
    let dx = bj.px - bi.px;
    let dy = bj.py - bi.py;
    let d2v = dist2(bi, bj);
    let d = center_dist(bi, bj);
    assert(d2v >= 0) by (nonlinear_arith)
        requires
            d2v == dx * dx + dy * dy,
    ;
    lemma_sqrt_floor(d2v);
    assert(absi(dx) <= d && absi(dy) <= d) by (nonlinear_arith)
        requires
            d >= 0,
            d2v < (d + 1) * (d + 1),
            d2v == dx * dx + dy * dy,
    ;
    let nx = tdiv(dx * s, d);
    let ny = tdiv(dy * s, d);
    assert(collision_normal(bi, bj) == (nx, ny));
    lemma_normal_floor(dx, d);
    lemma_normal_floor(dy, d);
    crate::engine::lemma_div_scaled_by_dist(dx, d);
    crate::engine::lemma_div_scaled_by_dist(dy, d);
    lemma_normal_length(dx, dy, d);
    let n2 = nx * nx + ny * ny;
    // the projected approach speed
    let rvx = bj.vx - bi.vx;
    let rvy = bj.vy - bi.vy;
    let dotn = rvx * nx + rvy * ny;
    let dot = tdiv(dotn, s);
    assert(dot == approach_dot(bi, bj));
    let a = -dot;
    assert(a >= 16) by (nonlinear_arith)
        requires
            a * m >= 16 * 1000 + 16 * m,
            m >= 1,
    ;
    assert(dot < 0);
    lemma_tdiv_abs_eq(dotn, s);
    lemma_tdiv_abs_le(dotn, s);
    lemma_tdiv_pos(absi(dotn), s);
    assert(dotn <= 0 && absi(dotn) < s * (a + 1) && a * s <= absi(dotn));
    // the approach speed is bounded by the velocity bounds
    assert(absi(rvx) * absi(nx) <= (lim / 8) * s && absi(rvy) * absi(ny) <= (lim / 8) * s)
        by (nonlinear_arith)
        requires
            0 <= absi(rvx) <= lim / 8,
            0 <= absi(rvy) <= lim / 8,
            0 <= absi(nx) <= s,
            0 <= absi(ny) <= s,
    ;
    assert(absi(dotn) <= absi(rvx) * absi(nx) + absi(rvy) * absi(ny)) by (nonlinear_arith)
        requires
            dotn == rvx * nx + rvy * ny,
            absi(rvx) == rvx || absi(rvx) == -rvx,
            absi(rvy) == rvy || absi(rvy) == -rvy,
            absi(nx) == nx || absi(nx) == -nx,
            absi(ny) == ny || absi(ny) == -ny,
            absi(dotn) == dotn || absi(dotn) == -dotn,
    ;
    assert(4 * a <= lim) by (nonlinear_arith)
        requires
            s == 1000,
            a * s <= absi(dotn),
            absi(dotn) <= 2 * ((lim / 8) * s),
            lim == 1000000000000,
            a >= 0,
    ;
    // the reciprocal-mass sum and the impulse magnitude
    let q = tdiv(s * s, m);
    lemma_tdiv_pos(s * s, m);
    crate::engine::lemma_inv_mass_pos(m);
    assert(-mul_s(s + s, dot) == 2 * a) by {
        assert((s + s) * dot == (2 * dot) * s) by (nonlinear_arith)
            requires
                s == 1000,
        ;
        lemma_tdiv_exact(2 * dot, s);
    }
    let mag = tdiv(2 * a * s, 2 * q);
    assert(div_s(2 * a, 2 * q) == mag) by {
        assert((2 * a) * s == 2 * a * s) by (nonlinear_arith);
    }
    assert(2 * a * s >= 0) by (nonlinear_arith)
        requires
            a >= 1,
            s == 1000,
    ;
    lemma_tdiv_pos(2 * a * s, 2 * q);
    assert(q * mag <= a * s && a * s < q * (mag + 1)) by (nonlinear_arith)
        requires
            (2 * q) * mag <= 2 * a * s,
            2 * a * s < (2 * q) * (mag + 1),
    ;
    assert(mag >= 0);
    assert(s * s * mag >= a * s * m - s * s + m) by (nonlinear_arith)
        requires
            s == 1000,
            m >= 1,
            q >= 1,
            mag >= 0,
            q * mag <= a * s,
            a * s < q * (mag + 1),
            q * m <= s * s,
            a * m >= 16 * s + 16 * m,
    ;
    // the impulse magnitude is small enough that nothing clips
    assert(mag * (s * s - m) <= a * s * m) by (nonlinear_arith)
        requires
            mag >= 0,
            q * mag <= a * s,
            s * s < m * (q + 1),
            m >= 1,
    ;
    assert(mag * s <= 2 * a * m) by (nonlinear_arith)
        requires
            s == 1000,
            2 * m <= s * s,
            mag >= 0,
            a >= 0,
            m >= 1,
            mag * (s * s - m) <= a * s * m,
    ;
    // per-axis velocity changes
    let ix = tdiv(nx * mag, s);
    let iy = tdiv(ny * mag, s);
    assert(mul_s(nx, mag) == ix && mul_s(ny, mag) == iy);
    let wx = tdiv(ix * s, m);
    let wy = tdiv(iy * s, m);
    assert(div_s(ix, m) == wx && div_s(iy, m) == wy);
    lemma_axis_change(nx, mag, m, a);
    lemma_axis_change(ny, mag, m, a);
    // the projection of the velocity change on the normal
    let w_dot = wx * nx + wy * ny;
    assert(m * s * w_dot == m * s * (wx * nx) + m * s * (wy * ny)) by (nonlinear_arith)
        requires
            w_dot == wx * nx + wy * ny,
    ;
    assert(s * (mag * n2) == s * (mag * (nx * nx)) + s * (mag * (ny * ny))) by (nonlinear_arith)
        requires
            n2 == nx * nx + ny * ny,
    ;
    assert(m * s * w_dot >= s * (mag * n2) - (s * s + m * s) * absi(nx) - (s * s + m * s) * absi(
        ny,
    ));
    assert((s * s + m * s) * absi(nx) + (s * s + m * s) * absi(ny) <= (s * s + m * s) * (2 * s))
        by (nonlinear_arith)
        requires
            s == 1000,
            m >= 1,
            0 <= absi(nx) <= s,
            0 <= absi(ny) <= s,
    ;
    assert(m * s * w_dot >= s * (mag * n2) - (s * s + m * s) * (2 * s));
    assert(s * (mag * n2) >= s * (mag * (s * s - 4 * s))) by (nonlinear_arith)
        requires
            s == 1000,
            mag >= 0,
            n2 >= s * s - 4 * s,
    ;
    // assemble: twice the projected change beats the projected approach
    assert(2 * w_dot >= (a + 1) * s) by (nonlinear_arith)
        requires
            s == 1000,
            m >= 1,
            a >= 16,
            mag >= 0,
            a * m >= 16 * s + 16 * m,
            m * s * w_dot >= s * (mag * (s * s - 4 * s)) - (s * s + m * s) * (2 * s),
            s * s * mag >= a * s * m - s * s + m,
    ;
    // no clipping on the four velocity updates
    assert(clip(bi.vx - wx) == bi.vx - wx && clip(bj.vx + wx) == bj.vx + wx);
    assert(clip(bi.vy - wy) == bi.vy - wy && clip(bj.vy + wy) == bj.vy + wy);
    let r = pair_resolved(bi, bj);
    assert(r.0.vx == bi.vx - wx && r.1.vx == bj.vx + wx);
    assert(r.0.vy == bi.vy - wy && r.1.vy == bj.vy + wy);
    assert((r.1.vx - r.0.vx) * nx + (r.1.vy - r.0.vy) * ny == dotn + 2 * w_dot)
        by (nonlinear_arith)
        requires
            r.1.vx - r.0.vx == rvx + 2 * wx,
            r.1.vy - r.0.vy == rvy + 2 * wy,
            dotn == rvx * nx + rvy * ny,
            w_dot == wx * nx + wy * ny,
    ;
    assert(dotn + 2 * w_dot > 0);
}

/// The floor bounds and sign agreement of one axis of the velocity
/// change: writing `i = mul_s(n, mag)` and `w = div_s(i, m)`, the change
/// `w` keeps the sign of `n`, its magnitude reaches
/// `(|n| * mag) / m` up to two rounding steps, and it never exceeds
/// `2 * a` when `mag * SCALE <= 2 * a * m`.
proof fn lemma_axis_change(n: int, mag: int, m: int, a: int)
    requires
        mag >= 0,
        m >= 1,
        a >= 0,
        absi(n) <= SCALE as int,
        mag * (SCALE as int) <= 2 * a * m,
    ensures
        ({
            let i = tdiv(n * mag, SCALE as int);
            let w = tdiv(i * (SCALE as int), m);
            &&& m * (SCALE as int) * (w * n) >= (SCALE as int) * (mag * (n * n)) - ((SCALE as int)
                * (SCALE as int) + m * (SCALE as int)) * absi(n)
            &&& absi(w) <= 2 * a
        }),
{
    let s = SCALE as int;
    let i = tdiv(n * mag, s);
    let w = tdiv(i * s, m);
    assert(n * n == absi(n) * absi(n)) by (nonlinear_arith)
        requires
            absi(n) == n || absi(n) == -n,
    ;
    assert(absi(n * mag) == absi(n) * mag) by (nonlinear_arith)
        requires
            mag >= 0,
            absi(n) == n || absi(n) == -n,
            absi(n * mag) == n * mag || absi(n * mag) == -(n * mag),
            absi(n) >= 0,
            absi(n * mag) >= 0,
    ;
    assert(n >= 0 ==> n * mag >= 0) by (nonlinear_arith)
        requires
            mag >= 0,
    ;
    assert(n <= 0 ==> n * mag <= 0) by (nonlinear_arith)
        requires
            mag >= 0,
    ;
    lemma_tdiv_abs_eq(n * mag, s);
    lemma_tdiv_abs_le(n * mag, s);
    lemma_tdiv_pos(absi(n) * mag, s);
    assert(absi(n) * mag >= 0) by (nonlinear_arith)
        requires
            mag >= 0,
            absi(n) >= 0,
    ;
    assert(i >= 0 ==> i * s >= 0) by (nonlinear_arith)
        requires
            s == 1000,
    ;
    assert(i <= 0 ==> i * s <= 0) by (nonlinear_arith)
        requires
            s == 1000,
    ;
    assert(absi(i * s) == absi(i) * s) by (nonlinear_arith)
        requires
            s == 1000,
            absi(i) == i || absi(i) == -i,
            absi(i * s) == i * s || absi(i * s) == -(i * s),
            absi(i) >= 0,
            absi(i * s) >= 0,
    ;
    lemma_tdiv_abs_eq(i * s, m);
    lemma_tdiv_abs_le(i * s, m);
    lemma_tdiv_pos(absi(i) * s, m);
    // sign agreement end to end
    assert(w * n == absi(w) * absi(n)) by (nonlinear_arith)
        requires
            (n >= 0 && i >= 0 && w >= 0) || (n <= 0 && i <= 0 && w <= 0),
            absi(w) == w || absi(w) == -w,
            absi(n) == n || absi(n) == -n,
    ;
    // lower floor bound through the two divisions
    assert(m * s * absi(w) >= s * (absi(n) * mag) - s * s - m * s + 2 * s) by (nonlinear_arith)
        requires
            s == 1000,
            m >= 1,
            absi(i) * s < m * (absi(w) + 1),
            absi(n) * mag < s * (absi(i) + 1),
            absi(w) >= 0,
            absi(i) >= 0,
    ;
    assert(m * s * (w * n) >= s * (mag * (n * n)) - (s * s + m * s) * absi(n)) by (nonlinear_arith)
        requires
            s == 1000,
            m >= 1,
            w * n == absi(w) * absi(n),
            n * n == absi(n) * absi(n),
            m * s * absi(w) >= s * (absi(n) * mag) - s * s - m * s + 2 * s,
            absi(n) >= 0,
            absi(w) >= 0,
    ;
    // upper bound
    assert(absi(i) <= mag) by (nonlinear_arith)
        requires
            s == 1000,
            s * absi(i) <= absi(n) * mag,
            absi(n) <= s,
            mag >= 0,
            absi(i) >= 0,
    ;
    assert(absi(w) <= 2 * a) by (nonlinear_arith)
        requires
            s == 1000,
            m >= 1,
            a >= 0,
            m * absi(w) <= absi(i) * s,
            absi(i) <= mag,
            mag * s <= 2 * a * m,
            absi(w) >= 0,
    ;
}

/// The scaled normal component along an axis keeps the sign of the axis
/// difference, stays within one scale unit, and on the major axis reaches
/// at least half a scale unit.
proof fn lemma_normal_component(dx: int, d: int)
    requires
        d >= 1,
        absi(dx) <= d,
    ensures
        absi(tdiv(dx * (SCALE as int), d)) <= SCALE as int,
        dx >= 0 ==> tdiv(dx * (SCALE as int), d) >= 0,
        dx <= 0 ==> tdiv(dx * (SCALE as int), d) <= 0,
        2 * absi(dx) >= d ==> absi(tdiv(dx * (SCALE as int), d)) >= 500,
{
    crate::engine::lemma_div_scaled_by_dist(dx, d);
    assert(dx >= 0 ==> dx * (SCALE as int) >= 0) by (nonlinear_arith);
    assert(dx <= 0 ==> dx * (SCALE as int) <= 0) by (nonlinear_arith);
    lemma_tdiv_abs_le(dx * (SCALE as int), d);
    if 2 * absi(dx) >= d {
        assert(absi(dx) * 1000 >= d * 500) by (nonlinear_arith)
            requires
                2 * absi(dx) >= d,
        ;
        lemma_tdiv_exact(500, d);
        assert(500 * d == d * 500) by (nonlinear_arith);
        lemma_tdiv_ordered(d * 500, absi(dx) * 1000, d);
        assert(absi(dx * (SCALE as int)) == absi(dx) * (SCALE as int)) by (nonlinear_arith);
        lemma_tdiv_abs_eq(dx * (SCALE as int), d);
    }
}

/// Half the overlap, pushed along one normal component, never overshoots
/// the half-overlap, keeps the component's sign, and on the major axis
/// moves at least one fixed-point step.
proof fn lemma_push_component(nx: int, half: int)
    requires
        absi(nx) <= SCALE as int,
        half >= 0,
    ensures
        absi(mul_s(nx, half)) <= half,
        nx >= 0 ==> mul_s(nx, half) >= 0,
        nx <= 0 ==> mul_s(nx, half) <= 0,
        absi(nx) >= 500 && half >= 2 ==> absi(mul_s(nx, half)) >= 1,
{
    assert(absi(nx * half) == absi(nx) * half) by (nonlinear_arith)
        requires
            half >= 0,
    ;
    assert(nx >= 0 ==> nx * half >= 0) by (nonlinear_arith)
        requires
            half >= 0,
    ;
    assert(nx <= 0 ==> nx * half <= 0) by (nonlinear_arith)
        requires
            half >= 0,
    ;
    lemma_tdiv_abs_eq(nx * half, SCALE as int);
    lemma_tdiv_abs_le(nx * half, SCALE as int);
    assert(absi(nx) * half <= 1000 * half) by (nonlinear_arith)
        requires
            absi(nx) <= 1000,
            half >= 0,
    ;
    lemma_tdiv_ordered(absi(nx) * half, 1000 * half, SCALE as int);
    lemma_tdiv_exact(half, SCALE as int);
    assert(half * 1000 == 1000 * half) by (nonlinear_arith);
    if absi(nx) >= 500 && half >= 2 {
        assert(absi(nx) * half >= 1000) by (nonlinear_arith)
            requires
                absi(nx) >= 500,
                half >= 2,
        ;
        lemma_tdiv_exact(1, SCALE as int);
        lemma_tdiv_ordered(1000, absi(nx) * half, SCALE as int);
    }
}

/// No sustained overlap: resolving a detected collision with a nonzero
/// center separation and an overlap of at least four fixed-point steps
/// strictly increases the squared distance between the centers, provided
/// at least one of the two bodies is dynamic. Pairs of static bodies are
/// never displaced, and an overlap under four fixed-point steps (four
/// thousandths of a world unit) can round the half-push to zero.
pub proof fn lemma_separation(bi: CircleModel, bj: CircleModel)
    requires
        bi.wf(),
        bj.wf(),
        !(bi.is_static && bj.is_static),
        colliding(bi, bj),
        center_dist(bi, bj) >= 1,
        bi.radius + bj.radius - center_dist(bi, bj) >= 4,
        bi.radius + bj.radius <= LIMIT as int,
        2 * absi(bi.px) <= LIMIT as int,
        2 * absi(bi.py) <= LIMIT as int,
        2 * absi(bj.px) <= LIMIT as int,
        2 * absi(bj.py) <= LIMIT as int,
    ensures
        ({
            let r = pair_resolved(bi, bj);
            dist2(r.0, r.1) > dist2(bi, bj)
        }),
{
    let dx = bj.px - bi.px;
    let dy = bj.py - bi.py;
    let d2v = dist2(bi, bj);
    let d = center_dist(bi, bj);
    assert(d2v >= 0) by (nonlinear_arith)
        requires
            d2v == dx * dx + dy * dy,
    ;
    lemma_sqrt_floor(d2v);
    assert(absi(dx) <= d && absi(dy) <= d) by (nonlinear_arith)
        requires
            d >= 0,
            d2v < (d + 1) * (d + 1),
            d2v == dx * dx + dy * dy,
    ;
    let nx = tdiv(dx * (SCALE as int), d);
    let ny = tdiv(dy * (SCALE as int), d);
    assert(collision_normal(bi, bj) == (nx, ny));
    lemma_normal_component(dx, d);
    lemma_normal_component(dy, d);
    let overlap = bi.radius + bj.radius - d;
    let half = tdiv(overlap, 2);
    lemma_tdiv_pos(overlap, 2);
    assert(half >= 2);
    assert(2 * half <= overlap);
    let sx = mul_s(nx, half);
    let sy = mul_s(ny, half);
    lemma_push_component(nx, half);
    lemma_push_component(ny, half);
    if 2 * absi(dx) < d && 2 * absi(dy) < d {
        assert(false) by (nonlinear_arith)
            requires
                2 * absi(dx) < d,
                2 * absi(dy) < d,
                d >= 1,
                d * d <= d2v,
                d2v == dx * dx + dy * dy,
                absi(dx) >= 0,
                absi(dy) >= 0,
                absi(dx) >= dx,
                absi(dx) >= -dx,
                absi(dy) >= dy,
                absi(dy) >= -dy,
        ;
    }
    assert(sx * dx >= 0) by (nonlinear_arith)
        requires
            dx >= 0 ==> sx >= 0,
            dx <= 0 ==> sx <= 0,
    ;
    assert(sy * dy >= 0) by (nonlinear_arith)
        requires
            dy >= 0 ==> sy >= 0,
            dy <= 0 ==> sy <= 0,
    ;
    if 2 * absi(dx) >= d {
        assert(sx * dx >= 1) by (nonlinear_arith)
            requires
                (dx >= 1 && sx >= 1) || (dx <= -1 && sx <= -1),
        ;
    } else {
        assert(sy * dy >= 1) by (nonlinear_arith)
            requires
                (dy >= 1 && sy >= 1) || (dy <= -1 && sy <= -1),
        ;
    }
    assert(sx * dx + sy * dy >= 1);
    let r = pair_resolved(bi, bj);
    assert(clip(bi.px - sx) == bi.px - sx);
    assert(clip(bi.py - sy) == bi.py - sy);
    assert(clip(bj.px + sx) == bj.px + sx);
    assert(clip(bj.py + sy) == bj.py + sy);
    if bi.is_static || bj.is_static {
        let ddx = dx + sx;
        let ddy = dy + sy;
        assert(ddx * ddx + ddy * ddy > dx * dx + dy * dy) by (nonlinear_arith)
            requires
                ddx == dx + sx,
                ddy == dy + sy,
                sx * dx + sy * dy >= 1,
        ;
        if bi.is_static {
            assert(r.0 == bi);
            assert(r.1.px == bj.px + sx && r.1.py == bj.py + sy);
            assert(dist2(r.0, r.1) == ddx * ddx + ddy * ddy);
        } else {
            assert(r.1 == bj);
            assert(r.0.px == bi.px - sx && r.0.py == bi.py - sy);
            assert(dist2(r.0, r.1) == ddx * ddx + ddy * ddy);
        }
    } else {
        let ddx = dx + 2 * sx;
        let ddy = dy + 2 * sy;
        assert(ddx * ddx + ddy * ddy > dx * dx + dy * dy) by (nonlinear_arith)
            requires
                ddx == dx + 2 * sx,
                ddy == dy + 2 * sy,
                sx * dx + sy * dy >= 1,
        ;
        assert(r.0.px == bi.px - sx && r.0.py == bi.py - sy);
        assert(r.1.px == bj.px + sx && r.1.py == bj.py + sy);
        assert(dist2(r.0, r.1) == ddx * ddx + ddy * ddy);
    }
}

} // verus!
