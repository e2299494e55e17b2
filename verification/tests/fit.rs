#![allow(dead_code, unused_imports)]
//! Reconstructing, solving and repairing shots, against a floating-point model of the
//! shot.

use std::f64::consts::{PI, TAU};

use billiards_coach::engine::contact::{
    cushion_contact, first_approach, leading_degree, Quadratic, RailHit, CONTACT_EPS,
};
use billiards_coach::engine::cushion::{
    chain_recovery, cushion_rebound, effective_restitution, Bounds, Rail, CHAIN_RECOVERY_T,
};
use billiards_coach::engine::impact::{
    ball_ball_collision, slips, sticks, stuck, Collision, Compressed, Impact, Restoring,
};
use billiards_coach::engine::motion::{
    first_ending, next_ending, phase_of, Ending, Motion, Solo,
};
use billiards_coach::engine::world::{both_rest, inert, pair_horizon, Event, World};
use billiards_coach::model::math;
use billiards_coach::model::{
    three_cushion_score, BallId, BallSpec, BallState, ContactKind, CueAction, Lookup, MotionPhase,
    MotionSegment, PhysicsParams, Scene, Simulation, TableSpec, Trajectory,
};
use billiards_coach::order::ascending;
use billiards_coach::scalar::Scalar;
use billiards_coach::solver::aim::{
    aim_window, departure_pair, speed_range, unpins_speed, window_union, FirstMotion,
};
use billiards_coach::solver::align::BounceLists;
use billiards_coach::solver::bounces::{
    dips, steepest, BallTables, RailTable, SideSample, Sides,
};
use billiards_coach::solver::calibration::{
    keep_in_bounds, pack, try_value, unchanged, unpack, STEP_FLOOR,
};
use billiards_coach::solver::choice::{
    candidate_seed, executed_speed, hits, least_repair_speed, most_forgiving, offset_grid,
    player_seed, repaired, scoring, shortlist, smallest_change, winner, Repair, Solution,
};
use billiards_coach::solver::config::{
    choose_pass, strict_explains, CalibConfig, ExecutionNoise, FitConfig, Pass, RepairConfig,
    SolveConfig,
};
use billiards_coach::solver::descent::{Descent, Windows};
use billiards_coach::solver::grid::Grid;
use billiards_coach::solver::launch::{
    fallback_sample, launch_speed, speed_samples, Launch, LaunchReading, LaunchSample,
    SPEED_UNKNOWN, SPREAD_SINGLE, SPREAD_UNKNOWN,
};
use billiards_coach::solver::measure::{velocity_holds, window_measurable};
use billiards_coach::solver::penalty::{
    charged_delay, contact_charges, cushion_charge, first_above, nearest_rail, sim_bounces,
    ContactCharge, ObservedEvents, RailSample, CONTACT_PEN, CUSHION_PEN, DELAY_RATE, SIM_MOVED,
};
use billiards_coach::solver::search::{correction, first_target, AimEstimate, Departure};
use billiards_coach::solver::testimony::{FirstMove, OwnSample, Sighting, Testimony};
use glam::DVec3;
use rayon::prelude::{
    IndexedParallelIterator, IntoParallelIterator, IntoParallelRefIterator, ParallelIterator,
};
use roots::{find_roots_cubic, find_roots_linear, find_roots_quadratic, find_roots_quartic};

/// The pattern of a number.
fn s(x: f64) -> Scalar {
    Scalar::from_bits(x.to_bits())
}

/// The number of a pattern.
fn f(x: Scalar) -> f64 {
    f64::from_bits(x.bits)
}

/// The patterns of several numbers.
fn ss(xs: &[f64]) -> Vec<Scalar> {
    xs.iter().map(|&x| s(x)).collect()
}

fn to_vec(v: math::DVec3) -> DVec3 {
    DVec3::new(f(v.x), f(v.y), f(v.z))
}

fn from_vec(v: DVec3) -> math::DVec3 {
    math::DVec3::new(s(v.x), s(v.y), s(v.z))
}

/// A ball's state in numbers.
#[derive(Clone, Copy, Debug)]
struct State {
    pos: DVec3,
    vel: DVec3,
    angular_vel: DVec3,
}

impl State {
    fn at_rest(pos: DVec3) -> Self {
        State { pos, vel: DVec3::ZERO, angular_vel: DVec3::ZERO }
    }
}

fn to_state(b: BallState) -> State {
    State { pos: to_vec(b.pos), vel: to_vec(b.vel), angular_vel: to_vec(b.angular_vel) }
}

fn from_state(b: State) -> BallState {
    BallState { pos: from_vec(b.pos), vel: from_vec(b.vel), angular_vel: from_vec(b.angular_vel) }
}

/// Horizontal distance from a ball's center to the cushion nose line at the instant
/// of contact: the nose sits above the ball equator, so the center contacts short of
/// it by `√(R² − (h − R)²)`.
fn contact_inset(table: &TableSpec, radius: f64) -> f64 {
    let dh = f(table.cushion_height) - radius;
    (radius * radius - dh * dh).max(0.0).sqrt()
}

/// The rectangle a ball center travels within.
fn center_bounds(table: &TableSpec, ball: &BallSpec) -> Bounds {
    let inset = contact_inset(table, f(ball.radius));
    let hx = f(table.length) / 2.0 - inset;
    let hy = f(table.width) / 2.0 - inset;
    Bounds { min_x: s(-hx), max_x: s(hx), min_y: s(-hy), max_y: s(hy) }
}

/// Velocity of the material point at the ball's contact with the cloth, projected
/// into the table plane: `(v_x - R·ω_y, v_y + R·ω_x, 0)`.
fn contact_slip(b: &State, radius: f64) -> DVec3 {
    let slip = b.vel + b.angular_vel.cross(DVec3::new(0.0, 0.0, -radius));
    DVec3::new(slip.x, slip.y, 0.0)
}

/// The angular velocity a rolling ball must have for its linear velocity, keeping the
/// vertical english.
fn rolling_angular_vel(b: &State, radius: f64) -> DVec3 {
    DVec3::new(-b.vel.y / radius, b.vel.x / radius, b.angular_vel.z)
}

/// Closed-form state at absolute time `t`, clamped to the segment's span.
fn segment_state(seg: &MotionSegment, t: f64) -> State {
    let duration = f(seg.t_end) - f(seg.t_start);
    assert!(f(seg.t_end).is_infinite() || duration >= 0.0, "a segment runs forward");
    let dt = f(seg.elapsed(s(t - f(seg.t_start)), s(duration)));
    let b = to_state(seg.state0);
    let mut angular_vel = b.angular_vel + to_vec(seg.ang_acc) * dt;
    // English decays to zero and stays there.
    if angular_vel.z * b.angular_vel.z < 0.0 {
        angular_vel.z = 0.0;
    }
    State {
        pos: b.pos + b.vel * dt + to_vec(seg.lin_acc) * (0.5 * dt * dt),
        vel: b.vel + to_vec(seg.lin_acc) * dt,
        angular_vel,
    }
}

/// State at absolute time `t`.
fn state_at(traj: &Trajectory, t: f64) -> State {
    match traj.locate(s(t)) {
        Lookup::Within(k) => segment_state(&traj.segments[k], t),
        Lookup::Before => to_state(traj.segments[0].state0),
        Lookup::Rest => to_state(traj.final_state()),
    }
}

/// A trajectory's positions at times that go on: the segment last found is where to look
/// next.
struct Walk<'a> {
    traj: &'a Trajectory,
    at: usize,
    /// Start and end of the segment last found, and its motion.
    span: (f64, f64),
    motion: (DVec3, DVec3, DVec3),
}

impl<'a> Walk<'a> {
    fn new(traj: &'a Trajectory) -> Self {
        let nowhere = (f64::INFINITY, f64::NEG_INFINITY);
        Walk { traj, at: 0, span: nowhere, motion: (DVec3::ZERO, DVec3::ZERO, DVec3::ZERO) }
    }

    /// Position at absolute time `t`.
    ///
    /// Floating point throughout.
    fn pos_at(&mut self, t: f64) -> DVec3 {
        if !(t >= self.span.0 && t < self.span.1) {
            let ahead = &self.traj.segments[self.at..];
            let Some(k) = ahead.iter().position(|seg| seg.contains(s(t))) else {
                return state_at(self.traj, t).pos;
            };
            self.at += k;
            let seg = &self.traj.segments[self.at];
            let (b, acc) = (to_state(seg.state0), to_vec(seg.lin_acc));
            self.span = (f(seg.t_start), f(seg.t_end));
            self.motion = (b.pos, b.vel, acc);
        }
        let (pos, vel, acc) = self.motion;
        let dt = t - self.span.0;
        pos + vel * dt + acc * (0.5 * dt * dt)
    }
}

/// The analytic motion a ball's current phase implies.
fn motion_of(b: &State, ball: &BallSpec, phys: &PhysicsParams) -> Motion {
    let radius = f(ball.radius);
    let slip = contact_slip(b, radius);
    let speed = b.vel.length();
    let phase = phase_of(s(slip.length()), s(speed));
    let (lin_acc, turn, natural) = match phase {
        MotionPhase::Sliding => {
            let a = f(phys.mu_slide) * f(phys.g);
            let u = slip.normalize();
            let turn = DVec3::new(-u.y, u.x, 0.0) * (5.0 * a / (2.0 * radius));
            (u * -a, turn, slip.length() / (3.5 * a))
        }
        MotionPhase::Rolling => {
            let a = f(phys.mu_roll) * f(phys.g);
            let v = b.vel.normalize();
            (v * -a, DVec3::new(v.y, -v.x, 0.0) * (a / radius), speed / a)
        }
        MotionPhase::Stationary => (DVec3::ZERO, DVec3::ZERO, f64::INFINITY),
    };
    let decay = 5.0 * f(phys.mu_spin) * f(phys.g) / (2.0 * radius);
    let english = b.angular_vel.z;
    let (boring, spin) = if decay > 0.0 && english != 0.0 {
        (-decay * english.signum(), english.abs() / decay)
    } else {
        (0.0, f64::INFINITY)
    };
    let (dur, ends) = first_ending(phase, s(natural), s(spin));
    let ang_acc = from_vec(turn + DVec3::new(0.0, 0.0, boring));
    Motion { phase, lin_acc: from_vec(lin_acc), ang_acc, dur, ends }
}

/// Earliest cushion contact within the motion's duration.
fn cushion_ahead(b: &State, m: &Motion, bounds: Bounds) -> Option<(Scalar, Rail)> {
    let acc = to_vec(m.lin_acc);
    let hits = Rail::all().map(|rail| {
        let (is_x, bound) = rail.bound(bounds);
        let (p, v, a) =
            if is_x { (b.pos.x, b.vel.x, acc.x) } else { (b.pos.y, b.vel.y, acc.y) };
        let (qa, qb, qc) = (0.5 * a, v, p - f(bound));
        let disc = qb * qb - 4.0 * qa * qc;
        let root = disc.sqrt();
        let q = Quadratic {
            a: s(qa),
            b: s(qb),
            linear: s(-qc / qb),
            disc: s(disc),
            first: s((-qb - root) / (2.0 * qa)),
            second: s((-qb + root) / (2.0 * qa)),
        };
        let dt = q.smallest_root_in(Scalar::from_bits(CONTACT_EPS), m.dur);
        let outward = dt.map_or(0.0, |dt| {
            (b.vel + acc * f(dt)).dot(to_vec(rail.outward_normal()))
        });
        RailHit { dt, outward: s(outward) }
    });
    cushion_contact(&hits)
}

/// Real roots of a quartic, ascending, by its leading coefficient.
fn real_roots(c4: f64, c3: f64, c2: f64, c1: f64, c0: f64) -> Vec<f64> {
    let found = match leading_degree(s(c4), s(c3), s(c2), s(c1)) {
        4 => find_roots_quartic(c4, c3, c2, c1, c0),
        3 => find_roots_cubic(c3, c2, c1, c0),
        2 => find_roots_quadratic(c2, c1, c0),
        1 => find_roots_linear(c1, c0),
        _ => return Vec::new(),
    };
    ascending(&ss(found.as_ref())).into_iter().map(f).collect()
}

/// Whether two balls in relative motion stay apart for `h` seconds, by a margin: they are
/// too far away, or pass each other by.
fn stay_apart(d0: DVec3, dv: DVec3, da: DVec3, radius: f64, h: f64) -> bool {
    let speed = dv.length();
    let bend = 0.5 * da.length() * h * h;
    let touch = 2.0 * radius + 1e-6;
    d0.length() > touch + speed * h + bend || d0.cross(dv).length() > (touch + bend) * speed
}

/// When two balls, each following constant acceleration, come into contact while
/// approaching one another, within `horizon`.
fn meeting(a: (&State, DVec3), b: (&State, DVec3), radius: f64, horizon: Scalar) -> Option<Scalar> {
    let d0 = a.0.pos - b.0.pos;
    let dv = a.0.vel - b.0.vel;
    let da = a.1 - b.1;
    let half = da * 0.5;
    let roots = real_roots(
        half.dot(half),
        2.0 * half.dot(dv),
        2.0 * half.dot(d0) + dv.dot(dv),
        2.0 * dv.dot(d0),
        d0.dot(d0) - 4.0 * radius * radius,
    );
    let closing: Vec<f64> = roots
        .iter()
        .map(|&t| (d0 + dv * t + half * (t * t)).dot(dv + da * t))
        .collect();
    first_approach(&ss(&roots), &ss(&closing), horizon)
}

/// Active rotation of a vector about the `z` axis.
fn rotate_z(v: DVec3, ang: f64) -> DVec3 {
    let (sin, cos) = ang.sin_cos();
    DVec3::new(v.x * cos - v.y * sin, v.x * sin + v.y * cos, v.z)
}

/// Effective cushion restitution at normal speed `v_n` and along-rail speed `v_t`.
fn restitution(phys: &PhysicsParams, v_n: f64, v_t: f64) -> f64 {
    f(effective_restitution(s(f(phys.cushion_restitution)
        + f(phys.cushion_restitution_slope) * (v_n - 1.0)
        + f(phys.cushion_restitution_slope_t) * v_t.abs())))
}

/// Resolve a ball-cushion impact.
fn rebound(
    b: &State,
    normal: DVec3,
    ball: &BallSpec,
    phys: &PhysicsParams,
    cushion_height: f64,
    recovery: f64,
) -> State {
    let how =
        cushion_rebound(phys.cushion_restitution_chain, s(recovery), phys.cushion_contact_steps);
    let mut phys = *phys;
    if let Some(boost) = how.boost {
        phys.cushion_restitution =
            s(f(phys.cushion_restitution) + f(phys.cushion_restitution_chain) * f(boost));
    }
    if how.integrated {
        mathavan2010_rebound(b, normal, ball, &phys, cushion_height)
    } else {
        han2005_rebound(b, normal, ball, &phys, cushion_height)
    }
}

/// The Han 2005 cushion impulse: an instantaneous impulse at a contact point above
/// the ball equator, which is what makes english bend the rebound.
fn han2005_rebound(
    b: &State,
    normal: DVec3,
    ball: &BallSpec,
    phys: &PhysicsParams,
    cushion_height: f64,
) -> State {
    let (r, m) = (f(ball.radius), f(ball.mass));
    let mu = f(phys.cushion_friction);
    // Into the cushion frame: rotate so the outward normal aligns with +x.
    let psi = normal.y.atan2(normal.x);
    let v = rotate_z(b.vel, -psi);
    let w = rotate_z(b.angular_vel, -psi);
    let e = restitution(phys, v.x, v.y);
    let (sin_t, cos_t) = (cushion_height / r - 1.0).asin().sin_cos();

    // Contact-point slip and normal approach speed.
    let sx = v.x * sin_t - v.z * cos_t + r * w.y;
    let sy = -v.y - r * w.z * cos_t + r * w.x * sin_t;
    let c = -v.x * cos_t;
    let ii = 0.4 * m * r * r;
    let (ka, kb) = (3.5 / m, 1.0 / m);

    let pz_e = -(1.0 + e) * c / kb;
    let slip = (sx * sx + sy * sy).sqrt();
    let (px_e, py_e) = if sticks(s(slip / ka), s(mu * pz_e)) {
        (sx / ka, sy / ka)
    } else {
        (mu * pz_e * sx / slip, mu * pz_e * sy / slip)
    };

    // Rotate the impulse from the contact-normal frame to the rail frame.
    let px = -px_e * sin_t - pz_e * cos_t;
    let py = py_e;
    let pz = px_e * cos_t - pz_e * sin_t;

    let mut v_out = v;
    v_out.x += px / m;
    v_out.y += py / m;
    let mut w_out = w;
    w_out.x += -r / ii * py * sin_t;
    w_out.y += r / ii * (px * sin_t - pz * cos_t);
    w_out.z += r / ii * py * cos_t;
    State { pos: b.pos, vel: rotate_z(v_out, psi), angular_vel: rotate_z(w_out, psi) }
}

/// A ball in the middle of an integrated cushion impact.
#[derive(Clone, Copy)]
struct Slice {
    vx: f64,
    vy: f64,
    wx: f64,
    wy: f64,
    wz: f64,
}

/// The constants of an integrated cushion impact.
struct Nose {
    r: f64,
    m: f64,
    sin_t: f64,
    cos_t: f64,
    mu_w: f64,
    mu_s: f64,
}

impl Nose {
    /// One impulse slice: slip at the cushion and at the table, then the coupled
    /// velocity and spin increments. Returns the work done at the cushion's normal.
    fn step(&self, b: &mut Slice, dp: f64) -> f64 {
        let (sxi, syi) = (
            b.vx + b.wy * self.r * self.sin_t - b.wz * self.r * self.cos_t,
            -b.vy * self.sin_t + b.wx * self.r,
        );
        let (sxc, syc) = (b.vx - b.wy * self.r, b.vy + b.wx * self.r);
        let si = (sxi * sxi + syi * syi).sqrt();
        let sc = (sxc * sxc + syc * syc).sqrt();
        // Friction direction cosines; a vanished slip sticks (no friction).
        let (ci, di) = if slips(s(si)) { (sxi / si, syi / si) } else { (0.0, 0.0) };
        let (cc, dc) = if slips(s(sc)) { (sxc / sc, syc / sc) } else { (0.0, 0.0) };
        // Table normal impulse per unit cushion impulse.
        let table_n = self.sin_t + self.mu_w * di * self.cos_t;

        b.vx -= (self.mu_w * ci + self.mu_s * cc * table_n) * dp / self.m;
        b.vy -= (self.cos_t - self.mu_w * self.sin_t * di + self.mu_s * dc * table_n) * dp / self.m;
        let k = 5.0 / (2.0 * self.m * self.r);
        b.wx -= k * (self.mu_w * di + self.mu_s * dc * table_n) * dp;
        b.wy -= k * (self.mu_w * ci * self.sin_t - self.mu_s * cc * table_n) * dp;
        b.wz += k * (self.mu_w * ci * self.cos_t) * dp;
        dp * b.vy.abs() * self.cos_t
    }
}

/// The Mathavan 2010 ball-cushion impact: integrated through normal-impulse space
/// with two simultaneous contacts, the cushion nose and the table under the ball.
fn mathavan2010_rebound(
    b: &State,
    normal: DVec3,
    ball: &BallSpec,
    phys: &PhysicsParams,
    cushion_height: f64,
) -> State {
    let (r, m) = (f(ball.radius), f(ball.mass));
    // Rotate so the outward normal aligns with +y.
    let psi = normal.y.atan2(normal.x);
    let rot = std::f64::consts::FRAC_PI_2 - psi;
    let v = rotate_z(b.vel, rot);
    let w = rotate_z(b.angular_vel, rot);

    let sin_t = (cushion_height - r) / r;
    let nose = Nose {
        r,
        m,
        sin_t,
        cos_t: (1.0 - sin_t * sin_t).sqrt(),
        mu_w: f(phys.cushion_friction),
        mu_s: f(phys.mu_slide),
    };
    let e = restitution(phys, v.y, v.x);
    let mut x = Slice { vx: v.x, vy: v.y, wx: w.x, wy: w.y, wz: w.z };

    // Compression: until the normal velocity reverses.
    let mut stage = Impact::new(phys.cushion_contact_steps);
    let dp = m * x.vy / stage.steps as f64;
    let mut work = 0.0;
    while stage.compressing(s(x.vy)) {
        let before = x;
        let dw = nose.step(&mut x, dp);
        match stage.compressed(s(x.vy)) {
            Compressed::Kept => work += dw,
            Compressed::Overshot => {
                // Redo the slice at the interpolated size that ends at vy = 0.
                let full = x.vy;
                x = before;
                let share = (before.vy / (before.vy - full)).clamp(0.0, 1.0);
                work += nose.step(&mut x, dp * share);
            }
        }
    }

    // Restitution: return e² of the compression work.
    let target = e * e * work;
    let mut returned = 0.0;
    let mut stage = Impact::new(phys.cushion_contact_steps);
    loop {
        let push = x.vy.abs() * nose.cos_t;
        match stage.restoring(s(returned), s(target), s(returned + dp * push), s(push)) {
            Restoring::Done => break,
            Restoring::Full => returned += nose.step(&mut x, dp),
            Restoring::Last => {
                nose.step(&mut x, (target - returned) / push);
            }
        }
    }

    State {
        pos: b.pos,
        vel: rotate_z(DVec3::new(x.vx, x.vy, 0.0), -rot),
        angular_vel: rotate_z(DVec3::new(x.wx, x.wy, x.wz), -rot),
    }
}

/// Resolve a collision between two equal-mass balls in contact.
fn collide(a: &State, b: &State, ball: &BallSpec, phys: &PhysicsParams) -> (State, State) {
    let n = (b.pos - a.pos).normalize();
    match ball_ball_collision(phys.ball_contact_steps, s((a.vel - b.vel).dot(n))) {
        Collision::Parting => (*a, *b),
        Collision::ClosedForm => collide_closed(a, b, n, ball, phys),
        Collision::Integrated(steps) => collide_integrated(a, b, n, ball, phys, steps),
    }
}

/// The closed-form impulse: restitution along the line of centers, Coulomb friction
/// across it.
fn collide_closed(
    a: &State,
    b: &State,
    n: DVec3,
    ball: &BallSpec,
    phys: &PhysicsParams,
) -> (State, State) {
    let (r, m) = (f(ball.radius), f(ball.mass));
    let ii = 0.4 * m * r * r;
    let e = f(phys.ball_restitution);
    let t = DVec3::new(-n.y, n.x, 0.0);
    let (a_vn, a_vt) = (a.vel.dot(n), a.vel.dot(t));
    let (b_vn, b_vt) = (b.vel.dot(n), b.vel.dot(t));

    // Normal: symmetric restitution exchange.
    let a_vn_f = 0.5 * ((1.0 - e) * a_vn + (1.0 + e) * b_vn);
    let b_vn_f = 0.5 * ((1.0 + e) * a_vn + (1.0 - e) * b_vn);
    let p_n = m * (a_vn_f - a_vn).abs();

    // Tangential relative surface velocity, and the friction it meets.
    let u_t = (a_vt - b_vt) + r * (a.angular_vel.z + b.angular_vel.z);
    let u = f(phys.ball_friction)
        + f(phys.ball_friction_b) * (-f(phys.ball_friction_c) * u_t.abs()).exp();
    let j = -u_t.signum() * ((m / 7.0) * u_t.abs()).min(u * p_n);

    let dw = DVec3::new(0.0, 0.0, r * j / ii);
    (
        State {
            pos: a.pos,
            vel: a.vel + n * (a_vn_f - a_vn) + t * (j / m),
            angular_vel: a.angular_vel + dw,
        },
        State {
            pos: b.pos,
            vel: b.vel + n * (b_vn_f - b_vn) - t * (j / m),
            angular_vel: b.angular_vel + dw,
        },
    )
}

/// The contact marched through normal impulse space, friction following the slip as
/// it turns.
fn collide_integrated(
    a: &State,
    b: &State,
    n: DVec3,
    ball: &BallSpec,
    phys: &PhysicsParams,
    steps: u32,
) -> (State, State) {
    let (r, m) = (f(ball.radius), f(ball.mass));
    let ii = 0.4 * m * r * r;
    let approach = (a.vel - b.vel).dot(n);
    let (mut a_v, mut b_v) = (a.vel, b.vel);
    let (mut a_w, mut b_w) = (a.angular_vel, b.angular_vel);
    let dp = 0.5 * m * approach * (1.0 + f(phys.ball_restitution)) / steps as f64;
    for _ in 0..steps {
        a_v -= n * (dp / m);
        b_v += n * (dp / m);
        let u = (a_v + a_w.cross(n * r)) - (b_v + b_w.cross(n * -r));
        let u_t = u - n * u.dot(n);
        let slip = u_t.length();
        if stuck(s(slip)) {
            continue;
        }
        let mu = f(phys.ball_friction)
            + f(phys.ball_friction_b) * (-f(phys.ball_friction_c) * slip).exp();
        let j = (mu * dp).min(slip * m / 7.0);
        let push = u_t * (-j / slip);
        a_v += push / m;
        b_v -= push / m;
        let dw = (n * r).cross(push) / ii;
        a_w += dw;
        b_w += dw;
    }
    a_v.z = 0.0;
    b_v.z = 0.0;
    (
        State { pos: a.pos, vel: a_v, angular_vel: a_w },
        State { pos: b.pos, vel: b_v, angular_vel: b_w },
    )
}

/// A single ball moving freely on the cloth until it comes to rest.
fn simulate_free(initial: &State, ball: &BallSpec, phys: &PhysicsParams) -> Trajectory {
    let mut solo = Solo::new(from_state(*initial));
    while !solo.done() {
        let b = to_state(solo.state);
        let m = motion_of(&b, ball, phys);
        let ending = natural_ending(&solo, &m, ball);
        take_step(&mut solo, &m, ending);
    }
    solo.finish()
}

/// A single ball on a bounded table, rebounding off cushions until it comes to rest.
fn simulate_table(
    initial: &State,
    table: &TableSpec,
    ball: &BallSpec,
    phys: &PhysicsParams,
) -> Trajectory {
    let bounds = center_bounds(table, ball);
    let mut solo = Solo::new(from_state(*initial));
    while !solo.done() {
        let b = to_state(solo.state);
        let m = motion_of(&b, ball, phys);
        let (dt, met) = next_ending(&m, cushion_ahead(&b, &m, bounds));
        let ending = match met {
            Some(rail) if m.phase != MotionPhase::Stationary => {
                let t = f(solo.t) + f(dt);
                let seg = leg(&solo.state, solo.t, s(t), &m);
                let rebound = han2005_rebound(
                    &segment_state(&seg, t),
                    to_vec(rail.outward_normal()),
                    ball,
                    phys,
                    f(table.cushion_height),
                );
                Ending::Cushion { t: s(t), rebound: from_state(rebound) }
            }
            _ => natural_ending(&solo, &m, ball),
        };
        take_step(&mut solo, &m, ending);
    }
    solo.finish()
}

fn leg(state: &BallState, t_start: Scalar, t_end: Scalar, m: &Motion) -> MotionSegment {
    billiards_coach::engine::motion::segment_for(*state, t_start, t_end, m)
}

/// How a ball's current phase ends on its own.
fn natural_ending(solo: &Solo, m: &Motion, ball: &BallSpec) -> Ending {
    let t = f(solo.t) + f(m.dur);
    let arrived = segment_state(&leg(&solo.state, solo.t, s(t), m), t);
    Ending::Natural {
        t: s(t),
        arrived: from_state(arrived),
        rolled: from_vec(rolling_angular_vel(&arrived, f(ball.radius))),
    }
}

fn take_step(solo: &mut Solo, m: &Motion, ending: Ending) {
    let t = match ending {
        Ending::Natural { t, .. } | Ending::Cushion { t, .. } => f(t),
    };
    assert!(f(solo.t).is_finite() && !(t < f(solo.t)), "time runs forward");
    solo.step(m, ending);
}

/// A set of balls on a bounded table until all come to rest. Trajectory `i`
/// corresponds to `initial[i]`.
fn simulate(
    initial: &[State],
    table: &TableSpec,
    ball: &BallSpec,
    phys: &PhysicsParams,
) -> Simulation {
    let bounds = center_bounds(table, ball);
    let radius = f(ball.radius);
    let n = initial.len();
    let start: Vec<BallState> = initial.iter().map(|b| from_state(*b)).collect();
    let mut world = World::new(&start);
    let mut now: Vec<State> = Vec::with_capacity(n);
    let mut motions: Vec<Motion> = Vec::with_capacity(n);
    let mut cushions: Vec<Option<(Scalar, Rail)>> = Vec::with_capacity(n);
    let mut meets: Vec<Vec<Option<Scalar>>> = vec![vec![None; n]; n];
    loop {
        now.clear();
        now.extend(world.states.iter().map(|b| to_state(*b)));
        motions.clear();
        motions.extend(now.iter().map(|b| motion_of(b, ball, phys)));
        cushions.clear();
        cushions.extend((0..n).map(|i| {
            if inert(&motions[i]) { None } else { cushion_ahead(&now[i], &motions[i], bounds) }
        }));
        // Two balls that cannot meet before this need no closer look.
        let soon = (0..n)
            .flat_map(|i| [Some(motions[i].dur), cushions[i].map(|c| c.0)])
            .flatten()
            .map(f)
            .filter(|dt| *dt > 0.0)
            .fold(f64::INFINITY, f64::min);
        for i in 0..n {
            for j in i + 1..n {
                meets[i][j] = if both_rest(&motions[i], &motions[j]) {
                    None
                } else {
                    let (a, b) = (&now[i], &now[j]);
                    let accs = (to_vec(motions[i].lin_acc), to_vec(motions[j].lin_acc));
                    let (dv, da) = (a.vel - b.vel, accs.0 - accs.1);
                    if stay_apart(a.pos - b.pos, dv, da, radius, soon) {
                        None
                    } else {
                        let horizon = pair_horizon(&motions[i], &motions[j]);
                        meeting((a, accs.0), (b, accs.1), radius, horizon)
                    }
                };
            }
        }
        let Some(next) = world.next_event(&motions, &cushions, &meets) else { break };

        let t = f(world.t) + f(next.dt);
        assert!(t >= f(world.t), "time runs forward");
        let moved: Vec<BallState> = (0..n)
            .map(|i| {
                from_state(segment_state(&leg(&world.states[i], world.t, s(t), &motions[i]), t))
            })
            .collect();
        world.advance(&motions, s(t), moved);

        match next.event {
            Event::Transition(i, ends) => {
                let rolled = rolling_angular_vel(&to_state(world.states[i]), radius);
                world.transition(i, ends, from_vec(rolled));
            }
            Event::Cushion(i, rail) => {
                let since = (t - f(world.last_cushion[i])) / f(Scalar::from_bits(CHAIN_RECOVERY_T));
                let recovery = f(chain_recovery(s(1.0 - since)));
                let out = rebound(
                    &to_state(world.states[i]),
                    to_vec(rail.outward_normal()),
                    ball,
                    phys,
                    f(table.cushion_height),
                    recovery,
                );
                world.cushion(i, from_state(out));
            }
            Event::BallBall(i, j) => {
                let (a, b) =
                    collide(&to_state(world.states[i]), &to_state(world.states[j]), ball, phys);
                world.collision(i, j, from_state(a), from_state(b));
            }
        }
    }
    world.finish()
}

/// One ball's observed path in numbers: time and position.
type Track = Vec<(f64, DVec3)>;

/// Required rise beside a minimum, above tracking jitter (m).
const PROM: f64 = 0.03;

/// Distance of a ball-center position to one rail's center-bound line; rails 0 to 3
/// are -x, +x, -y, +y.
fn rail_dist(p: DVec3, rail: u8, b: &Bounds) -> f64 {
    match rail {
        0 => p.x - f(b.min_x),
        1 => f(b.max_x) - p.x,
        2 => p.y - f(b.min_y),
        _ => f(b.max_y) - p.y,
    }
}

/// Where a track is at time `t`: interpolated, or where it is first or last seen.
fn interp_at(track: &Track, t: f64) -> DVec3 {
    match track.iter().position(|(tt, _)| *tt >= t) {
        Some(0) => track[0].1,
        Some(k) => {
            let (ta, pa) = track[k - 1];
            let (tb, pb) = track[k];
            pa + (pb - pa) * ((t - ta) / (tb - ta).max(1e-6))
        }
        None => track[track.len() - 1].1,
    }
}

/// What the tracks say about ball `ball`.
fn testimony(observed: &[Track], ball: usize) -> Testimony {
    let own = &observed[ball];
    let rest = own.first().map_or(DVec3::ZERO, |x| x.1);
    Testimony {
        ball,
        own: own
            .iter()
            .enumerate()
            .map(|(i, &(t, p))| OwnSample {
                t: s(t),
                from_rest: s((p - rest).length()),
                window_lo: s(own[i.max(1) - 1].0 - 0.35),
                window_hi: s(t + 0.12),
                judged_until: s(t + 1.2),
            })
            .collect(),
        others: observed
            .iter()
            .map(|tr| {
                tr.iter()
                    .map(|&(t, p)| Sighting { t: s(t), from_rest: s((p - rest).length()) })
                    .collect()
            })
            .collect(),
        overlap: observed
            .iter()
            .map(|tr| {
                own.iter()
                    .map(|&(t, p)| {
                        if tr.is_empty() {
                            s(f64::INFINITY)
                        } else {
                            s((interp_at(tr, t) - p).length())
                        }
                    })
                    .collect()
            })
            .collect(),
    }
}

/// The samples on one side of a minimum, going away from it.
fn side(samples: &mut dyn Iterator<Item = (f64, f64)>, t_min: f64, d_min: f64) -> Vec<SideSample> {
    samples
        .map(|(t, d)| {
            let age = (t - t_min).abs();
            SideSample { age: s(age), height: s(d), slope: s((d - d_min) / age.max(1e-6)) }
        })
        .collect()
}

/// Ball `ball`'s track beside one rail.
fn rail_table(observed: &[Track], ball: usize, rail: u8, bounds: &Bounds) -> RailTable {
    let track = &observed[ball];
    let d: Vec<f64> = track.iter().map(|&(_, p)| rail_dist(p, rail, bounds)).collect();
    let sides = dips(&ss(&d))
        .into_iter()
        .map(|m| {
            let (tm, pm) = track[m];
            let floor = s(d[m] + PROM);
            let before = side(&mut (0..m).rev().map(|k| (track[k].0, d[k])), tm, d[m]);
            let after = side(&mut (m + 1..track.len()).map(|k| (track[k].0, d[k])), tm, d[m]);
            let strength = s(f(steepest(&before, floor)) + f(steepest(&after, floor)));
            let seen_from = |&(t, p): &(f64, DVec3)| Sighting {
                t: s((t - tm).abs()),
                from_rest: s((p - pm).length()),
            };
            let around = observed.iter().map(|tr| tr.iter().map(seen_from).collect()).collect();
            Sides { floor, before, after, strength, around }
        })
        .collect();
    RailTable { dists: ss(&d), sides }
}

/// What ball `ball`'s track says of its cushions.
fn ball_tables(observed: &[Track], ball: usize, bounds: &Bounds) -> BallTables {
    let times: Vec<f64> = observed[ball].iter().map(|x| x.0).collect();
    BallTables {
        times: ss(&times),
        rails: [0, 1, 2, 3].map(|rail| rail_table(observed, ball, rail, bounds)),
        later: times.iter().map(|a| times.iter().map(|b| s(b - a)).collect()).collect(),
    }
}

/// The observed event skeleton of a shot, cue ball first.
fn observed_events(observed: &[Track], bounds: &Bounds) -> ObservedEvents {
    let testimonies: Vec<Testimony> =
        (1..observed.len()).map(|k| testimony(observed, k)).collect();
    assert!(testimonies.iter().all(Testimony::can_be_dated), "a contact is dated backwards");
    let balls: Vec<BallTables> =
        (0..observed.len()).map(|k| ball_tables(observed, k, bounds)).collect();
    let tracks = observed
        .iter()
        .map(|tr| tr.iter().map(|&(t, p)| (s(t), from_vec(p))).collect())
        .collect();
    ObservedEvents::from_tracks(&testimonies, &balls, *bounds, tracks)
}

/// When a simulated ball has first moved, at the tracker's frame rate.
fn sim_move(sim: &Simulation, ball: usize) -> Option<Scalar> {
    let traj = &sim.trajectories[ball];
    if traj.segments.iter().all(|seg| seg.phase == MotionPhase::Stationary) {
        return None;
    }
    let mut walk = Walk::new(traj);
    let start = walk.pos_at(0.0);
    let end = f(sim.settled_time());
    let mut t = 0.0;
    while t <= end {
        let moved = s((walk.pos_at(t) - start).length());
        if first_above(&[moved], Scalar::from_bits(SIM_MOVED)).is_some() {
            return Some(s(t));
        }
        t += 1.0 / 30.0;
    }
    None
}

/// A simulation's cushion bounces, per ball: the rail read from where the ball is.
fn bounces_simulated(sim: &Simulation, balls: usize, bounds: &Bounds) -> Vec<Vec<(Scalar, u8)>> {
    let rails: Vec<u8> = sim
        .events
        .iter()
        .map(|e| match e.kind {
            ContactKind::Cushion { ball } if (ball.0 as usize) < sim.trajectories.len() => {
                let p = state_at(&sim.trajectories[ball.0 as usize], f(e.time)).pos;
                nearest_rail(&[0, 1, 2, 3].map(|r| s(rail_dist(p, r, bounds))))
            }
            _ => 0,
        })
        .collect();
    sim_bounces(&sim.events, &rails, balls)
}

/// Penalty (m, added to the RMS) for a simulation whose event structure contradicts
/// the observed skeleton.
fn event_penalty(sim: &Simulation, events: &ObservedEvents) -> f64 {
    let contact_pen = f(Scalar::from_bits(CONTACT_PEN));
    let cushion_pen = f(Scalar::from_bits(CUSHION_PEN));
    let delay_rate = f(Scalar::from_bits(DELAY_RATE));
    let moves: Vec<Option<Scalar>> =
        (1..sim.trajectories.len()).map(|k| sim_move(sim, k)).collect();
    let mut pen = 0.0;
    for charge in contact_charges(&events.first_move, &moves) {
        pen += match charge {
            ContactCharge::Free => 0.0,
            ContactCharge::Fabricated | ContactCharge::Missing => contact_pen,
            ContactCharge::Delay(to, ts) => {
                delay_rate * f(charged_delay(s((f(to) - f(ts)).abs())))
            }
        };
    }
    let n = events.cushions.len().min(sim.trajectories.len());
    let simulated = bounces_simulated(sim, n, &events.bounds);
    for (k, sims) in simulated.iter().enumerate() {
        let obs = &events.cushions[k];
        let lists = BounceLists {
            observed: obs.iter().map(|b| b.1).collect(),
            simulated: sims.iter().map(|b| b.1).collect(),
            gaps: obs
                .iter()
                .map(|o| sims.iter().map(|b| s((f(o.0) - f(b.0)).abs())).collect())
                .collect(),
        };
        // Only a bounce without a partner is held against the track.
        let used = lists.align().used;
        let around: Vec<Vec<RailSample>> = sims
            .iter()
            .zip(used)
            .map(|(&(ts, rail), used)| {
                let samples: &[(Scalar, _)] = if used { &[] } else { &events.tracks[k] };
                samples
                    .iter()
                    .map(|&(t, p)| RailSample {
                        apart: s((f(t) - f(ts)).abs()),
                        dist: s(rail_dist(to_vec(p), rail, &events.bounds)),
                    })
                    .collect()
            })
            .collect();
        let charge = cushion_charge(&lists, &around);
        pen += cushion_pen * charge.missing as f64;
        for _ in 0..charge.fabricated {
            pen += cushion_pen;
        }
    }
    pen
}

/// Sample every ball's trajectory at `fps` into observed tracks, the shape the
/// tracker produces.
fn sample_tracks(sim: &Simulation, fps: f64) -> Vec<Track> {
    sim.trajectories
        .iter()
        .map(|traj| {
            let total = f(traj.time_to_rest());
            let n = (total * fps).ceil() as usize;
            (0..=n)
                .map(|k| {
                    let t = (k as f64 / fps).min(total);
                    (t, state_at(traj, t).pos)
                })
                .collect()
        })
        .collect()
}

/// The recovered hit and how well it fits.
#[derive(Clone, Copy, Debug)]
struct FitResult {
    action: CueAction,
    /// RMS distance (m) between observed and simulated ball positions.
    rms_m: f64,
}

/// The table, its balls and its physics.
#[derive(Clone, Copy)]
struct Setting {
    table: TableSpec,
    ball: BallSpec,
    phys: PhysicsParams,
}

/// `i` of `n` evenly spaced numbers from `a` to `b`.
fn lerp(a: f64, b: f64, i: usize, n: usize) -> f64 {
    if n <= 1 {
        0.5 * (a + b)
    } else {
        a + (b - a) * (i as f64 / (n - 1) as f64)
    }
}

/// An action from a tip offset (fractions of the radius).
fn from_tip_offset(aim: f64, speed: f64, h: f64, v: f64, radius: f64) -> CueAction {
    let k = 5.0 * speed / (2.0 * radius);
    CueAction { aim: s(aim), speed: s(speed), sidespin: s(k * h), follow: s(k * v) }
}

/// The tip offset of an action (fractions of the radius).
fn tip_offset(action: &CueAction, radius: f64) -> (f64, f64) {
    let k = 2.0 * radius / (5.0 * f(action.speed));
    let (h, v) = action.tip_offset((s(k * f(action.sidespin)), s(k * f(action.follow))));
    (f(h), f(v))
}

/// The cue ball just after the strike.
fn struck(cue: DVec3, action: &CueAction) -> State {
    let (sin, cos) = f(action.aim).sin_cos();
    State {
        pos: cue,
        vel: DVec3::new(f(action.speed) * cos, f(action.speed) * sin, 0.0),
        angular_vel: DVec3::new(
            -f(action.follow) * sin,
            f(action.follow) * cos,
            f(action.sidespin),
        ),
    }
}

/// The shot that an action plays on a scene.
fn play(scene: &Scene, action: &CueAction, at: &Setting) -> Simulation {
    let states = scene.ball_states(from_state(struck(to_vec(scene.cue), action)));
    let states: Vec<State> = states.into_iter().map(to_state).collect();
    simulate(&states, &at.table, &at.ball, &at.phys)
}

/// RMS position error between a simulation and the observed tracks.
fn total_error(sim: &Simulation, observed: &[Track]) -> f64 {
    let (mut sse, mut n) = (0.0, 0usize);
    for (traj, track) in sim.trajectories.iter().zip(observed) {
        let mut walk = Walk::new(traj);
        for &(t, p) in track {
            sse += (walk.pos_at(t) - p).length_squared();
            n += 1;
        }
    }
    if n == 0 {
        f64::INFINITY
    } else {
        (sse / n as f64).sqrt()
    }
}

/// What a candidate is ranked by. Charges only add to the error, so one that is not below
/// `bound` without them is not looked at further.
fn eval(
    scene: &Scene,
    p: &[f64],
    at: &Setting,
    observed: &[Track],
    events: &ObservedEvents,
    bound: f64,
) -> f64 {
    let action = from_tip_offset(p[0], p[1], p[2], p[3], f(at.ball.radius));
    let sim = play(scene, &action, at);
    let error = total_error(&sim, observed);
    if error < bound {
        error + event_penalty(&sim, events)
    } else {
        error
    }
}

fn heading(d: DVec3) -> f64 {
    d.y.atan2(d.x)
}

/// Wrap an angle difference to (-π, π].
fn wrap_angle(a: f64) -> f64 {
    PI - (PI - a).rem_euclid(TAU)
}

fn rails_of(p: DVec3, b: &Bounds) -> [Scalar; 4] {
    [0, 1, 2, 3].map(|r| s(rail_dist(p, r, b)))
}

/// The cue ball's samples as the flight's end is judged by.
fn launch_of(cue: &Track, obstacles: &[DVec3], t_stop: f64, bounds: &Bounds, radius: f64) -> Launch {
    let (t0, p0) = cue[0];
    let mut last: Option<DVec3> = None;
    let mut samples = Vec::with_capacity(cue.len());
    for &(t, p) in cue {
        let d = p - p0;
        let cross = last.map_or(0.0, |q: DVec3| {
            let chord = (q - p0).normalize();
            (d - chord * d.dot(chord)).length()
        });
        let sample = LaunchSample {
            t: s(t),
            age: s(t - t0),
            moved: s(d.length()),
            obstacles: obstacles.iter().map(|o| s((p - *o).length())).collect(),
            rails: rails_of(p, bounds),
            cross: s(cross),
            bend: s(0.31 * d.length()),
        };
        if fallback_sample(&[sample.moved]).is_some() {
            last = Some(p);
        }
        samples.push(sample);
    }
    Launch {
        samples,
        start_rails: rails_of(p0, bounds),
        stop_at: s(t_stop - 0.017),
        guard: s(2.0 * radius + 0.025),
    }
}

/// The cue ball's launch, read directly off its initial free flight: heading (rad),
/// speed (m/s), and how far apart the samples' own headings lie.
fn launch_estimate(
    cue: &Track,
    obstacles: &[DVec3],
    t_stop: f64,
    bounds: &Bounds,
    radius: f64,
) -> (f64, f64, f64) {
    let unknown = f(Scalar::from_bits(SPREAD_UNKNOWN));
    let no_speed = f(Scalar::from_bits(SPEED_UNKNOWN));
    let Some(&(_, p0)) = cue.first() else { return (0.0, no_speed, unknown) };
    let (rest, free, end) = match launch_of(cue, obstacles, t_stop, bounds, radius).read() {
        LaunchReading::Unknown => return (0.0, no_speed, unknown),
        LaunchReading::Blurred { rest, sample } => {
            let d = cue[sample].1 - p0;
            let slope = d.length() / (cue[sample].0 - cue[rest].0).max(1e-6);
            return (heading(d), f(launch_speed(s(1.0), s(slope))), unknown);
        }
        LaunchReading::Flight { rest, free, end } => (rest, free, end),
    };
    let t_rest = cue[rest].0;
    let free: Vec<(f64, DVec3)> = free.into_iter().map(|k| cue[k]).collect();
    let aim = heading(free[end].1 - p0);
    let mut spread = if end == 0 { f(Scalar::from_bits(SPREAD_SINGLE)) } else { 0.0 };
    for &(_, p) in &free[..=end] {
        let off = (heading(p - p0) - aim).sin().abs().asin();
        spread = spread.max(off);
    }
    let dts: Vec<f64> = free.iter().map(|x| x.0 - t_rest).collect();
    let (mut num, mut den) = (0.0, 0.0);
    for k in 0..speed_samples(&ss(&dts)) {
        num += dts[k] * (free[k].1 - p0).length();
        den += dts[k] * dts[k];
    }
    (aim, f(launch_speed(s(den), s(num / den))), spread)
}

/// What a moving object ball shows of the aim, per sample: the cue ball was at contact
/// behind its rest, on the line of its departure.
fn departure_of(track: &Track, rest: DVec3, cue: DVec3, aim: f64, at: &Setting) -> Departure {
    let away = |p: DVec3| (p - rest).length();
    let estimate = |p: DVec3| {
        let dir = (p - rest) / away(p);
        let to = rest - dir * (2.0 * f(at.ball.radius)) - cue;
        let off = wrap_angle(heading(to) - aim).abs();
        AimEstimate { reach: s(to.length()), off: s(off), half: s(off / 2.0 + 0.04) }
    };
    Departure {
        rails: rails_of(rest, &center_bounds(&at.table, &at.ball)),
        dists: track.iter().map(|x| s(away(x.1))).collect(),
        aims: track.iter().map(|x| estimate(x.1)).collect(),
    }
}

/// How fast an observably struck ball left its rest.
fn departure_speed(track: &Track, rest: DVec3) -> f64 {
    let rest = track.first().map_or(rest, |x| x.1);
    let dists: Vec<f64> = track.iter().map(|x| (x.1 - rest).length()).collect();
    let times: Vec<f64> = track.iter().map(|x| x.0).collect();
    match departure_pair(&ss(&dists), &ss(&times)) {
        Some((a, b)) => (dists[b] - dists[a]) / (times[b] - times[a]),
        None => 0.0,
    }
}

/// The part of the action space that the observed launch leaves open.
#[derive(Clone, Copy, Debug)]
struct Search {
    aim: f64,
    aim_window: f64,
    speed: (f64, f64),
}

/// Where to search, from the observed launch and the observed first contact.
fn search_of(
    scene: &Scene,
    observed: &[Track],
    events: &ObservedEvents,
    at: &Setting,
    cfg: &FitConfig,
) -> Search {
    let bounds = center_bounds(&at.table, &at.ball);
    let radius = f(at.ball.radius);
    let rests: Vec<DVec3> = scene.objects.iter().map(|p| to_vec(*p)).collect();
    let cue = to_vec(scene.cue);
    let t0 = observed[0].first().map_or(0.0, |x| x.0);
    let mut obstacles = rests.clone();
    obstacles.extend(observed.iter().skip(1).filter_map(|t| t.first().map(|x| x.1)));
    let moves: Vec<(usize, f64)> = observed
        .iter()
        .enumerate()
        .skip(1)
        .filter_map(|(k, tr)| {
            let &(_, p0) = tr.first()?;
            let dists: Vec<f64> = tr.iter().map(|x| (x.1 - p0).length()).collect();
            first_above(&ss(&dists), Scalar::from_bits(SIM_MOVED)).map(|i| (k, tr[i].0))
        })
        .collect();
    let t_stop = moves.iter().map(|m| m.1).fold(f64::INFINITY, f64::min);
    let (mut aim, speed, spread) =
        launch_estimate(&observed[0], &obstacles, t_stop, &bounds, radius);
    let mut window = f(aim_window(cfg.aim_window, s(spread)));

    // An immediate collision: the struck ball's departure observes the aim better
    // than the cue ball's own few blurred samples do.
    let first: Vec<FirstMotion> =
        moves.iter().map(|m| FirstMotion { t: s(m.1), age: s(m.1 - t0) }).collect();
    let seen: Vec<Option<Departure>> = moves
        .iter()
        .map(|&(k, _)| {
            let rest = rests.get(k - 1)?;
            Some(departure_of(&observed[k], *rest, cue, aim, at))
        })
        .collect();
    if let Some((i, k, w)) = correction(cfg.aim_window, s(spread), &first, &seen) {
        let (ball, rest) = (moves[i].0, rests[moves[i].0 - 1]);
        let d = observed[ball][k].1 - rest;
        let off = wrap_angle(heading(rest - d / d.length() * (2.0 * radius) - cue) - aim);
        aim = wrap_angle(aim + off / 2.0);
        window = f(w);
    }

    // The aim must be able to reach the ball that was verifiably struck first.
    let widen = 1.0 + f(cfg.speed_window);
    let mut unpinned = false;
    let ages: Vec<Scalar> = events
        .first_move
        .iter()
        .map(|m| match m {
            FirstMove::At(t) => s(f(*t) - t0),
            FirstMove::Still | FirstMove::Unreliable => s(f64::INFINITY),
        })
        .collect();
    let reaches: Vec<Scalar> = rests.iter().map(|p| s((*p - cue).length())).collect();
    if let Some(k) = first_target(&events.first_move, &ages, &events.cushions[0], &reaches) {
        let to = rests[k] - cue;
        let graze = (2.0 * radius / to.length()).min(1.0).asin();
        let off = wrap_angle(heading(to) - aim);
        unpinned = unpins_speed(
            s(off.abs()),
            s(window + 0.7 * graze),
            s(departure_speed(&observed[k + 1], rests[k])),
            s(0.8 * (speed * widen)),
        );
        let (lo, hi) = window_union(
            s(-window),
            s(window),
            s(off - graze - 0.03),
            s(off + graze + 0.03),
        );
        aim = wrap_angle(aim + (f(lo) + f(hi)) / 2.0);
        window = (f(hi) - f(lo)) / 2.0;
    }
    let (lo, hi) = speed_range(
        unpinned,
        cfg.speed_min,
        cfg.speed_max,
        s(speed * (1.0 - f(cfg.speed_window))),
        s(speed * widen),
    );
    Search { aim, aim_window: window, speed: (f(lo), f(hi)) }
}

/// The tip-offset grid points (english, follow) inside the miscue disk.
fn offsets(steps: usize, limit: f64) -> Vec<(f64, f64)> {
    let all: Vec<(f64, f64)> = (0..steps)
        .flat_map(|hi| (0..steps).map(move |vi| (hi, vi)))
        .map(|(hi, vi)| (lerp(-limit, limit, hi, steps), lerp(-limit, limit, vi, steps)))
        .collect();
    let squares: Vec<f64> = all.iter().map(|&(h, v)| h * h + v * v).collect();
    let inside = offset_grid(&ss(&squares), s(limit * limit + 1e-9));
    inside.into_iter().map(|k| all[k]).collect()
}

/// Coordinate descent with shrinking steps from a single start.
fn refine(
    start: [f64; 4],
    err: f64,
    windows: &Windows,
    rounds: usize,
    eval: &dyn Fn(&[f64], f64) -> f64,
) -> (Vec<f64>, f64) {
    let mut d = Descent::new(ss(&start), s(err), ss(&[0.04, 0.2, 0.06, 0.06]), rounds);
    while d.rounds > 0 {
        while let Some(probe) = d.probe() {
            let k = probe.coord;
            let mut cand: Vec<f64> = d.point.iter().map(|x| f(*x)).collect();
            cand[k] += if probe.up { 1.0 } else { -1.0 } * f(d.steps[k]);
            let offset = (cand[2] * cand[2] + cand[3] * cand[3]).sqrt();
            if windows.admits(k, s(cand[k]), s(offset)) {
                let e = eval(&cand, f(d.err));
                d.judge(s(cand[k]), s(e));
            } else {
                d.pass();
            }
        }
        let halves = d.steps.iter().map(|x| s(f(*x) * 0.5)).collect();
        d.end_round(halves, None);
    }
    (d.point.iter().map(|x| f(*x)).collect(), f(d.err))
}

/// One search at one resolution; `None` where the grid is empty.
fn fit_action_pass(
    scene: &Scene,
    observed: &[Track],
    at: &Setting,
    cfg: &FitConfig,
) -> Option<FitResult> {
    let bounds = center_bounds(&at.table, &at.ball);
    let mut events = observed_events(observed, &bounds);
    if !cfg.skeleton {
        events.forget_cushions();
    }
    let search = search_of(scene, observed, &events, at, cfg);
    let offsets = offsets(cfg.offset_steps, f(cfg.miscue_limit));
    let grid = Grid {
        aims: cfg.aim_steps,
        speeds: cfg.speed_steps,
        strikes: offsets.len(),
    };
    let grid: Vec<([f64; 4], f64)> = (0..grid.count()?)
        .into_par_iter()
        .map(|k| {
            let cell = grid.cell(k);
            let aim = search.aim - search.aim_window
                + 2.0 * search.aim_window * cell.aim as f64 / (cfg.aim_steps.max(2) - 1) as f64;
            let speed = lerp(search.speed.0, search.speed.1, cell.speed, cfg.speed_steps);
            let (h, v) = offsets[cell.strike];
            let p = [aim, speed, h, v];
            (p, eval(scene, &p, at, observed, &events, f64::INFINITY))
        })
        .collect();
    let windows = Windows {
        aim: (s(search.aim - search.aim_window), s(search.aim + search.aim_window)),
        speed: (s(search.speed.0), s(search.speed.1)),
        miscue_limit: cfg.miscue_limit,
    };
    let errors: Vec<Scalar> = grid.iter().map(|x| s(x.1)).collect();
    let refined: Vec<(Vec<f64>, f64)> = shortlist(&errors, cfg.multistart)
        .par_iter()
        .map(|&k| {
            let (p, e) = grid[k];
            let score = |c: &[f64], bound: f64| eval(scene, c, at, observed, &events, bound);
            refine(p, e, &windows, cfg.refine_iters, &score)
        })
        .collect();
    let errors: Vec<Scalar> = refined.iter().map(|x| s(x.1)).collect();
    let p = &refined[winner(&errors)?].0;
    let action = from_tip_offset(p[0], p[1], p[2], p[3], f(at.ball.radius));
    let rms_m = total_error(&play(scene, &action, at), observed);
    Some(FitResult { action, rms_m })
}

/// Reconstruct the cue action from observed tracks, cue ball first. The strict pass
/// pins aim and speed to the observed launch; where it cannot explain the cue ball's
/// path, a relaxed pass runs, and wins if it fits materially better.
fn fit_action(
    scene: &Scene,
    observed: &[Track],
    at: &Setting,
    cfg: &FitConfig,
) -> FitResult {
    let cue_rms = |r: &FitResult| total_error(&play(scene, &r.action, at), &observed[..1]);
    let strict = fit_action_pass(scene, observed, at, cfg).expect("non-empty candidates");
    let strict_cue = cue_rms(&strict);
    if strict_explains(s(strict_cue)) {
        return strict;
    }
    let wider = cfg.relaxed(s(f(cfg.aim_window) * 4.0), s(f(cfg.speed_window) * 1.6));
    let relaxed = fit_action_pass(scene, observed, at, &wider).expect("non-empty candidates");
    match choose_pass(s(strict_cue), s(cue_rms(&relaxed)), s(strict_cue * 0.8)) {
        Pass::Relaxed => relaxed,
        Pass::Strict => strict,
    }
}

/// A counter whose successive values are scrambled.
struct Rng {
    state: u64,
}

impl Rng {
    fn new(seed: u64) -> Self {
        Rng { state: seed }
    }

    fn next(&mut self) -> u64 {
        self.state = self.state.wrapping_add(0x9E37_79B9_7F4A_7C15);
        let mut z = self.state;
        z = (z ^ (z >> 30)).wrapping_mul(0xBF58_476D_1CE4_E5B9);
        z = (z ^ (z >> 27)).wrapping_mul(0x94D0_49BB_1331_11EB);
        z ^ (z >> 31)
    }

    /// Evenly distributed over (0, 1].
    fn uniform(&mut self) -> f64 {
        ((self.next() >> 11) + 1) as f64 / (1u64 << 53) as f64
    }

    /// A standard normal variate.
    ///
    /// Floating point throughout.
    fn normal(&mut self) -> f64 {
        let r = (-2.0 * self.uniform().ln()).sqrt();
        r * (std::f64::consts::TAU * self.uniform()).cos()
    }
}

/// Whether an action scores on a scene.
fn scores(scene: &Scene, action: &CueAction, at: &Setting) -> bool {
    three_cushion_score(&play(scene, action, at), BallId(0))
}

/// Difficulty in [0, 1]: 0 is a sitter, 1 essentially impossible.
fn difficulty(solution: &Solution) -> f64 {
    1.0 - f(solution.success_prob)
}

/// The fraction of executions that still score when `base` is perturbed.
fn robustness(
    scene: &Scene,
    base: &CueAction,
    at: &Setting,
    noise: &ExecutionNoise,
    samples: usize,
    rng: &mut Rng,
) -> f64 {
    let radius = f(at.ball.radius);
    let (bh, bv) = tip_offset(base, radius);
    let scored: Vec<bool> = (0..samples)
        .map(|_| {
            let aim = f(base.aim) + f(noise.aim_sd) * rng.normal();
            let speed = f(base.speed) + f(noise.speed_sd) * rng.normal();
            let h = bh + f(noise.offset_sd) * rng.normal();
            let v = bv + f(noise.offset_sd) * rng.normal();
            let action = from_tip_offset(aim, f(executed_speed(s(speed))), h, v, radius);
            scores(scene, &action, at)
        })
        .collect();
    hits(&scored) as f64 / samples as f64
}

/// The probability that `action` scores under execution noise.
fn success_probability(
    scene: &Scene,
    action: &CueAction,
    at: &Setting,
    cfg: &SolveConfig,
) -> f64 {
    let mut rng = Rng::new(player_seed(cfg.seed));
    robustness(scene, action, at, &cfg.noise, cfg.mc_samples, &mut rng)
}

/// The most robust scoring shot; `None` if no action scores at this resolution.
fn solve(scene: &Scene, at: &Setting, cfg: &SolveConfig) -> Option<Solution> {
    let radius = f(at.ball.radius);
    let offsets = offsets(cfg.offset_steps, f(cfg.miscue_limit));
    let grid = Grid {
        aims: cfg.aim_steps,
        speeds: cfg.speed_steps,
        strikes: offsets.len(),
    };
    let tried: Vec<CueAction> = (0..grid.count()?)
        .map(|k| {
            let cell = grid.cell(k);
            let aim = TAU * cell.aim as f64 / cfg.aim_steps as f64;
            let speed = lerp(f(cfg.speed_min), f(cfg.speed_max), cell.speed, cfg.speed_steps);
            let (h, v) = offsets[cell.strike];
            from_tip_offset(aim, speed, h, v, radius)
        })
        .collect();
    let scored: Vec<bool> = tried.par_iter().map(|a| scores(scene, a, at)).collect();
    let scoring: Vec<CueAction> = scoring(&scored).into_iter().map(|k| tried[k]).collect();
    let probs: Vec<Scalar> = scoring
        .par_iter()
        .enumerate()
        .map(|(i, action)| {
            let mut rng = Rng::new(candidate_seed(cfg.seed, i as u64));
            s(robustness(scene, action, at, &cfg.noise, cfg.mc_samples, &mut rng))
        })
        .collect();
    most_forgiving(&scoring, &probs)
}

/// Wrap an angle to [-π, π].
fn wrap_pi(a: f64) -> f64 {
    let a = a % TAU;
    if a > PI {
        a - TAU
    } else if a < -PI {
        a + TAU
    } else {
        a
    }
}

/// The smallest change of the player's action that scores; `None` where nothing in
/// the window does. An action that already scores is returned with no adjustment.
fn repair(
    scene: &Scene,
    player: &CueAction,
    at: &Setting,
    cfg: &RepairConfig,
) -> Option<Repair> {
    let radius = f(at.ball.radius);
    let (ph, pv) = tip_offset(player, radius);
    let forgiving = |action: &CueAction| {
        robustness(scene, action, at, &cfg.noise, cfg.mc_samples, &mut Rng::new(cfg.seed))
    };
    if scores(scene, player, at) {
        return repaired(*player, true, s(forgiving(player)), None);
    }
    let offsets = offsets(cfg.offset_steps, f(cfg.miscue_limit));
    let (aim0, speed0) = (f(player.aim), f(player.speed));
    let (aim_w, speed_w) = (f(cfg.aim_window), f(cfg.speed_window));
    let cost = |aim: f64, speed: f64, h: f64, v: f64| {
        (wrap_pi(aim - aim0) / f(cfg.aim_scale)).powi(2)
            + ((speed - speed0) / f(cfg.speed_scale)).powi(2)
            + ((h - ph) / f(cfg.offset_scale)).powi(2)
            + ((v - pv) / f(cfg.offset_scale)).powi(2)
    };
    let grid = Grid {
        aims: cfg.aim_steps,
        speeds: cfg.speed_steps,
        strikes: offsets.len(),
    };
    grid.count()?;
    let per_aim = grid.speeds * grid.strikes;
    let slowest = f(least_repair_speed(s(speed0 - speed_w)));
    let action_of = |row: usize, place: usize| {
        let cell = grid.cell(row * per_aim + place);
        let aim = lerp(aim0 - aim_w, aim0 + aim_w, cell.aim, cfg.aim_steps);
        let speed = lerp(slowest, speed0 + speed_w, cell.speed, cfg.speed_steps);
        let (h, v) = offsets[cell.strike];
        (aim, speed, h, v)
    };
    let rows: Vec<Vec<Option<Scalar>>> = (0..cfg.aim_steps)
        .into_par_iter()
        .map(|row| {
            (0..per_aim)
                .map(|place| {
                    let (aim, speed, h, v) = action_of(row, place);
                    let action = from_tip_offset(aim, speed, h, v, radius);
                    scores(scene, &action, at).then(|| s(cost(aim, speed, h, v)))
                })
                .collect()
        })
        .collect();
    let (row, place) = smallest_change(&rows)?;
    let (aim, speed, h, v) = action_of(row, place);
    let action = from_tip_offset(aim, speed, h, v, radius);
    let change = cost(aim, speed, h, v).sqrt();
    let (h, v) = tip_offset(&action, radius);
    let nearest = Repair {
        action,
        d_aim: s(wrap_pi(aim - aim0)),
        d_speed: s(speed - speed0),
        d_english: s(h - ph),
        d_follow: s(v - pv),
        success_prob: s(forgiving(&action)),
        cost: s(change),
        already_scores: false,
    };
    repaired(*player, false, nearest.success_prob, Some(nearest))
}

/// One calibration example: the initial scene and the observed ball tracks.
struct CalibShot {
    scene: Scene,
    observed: Vec<Track>,
}

/// RMS mismatch across all shots at these parameters, each fitted for its best
/// action.
fn objective(x: &[Scalar], shots: &[CalibShot], at: &Setting, cfg: &CalibConfig) -> f64 {
    let here = Setting { phys: unpack(&at.phys, x), ..*at };
    let squares: Vec<f64> = shots
        .par_iter()
        .map(|shot| fit_action(&shot.scene, &shot.observed, &here, &cfg.fit).rms_m.powi(2))
        .collect();
    (squares.iter().sum::<f64>() / shots.len() as f64).sqrt()
}

/// The physics parameters that best reproduce the observed shots, starting from
/// those of `at`.
fn calibrate(shots: &[CalibShot], at: &Setting, cfg: &CalibConfig) -> PhysicsParams {
    let x = pack(&at.phys);
    let err = objective(&x, shots, at, cfg);
    let mut d = Descent::new(x, s(err), ss(&[0.03, 0.03, 0.02, 0.002]), cfg.iters);
    while d.rounds > 0 {
        while let Some(probe) = d.probe() {
            let k = probe.coord;
            let here = f(d.point[k]);
            let step = if probe.up { 1.0 } else { -1.0 } * f(d.steps[k]);
            let value = keep_in_bounds(k, s(here + step));
            let change = s((f(value) - here).abs());
            let err = if unchanged(change) {
                d.err
            } else {
                let mut cand = d.point.clone();
                cand[k] = value;
                s(objective(&cand, shots, at, cfg))
            };
            try_value(&mut d, s(here + step), change, err);
        }
        let halves = d.steps.iter().map(|x| s(f(*x) * 0.5)).collect();
        d.end_round(halves, Some(Scalar::from_bits(STEP_FLOOR)));
    }
    unpack(&at.phys, &d.point)
}

/// Least-squares linear velocity over `pts`, with the window's mid time and the
/// residual across the track.
fn window_velocity(pts: &Track) -> Option<(DVec3, f64, f64)> {
    let span = pts.last()?.0 - pts.first()?.0;
    let gaps: Vec<f64> = pts.windows(2).map(|w| w[1].0 - w[0].0).collect();
    if !window_measurable(pts.len(), s(span), &ss(&gaps)) {
        return None;
    }
    let n = pts.len() as f64;
    let tm = pts.iter().map(|p| p.0).sum::<f64>() / n;
    let pm = pts.iter().fold(DVec3::ZERO, |a, p| a + p.1) / n;
    let (mut num, mut den) = (DVec3::ZERO, 0.0);
    for &(t, p) in pts {
        num += (p - pm) * (t - tm);
        den += (t - tm) * (t - tm);
    }
    let v = num / den;
    let speed = v.length();
    if !velocity_holds(s(den), s(speed)) {
        return None;
    }
    let u = v / speed;
    let cross: f64 = pts
        .iter()
        .map(|&(t, p)| {
            let r = p - (pm + v * (t - tm));
            (r - u * r.dot(u)).length_squared()
        })
        .sum();
    Some((v, tm, (cross / n).sqrt()))
}

/// The line fit behind [`window_velocity`]: mean time, mean position, velocity.
fn window_line(pts: &Track) -> Option<(f64, DVec3, DVec3)> {
    let (v, tm, _) = window_velocity(pts)?;
    let pm = pts.iter().fold(DVec3::ZERO, |a, p| a + p.1) / pts.len() as f64;
    Some((tm, pm, v))
}

fn ang_diff(a: f64, b: f64) -> f64 {
    let d = (a - b).rem_euclid(TAU);
    d.min(TAU - d)
}

fn setting() -> Setting {
    Setting {
        table: TableSpec::carom_match(),
        ball: BallSpec::carom(),
        phys: PhysicsParams::default(),
    }
}

fn scene_at(cue: (f64, f64), objects: &[(f64, f64)]) -> Scene {
    let place = |p: (f64, f64)| from_vec(DVec3::new(p.0, p.1, f(BallSpec::carom().radius)));
    Scene::new(place(cue), objects.iter().map(|p| place(*p)).collect())
}

fn known_scene() -> Scene {
    scene_at((-1.0, -0.3), &[(0.5, 0.15), (0.9, -0.25)])
}

fn test_cfg() -> FitConfig {
    FitConfig {
        aim_steps: 41,
        speed_steps: 12,
        offset_steps: 7,
        refine_iters: 50,
        ..FitConfig::default()
    }
}

#[test]
fn recovers_known_hit() {
    let at = setting();
    let scene = known_scene();
    let r = f(at.ball.radius);
    // A rich shot: strikes an object ball (reveals follow) and banks (reveals english).
    let truth = from_tip_offset(0.29, 3.5, 0.20, 0.15, r);

    let sim = play(&scene, &truth, &at);
    assert!(
        sim.events.iter().any(|e| matches!(e.kind, ContactKind::BallBall { .. })),
        "test shot must hit an object ball for follow/draw to be identifiable"
    );
    let observed = sample_tracks(&sim, 30.0);

    let res = fit_action(&scene, &observed, &at, &test_cfg());

    let (aim, speed) = (f(res.action.aim), f(res.action.speed));
    assert!(res.rms_m < 0.01, "trajectory not reproduced: rms {} m", res.rms_m);
    assert!(ang_diff(aim, f(truth.aim)) < 0.06, "aim {aim}");
    assert!((speed - f(truth.speed)).abs() < 0.3, "speed {speed}");
    let (h, v) = tip_offset(&res.action, r);
    let (th, tv) = tip_offset(&truth, r);
    assert!(
        (h - th).abs() < 0.1 && (v - tv).abs() < 0.1,
        "tip ({h:.2},{v:.2}) vs ({th:.2},{tv:.2})"
    );
}

/// Robust to tracking noise: perturb the observed positions by a few mm and the
/// recovered hit is still close.
#[test]
fn robust_to_tracking_noise() {
    let at = setting();
    let scene = known_scene();
    let truth = from_tip_offset(-0.15, 4.0, -0.18, 0.10, f(at.ball.radius));

    let sim = play(&scene, &truth, &at);
    let mut observed = sample_tracks(&sim, 30.0);
    // Deterministic ~5 mm jitter so the test is reproducible.
    for (bi, track) in observed.iter_mut().enumerate() {
        for (k, (_, p)) in track.iter_mut().enumerate() {
            let s = ((bi * 7 + k * 13) as f64).sin();
            p.x += 0.005 * s;
            p.y += 0.005 * ((bi * 5 + k * 11) as f64).cos();
        }
    }

    let res = fit_action(&scene, &observed, &at, &test_cfg());

    let (aim, speed) = (f(res.action.aim), f(res.action.speed));
    assert!(res.rms_m < 0.03, "rms {} m too high under noise", res.rms_m);
    assert!(ang_diff(aim, f(truth.aim)) < 0.08, "aim {aim}");
    assert!((speed - f(truth.speed)).abs() < 0.5, "speed {speed}");
}

fn solvable_scene() -> Scene {
    scene_at((-1.15, -0.45), &[(0.65, 0.28), (1.05, -0.10)])
}

/// The solver finds a scoring shot for a solvable scene, and the shot it returns
/// actually scores when simulated deterministically.
#[test]
fn returns_a_shot_that_actually_scores() {
    let at = setting();
    let scene = solvable_scene();
    let cfg = SolveConfig {
        aim_steps: 120,
        speed_steps: 8,
        offset_steps: 5,
        mc_samples: 24,
        ..SolveConfig::default()
    };
    let solution = solve(&scene, &at, &cfg).expect("scene is solvable");

    // The nominal recommended action must itself score.
    let sim = play(&scene, &solution.action, &at);
    assert!(three_cushion_score(&sim, BallId(0)), "recommended action should score");

    // Sane metrics.
    let prob = f(solution.success_prob);
    assert!(prob > 0.0 && prob <= 1.0);
    assert!((difficulty(&solution) - (1.0 - prob)).abs() < 1e-12);
    assert!(solution.scoring_cells >= 1);
}

/// Determinism: the same seed and config yields the same recommendation.
#[test]
fn is_deterministic() {
    let at = setting();
    let scene = solvable_scene();
    let cfg = SolveConfig {
        aim_steps: 90,
        speed_steps: 6,
        offset_steps: 4,
        mc_samples: 16,
        ..SolveConfig::default()
    };

    let a = solve(&scene, &at, &cfg).unwrap();
    let b = solve(&scene, &at, &cfg).unwrap();
    assert_eq!(a.action, b.action);
    assert_eq!(a.success_prob, b.success_prob);
}

#[test]
fn repair_recovers_a_nearby_scoring_action() {
    let at = setting();
    let scene = known_scene();
    // A known scoring action for this scene (the solver's best).
    let sol = solve(&scene, &at, &SolveConfig::default())
        .expect("scene should have a scoring shot");
    assert!(scores(&scene, &sol.action, &at));

    // Nudge the aim off so it (likely) misses; repair should find its way back.
    let missed = CueAction { aim: s(f(sol.action.aim) + 0.12), ..sol.action };
    let rep = repair(&scene, &missed, &at, &RepairConfig::default())
        .expect("a small change should score");
    assert!(scores(&scene, &rep.action, &at), "repaired action scores");
    // The fix stays within the search window (a genuinely small adjustment).
    assert!(f(rep.d_aim).abs() <= 0.35 + 1e-9);
}

#[test]
fn repair_flags_an_already_scoring_shot() {
    let at = setting();
    let scene = known_scene();
    let sol = solve(&scene, &at, &SolveConfig::default()).unwrap();
    let rep = repair(&scene, &sol.action, &at, &RepairConfig::default()).unwrap();
    assert!(rep.already_scores, "an already-scoring shot is reported as such");
    assert_eq!(rep.action, sol.action);
    assert_eq!([rep.d_aim, rep.d_speed, rep.d_english, rep.d_follow, rep.cost], [s(0.0); 5]);
}

/// One round of calibration from wrong physics moves toward the true ones and stays
/// within what the parameters may be.
#[test]
fn calibration_improves_the_fit() {
    let at = setting();
    let truth = PhysicsParams { cushion_restitution: s(0.80), ..PhysicsParams::default() };
    let scene = scene_at((-1.1, -0.3), &[(1.0, 0.5), (-0.8, -0.4)]);
    let action = from_tip_offset(0.40, 4.0, 0.15, 0.0, f(at.ball.radius));
    let sim = play(&scene, &action, &Setting { phys: truth, ..at });
    let shots = [CalibShot { scene, observed: sample_tracks(&sim, 30.0) }];
    let fit = FitConfig {
        aim_steps: 7,
        speed_steps: 3,
        offset_steps: 3,
        multistart: 2,
        refine_iters: 10,
        ..FitConfig::default()
    };
    let cfg = CalibConfig { fit, iters: 1 };
    let found = calibrate(&shots, &at, &cfg);
    let before = objective(&pack(&at.phys), &shots, &at, &cfg);
    let after = objective(&pack(&found), &shots, &at, &cfg);
    assert!(after < before, "{after} vs {before}");
    for (k, x) in pack(&found).into_iter().enumerate() {
        assert_eq!(keep_in_bounds(k, x), x);
    }
}


/// Physics calibration against ground truth: simulate diverse shots with known,
/// non-default physics, then recover those parameters starting from the defaults.
#[test]
fn recovers_physics_from_synthetic_shots() {
    let at = setting();
    let truth = PhysicsParams {
        cushion_restitution: s(0.80),
        cushion_friction: s(0.15),
        mu_slide: s(0.17),
        mu_roll: s(0.013),
        ..PhysicsParams::default()
    };
    // Diverse shots so the four parameters are jointly identifiable.
    let mk = |cx: f64, cy: f64, aim: f64, speed: f64, h: f64, v: f64| {
        let scene = scene_at((cx, cy), &[(1.0, 0.5), (-0.8, -0.4)]);
        let action = from_tip_offset(aim, speed, h, v, f(at.ball.radius));
        let sim = play(&scene, &action, &Setting { phys: truth, ..at });
        CalibShot { scene, observed: sample_tracks(&sim, 30.0) }
    };
    let shots = vec![
        mk(-1.1, -0.3, 0.40, 4.0, 0.15, 0.0),
        mk(-1.0, 0.20, -0.50, 3.0, -0.20, 0.10),
        mk(0.50, -0.40, 2.20, 3.5, 0.10, -0.15),
        mk(-0.50, 0.40, 1.00, 2.5, 0.0, 0.20),
    ];

    // Start from the literature defaults (wrong for this table) and calibrate.
    let rec = calibrate(&shots, &at, &CalibConfig::default());

    let (e_c, f_c) = (f(rec.cushion_restitution), f(rec.cushion_friction));
    let (mu_s, mu_r) = (f(rec.mu_slide), f(rec.mu_roll));
    println!("recovered: e_c={e_c:.3} f_c={f_c:.3} mu_s={mu_s:.3} mu_r={mu_r:.4}");

    assert!((e_c - 0.80).abs() < 0.04, "e_c {e_c}");
    assert!((mu_r - 0.013).abs() < 0.003, "mu_roll {mu_r}");
    assert!((mu_s - 0.17).abs() < 0.05, "mu_slide {mu_s}");
    // Cushion friction is the weakest-constrained (only bends the rebound with english).
    assert!((f_c - 0.15).abs() < 0.12, "f_c {f_c}");
}
