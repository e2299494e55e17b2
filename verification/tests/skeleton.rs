#![allow(dead_code, unused_imports)]
//! Reading a shot back: the event skeleton and the rests, against a floating-point
//! model of the shot.

use billiards_coach::coach::session::confine;
use billiards_coach::engine::contact::{
    cushion_contact, first_approach, leading_degree, Quadratic, RailHit, CONTACT_EPS,
};
use billiards_coach::engine::cushion::{
    chain_recovery, cushion_rebound, effective_restitution, Bounds, Rail, CHAIN_RECOVERY_T,
};
use billiards_coach::engine::impact::{
    ball_ball_collision, slips, sticks, stuck, Collision, Compressed, Impact, Restoring,
};
use billiards_coach::engine::motion::{
    first_ending, next_ending, phase_of, Ending, Motion, Solo,
};
use billiards_coach::engine::world::{both_rest, inert, pair_horizon, Event, World};
use billiards_coach::files::imported::Reading;
use billiards_coach::files::loaded::{
    find_cue, labeled_track, lex_loose, order_tracks, parse, scene_from_tracks, LoadedShot,
    TrackMotion,
};
use billiards_coach::model::math;
use billiards_coach::model::{
    BallSpec, BallState, ContactKind, Lookup, MotionPhase, MotionSegment, PhysicsParams, Scene,
    Simulation, TableSpec, Trajectory,
};
use billiards_coach::order::ascending;
use billiards_coach::scalar::Scalar;
use billiards_coach::solver::align::BounceLists;
use billiards_coach::solver::bounces::{
    dips, steepest, BallTables, RailTable, SideSample, Sides,
};
use billiards_coach::solver::choice::winner;
use billiards_coach::solver::penalty::{
    charged_delay, contact_charges, cushion_charge, first_above, nearest_rail, sim_bounces,
    ContactCharge, ObservedEvents, ObservedTrack, RailSample, CONTACT_PEN, CUSHION_PEN, DELAY_RATE,
    SIM_MOVED,
};
use billiards_coach::solver::rests::{
    back_distance, back_time, cue_bend_before, deflection_holds, window_ends, Pickup, Rest, Turn,
};
use billiards_coach::solver::testimony::{FirstMove, OwnSample, Sighting, Testimony};
use glam::DVec3;
use roots::{find_roots_cubic, find_roots_linear, find_roots_quadratic, find_roots_quartic};

/// The pattern of a number.
fn s(x: f64) -> Scalar {
    Scalar::from_bits(x.to_bits())
}

/// The number of a pattern.
fn f(x: Scalar) -> f64 {
    f64::from_bits(x.bits)
}

/// The patterns of several numbers.
fn ss(xs: &[f64]) -> Vec<Scalar> {
    xs.iter().map(|&x| s(x)).collect()
}

fn to_vec(v: math::DVec3) -> DVec3 {
    DVec3::new(f(v.x), f(v.y), f(v.z))
}

fn from_vec(v: DVec3) -> math::DVec3 {
    math::DVec3::new(s(v.x), s(v.y), s(v.z))
}

/// A ball's state in numbers.
#[derive(Clone, Copy, Debug)]
struct State {
    pos: DVec3,
    vel: DVec3,
    angular_vel: DVec3,
}

impl State {
    fn at_rest(pos: DVec3) -> Self {
        State { pos, vel: DVec3::ZERO, angular_vel: DVec3::ZERO }
    }
}

fn to_state(b: BallState) -> State {
    State { pos: to_vec(b.pos), vel: to_vec(b.vel), angular_vel: to_vec(b.angular_vel) }
}

fn from_state(b: State) -> BallState {
    BallState { pos: from_vec(b.pos), vel: from_vec(b.vel), angular_vel: from_vec(b.angular_vel) }
}

/// Horizontal distance from a ball's center to the cushion nose line at the instant
/// of contact: the nose sits above the ball equator, so the center contacts short of
/// it by `√(R² − (h − R)²)`.
fn contact_inset(table: &TableSpec, radius: f64) -> f64 {
    let dh = f(table.cushion_height) - radius;
    (radius * radius - dh * dh).max(0.0).sqrt()
}

/// The rectangle a ball center travels within.
fn center_bounds(table: &TableSpec, ball: &BallSpec) -> Bounds {
    let inset = contact_inset(table, f(ball.radius));
    let hx = f(table.length) / 2.0 - inset;
    let hy = f(table.width) / 2.0 - inset;
    Bounds { min_x: s(-hx), max_x: s(hx), min_y: s(-hy), max_y: s(hy) }
}

/// Velocity of the material point at the ball's contact with the cloth, projected
/// into the table plane: `(v_x - R·ω_y, v_y + R·ω_x, 0)`.
fn contact_slip(b: &State, radius: f64) -> DVec3 {
    let slip = b.vel + b.angular_vel.cross(DVec3::new(0.0, 0.0, -radius));
    DVec3::new(slip.x, slip.y, 0.0)
}

/// The angular velocity a rolling ball must have for its linear velocity, keeping the
/// vertical english.
fn rolling_angular_vel(b: &State, radius: f64) -> DVec3 {
    DVec3::new(-b.vel.y / radius, b.vel.x / radius, b.angular_vel.z)
}

/// Closed-form state at absolute time `t`, clamped to the segment's span.
fn segment_state(seg: &MotionSegment, t: f64) -> State {
    let duration = f(seg.t_end) - f(seg.t_start);
    assert!(f(seg.t_end).is_infinite() || duration >= 0.0, "a segment runs forward");
    let dt = f(seg.elapsed(s(t - f(seg.t_start)), s(duration)));
    let b = to_state(seg.state0);
    let mut angular_vel = b.angular_vel + to_vec(seg.ang_acc) * dt;
    // English decays to zero and stays there.
    if angular_vel.z * b.angular_vel.z < 0.0 {
        angular_vel.z = 0.0;
    }
    State {
        pos: b.pos + b.vel * dt + to_vec(seg.lin_acc) * (0.5 * dt * dt),
        vel: b.vel + to_vec(seg.lin_acc) * dt,
        angular_vel,
    }
}

/// State at absolute time `t`.
fn state_at(traj: &Trajectory, t: f64) -> State {
    match traj.locate(s(t)) {
        Lookup::Within(k) => segment_state(&traj.segments[k], t),
        Lookup::Before => to_state(traj.segments[0].state0),
        Lookup::Rest => to_state(traj.final_state()),
    }
}

/// A trajectory's positions at times that go on: the segment last found is where to look
/// next.
struct Walk<'a> {
    traj: &'a Trajectory,
    at: usize,
    /// Start and end of the segment last found, and its motion.
    span: (f64, f64),
    motion: (DVec3, DVec3, DVec3),
}

impl<'a> Walk<'a> {
    fn new(traj: &'a Trajectory) -> Self {
        let nowhere = (f64::INFINITY, f64::NEG_INFINITY);
        Walk { traj, at: 0, span: nowhere, motion: (DVec3::ZERO, DVec3::ZERO, DVec3::ZERO) }
    }

    /// Position at absolute time `t`.
    ///
    /// Floating point throughout.
    fn pos_at(&mut self, t: f64) -> DVec3 {
        if !(t >= self.span.0 && t < self.span.1) {
            let ahead = &self.traj.segments[self.at..];
            let Some(k) = ahead.iter().position(|seg| seg.contains(s(t))) else {
                return state_at(self.traj, t).pos;
            };
            self.at += k;
            let seg = &self.traj.segments[self.at];
            let (b, acc) = (to_state(seg.state0), to_vec(seg.lin_acc));
            self.span = (f(seg.t_start), f(seg.t_end));
            self.motion = (b.pos, b.vel, acc);
        }
        let (pos, vel, acc) = self.motion;
        let dt = t - self.span.0;
        pos + vel * dt + acc * (0.5 * dt * dt)
    }
}

/// The analytic motion a ball's current phase implies.
fn motion_of(b: &State, ball: &BallSpec, phys: &PhysicsParams) -> Motion {
    let radius = f(ball.radius);
    let slip = contact_slip(b, radius);
    let speed = b.vel.length();
    let phase = phase_of(s(slip.length()), s(speed));
    let (lin_acc, turn, natural) = match phase {
        MotionPhase::Sliding => {
            let a = f(phys.mu_slide) * f(phys.g);
            let u = slip.normalize();
            let turn = DVec3::new(-u.y, u.x, 0.0) * (5.0 * a / (2.0 * radius));
            (u * -a, turn, slip.length() / (3.5 * a))
        }
        MotionPhase::Rolling => {
            let a = f(phys.mu_roll) * f(phys.g);
            let v = b.vel.normalize();
            (v * -a, DVec3::new(v.y, -v.x, 0.0) * (a / radius), speed / a)
        }
        MotionPhase::Stationary => (DVec3::ZERO, DVec3::ZERO, f64::INFINITY),
    };
    let decay = 5.0 * f(phys.mu_spin) * f(phys.g) / (2.0 * radius);
    let english = b.angular_vel.z;
    let (boring, spin) = if decay > 0.0 && english != 0.0 {
        (-decay * english.signum(), english.abs() / decay)
    } else {
        (0.0, f64::INFINITY)
    };
    let (dur, ends) = first_ending(phase, s(natural), s(spin));
    let ang_acc = from_vec(turn + DVec3::new(0.0, 0.0, boring));
    Motion { phase, lin_acc: from_vec(lin_acc), ang_acc, dur, ends }
}

/// Earliest cushion contact within the motion's duration.
fn cushion_ahead(b: &State, m: &Motion, bounds: Bounds) -> Option<(Scalar, Rail)> {
    let acc = to_vec(m.lin_acc);
    let hits = Rail::all().map(|rail| {
        let (is_x, bound) = rail.bound(bounds);
        let (p, v, a) =
            if is_x { (b.pos.x, b.vel.x, acc.x) } else { (b.pos.y, b.vel.y, acc.y) };
        let (qa, qb, qc) = (0.5 * a, v, p - f(bound));
        let disc = qb * qb - 4.0 * qa * qc;
        let root = disc.sqrt();
        let q = Quadratic {
            a: s(qa),
            b: s(qb),
            linear: s(-qc / qb),
            disc: s(disc),
            first: s((-qb - root) / (2.0 * qa)),
            second: s((-qb + root) / (2.0 * qa)),
        };
        let dt = q.smallest_root_in(Scalar::from_bits(CONTACT_EPS), m.dur);
        let outward = dt.map_or(0.0, |dt| {
            (b.vel + acc * f(dt)).dot(to_vec(rail.outward_normal()))
        });
        RailHit { dt, outward: s(outward) }
    });
    cushion_contact(&hits)
}

/// Real roots of a quartic, ascending, by its leading coefficient.
fn real_roots(c4: f64, c3: f64, c2: f64, c1: f64, c0: f64) -> Vec<f64> {
    let found = match leading_degree(s(c4), s(c3), s(c2), s(c1)) {
        4 => find_roots_quartic(c4, c3, c2, c1, c0),
        3 => find_roots_cubic(c3, c2, c1, c0),
        2 => find_roots_quadratic(c2, c1, c0),
        1 => find_roots_linear(c1, c0),
        _ => return Vec::new(),
    };
    ascending(&ss(found.as_ref())).into_iter().map(f).collect()
}

/// Whether two balls in relative motion stay apart for `h` seconds, by a margin: they are
/// too far away, or pass each other by.
fn stay_apart(d0: DVec3, dv: DVec3, da: DVec3, radius: f64, h: f64) -> bool {
    let speed = dv.length();
    let bend = 0.5 * da.length() * h * h;
    let touch = 2.0 * radius + 1e-6;
    d0.length() > touch + speed * h + bend || d0.cross(dv).length() > (touch + bend) * speed
}

/// When two balls, each following constant acceleration, come into contact while
/// approaching one another, within `horizon`.
fn meeting(a: (&State, DVec3), b: (&State, DVec3), radius: f64, horizon: Scalar) -> Option<Scalar> {
    let d0 = a.0.pos - b.0.pos;
    let dv = a.0.vel - b.0.vel;
    let da = a.1 - b.1;
    let half = da * 0.5;
    let roots = real_roots(
        half.dot(half),
        2.0 * half.dot(dv),
        2.0 * half.dot(d0) + dv.dot(dv),
        2.0 * dv.dot(d0),
        d0.dot(d0) - 4.0 * radius * radius,
    );
    let closing: Vec<f64> = roots
        .iter()
        .map(|&t| (d0 + dv * t + half * (t * t)).dot(dv + da * t))
        .collect();
    first_approach(&ss(&roots), &ss(&closing), horizon)
}

/// Active rotation of a vector about the `z` axis.
fn rotate_z(v: DVec3, ang: f64) -> DVec3 {
    let (sin, cos) = ang.sin_cos();
    DVec3::new(v.x * cos - v.y * sin, v.x * sin + v.y * cos, v.z)
}

/// Effective cushion restitution at normal speed `v_n` and along-rail speed `v_t`.
fn restitution(phys: &PhysicsParams, v_n: f64, v_t: f64) -> f64 {
    f(effective_restitution(s(f(phys.cushion_restitution)
        + f(phys.cushion_restitution_slope) * (v_n - 1.0)
        + f(phys.cushion_restitution_slope_t) * v_t.abs())))
}

/// Resolve a ball-cushion impact.
fn rebound(
    b: &State,
    normal: DVec3,
    ball: &BallSpec,
    phys: &PhysicsParams,
    cushion_height: f64,
    recovery: f64,
) -> State {
    let how =
        cushion_rebound(phys.cushion_restitution_chain, s(recovery), phys.cushion_contact_steps);
    let mut phys = *phys;
    if let Some(boost) = how.boost {
        phys.cushion_restitution =
            s(f(phys.cushion_restitution) + f(phys.cushion_restitution_chain) * f(boost));
    }
    if how.integrated {
        mathavan2010_rebound(b, normal, ball, &phys, cushion_height)
    } else {
        han2005_rebound(b, normal, ball, &phys, cushion_height)
    }
}

/// The Han 2005 cushion impulse: an instantaneous impulse at a contact point above
/// the ball equator, which is what makes english bend the rebound.
fn han2005_rebound(
    b: &State,
    normal: DVec3,
    ball: &BallSpec,
    phys: &PhysicsParams,
    cushion_height: f64,
) -> State {
    let (r, m) = (f(ball.radius), f(ball.mass));
    let mu = f(phys.cushion_friction);
    // Into the cushion frame: rotate so the outward normal aligns with +x.
    let psi = normal.y.atan2(normal.x);
    let v = rotate_z(b.vel, -psi);
    let w = rotate_z(b.angular_vel, -psi);
    let e = restitution(phys, v.x, v.y);
    let (sin_t, cos_t) = (cushion_height / r - 1.0).asin().sin_cos();

    // Contact-point slip and normal approach speed.
    let sx = v.x * sin_t - v.z * cos_t + r * w.y;
    let sy = -v.y - r * w.z * cos_t + r * w.x * sin_t;
    let c = -v.x * cos_t;
    let ii = 0.4 * m * r * r;
    let (ka, kb) = (3.5 / m, 1.0 / m);

    let pz_e = -(1.0 + e) * c / kb;
    let slip = (sx * sx + sy * sy).sqrt();
    let (px_e, py_e) = if sticks(s(slip / ka), s(mu * pz_e)) {
        (sx / ka, sy / ka)
    } else {
        (mu * pz_e * sx / slip, mu * pz_e * sy / slip)
    };

    // Rotate the impulse from the contact-normal frame to the rail frame.
    let px = -px_e * sin_t - pz_e * cos_t;
    let py = py_e;
    let pz = px_e * cos_t - pz_e * sin_t;

    let mut v_out = v;
    v_out.x += px / m;
    v_out.y += py / m;
    let mut w_out = w;
    w_out.x += -r / ii * py * sin_t;
    w_out.y += r / ii * (px * sin_t - pz * cos_t);
    w_out.z += r / ii * py * cos_t;
    State { pos: b.pos, vel: rotate_z(v_out, psi), angular_vel: rotate_z(w_out, psi) }
}

/// A ball in the middle of an integrated cushion impact.
#[derive(Clone, Copy)]
struct Slice {
    vx: f64,
    vy: f64,
    wx: f64,
    wy: f64,
    wz: f64,
}

/// The constants of an integrated cushion impact.
struct Nose {
    r: f64,
    m: f64,
    sin_t: f64,
    cos_t: f64,
    mu_w: f64,
    mu_s: f64,
}

impl Nose {
    /// One impulse slice: slip at the cushion and at the table, then the coupled
    /// velocity and spin increments. Returns the work done at the cushion's normal.
    fn step(&self, b: &mut Slice, dp: f64) -> f64 {
        let (sxi, syi) = (
            b.vx + b.wy * self.r * self.sin_t - b.wz * self.r * self.cos_t,
            -b.vy * self.sin_t + b.wx * self.r,
        );
        let (sxc, syc) = (b.vx - b.wy * self.r, b.vy + b.wx * self.r);
        let si = (sxi * sxi + syi * syi).sqrt();
        let sc = (sxc * sxc + syc * syc).sqrt();
        // Friction direction cosines; a vanished slip sticks (no friction).
        let (ci, di) = if slips(s(si)) { (sxi / si, syi / si) } else { (0.0, 0.0) };
        let (cc, dc) = if slips(s(sc)) { (sxc / sc, syc / sc) } else { (0.0, 0.0) };
        // Table normal impulse per unit cushion impulse.
        let table_n = self.sin_t + self.mu_w * di * self.cos_t;

        b.vx -= (self.mu_w * ci + self.mu_s * cc * table_n) * dp / self.m;
        b.vy -= (self.cos_t - self.mu_w * self.sin_t * di + self.mu_s * dc * table_n) * dp / self.m;
        let k = 5.0 / (2.0 * self.m * self.r);
        b.wx -= k * (self.mu_w * di + self.mu_s * dc * table_n) * dp;
        b.wy -= k * (self.mu_w * ci * self.sin_t - self.mu_s * cc * table_n) * dp;
        b.wz += k * (self.mu_w * ci * self.cos_t) * dp;
        dp * b.vy.abs() * self.cos_t
    }
}

/// The Mathavan 2010 ball-cushion impact: integrated through normal-impulse space
/// with two simultaneous contacts, the cushion nose and the table under the ball.
fn mathavan2010_rebound(
    b: &State,
    normal: DVec3,
    ball: &BallSpec,
    phys: &PhysicsParams,
    cushion_height: f64,
) -> State {
    let (r, m) = (f(ball.radius), f(ball.mass));
    // Rotate so the outward normal aligns with +y.
    let psi = normal.y.atan2(normal.x);
    let rot = std::f64::consts::FRAC_PI_2 - psi;
    let v = rotate_z(b.vel, rot);
    let w = rotate_z(b.angular_vel, rot);

    let sin_t = (cushion_height - r) / r;
    let nose = Nose {
        r,
        m,
        sin_t,
        cos_t: (1.0 - sin_t * sin_t).sqrt(),
        mu_w: f(phys.cushion_friction),
        mu_s: f(phys.mu_slide),
    };
    let e = restitution(phys, v.y, v.x);
    let mut x = Slice { vx: v.x, vy: v.y, wx: w.x, wy: w.y, wz: w.z };

    // Compression: until the normal velocity reverses.
    let mut stage = Impact::new(phys.cushion_contact_steps);
    let dp = m * x.vy / stage.steps as f64;
    let mut work = 0.0;
    while stage.compressing(s(x.vy)) {
        let before = x;
        let dw = nose.step(&mut x, dp);
        match stage.compressed(s(x.vy)) {
            Compressed::Kept => work += dw,
            Compressed::Overshot => {
                // Redo the slice at the interpolated size that ends at vy = 0.
                let full = x.vy;
                x = before;
                let share = (before.vy / (before.vy - full)).clamp(0.0, 1.0);
                work += nose.step(&mut x, dp * share);
            }
        }
    }

    // Restitution: return e² of the compression work.
    let target = e * e * work;
    let mut returned = 0.0;
    let mut stage = Impact::new(phys.cushion_contact_steps);
    loop {
        let push = x.vy.abs() * nose.cos_t;
        match stage.restoring(s(returned), s(target), s(returned + dp * push), s(push)) {
            Restoring::Done => break,
            Restoring::Full => returned += nose.step(&mut x, dp),
            Restoring::Last => {
                nose.step(&mut x, (target - returned) / push);
            }
        }
    }

    State {
        pos: b.pos,
        vel: rotate_z(DVec3::new(x.vx, x.vy, 0.0), -rot),
        angular_vel: rotate_z(DVec3::new(x.wx, x.wy, x.wz), -rot),
    }
}

/// Resolve a collision between two equal-mass balls in contact.
fn collide(a: &State, b: &State, ball: &BallSpec, phys: &PhysicsParams) -> (State, State) {
    let n = (b.pos - a.pos).normalize();
    match ball_ball_collision(phys.ball_contact_steps, s((a.vel - b.vel).dot(n))) {
        Collision::Parting => (*a, *b),
        Collision::ClosedForm => collide_closed(a, b, n, ball, phys),
        Collision::Integrated(steps) => collide_integrated(a, b, n, ball, phys, steps),
    }
}

/// The closed-form impulse: restitution along the line of centers, Coulomb friction
/// across it.
fn collide_closed(
    a: &State,
    b: &State,
    n: DVec3,
    ball: &BallSpec,
    phys: &PhysicsParams,
) -> (State, State) {
    let (r, m) = (f(ball.radius), f(ball.mass));
    let ii = 0.4 * m * r * r;
    let e = f(phys.ball_restitution);
    let t = DVec3::new(-n.y, n.x, 0.0);
    let (a_vn, a_vt) = (a.vel.dot(n), a.vel.dot(t));
    let (b_vn, b_vt) = (b.vel.dot(n), b.vel.dot(t));

    // Normal: symmetric restitution exchange.
    let a_vn_f = 0.5 * ((1.0 - e) * a_vn + (1.0 + e) * b_vn);
    let b_vn_f = 0.5 * ((1.0 + e) * a_vn + (1.0 - e) * b_vn);
    let p_n = m * (a_vn_f - a_vn).abs();

    // Tangential relative surface velocity, and the friction it meets.
    let u_t = (a_vt - b_vt) + r * (a.angular_vel.z + b.angular_vel.z);
    let u = f(phys.ball_friction)
        + f(phys.ball_friction_b) * (-f(phys.ball_friction_c) * u_t.abs()).exp();
    let j = -u_t.signum() * ((m / 7.0) * u_t.abs()).min(u * p_n);

    let dw = DVec3::new(0.0, 0.0, r * j / ii);
    (
        State {
            pos: a.pos,
            vel: a.vel + n * (a_vn_f - a_vn) + t * (j / m),
            angular_vel: a.angular_vel + dw,
        },
        State {
            pos: b.pos,
            vel: b.vel + n * (b_vn_f - b_vn) - t * (j / m),
            angular_vel: b.angular_vel + dw,
        },
    )
}

/// The contact marched through normal impulse space, friction following the slip as
/// it turns.
fn collide_integrated(
    a: &State,
    b: &State,
    n: DVec3,
    ball: &BallSpec,
    phys: &PhysicsParams,
    steps: u32,
) -> (State, State) {
    let (r, m) = (f(ball.radius), f(ball.mass));
    let ii = 0.4 * m * r * r;
    let approach = (a.vel - b.vel).dot(n);
    let (mut a_v, mut b_v) = (a.vel, b.vel);
    let (mut a_w, mut b_w) = (a.angular_vel, b.angular_vel);
    let dp = 0.5 * m * approach * (1.0 + f(phys.ball_restitution)) / steps as f64;
    for _ in 0..steps {
        a_v -= n * (dp / m);
        b_v += n * (dp / m);
        let u = (a_v + a_w.cross(n * r)) - (b_v + b_w.cross(n * -r));
        let u_t = u - n * u.dot(n);
        let slip = u_t.length();
        if stuck(s(slip)) {
            continue;
        }
        let mu = f(phys.ball_friction)
            + f(phys.ball_friction_b) * (-f(phys.ball_friction_c) * slip).exp();
        let j = (mu * dp).min(slip * m / 7.0);
        let push = u_t * (-j / slip);
        a_v += push / m;
        b_v -= push / m;
        let dw = (n * r).cross(push) / ii;
        a_w += dw;
        b_w += dw;
    }
    a_v.z = 0.0;
    b_v.z = 0.0;
    (
        State { pos: a.pos, vel: a_v, angular_vel: a_w },
        State { pos: b.pos, vel: b_v, angular_vel: b_w },
    )
}

/// A single ball moving freely on the cloth until it comes to rest.
fn simulate_free(initial: &State, ball: &BallSpec, phys: &PhysicsParams) -> Trajectory {
    let mut solo = Solo::new(from_state(*initial));
    while !solo.done() {
        let b = to_state(solo.state);
        let m = motion_of(&b, ball, phys);
        let ending = natural_ending(&solo, &m, ball);
        take_step(&mut solo, &m, ending);
    }
    solo.finish()
}

/// A single ball on a bounded table, rebounding off cushions until it comes to rest.
fn simulate_table(
    initial: &State,
    table: &TableSpec,
    ball: &BallSpec,
    phys: &PhysicsParams,
) -> Trajectory {
    let bounds = center_bounds(table, ball);
    let mut solo = Solo::new(from_state(*initial));
    while !solo.done() {
        let b = to_state(solo.state);
        let m = motion_of(&b, ball, phys);
        let (dt, met) = next_ending(&m, cushion_ahead(&b, &m, bounds));
        let ending = match met {
            Some(rail) if m.phase != MotionPhase::Stationary => {
                let t = f(solo.t) + f(dt);
                let seg = leg(&solo.state, solo.t, s(t), &m);
                let rebound = han2005_rebound(
                    &segment_state(&seg, t),
                    to_vec(rail.outward_normal()),
                    ball,
                    phys,
                    f(table.cushion_height),
                );
                Ending::Cushion { t: s(t), rebound: from_state(rebound) }
            }
            _ => natural_ending(&solo, &m, ball),
        };
        take_step(&mut solo, &m, ending);
    }
    solo.finish()
}

fn leg(state: &BallState, t_start: Scalar, t_end: Scalar, m: &Motion) -> MotionSegment {
    billiards_coach::engine::motion::segment_for(*state, t_start, t_end, m)
}

/// How a ball's current phase ends on its own.
fn natural_ending(solo: &Solo, m: &Motion, ball: &BallSpec) -> Ending {
    let t = f(solo.t) + f(m.dur);
    let arrived = segment_state(&leg(&solo.state, solo.t, s(t), m), t);
    Ending::Natural {
        t: s(t),
        arrived: from_state(arrived),
        rolled: from_vec(rolling_angular_vel(&arrived, f(ball.radius))),
    }
}

fn take_step(solo: &mut Solo, m: &Motion, ending: Ending) {
    let t = match ending {
        Ending::Natural { t, .. } | Ending::Cushion { t, .. } => f(t),
    };
    assert!(f(solo.t).is_finite() && !(t < f(solo.t)), "time runs forward");
    solo.step(m, ending);
}

/// A set of balls on a bounded table until all come to rest. Trajectory `i`
/// corresponds to `initial[i]`.
fn simulate(
    initial: &[State],
    table: &TableSpec,
    ball: &BallSpec,
    phys: &PhysicsParams,
) -> Simulation {
    let bounds = center_bounds(table, ball);
    let radius = f(ball.radius);
    let n = initial.len();
    let start: Vec<BallState> = initial.iter().map(|b| from_state(*b)).collect();
    let mut world = World::new(&start);
    let mut now: Vec<State> = Vec::with_capacity(n);
    let mut motions: Vec<Motion> = Vec::with_capacity(n);
    let mut cushions: Vec<Option<(Scalar, Rail)>> = Vec::with_capacity(n);
    let mut meets: Vec<Vec<Option<Scalar>>> = vec![vec![None; n]; n];
    loop {
        now.clear();
        now.extend(world.states.iter().map(|b| to_state(*b)));
        motions.clear();
        motions.extend(now.iter().map(|b| motion_of(b, ball, phys)));
        cushions.clear();
        cushions.extend((0..n).map(|i| {
            if inert(&motions[i]) { None } else { cushion_ahead(&now[i], &motions[i], bounds) }
        }));
        // Two balls that cannot meet before this need no closer look.
        let soon = (0..n)
            .flat_map(|i| [Some(motions[i].dur), cushions[i].map(|c| c.0)])
            .flatten()
            .map(f)
            .filter(|dt| *dt > 0.0)
            .fold(f64::INFINITY, f64::min);
        for i in 0..n {
            for j in i + 1..n {
                meets[i][j] = if both_rest(&motions[i], &motions[j]) {
                    None
                } else {
                    let (a, b) = (&now[i], &now[j]);
                    let accs = (to_vec(motions[i].lin_acc), to_vec(motions[j].lin_acc));
                    let (dv, da) = (a.vel - b.vel, accs.0 - accs.1);
                    if stay_apart(a.pos - b.pos, dv, da, radius, soon) {
                        None
                    } else {
                        let horizon = pair_horizon(&motions[i], &motions[j]);
                        meeting((a, accs.0), (b, accs.1), radius, horizon)
                    }
                };
            }
        }
        let Some(next) = world.next_event(&motions, &cushions, &meets) else { break };

        let t = f(world.t) + f(next.dt);
        assert!(t >= f(world.t), "time runs forward");
        let moved: Vec<BallState> = (0..n)
            .map(|i| {
                from_state(segment_state(&leg(&world.states[i], world.t, s(t), &motions[i]), t))
            })
            .collect();
        world.advance(&motions, s(t), moved);

        match next.event {
            Event::Transition(i, ends) => {
                let rolled = rolling_angular_vel(&to_state(world.states[i]), radius);
                world.transition(i, ends, from_vec(rolled));
            }
            Event::Cushion(i, rail) => {
                let since = (t - f(world.last_cushion[i])) / f(Scalar::from_bits(CHAIN_RECOVERY_T));
                let recovery = f(chain_recovery(s(1.0 - since)));
                let out = rebound(
                    &to_state(world.states[i]),
                    to_vec(rail.outward_normal()),
                    ball,
                    phys,
                    f(table.cushion_height),
                    recovery,
                );
                world.cushion(i, from_state(out));
            }
            Event::BallBall(i, j) => {
                let (a, b) =
                    collide(&to_state(world.states[i]), &to_state(world.states[j]), ball, phys);
                world.collision(i, j, from_state(a), from_state(b));
            }
        }
    }
    world.finish()
}

/// One ball's observed path in numbers: time and position.
type Track = Vec<(f64, DVec3)>;

/// Required rise beside a minimum, above tracking jitter (m).
const PROM: f64 = 0.03;

/// Distance of a ball-center position to one rail's center-bound line; rails 0 to 3
/// are -x, +x, -y, +y.
fn rail_dist(p: DVec3, rail: u8, b: &Bounds) -> f64 {
    match rail {
        0 => p.x - f(b.min_x),
        1 => f(b.max_x) - p.x,
        2 => p.y - f(b.min_y),
        _ => f(b.max_y) - p.y,
    }
}

/// Where a track is at time `t`: interpolated, or where it is first or last seen.
fn interp_at(track: &Track, t: f64) -> DVec3 {
    match track.iter().position(|(tt, _)| *tt >= t) {
        Some(0) => track[0].1,
        Some(k) => {
            let (ta, pa) = track[k - 1];
            let (tb, pb) = track[k];
            pa + (pb - pa) * ((t - ta) / (tb - ta).max(1e-6))
        }
        None => track[track.len() - 1].1,
    }
}

/// What the tracks say about ball `ball`.
fn testimony(observed: &[Track], ball: usize) -> Testimony {
    let own = &observed[ball];
    let rest = own.first().map_or(DVec3::ZERO, |x| x.1);
    Testimony {
        ball,
        own: own
            .iter()
            .enumerate()
            .map(|(i, &(t, p))| OwnSample {
                t: s(t),
                from_rest: s((p - rest).length()),
                window_lo: s(own[i.max(1) - 1].0 - 0.35),
                window_hi: s(t + 0.12),
                judged_until: s(t + 1.2),
            })
            .collect(),
        others: observed
            .iter()
            .map(|tr| {
                tr.iter()
                    .map(|&(t, p)| Sighting { t: s(t), from_rest: s((p - rest).length()) })
                    .collect()
            })
            .collect(),
        overlap: observed
            .iter()
            .map(|tr| {
                own.iter()
                    .map(|&(t, p)| {
                        if tr.is_empty() {
                            s(f64::INFINITY)
                        } else {
                            s((interp_at(tr, t) - p).length())
                        }
                    })
                    .collect()
            })
            .collect(),
    }
}

/// The samples on one side of a minimum, going away from it.
fn side(samples: &mut dyn Iterator<Item = (f64, f64)>, t_min: f64, d_min: f64) -> Vec<SideSample> {
    samples
        .map(|(t, d)| {
            let age = (t - t_min).abs();
            SideSample { age: s(age), height: s(d), slope: s((d - d_min) / age.max(1e-6)) }
        })
        .collect()
}

/// Ball `ball`'s track beside one rail.
fn rail_table(observed: &[Track], ball: usize, rail: u8, bounds: &Bounds) -> RailTable {
    let track = &observed[ball];
    let d: Vec<f64> = track.iter().map(|&(_, p)| rail_dist(p, rail, bounds)).collect();
    let sides = dips(&ss(&d))
        .into_iter()
        .map(|m| {
            let (tm, pm) = track[m];
            let floor = s(d[m] + PROM);
            let before = side(&mut (0..m).rev().map(|k| (track[k].0, d[k])), tm, d[m]);
            let after = side(&mut (m + 1..track.len()).map(|k| (track[k].0, d[k])), tm, d[m]);
            let strength = s(f(steepest(&before, floor)) + f(steepest(&after, floor)));
            let seen_from = |&(t, p): &(f64, DVec3)| Sighting {
                t: s((t - tm).abs()),
                from_rest: s((p - pm).length()),
            };
            let around = observed.iter().map(|tr| tr.iter().map(seen_from).collect()).collect();
            Sides { floor, before, after, strength, around }
        })
        .collect();
    RailTable { dists: ss(&d), sides }
}

/// What ball `ball`'s track says of its cushions.
fn ball_tables(observed: &[Track], ball: usize, bounds: &Bounds) -> BallTables {
    let times: Vec<f64> = observed[ball].iter().map(|x| x.0).collect();
    BallTables {
        times: ss(&times),
        rails: [0, 1, 2, 3].map(|rail| rail_table(observed, ball, rail, bounds)),
        later: times.iter().map(|a| times.iter().map(|b| s(b - a)).collect()).collect(),
    }
}

/// The observed event skeleton of a shot, cue ball first.
fn observed_events(observed: &[Track], bounds: &Bounds) -> ObservedEvents {
    let testimonies: Vec<Testimony> =
        (1..observed.len()).map(|k| testimony(observed, k)).collect();
    assert!(testimonies.iter().all(Testimony::can_be_dated), "a contact is dated backwards");
    let balls: Vec<BallTables> =
        (0..observed.len()).map(|k| ball_tables(observed, k, bounds)).collect();
    let tracks = observed
        .iter()
        .map(|tr| tr.iter().map(|&(t, p)| (s(t), from_vec(p))).collect())
        .collect();
    ObservedEvents::from_tracks(&testimonies, &balls, *bounds, tracks)
}

/// When a simulated ball has first moved, at the tracker's frame rate.
fn sim_move(sim: &Simulation, ball: usize) -> Option<Scalar> {
    let traj = &sim.trajectories[ball];
    if traj.segments.iter().all(|seg| seg.phase == MotionPhase::Stationary) {
        return None;
    }
    let mut walk = Walk::new(traj);
    let start = walk.pos_at(0.0);
    let end = f(sim.settled_time());
    let mut t = 0.0;
    while t <= end {
        let moved = s((walk.pos_at(t) - start).length());
        if first_above(&[moved], Scalar::from_bits(SIM_MOVED)).is_some() {
            return Some(s(t));
        }
        t += 1.0 / 30.0;
    }
    None
}

/// A simulation's cushion bounces, per ball: the rail read from where the ball is.
fn bounces_simulated(sim: &Simulation, balls: usize, bounds: &Bounds) -> Vec<Vec<(Scalar, u8)>> {
    let rails: Vec<u8> = sim
        .events
        .iter()
        .map(|e| match e.kind {
            ContactKind::Cushion { ball } if (ball.0 as usize) < sim.trajectories.len() => {
                let p = state_at(&sim.trajectories[ball.0 as usize], f(e.time)).pos;
                nearest_rail(&[0, 1, 2, 3].map(|r| s(rail_dist(p, r, bounds))))
            }
            _ => 0,
        })
        .collect();
    sim_bounces(&sim.events, &rails, balls)
}

/// Penalty (m, added to the RMS) for a simulation whose event structure contradicts
/// the observed skeleton.
fn event_penalty(sim: &Simulation, events: &ObservedEvents) -> f64 {
    let contact_pen = f(Scalar::from_bits(CONTACT_PEN));
    let cushion_pen = f(Scalar::from_bits(CUSHION_PEN));
    let delay_rate = f(Scalar::from_bits(DELAY_RATE));
    let moves: Vec<Option<Scalar>> =
        (1..sim.trajectories.len()).map(|k| sim_move(sim, k)).collect();
    let mut pen = 0.0;
    for charge in contact_charges(&events.first_move, &moves) {
        pen += match charge {
            ContactCharge::Free => 0.0,
            ContactCharge::Fabricated | ContactCharge::Missing => contact_pen,
            ContactCharge::Delay(to, ts) => {
                delay_rate * f(charged_delay(s((f(to) - f(ts)).abs())))
            }
        };
    }
    let n = events.cushions.len().min(sim.trajectories.len());
    let simulated = bounces_simulated(sim, n, &events.bounds);
    for (k, sims) in simulated.iter().enumerate() {
        let obs = &events.cushions[k];
        let lists = BounceLists {
            observed: obs.iter().map(|b| b.1).collect(),
            simulated: sims.iter().map(|b| b.1).collect(),
            gaps: obs
                .iter()
                .map(|o| sims.iter().map(|b| s((f(o.0) - f(b.0)).abs())).collect())
                .collect(),
        };
        // Only a bounce without a partner is held against the track.
        let used = lists.align().used;
        let around: Vec<Vec<RailSample>> = sims
            .iter()
            .zip(used)
            .map(|(&(ts, rail), used)| {
                let samples: &[(Scalar, _)] = if used { &[] } else { &events.tracks[k] };
                samples
                    .iter()
                    .map(|&(t, p)| RailSample {
                        apart: s((f(t) - f(ts)).abs()),
                        dist: s(rail_dist(to_vec(p), rail, &events.bounds)),
                    })
                    .collect()
            })
            .collect();
        let charge = cushion_charge(&lists, &around);
        pen += cushion_pen * charge.missing as f64;
        for _ in 0..charge.fabricated {
            pen += cushion_pen;
        }
    }
    pen
}

/// Sample every ball's trajectory at `fps` into observed tracks, the shape the
/// tracker produces.
fn sample_tracks(sim: &Simulation, fps: f64) -> Vec<Track> {
    sim.trajectories
        .iter()
        .map(|traj| {
            let total = f(traj.time_to_rest());
            let n = (total * fps).ceil() as usize;
            (0..=n)
                .map(|k| {
                    let t = (k as f64 / fps).min(total);
                    (t, state_at(traj, t).pos)
                })
                .collect()
        })
        .collect()
}

/// A track in numbers.
fn to_track(t: &ObservedTrack) -> Track {
    t.iter().map(|&(t, p)| (f(t), to_vec(p))).collect()
}

/// Latest time up to `t_max` at which the cue ball's path bends.
fn bend_before(cue: &Track, t_max: f64) -> Option<f64> {
    let turns: Vec<Turn> = cue
        .windows(3)
        .map(|w| {
            let (a, b) = (w[1].1 - w[0].1, w[2].1 - w[1].1);
            Turn {
                t: s(w[1].0),
                before: s(a.length()),
                after: s(b.length()),
                cosine: s(a.dot(b) / (a.length() * b.length())),
            }
        })
        .collect();
    cue_bend_before(&turns, s(t_max)).map(|k| f(turns[k].t))
}

/// Rest of a struck ball from the cue ball's deflection: the line of centers is the
/// direction of its momentum change.
fn rest_from_deflection(cue: &Track, t_contact: f64, cue_at: DVec3, radius: f64) -> Option<DVec3> {
    let times: Vec<f64> = cue.iter().map(|x| x.0).collect();
    let vel = |lo: f64, hi: f64| {
        let (a, b) = window_ends(&ss(&times), s(lo), s(hi))?;
        let dt = cue[b].0 - cue[a].0;
        Some((dt, (cue[b].1 - cue[a].1) / dt))
    };
    let (dt_in, v_in) = vel(t_contact - 0.30, t_contact - 0.03)?;
    let (dt_out, v_out) = vel(t_contact + 0.03, t_contact + 0.30)?;
    let j = v_in - v_out;
    deflection_holds(s(dt_in), s(dt_out), s(j.length()), s(v_in.length()))
        .then(|| cue_at + j / j.length() * (2.0 * radius))
}

/// An object ball's rest: its first detection if it was genuinely still, else traced
/// back to the moment of contact.
fn rest_of(track: &Track, cue: &Track, bounds: Bounds, radius: f64) -> Option<DVec3> {
    let &(t0, p0) = track.first()?;
    // Initial velocity from a short least-squares fit.
    let (mut num, mut den) = (DVec3::ZERO, 0.0);
    for &(t, p) in &track[1..track.len().min(4)] {
        let dt = t - t0;
        num += (p - p0) * dt;
        den += dt * dt;
    }
    let v = num / den;
    let speed = v.length();
    // Without a bend, assume contact two frames earlier.
    let t_contact = bend_before(cue, t0 + 0.05).unwrap_or(t0 - 0.067);
    let dt = f(back_time(s(t0 - t_contact)));
    let back = f(back_distance(s(speed * dt)));
    let raw = p0 - v / speed * back;
    let traced = to_vec(confine(s(raw.x), s(raw.y), s(p0.z), bounds));
    let away: Vec<f64> = cue.iter().map(|x| (x.0 - t_contact).abs()).collect();
    let cue_at = winner(&ss(&away)).map_or(p0, |k| cue[k].1);
    let deflected = rest_from_deflection(cue, t_contact, cue_at, radius);
    let detected_gap = (p0 - cue_at).length();
    let pickup = Pickup {
        dists: track.iter().map(|x| s((x.1 - p0).length())).collect(),
        ages: track.iter().map(|x| s(x.0 - t0)).collect(),
        spread: s(den),
        speed: s(speed),
        detected_gap: s(detected_gap),
        traced_gap: s((traced - cue_at).length()),
        allowed_gap: s(detected_gap + 0.01),
        deflected_gap: deflected.map(|p| s((p - p0).length())),
    };
    match pickup.rest_of() {
        Rest::Unknown => None,
        Rest::Detected => Some(p0),
        Rest::Traced => Some(traced),
        Rest::Deflected => deflected,
    }
}

/// The rests of the object balls of cue-first tracks.
fn rests_of(
    tracks: &[ObservedTrack],
    table: &TableSpec,
    ball: &BallSpec,
) -> Vec<Option<billiards_coach::model::DVec3>> {
    let Some(cue) = tracks.first().filter(|t| t.len() >= 2) else { return Vec::new() };
    let cue = to_track(cue);
    let bounds = center_bounds(table, ball);
    tracks[1..]
        .iter()
        .map(|t| rest_of(&to_track(t), &cue, bounds, f(BallSpec::carom().radius)).map(from_vec))
        .collect()
}

/// The initial scene of cue-first tracks, with late-picked object rests corrected.
fn scene_of(tracks: &Vec<ObservedTrack>, table: &TableSpec, ball: &BallSpec) -> Option<Scene> {
    scene_from_tracks(tracks, &rests_of(tracks, table, ball))
}

fn motion(track: &Track) -> TrackMotion {
    let start = track.first().map_or(DVec3::ZERO, |x| x.1);
    TrackMotion {
        times: track.iter().map(|x| s(x.0)).collect(),
        dists: track.iter().map(|x| s((x.1 - start).length())).collect(),
    }
}

/// Parse a color-labeled shot file.
fn parse_loaded(text: &str, table: &TableSpec, ball: &BallSpec) -> Option<LoadedShot> {
    let said = lex_loose(text);
    let readings: Vec<Option<Reading>> = said
        .rows
        .iter()
        .map(|r| {
            Some(Reading { t: read_number(&r.t)?, x: read_number(&r.x)?, y: read_number(&r.y)? })
        })
        .collect();
    let track_of = |label: &[char]| {
        motion(&to_track(&labeled_track(&said, &readings, label, ball.radius)))
    };
    let named = |name: &str| track_of(&name.chars().collect::<Vec<char>>());
    let cue = find_cue(&said.cue, &track_of(&said.cue), &named("white"), &named("yellow"));
    let observed = order_tracks(&said, &readings, &cue, ball.radius)?;
    let rests = rests_of(&observed.tracks, table, ball);
    parse(observed, &rests)
}

/// The number a text stands for.
fn read_number(text: &[char]) -> Option<billiards_coach::scalar::Scalar> {
    text.iter().collect::<String>().parse::<f64>().ok().map(s)
}

fn setup() -> (BallSpec, PhysicsParams, TableSpec, Vec<DVec3>) {
    let ball = BallSpec::carom();
    let r = f(ball.radius);
    let balls =
        vec![DVec3::new(-1.0, -0.3, r), DVec3::new(0.5, 0.15, r), DVec3::new(0.9, -0.25, r)];
    (ball, PhysicsParams::default(), TableSpec::carom_match(), balls)
}

/// The states of a scene whose cue ball is struck with the given tip offset.
fn struck(balls: &[DVec3], aim: f64, speed: f64, h: f64, v: f64, r: f64) -> Vec<State> {
    let k = 5.0 * speed / (2.0 * r);
    let (sin, cos) = aim.sin_cos();
    let scene = Scene::new(
        from_vec(balls[0]),
        balls[1..].iter().map(|&p| from_vec(p)).collect::<Vec<_>>(),
    );
    let cue = State {
        pos: balls[0],
        vel: DVec3::new(speed * cos, speed * sin, 0.0),
        angular_vel: DVec3::new(0.0, 0.0, k * h) + DVec3::new(-sin, cos, 0.0) * (k * v),
    };
    scene.ball_states(from_state(cue)).into_iter().map(to_state).collect()
}

#[test]
fn skeleton_matches_simulation() {
    let (ball, phys, table, balls) = setup();
    let r = f(ball.radius);
    let sim = simulate(&struck(&balls, 0.29, 6.0, 0.20, 0.15, r), &table, &ball, &phys);
    let bounds = center_bounds(&table, &ball);
    let observed = sample_tracks(&sim, 30.0);
    let events = observed_events(&observed, &bounds);
    let truth = bounces_simulated(&sim, observed.len(), &bounds);
    assert!(truth[0].len() >= 2, "test shot must bank");
    for (k, obs) in events.cushions.iter().enumerate() {
        for &(to, rail) in obs {
            assert!(
                truth[k].iter().any(|&(ts, r)| r == rail && (f(ts) - f(to)).abs() < 0.2),
                "extracted bounce has no sim counterpart"
            );
        }
    }
    let found = &events.cushions[0];
    for &(ts, rail) in &truth[0] {
        let v = state_at(&sim.trajectories[0], f(ts) - 1e-4).vel;
        let v_perp = if rail < 2 { v.x.abs() } else { v.y.abs() };
        if v_perp > 0.8 {
            assert!(
                found.iter().any(|&(to, r)| r == rail && (f(ts) - f(to)).abs() < 0.2),
                "missed the cue's rail-{rail} bounce"
            );
        }
    }
    assert!(event_penalty(&sim, &events) < 0.1, "truth should not be penalized");
}

#[test]
fn wrong_skeleton_is_penalized() {
    let (ball, phys, table, balls) = setup();
    let r = f(ball.radius);
    let bounds = center_bounds(&table, &ball);
    let sim = simulate(&struck(&balls, 0.29, 3.5, 0.20, 0.15, r), &table, &ball, &phys);
    let events = observed_events(&sample_tracks(&sim, 30.0), &bounds);
    let soft = simulate(&struck(&balls, 0.29, 1.0, 0.0, 0.0, r), &table, &ball, &phys);
    assert!(event_penalty(&soft, &events) > 0.6, "missing observed bounces must be decisive");

    let gentle = simulate(&struck(&balls, 0.0, 1.2, 0.0, 0.0, r), &table, &ball, &phys);
    let gentle_events = observed_events(&sample_tracks(&gentle, 30.0), &bounds);
    let up = std::f64::consts::PI / 2.0;
    let bank = simulate(&struck(&balls, up, 4.5, 0.0, 0.0, r), &table, &ball, &phys);
    assert!(
        event_penalty(&bank, &gentle_events) > 0.6,
        "a bounce the tracks contradict must be decisive"
    );
}

/// Without the cushion skeleton nothing is demanded of the bounces.
#[test]
fn forgotten_cushions_charge_nothing() {
    let (ball, phys, table, balls) = setup();
    let r = f(ball.radius);
    let bounds = center_bounds(&table, &ball);
    let sim = simulate(&struck(&balls, 0.29, 6.0, 0.20, 0.15, r), &table, &ball, &phys);
    let mut events = observed_events(&sample_tracks(&sim, 30.0), &bounds);
    events.first_move.iter_mut().for_each(|m| *m = FirstMove::Unreliable);
    events.forget_cushions();
    assert!(events.cushions.iter().all(|c| c.is_empty()));
    assert!(events.tracks.iter().all(|t| t.is_empty()));
    let soft = simulate(&struck(&balls, 2.0, 1.0, 0.0, 0.0, r), &table, &ball, &phys);
    assert_eq!(event_penalty(&soft, &events), 0.0);
}

fn scalars(track: &[(f64, DVec3)]) -> ObservedTrack {
    track.iter().map(|&(t, p)| (s(t), from_vec(p))).collect()
}

#[test]
fn still_object_keeps_first_detection() {
    let r = f(BallSpec::carom().radius);
    let cue: Track = (0..12)
        .map(|i| (i as f64 / 30.0, DVec3::new(-0.5 + 0.05 * i as f64, 0.0, r)))
        .collect();
    let obj: Track = (0..12)
        .map(|i| {
            let t = i as f64 / 30.0;
            let x = if t < 0.3 { 0.4 } else { 0.4 + (t - 0.3) * 1.0 };
            (t, DVec3::new(x, 0.0, r))
        })
        .collect();
    let tracks = vec![scalars(&cue), scalars(&obj)];
    let scene = scene_of(&tracks, &TableSpec::carom_match(), &BallSpec::carom()).unwrap();
    assert!((f(scene.objects[0].x) - 0.4).abs() < 1e-9, "still ball keeps its detected rest");
}

#[test]
fn late_pickup_backtracks_to_contact() {
    let r = f(BallSpec::carom().radius);
    let cue: Track = (0..12)
        .map(|i| {
            let t = i as f64 / 30.0;
            let p = if t <= 0.2 {
                DVec3::new(-0.5 + 3.0 * t, 0.0, r)
            } else {
                DVec3::new(0.1 - 1.0 * (t - 0.2), 0.8 * (t - 0.2), r)
            };
            (t, p)
        })
        .collect();
    let obj: Track = (9..15)
        .map(|i| {
            let t = i as f64 / 30.0;
            (t, DVec3::new(0.16 + 1.0 * (t - 0.2), 0.0, r))
        })
        .collect();
    let tracks = vec![scalars(&cue), scalars(&obj)];
    let scene = scene_of(&tracks, &TableSpec::carom_match(), &BallSpec::carom()).unwrap();
    let rest = scene.objects[0];
    assert!((f(rest.x) - 0.16).abs() < 0.03, "back-extrapolated rest ~0.16, got {:.3}", f(rest.x));
}

#[test]
fn no_scene_without_a_cue_track() {
    let r = f(BallSpec::carom().radius);
    let table = TableSpec::carom_match();
    assert!(scene_of(&Vec::new(), &table, &BallSpec::carom()).is_none());
    let one = vec![scalars(&[(0.0, DVec3::new(0.0, 0.0, r))])];
    assert!(scene_of(&one, &table, &BallSpec::carom()).is_none());
}

/// The file labels yellow the cue ball, but yellow rests while white crosses the
/// table: white is the cue ball.
#[test]
fn mislabeled_cue_is_found() {
    let mut text = String::from("cue yellow\nfps 30\n");
    for i in 0..10 {
        let t = i as f64 / 30.0;
        text.push_str(&format!("white,{t},{},0.0\n", -1.0 + 0.1 * i as f64));
        text.push_str(&format!("yellow,{t},0.5,0.2\n"));
        text.push_str(&format!("red,{t},0.9,-0.2\n"));
    }
    let shot = parse_loaded(&text, &TableSpec::carom_match(), &BallSpec::carom()).unwrap();
    let names: Vec<String> = shot.order.iter().map(|n| n.iter().collect()).collect();
    assert_eq!(names, ["white", "yellow", "red"]);
    assert_eq!(f(shot.scene.cue.x), -1.0);
    assert_eq!(shot.scene.objects.len(), 2);
    assert_eq!(f(shot.scene.objects[0].x), 0.5);
    assert_eq!(shot.observed[0].len(), 10);
}

/// A label that is right stays, and any label may name the cue ball.
#[test]
fn moving_cue_keeps_its_label() {
    let mut text = String::from("cue Blue\n");
    for i in 0..10 {
        let t = i as f64 / 30.0;
        text.push_str(&format!("blue, {t} , {} ,0.0\n", -1.0 + 0.1 * i as f64));
        text.push_str(&format!("white,{t},{},0.3\n", 0.9 - 0.08 * i as f64));
        text.push_str("not a data line\nred,x,0,0\n");
    }
    let shot = parse_loaded(&text, &TableSpec::carom_match(), &BallSpec::carom()).unwrap();
    let names: Vec<String> = shot.order.iter().map(|n| n.iter().collect()).collect();
    assert_eq!(names, ["blue", "white"]);
}

/// A shot file whose cue ball has no samples of its own has no usable cue track, whatever
/// other balls it tracks.
#[test]
fn no_shot_without_its_own_cue_track() {
    let load = |text: &str| parse_loaded(text, &TableSpec::carom_match(), &BallSpec::carom());
    assert!(load("cue white\nred,0.0,0.5,0.0\nred,0.1,0.5,0.0\n").is_none());
    assert!(load("cue white\nwhite,0.0,0.1,0.0\nred,0.0,0.5,0.0\nred,0.1,0.5,0.0\n").is_none());
    assert!(load("cue blue\nyellow,0.0,0.5,0.0\nyellow,0.1,0.5,0.0\n").is_none());
    assert!(load("").is_none());
    let text = "cue yellow\nred,0.0,0.5,0.0\nyellow,0.0,0.2,0.0\nyellow,0.1,0.3,0.0\n";
    let shot = load(text).unwrap();
    let order: Vec<String> = shot.order.iter().map(|n| n.iter().collect()).collect();
    assert_eq!(order, ["yellow", "red"]);
    assert_eq!(f(shot.scene.cue.x), 0.2);
    // A ball that crosses the table stands in for a label without samples.
    let text = "cue white\nyellow,0.0,0.2,0.0\nyellow,0.1,0.7,0.0\nred,0.0,0.5,0.0\n";
    let order: Vec<String> =
        load(text).unwrap().order.iter().map(|n| n.iter().collect()).collect();
    assert_eq!(order, ["yellow", "red"]);
}
