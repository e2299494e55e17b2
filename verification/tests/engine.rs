//! The shot engine, driven by a floating-point model of balls, cloth and cushions.

use billiards_coach::engine::contact::{
    cushion_contact, first_approach, leading_degree, Quadratic, RailHit, CONTACT_EPS,
};
use billiards_coach::engine::cushion::{
    chain_recovery, cushion_rebound, effective_restitution, Bounds, Rail, CHAIN_RECOVERY_T,
};
use billiards_coach::engine::impact::{
    ball_ball_collision, slips, sticks, stuck, Collision, Compressed, Impact, Restoring,
};
use billiards_coach::engine::motion::{
    first_ending, next_ending, phase_of, Ending, Motion, Solo,
};
use billiards_coach::engine::world::{both_rest, inert, pair_horizon, Event, World};
use billiards_coach::model::math;
use billiards_coach::model::{
    three_cushion_score, BallId, BallSpec, BallState, ContactKind, Lookup, MotionPhase,
    MotionSegment, PhysicsParams, Simulation, TableSpec, Trajectory,
};
use billiards_coach::order::ascending;
use billiards_coach::scalar::Scalar;
use glam::DVec3;
use roots::{find_roots_cubic, find_roots_linear, find_roots_quadratic, find_roots_quartic};

/// The pattern of a number.
fn s(x: f64) -> Scalar {
    Scalar::from_bits(x.to_bits())
}

/// The number of a pattern.
fn f(x: Scalar) -> f64 {
    f64::from_bits(x.bits)
}

/// The patterns of several numbers.
fn ss(xs: &[f64]) -> Vec<Scalar> {
    xs.iter().map(|&x| s(x)).collect()
}

fn to_vec(v: math::DVec3) -> DVec3 {
    DVec3::new(f(v.x), f(v.y), f(v.z))
}

fn from_vec(v: DVec3) -> math::DVec3 {
    math::DVec3::new(s(v.x), s(v.y), s(v.z))
}

/// A ball's state in numbers.
#[derive(Clone, Copy, Debug)]
struct State {
    pos: DVec3,
    vel: DVec3,
    angular_vel: DVec3,
}

impl State {
    fn at_rest(pos: DVec3) -> Self {
        State { pos, vel: DVec3::ZERO, angular_vel: DVec3::ZERO }
    }
}

fn to_state(b: BallState) -> State {
    State { pos: to_vec(b.pos), vel: to_vec(b.vel), angular_vel: to_vec(b.angular_vel) }
}

fn from_state(b: State) -> BallState {
    BallState { pos: from_vec(b.pos), vel: from_vec(b.vel), angular_vel: from_vec(b.angular_vel) }
}

/// Horizontal distance from a ball's center to the cushion nose line at the instant
/// of contact: the nose sits above the ball equator, so the center contacts short of
/// it by `√(R² − (h − R)²)`.
fn contact_inset(table: &TableSpec, radius: f64) -> f64 {
    let dh = f(table.cushion_height) - radius;
    (radius * radius - dh * dh).max(0.0).sqrt()
}

/// The rectangle a ball center travels within.
fn center_bounds(table: &TableSpec, ball: &BallSpec) -> Bounds {
    let inset = contact_inset(table, f(ball.radius));
    let hx = f(table.length) / 2.0 - inset;
    let hy = f(table.width) / 2.0 - inset;
    Bounds { min_x: s(-hx), max_x: s(hx), min_y: s(-hy), max_y: s(hy) }
}

/// Velocity of the material point at the ball's contact with the cloth, projected
/// into the table plane: `(v_x - R·ω_y, v_y + R·ω_x, 0)`.
fn contact_slip(b: &State, radius: f64) -> DVec3 {
    let slip = b.vel + b.angular_vel.cross(DVec3::new(0.0, 0.0, -radius));
    DVec3::new(slip.x, slip.y, 0.0)
}

/// The angular velocity a rolling ball must have for its linear velocity, keeping the
/// vertical english.
fn rolling_angular_vel(b: &State, radius: f64) -> DVec3 {
    DVec3::new(-b.vel.y / radius, b.vel.x / radius, b.angular_vel.z)
}

/// Closed-form state at absolute time `t`, clamped to the segment's span.
fn segment_state(seg: &MotionSegment, t: f64) -> State {
    let duration = f(seg.t_end) - f(seg.t_start);
    assert!(f(seg.t_end).is_infinite() || duration >= 0.0, "a segment runs forward");
    let dt = f(seg.elapsed(s(t - f(seg.t_start)), s(duration)));
    let b = to_state(seg.state0);
    let mut angular_vel = b.angular_vel + to_vec(seg.ang_acc) * dt;
    // English decays to zero and stays there.
    if angular_vel.z * b.angular_vel.z < 0.0 {
        angular_vel.z = 0.0;
    }
    State {
        pos: b.pos + b.vel * dt + to_vec(seg.lin_acc) * (0.5 * dt * dt),
        vel: b.vel + to_vec(seg.lin_acc) * dt,
        angular_vel,
    }
}

/// State at absolute time `t`.
fn state_at(traj: &Trajectory, t: f64) -> State {
    match traj.locate(s(t)) {
        Lookup::Within(k) => segment_state(&traj.segments[k], t),
        Lookup::Before => to_state(traj.segments[0].state0),
        Lookup::Rest => to_state(traj.final_state()),
    }
}

/// A trajectory's positions at times that go on: the segment last found is where to look
/// next.
struct Walk<'a> {
    traj: &'a Trajectory,
    at: usize,
    /// Start and end of the segment last found, and its motion.
    span: (f64, f64),
    motion: (DVec3, DVec3, DVec3),
}

impl<'a> Walk<'a> {
    fn new(traj: &'a Trajectory) -> Self {
        let nowhere = (f64::INFINITY, f64::NEG_INFINITY);
        Walk { traj, at: 0, span: nowhere, motion: (DVec3::ZERO, DVec3::ZERO, DVec3::ZERO) }
    }

    /// Position at absolute time `t`.
    ///
    /// Floating point throughout.
    fn pos_at(&mut self, t: f64) -> DVec3 {
        if !(t >= self.span.0 && t < self.span.1) {
            let ahead = &self.traj.segments[self.at..];
            let Some(k) = ahead.iter().position(|seg| seg.contains(s(t))) else {
                return state_at(self.traj, t).pos;
            };
            self.at += k;
            let seg = &self.traj.segments[self.at];
            let (b, acc) = (to_state(seg.state0), to_vec(seg.lin_acc));
            self.span = (f(seg.t_start), f(seg.t_end));
            self.motion = (b.pos, b.vel, acc);
        }
        let (pos, vel, acc) = self.motion;
        let dt = t - self.span.0;
        pos + vel * dt + acc * (0.5 * dt * dt)
    }
}

/// The analytic motion a ball's current phase implies.
fn motion_of(b: &State, ball: &BallSpec, phys: &PhysicsParams) -> Motion {
    let radius = f(ball.radius);
    let slip = contact_slip(b, radius);
    let speed = b.vel.length();
    let phase = phase_of(s(slip.length()), s(speed));
    let (lin_acc, turn, natural) = match phase {
        MotionPhase::Sliding => {
            let a = f(phys.mu_slide) * f(phys.g);
            let u = slip.normalize();
            let turn = DVec3::new(-u.y, u.x, 0.0) * (5.0 * a / (2.0 * radius));
            (u * -a, turn, slip.length() / (3.5 * a))
        }
        MotionPhase::Rolling => {
            let a = f(phys.mu_roll) * f(phys.g);
            let v = b.vel.normalize();
            (v * -a, DVec3::new(v.y, -v.x, 0.0) * (a / radius), speed / a)
        }
        MotionPhase::Stationary => (DVec3::ZERO, DVec3::ZERO, f64::INFINITY),
    };
    let decay = 5.0 * f(phys.mu_spin) * f(phys.g) / (2.0 * radius);
    let english = b.angular_vel.z;
    let (boring, spin) = if decay > 0.0 && english != 0.0 {
        (-decay * english.signum(), english.abs() / decay)
    } else {
        (0.0, f64::INFINITY)
    };
    let (dur, ends) = first_ending(phase, s(natural), s(spin));
    let ang_acc = from_vec(turn + DVec3::new(0.0, 0.0, boring));
    Motion { phase, lin_acc: from_vec(lin_acc), ang_acc, dur, ends }
}

/// Earliest cushion contact within the motion's duration.
fn cushion_ahead(b: &State, m: &Motion, bounds: Bounds) -> Option<(Scalar, Rail)> {
    let acc = to_vec(m.lin_acc);
    let hits = Rail::all().map(|rail| {
        let (is_x, bound) = rail.bound(bounds);
        let (p, v, a) =
            if is_x { (b.pos.x, b.vel.x, acc.x) } else { (b.pos.y, b.vel.y, acc.y) };
        let (qa, qb, qc) = (0.5 * a, v, p - f(bound));
        let disc = qb * qb - 4.0 * qa * qc;
        let root = disc.sqrt();
        let q = Quadratic {
            a: s(qa),
            b: s(qb),
            linear: s(-qc / qb),
            disc: s(disc),
            first: s((-qb - root) / (2.0 * qa)),
            second: s((-qb + root) / (2.0 * qa)),
        };
        let dt = q.smallest_root_in(Scalar::from_bits(CONTACT_EPS), m.dur);
        let outward = dt.map_or(0.0, |dt| {
            (b.vel + acc * f(dt)).dot(to_vec(rail.outward_normal()))
        });
        RailHit { dt, outward: s(outward) }
    });
    cushion_contact(&hits)
}

/// Real roots of a quartic, ascending, by its leading coefficient.
fn real_roots(c4: f64, c3: f64, c2: f64, c1: f64, c0: f64) -> Vec<f64> {
    let found = match leading_degree(s(c4), s(c3), s(c2), s(c1)) {
        4 => find_roots_quartic(c4, c3, c2, c1, c0),
        3 => find_roots_cubic(c3, c2, c1, c0),
        2 => find_roots_quadratic(c2, c1, c0),
        1 => find_roots_linear(c1, c0),
        _ => return Vec::new(),
    };
    ascending(&ss(found.as_ref())).into_iter().map(f).collect()
}

/// Whether two balls in relative motion stay apart for `h` seconds, by a margin: they are
/// too far away, or pass each other by.
fn stay_apart(d0: DVec3, dv: DVec3, da: DVec3, radius: f64, h: f64) -> bool {
    let speed = dv.length();
    let bend = 0.5 * da.length() * h * h;
    let touch = 2.0 * radius + 1e-6;
    d0.length() > touch + speed * h + bend || d0.cross(dv).length() > (touch + bend) * speed
}

/// When two balls, each following constant acceleration, come into contact while
/// approaching one another, within `horizon`.
fn meeting(a: (&State, DVec3), b: (&State, DVec3), radius: f64, horizon: Scalar) -> Option<Scalar> {
    let d0 = a.0.pos - b.0.pos;
    let dv = a.0.vel - b.0.vel;
    let da = a.1 - b.1;
    let half = da * 0.5;
    let roots = real_roots(
        half.dot(half),
        2.0 * half.dot(dv),
        2.0 * half.dot(d0) + dv.dot(dv),
        2.0 * dv.dot(d0),
        d0.dot(d0) - 4.0 * radius * radius,
    );
    let closing: Vec<f64> = roots
        .iter()
        .map(|&t| (d0 + dv * t + half * (t * t)).dot(dv + da * t))
        .collect();
    first_approach(&ss(&roots), &ss(&closing), horizon)
}

/// Active rotation of a vector about the `z` axis.
fn rotate_z(v: DVec3, ang: f64) -> DVec3 {
    let (sin, cos) = ang.sin_cos();
    DVec3::new(v.x * cos - v.y * sin, v.x * sin + v.y * cos, v.z)
}

/// Effective cushion restitution at normal speed `v_n` and along-rail speed `v_t`.
fn restitution(phys: &PhysicsParams, v_n: f64, v_t: f64) -> f64 {
    f(effective_restitution(s(f(phys.cushion_restitution)
        + f(phys.cushion_restitution_slope) * (v_n - 1.0)
        + f(phys.cushion_restitution_slope_t) * v_t.abs())))
}

/// Resolve a ball-cushion impact.
fn rebound(
    b: &State,
    normal: DVec3,
    ball: &BallSpec,
    phys: &PhysicsParams,
    cushion_height: f64,
    recovery: f64,
) -> State {
    let how =
        cushion_rebound(phys.cushion_restitution_chain, s(recovery), phys.cushion_contact_steps);
    let mut phys = *phys;
    if let Some(boost) = how.boost {
        phys.cushion_restitution =
            s(f(phys.cushion_restitution) + f(phys.cushion_restitution_chain) * f(boost));
    }
    if how.integrated {
        mathavan2010_rebound(b, normal, ball, &phys, cushion_height)
    } else {
        han2005_rebound(b, normal, ball, &phys, cushion_height)
    }
}

/// The Han 2005 cushion impulse: an instantaneous impulse at a contact point above
/// the ball equator, which is what makes english bend the rebound.
fn han2005_rebound(
    b: &State,
    normal: DVec3,
    ball: &BallSpec,
    phys: &PhysicsParams,
    cushion_height: f64,
) -> State {
    let (r, m) = (f(ball.radius), f(ball.mass));
    let mu = f(phys.cushion_friction);
    // Into the cushion frame: rotate so the outward normal aligns with +x.
    let psi = normal.y.atan2(normal.x);
    let v = rotate_z(b.vel, -psi);
    let w = rotate_z(b.angular_vel, -psi);
    let e = restitution(phys, v.x, v.y);
    let (sin_t, cos_t) = (cushion_height / r - 1.0).asin().sin_cos();

    // Contact-point slip and normal approach speed.
    let sx = v.x * sin_t - v.z * cos_t + r * w.y;
    let sy = -v.y - r * w.z * cos_t + r * w.x * sin_t;
    let c = -v.x * cos_t;
    let ii = 0.4 * m * r * r;
    let (ka, kb) = (3.5 / m, 1.0 / m);

    let pz_e = -(1.0 + e) * c / kb;
    let slip = (sx * sx + sy * sy).sqrt();
    let (px_e, py_e) = if sticks(s(slip / ka), s(mu * pz_e)) {
        (sx / ka, sy / ka)
    } else {
        (mu * pz_e * sx / slip, mu * pz_e * sy / slip)
    };

    // Rotate the impulse from the contact-normal frame to the rail frame.
    let px = -px_e * sin_t - pz_e * cos_t;
    let py = py_e;
    let pz = px_e * cos_t - pz_e * sin_t;

    let mut v_out = v;
    v_out.x += px / m;
    v_out.y += py / m;
    let mut w_out = w;
    w_out.x += -r / ii * py * sin_t;
    w_out.y += r / ii * (px * sin_t - pz * cos_t);
    w_out.z += r / ii * py * cos_t;
    State { pos: b.pos, vel: rotate_z(v_out, psi), angular_vel: rotate_z(w_out, psi) }
}

/// A ball in the middle of an integrated cushion impact.
#[derive(Clone, Copy)]
struct Slice {
    vx: f64,
    vy: f64,
    wx: f64,
    wy: f64,
    wz: f64,
}

/// The constants of an integrated cushion impact.
struct Nose {
    r: f64,
    m: f64,
    sin_t: f64,
    cos_t: f64,
    mu_w: f64,
    mu_s: f64,
}

impl Nose {
    /// One impulse slice: slip at the cushion and at the table, then the coupled
    /// velocity and spin increments. Returns the work done at the cushion's normal.
    fn step(&self, b: &mut Slice, dp: f64) -> f64 {
        let (sxi, syi) = (
            b.vx + b.wy * self.r * self.sin_t - b.wz * self.r * self.cos_t,
            -b.vy * self.sin_t + b.wx * self.r,
        );
        let (sxc, syc) = (b.vx - b.wy * self.r, b.vy + b.wx * self.r);
        let si = (sxi * sxi + syi * syi).sqrt();
        let sc = (sxc * sxc + syc * syc).sqrt();
        // Friction direction cosines; a vanished slip sticks (no friction).
        let (ci, di) = if slips(s(si)) { (sxi / si, syi / si) } else { (0.0, 0.0) };
        let (cc, dc) = if slips(s(sc)) { (sxc / sc, syc / sc) } else { (0.0, 0.0) };
        // Table normal impulse per unit cushion impulse.
        let table_n = self.sin_t + self.mu_w * di * self.cos_t;

        b.vx -= (self.mu_w * ci + self.mu_s * cc * table_n) * dp / self.m;
        b.vy -= (self.cos_t - self.mu_w * self.sin_t * di + self.mu_s * dc * table_n) * dp / self.m;
        let k = 5.0 / (2.0 * self.m * self.r);
        b.wx -= k * (self.mu_w * di + self.mu_s * dc * table_n) * dp;
        b.wy -= k * (self.mu_w * ci * self.sin_t - self.mu_s * cc * table_n) * dp;
        b.wz += k * (self.mu_w * ci * self.cos_t) * dp;
        dp * b.vy.abs() * self.cos_t
    }
}

/// The Mathavan 2010 ball-cushion impact: integrated through normal-impulse space
/// with two simultaneous contacts, the cushion nose and the table under the ball.
fn mathavan2010_rebound(
    b: &State,
    normal: DVec3,
    ball: &BallSpec,
    phys: &PhysicsParams,
    cushion_height: f64,
) -> State {
    let (r, m) = (f(ball.radius), f(ball.mass));
    // Rotate so the outward normal aligns with +y.
    let psi = normal.y.atan2(normal.x);
    let rot = std::f64::consts::FRAC_PI_2 - psi;
    let v = rotate_z(b.vel, rot);
    let w = rotate_z(b.angular_vel, rot);

    let sin_t = (cushion_height - r) / r;
    let nose = Nose {
        r,
        m,
        sin_t,
        cos_t: (1.0 - sin_t * sin_t).sqrt(),
        mu_w: f(phys.cushion_friction),
        mu_s: f(phys.mu_slide),
    };
    let e = restitution(phys, v.y, v.x);
    let mut x = Slice { vx: v.x, vy: v.y, wx: w.x, wy: w.y, wz: w.z };

    // Compression: until the normal velocity reverses.
    let mut stage = Impact::new(phys.cushion_contact_steps);
    let dp = m * x.vy / stage.steps as f64;
    let mut work = 0.0;
    while stage.compressing(s(x.vy)) {
        let before = x;
        let dw = nose.step(&mut x, dp);
        match stage.compressed(s(x.vy)) {
            Compressed::Kept => work += dw,
            Compressed::Overshot => {
                // Redo the slice at the interpolated size that ends at vy = 0.
                let full = x.vy;
                x = before;
                let share = (before.vy / (before.vy - full)).clamp(0.0, 1.0);
                work += nose.step(&mut x, dp * share);
            }
        }
    }

    // Restitution: return e² of the compression work.
    let target = e * e * work;
    let mut returned = 0.0;
    let mut stage = Impact::new(phys.cushion_contact_steps);
    loop {
        let push = x.vy.abs() * nose.cos_t;
        match stage.restoring(s(returned), s(target), s(returned + dp * push), s(push)) {
            Restoring::Done => break,
            Restoring::Full => returned += nose.step(&mut x, dp),
            Restoring::Last => {
                nose.step(&mut x, (target - returned) / push);
            }
        }
    }

    State {
        pos: b.pos,
        vel: rotate_z(DVec3::new(x.vx, x.vy, 0.0), -rot),
        angular_vel: rotate_z(DVec3::new(x.wx, x.wy, x.wz), -rot),
    }
}

/// Resolve a collision between two equal-mass balls in contact.
fn collide(a: &State, b: &State, ball: &BallSpec, phys: &PhysicsParams) -> (State, State) {
    let n = (b.pos - a.pos).normalize();
    match ball_ball_collision(phys.ball_contact_steps, s((a.vel - b.vel).dot(n))) {
        Collision::Parting => (*a, *b),
        Collision::ClosedForm => collide_closed(a, b, n, ball, phys),
        Collision::Integrated(steps) => collide_integrated(a, b, n, ball, phys, steps),
    }
}

/// The closed-form impulse: restitution along the line of centers, Coulomb friction
/// across it.
fn collide_closed(
    a: &State,
    b: &State,
    n: DVec3,
    ball: &BallSpec,
    phys: &PhysicsParams,
) -> (State, State) {
    let (r, m) = (f(ball.radius), f(ball.mass));
    let ii = 0.4 * m * r * r;
    let e = f(phys.ball_restitution);
    let t = DVec3::new(-n.y, n.x, 0.0);
    let (a_vn, a_vt) = (a.vel.dot(n), a.vel.dot(t));
    let (b_vn, b_vt) = (b.vel.dot(n), b.vel.dot(t));

    // Normal: symmetric restitution exchange.
    let a_vn_f = 0.5 * ((1.0 - e) * a_vn + (1.0 + e) * b_vn);
    let b_vn_f = 0.5 * ((1.0 + e) * a_vn + (1.0 - e) * b_vn);
    let p_n = m * (a_vn_f - a_vn).abs();

    // Tangential relative surface velocity, and the friction it meets.
    let u_t = (a_vt - b_vt) + r * (a.angular_vel.z + b.angular_vel.z);
    let u = f(phys.ball_friction)
        + f(phys.ball_friction_b) * (-f(phys.ball_friction_c) * u_t.abs()).exp();
    let j = -u_t.signum() * ((m / 7.0) * u_t.abs()).min(u * p_n);

    let dw = DVec3::new(0.0, 0.0, r * j / ii);
    (
        State {
            pos: a.pos,
            vel: a.vel + n * (a_vn_f - a_vn) + t * (j / m),
            angular_vel: a.angular_vel + dw,
        },
        State {
            pos: b.pos,
            vel: b.vel + n * (b_vn_f - b_vn) - t * (j / m),
            angular_vel: b.angular_vel + dw,
        },
    )
}

/// The contact marched through normal impulse space, friction following the slip as
/// it turns.
fn collide_integrated(
    a: &State,
    b: &State,
    n: DVec3,
    ball: &BallSpec,
    phys: &PhysicsParams,
    steps: u32,
) -> (State, State) {
    let (r, m) = (f(ball.radius), f(ball.mass));
    let ii = 0.4 * m * r * r;
    let approach = (a.vel - b.vel).dot(n);
    let (mut a_v, mut b_v) = (a.vel, b.vel);
    let (mut a_w, mut b_w) = (a.angular_vel, b.angular_vel);
    let dp = 0.5 * m * approach * (1.0 + f(phys.ball_restitution)) / steps as f64;
    for _ in 0..steps {
        a_v -= n * (dp / m);
        b_v += n * (dp / m);
        let u = (a_v + a_w.cross(n * r)) - (b_v + b_w.cross(n * -r));
        let u_t = u - n * u.dot(n);
        let slip = u_t.length();
        if stuck(s(slip)) {
            continue;
        }
        let mu = f(phys.ball_friction)
            + f(phys.ball_friction_b) * (-f(phys.ball_friction_c) * slip).exp();
        let j = (mu * dp).min(slip * m / 7.0);
        let push = u_t * (-j / slip);
        a_v += push / m;
        b_v -= push / m;
        let dw = (n * r).cross(push) / ii;
        a_w += dw;
        b_w += dw;
    }
    a_v.z = 0.0;
    b_v.z = 0.0;
    (
        State { pos: a.pos, vel: a_v, angular_vel: a_w },
        State { pos: b.pos, vel: b_v, angular_vel: b_w },
    )
}

/// A single ball moving freely on the cloth until it comes to rest.
fn simulate_free(initial: &State, ball: &BallSpec, phys: &PhysicsParams) -> Trajectory {
    let mut solo = Solo::new(from_state(*initial));
    while !solo.done() {
        let b = to_state(solo.state);
        let m = motion_of(&b, ball, phys);
        let ending = natural_ending(&solo, &m, ball);
        take_step(&mut solo, &m, ending);
    }
    solo.finish()
}

/// A single ball on a bounded table, rebounding off cushions until it comes to rest.
fn simulate_table(
    initial: &State,
    table: &TableSpec,
    ball: &BallSpec,
    phys: &PhysicsParams,
) -> Trajectory {
    let bounds = center_bounds(table, ball);
    let mut solo = Solo::new(from_state(*initial));
    while !solo.done() {
        let b = to_state(solo.state);
        let m = motion_of(&b, ball, phys);
        let (dt, met) = next_ending(&m, cushion_ahead(&b, &m, bounds));
        let ending = match met {
            Some(rail) if m.phase != MotionPhase::Stationary => {
                let t = f(solo.t) + f(dt);
                let seg = leg(&solo.state, solo.t, s(t), &m);
                let rebound = han2005_rebound(
                    &segment_state(&seg, t),
                    to_vec(rail.outward_normal()),
                    ball,
                    phys,
                    f(table.cushion_height),
                );
                Ending::Cushion { t: s(t), rebound: from_state(rebound) }
            }
            _ => natural_ending(&solo, &m, ball),
        };
        take_step(&mut solo, &m, ending);
    }
    solo.finish()
}

fn leg(state: &BallState, t_start: Scalar, t_end: Scalar, m: &Motion) -> MotionSegment {
    billiards_coach::engine::motion::segment_for(*state, t_start, t_end, m)
}

/// How a ball's current phase ends on its own.
fn natural_ending(solo: &Solo, m: &Motion, ball: &BallSpec) -> Ending {
    let t = f(solo.t) + f(m.dur);
    let arrived = segment_state(&leg(&solo.state, solo.t, s(t), m), t);
    Ending::Natural {
        t: s(t),
        arrived: from_state(arrived),
        rolled: from_vec(rolling_angular_vel(&arrived, f(ball.radius))),
    }
}

fn take_step(solo: &mut Solo, m: &Motion, ending: Ending) {
    let t = match ending {
        Ending::Natural { t, .. } | Ending::Cushion { t, .. } => f(t),
    };
    assert!(f(solo.t).is_finite() && !(t < f(solo.t)), "time runs forward");
    solo.step(m, ending);
}

/// A set of balls on a bounded table until all come to rest. Trajectory `i`
/// corresponds to `initial[i]`.
fn simulate(
    initial: &[State],
    table: &TableSpec,
    ball: &BallSpec,
    phys: &PhysicsParams,
) -> Simulation {
    let bounds = center_bounds(table, ball);
    let radius = f(ball.radius);
    let n = initial.len();
    let start: Vec<BallState> = initial.iter().map(|b| from_state(*b)).collect();
    let mut world = World::new(&start);
    let mut now: Vec<State> = Vec::with_capacity(n);
    let mut motions: Vec<Motion> = Vec::with_capacity(n);
    let mut cushions: Vec<Option<(Scalar, Rail)>> = Vec::with_capacity(n);
    let mut meets: Vec<Vec<Option<Scalar>>> = vec![vec![None; n]; n];
    loop {
        now.clear();
        now.extend(world.states.iter().map(|b| to_state(*b)));
        motions.clear();
        motions.extend(now.iter().map(|b| motion_of(b, ball, phys)));
        cushions.clear();
        cushions.extend((0..n).map(|i| {
            if inert(&motions[i]) { None } else { cushion_ahead(&now[i], &motions[i], bounds) }
        }));
        // Two balls that cannot meet before this need no closer look.
        let soon = (0..n)
            .flat_map(|i| [Some(motions[i].dur), cushions[i].map(|c| c.0)])
            .flatten()
            .map(f)
            .filter(|dt| *dt > 0.0)
            .fold(f64::INFINITY, f64::min);
        for i in 0..n {
            for j in i + 1..n {
                meets[i][j] = if both_rest(&motions[i], &motions[j]) {
                    None
                } else {
                    let (a, b) = (&now[i], &now[j]);
                    let accs = (to_vec(motions[i].lin_acc), to_vec(motions[j].lin_acc));
                    let (dv, da) = (a.vel - b.vel, accs.0 - accs.1);
                    if stay_apart(a.pos - b.pos, dv, da, radius, soon) {
                        None
                    } else {
                        let horizon = pair_horizon(&motions[i], &motions[j]);
                        meeting((a, accs.0), (b, accs.1), radius, horizon)
                    }
                };
            }
        }
        let Some(next) = world.next_event(&motions, &cushions, &meets) else { break };

        let t = f(world.t) + f(next.dt);
        assert!(t >= f(world.t), "time runs forward");
        let moved: Vec<BallState> = (0..n)
            .map(|i| {
                from_state(segment_state(&leg(&world.states[i], world.t, s(t), &motions[i]), t))
            })
            .collect();
        world.advance(&motions, s(t), moved);

        match next.event {
            Event::Transition(i, ends) => {
                let rolled = rolling_angular_vel(&to_state(world.states[i]), radius);
                world.transition(i, ends, from_vec(rolled));
            }
            Event::Cushion(i, rail) => {
                let since = (t - f(world.last_cushion[i])) / f(Scalar::from_bits(CHAIN_RECOVERY_T));
                let recovery = f(chain_recovery(s(1.0 - since)));
                let out = rebound(
                    &to_state(world.states[i]),
                    to_vec(rail.outward_normal()),
                    ball,
                    phys,
                    f(table.cushion_height),
                    recovery,
                );
                world.cushion(i, from_state(out));
            }
            Event::BallBall(i, j) => {
                let (a, b) =
                    collide(&to_state(world.states[i]), &to_state(world.states[j]), ball, phys);
                world.collision(i, j, from_state(a), from_state(b));
            }
        }
    }
    world.finish()
}

const DIAMOND: f64 = 0.355;

fn setup() -> (BallSpec, PhysicsParams, TableSpec) {
    (BallSpec::carom(), PhysicsParams::default(), TableSpec::carom_match())
}

fn on_table(pos: DVec3, vel: DVec3) -> State {
    State { pos, vel, angular_vel: DVec3::ZERO }
}

fn rolling_at(v: DVec3, r: f64) -> State {
    State { pos: DVec3::ZERO, vel: v, angular_vel: DVec3::new(-v.y / r, v.x / r, 0.0) }
}

fn bounds4(table: &TableSpec, ball: &BallSpec) -> [f64; 4] {
    let b = center_bounds(table, ball);
    [f(b.min_x), f(b.max_x), f(b.min_y), f(b.max_y)]
}

fn final_state(traj: &Trajectory) -> State {
    to_state(traj.final_state())
}

#[test]
fn flat_strike_rolls_at_five_sevenths() {
    let (ball, phys, _) = setup();
    let r = f(ball.radius);
    let v0 = 2.0;
    let start = on_table(DVec3::new(0.0, 0.0, r), DVec3::new(v0, 0.0, 0.0));
    let traj = simulate_free(&start, &ball, &phys);
    assert_eq!(traj.segments[0].phase, MotionPhase::Sliding);
    assert_eq!(traj.segments[1].phase, MotionPhase::Rolling);
    let at_transition = to_state(traj.segments[1].state0);
    let expected = 5.0 / 7.0 * v0;
    assert!((at_transition.vel.length() - expected).abs() < 1e-9);
    let slip = contact_slip(&at_transition, r).length();
    assert!(BallState::is_rolling(s(slip), s(1e-9)));
}

#[test]
fn natural_roll_stopping_distance() {
    let (ball, phys, _) = setup();
    let r = f(ball.radius);
    let v0 = 0.5;
    let mut state = on_table(DVec3::new(0.0, 0.0, r), DVec3::new(v0, 0.0, 0.0));
    state.angular_vel = rolling_angular_vel(&state, r);
    let traj = simulate_free(&state, &ball, &phys);
    assert_eq!(traj.segments[0].phase, MotionPhase::Rolling);
    let expected = v0 * v0 / (2.0 * f(phys.mu_roll) * f(phys.g));
    assert!((final_state(&traj).pos.x - expected).abs() < 1e-9);
}

#[test]
fn ball_comes_to_rest() {
    let (ball, phys, _) = setup();
    let start = on_table(DVec3::new(0.0, 0.0, f(ball.radius)), DVec3::new(1.5, 0.7, 0.0));
    let traj = simulate_free(&start, &ball, &phys);
    assert!(final_state(&traj).vel.length() < 1e-9);
    assert_eq!(traj.segments.last().unwrap().phase, MotionPhase::Stationary);
    let mut t = 0.0;
    for seg in &traj.segments {
        assert!(f(seg.t_start) >= t - 1e-12, "segments must be time-ordered");
        t = f(seg.t_start);
    }
    assert!(f(traj.time_to_rest()) > 0.0);
}

#[test]
fn pure_topspin_generates_motion() {
    let (ball, phys, _) = setup();
    let state = State {
        pos: DVec3::new(0.0, 0.0, f(ball.radius)),
        vel: DVec3::ZERO,
        angular_vel: DVec3::new(0.0, 30.0, 0.0),
    };
    let traj = simulate_free(&state, &ball, &phys);
    assert!(final_state(&traj).pos.x > 1e-4, "topspin should propel the ball");
}

#[test]
fn head_on_rebound_reverses_and_slows() {
    let (ball, phys, table) = setup();
    let r = f(ball.radius);
    let v_in = 2.0;
    let state = State {
        pos: DVec3::new(1.0, 0.0, r),
        vel: DVec3::new(v_in, 0.0, 0.0),
        angular_vel: DVec3::new(0.0, v_in / r, 0.0),
    };
    let out = rebound(
        &state,
        to_vec(Rail::Right.outward_normal()),
        &ball,
        &phys,
        f(table.cushion_height),
        0.0,
    );
    assert!(out.vel.x < 0.0);
    assert!(out.vel.x.abs() < v_in, "rebound must be slower than approach");
    assert!(out.vel.y.abs() < 1e-9, "no sideways deflection without english");
}

#[test]
fn english_bends_the_rebound() {
    let (ball, phys, table) = setup();
    let normal = DVec3::new(1.0, 0.0, 0.0);
    let approach = |w_z: f64| State {
        pos: DVec3::new(1.0, 0.5, f(ball.radius)),
        vel: DVec3::new(2.0, 2.0, 0.0),
        angular_vel: DVec3::new(0.0, 0.0, w_z),
    };
    let h = f(table.cushion_height);
    let plain = han2005_rebound(&approach(0.0), normal, &ball, &phys, h);
    let english = han2005_rebound(&approach(50.0), normal, &ball, &phys, h);
    let delta = (english.vel.y - plain.vel.y).abs();
    assert!(delta > 0.05);
    assert!(english.vel.y < plain.vel.y, "positive english should reduce tangential velocity");
    assert!(plain.vel.x < 0.0 && english.vel.x < 0.0);
}

#[test]
fn ball_stays_on_the_table() {
    let (ball, phys, table) = setup();
    let [min_x, max_x, min_y, max_y] = bounds4(&table, &ball);
    let state = on_table(DVec3::new(0.0, 0.0, f(ball.radius)), DVec3::new(3.0, 1.3, 0.0));
    let traj = simulate_table(&state, &table, &ball, &phys);
    let n = 1000;
    for i in 0..=n {
        let t = i as f64 / n as f64 * f(traj.time_to_rest());
        let p = state_at(&traj, t).pos;
        assert!(p.x >= min_x - 1e-6 && p.x <= max_x + 1e-6, "x={} out of bounds at t={t}", p.x);
        assert!(p.y >= min_y - 1e-6 && p.y <= max_y + 1e-6, "y={} out of bounds at t={t}", p.y);
        assert!(p.x.is_finite() && p.y.is_finite());
    }
}

#[test]
fn hard_shot_bounces_and_rests() {
    let (ball, phys, table) = setup();
    let state = on_table(DVec3::new(-1.3, -0.6, f(ball.radius)), DVec3::new(3.5, 1.6, 0.0));
    let traj = simulate_table(&state, &table, &ball, &phys);
    assert!(traj.segments.len() > 3, "expected cushion rebounds");
    assert!(final_state(&traj).vel.length() < 1e-9, "ball must come to rest");
    let [min_x, max_x, min_y, max_y] = bounds4(&table, &ball);
    let rest = final_state(&traj).pos;
    assert!(rest.x >= min_x - 1e-6 && rest.x <= max_x + 1e-6);
    assert!(rest.y >= min_y - 1e-6 && rest.y <= max_y + 1e-6);
}

#[test]
fn head_on_transfers_velocity() {
    let (ball, phys, _) = setup();
    let r = f(ball.radius);
    let v = 2.0;
    let cue = on_table(DVec3::new(0.0, 0.0, r), DVec3::new(v, 0.0, 0.0));
    let obj = on_table(DVec3::new(2.0 * r, 0.0, r), DVec3::ZERO);
    let (cue_f, obj_f) = collide(&cue, &obj, &ball, &phys);
    let e = f(phys.ball_restitution);
    assert!((cue_f.vel.x - 0.5 * (1.0 - e) * v).abs() < 1e-9);
    assert!((obj_f.vel.x - 0.5 * (1.0 + e) * v).abs() < 1e-9);
    assert!(cue_f.vel.y.abs() < 1e-9 && obj_f.vel.y.abs() < 1e-9, "no deflection head-on");
    assert!((cue_f.vel.x + obj_f.vel.x - v).abs() < 1e-9);
}

#[test]
fn cut_shot_object_goes_along_line_of_centers() {
    let (ball, phys, _) = setup();
    let r = f(ball.radius);
    let ang = 30f64.to_radians();
    let n = DVec3::new(ang.cos(), ang.sin(), 0.0);
    let cue = on_table(DVec3::new(0.0, 0.0, r), DVec3::new(2.0, 0.0, 0.0));
    let obj = on_table(DVec3::new(0.0, 0.0, r) + n * (2.0 * r), DVec3::ZERO);
    let (cue_f, obj_f) = collide(&cue, &obj, &ball, &phys);
    let along = obj_f.vel.normalize().dot(n);
    assert!(along > 0.99, "object ball should follow the line of centers (cosθ={along})");
    let t = DVec3::new(-n.y, n.x, 0.0);
    assert!(cue_f.vel.dot(t).abs() > 0.5 * cue_f.vel.length(), "cue keeps tangential component");
}

#[test]
fn sidespin_throws_the_object_ball() {
    let (ball, phys, _) = setup();
    let r = f(ball.radius);
    let make = |wz: f64| {
        let cue = State {
            pos: DVec3::new(0.0, 0.0, r),
            vel: DVec3::new(2.0, 0.0, 0.0),
            angular_vel: DVec3::new(0.0, 0.0, wz),
        };
        collide(&cue, &on_table(DVec3::new(2.0 * r, 0.0, r), DVec3::ZERO), &ball, &phys).1
    };
    let plain = make(0.0);
    let spun = make(80.0);
    assert!(plain.vel.y.abs() < 1e-12, "no throw without spin");
    assert!(spun.vel.y.abs() > 1e-3, "sidespin should throw the object ball");
}

#[test]
fn collision_conserves_momentum_and_bounds_energy() {
    let (ball, phys, _) = setup();
    let (r, m) = (f(ball.radius), f(ball.mass));
    let cue = State {
        pos: DVec3::new(0.0, 0.0, r),
        vel: DVec3::new(1.8, 0.4, 0.0),
        angular_vel: DVec3::new(0.0, 0.0, 30.0),
    };
    let obj = on_table(DVec3::new(2.0 * r, 0.2, r), DVec3::new(-0.2, 0.0, 0.0));
    let inertia = 0.4 * m * r * r;
    let ke = |b: &State| {
        0.5 * m * b.vel.length_squared() + 0.5 * inertia * b.angular_vel.length_squared()
    };
    let (cf, of) = collide(&cue, &obj, &ball, &phys);
    let before = cue.vel * m + obj.vel * m;
    let after = cf.vel * m + of.vel * m;
    assert!((after - before).length() < 1e-9, "linear momentum conserved");
    assert!(ke(&cf) + ke(&of) <= ke(&cue) + ke(&obj) + 1e-9, "energy must not increase");
}

#[test]
fn integrated_converges_to_analytic_for_english_only() {
    let (ball, mut phys, _) = setup();
    let r = f(ball.radius);
    let a = State {
        pos: DVec3::ZERO,
        vel: DVec3::new(1.5, 0.4, 0.0),
        angular_vel: DVec3::new(0.0, 0.0, 25.0),
    };
    let b = State::at_rest(DVec3::new(2.0 * r, 0.0, 0.0));
    let (ia, ib) = collide(&a, &b, &ball, &phys);
    phys.ball_contact_steps = 200;
    let (ga, gb) = collide(&a, &b, &ball, &phys);
    assert!((ia.vel - ga.vel).length() < 1e-3);
    assert!((ib.vel - gb.vel).length() < 1e-3);
    assert!((ia.angular_vel - ga.angular_vel).length() < 0.05);
}

#[test]
fn follow_shot_transfers_gearing_spin() {
    let (ball, mut phys, _) = setup();
    phys.ball_contact_steps = 200;
    let r = f(ball.radius);
    let v = 2.0;
    let a = State {
        pos: DVec3::ZERO,
        vel: DVec3::new(v, 0.0, 0.0),
        angular_vel: DVec3::new(0.0, v / r, 0.0),
    };
    let b = State::at_rest(DVec3::new(2.0 * r, 0.0, 0.0));
    let (ga, gb) = collide(&a, &b, &ball, &phys);
    assert!(gb.vel.x > 0.9 * v, "object should take nearly all speed");
    assert!(gb.angular_vel.y < -1e-3, "object should gain reverse (gear) spin");
    assert!(ga.angular_vel.y > 0.5 * v / r, "cue keeps most of its follow");
    assert_eq!(ga.vel.z, 0.0);
}

#[test]
fn mathavan_perpendicular_rebound() {
    let (ball, mut phys, _) = setup();
    phys.cushion_contact_steps = 2000;
    let r = f(ball.radius);
    let v_in = 2.0;
    let b = rolling_at(DVec3::new(0.0, v_in, 0.0), r);
    let n = DVec3::new(0.0, 1.0, 0.0);
    let out = mathavan2010_rebound(&b, n, &ball, &phys, 7.0 * r / 5.0);
    assert!(out.vel.y < 0.0, "must rebound away");
    assert!(out.vel.x.abs() < 1e-6, "symmetric impact must stay straight");
    let e = f(phys.cushion_restitution);
    let ratio = -out.vel.y / v_in;
    assert!(ratio > 0.45 * e && ratio < 1.05 * e, "rebound ratio {ratio:.3} for e {e}");
}

#[test]
fn mathavan_english_matches_han_direction() {
    let (ball, mut phys, _) = setup();
    phys.cushion_contact_steps = 2000;
    let r = f(ball.radius);
    let mut b = rolling_at(DVec3::new(0.3, 2.0, 0.0), r);
    b.angular_vel.z = 30.0;
    let h = 7.0 * r / 5.0;
    let n = DVec3::new(0.0, 1.0, 0.0);
    let han = han2005_rebound(&b, n, &ball, &phys, h);
    let mat = mathavan2010_rebound(&b, n, &ball, &phys, h);
    let d_han = han.vel.x - b.vel.x;
    let d_mat = mat.vel.x - b.vel.x;
    assert!(d_han.signum() == d_mat.signum(), "english must bend the same way");
    assert!(mat.vel.y < 0.0);
}

#[test]
fn restitution_slope_scales_with_speed() {
    let (ball, mut phys, _) = setup();
    phys.cushion_contact_steps = 2000;
    phys.cushion_restitution_slope = s(-0.05);
    let r = f(ball.radius);
    let h = 7.0 * r / 5.0;
    let n = DVec3::new(0.0, 1.0, 0.0);
    let at = |v: f64| mathavan2010_rebound(&rolling_at(DVec3::new(0.0, v, 0.0), r), n, &ball, &phys, h);
    let (r_slow, r_fast) = (-at(1.0).vel.y / 1.0, -at(4.0).vel.y / 4.0);
    assert!(r_fast < r_slow - 0.02, "fast impact should rebound relatively slower");
}

#[test]
fn three_ball_shot_runs_to_completion() {
    let (ball, phys, table) = setup();
    let r = f(ball.radius);
    let balls = [
        on_table(DVec3::new(-1.0, 0.0, r), DVec3::new(3.0, 0.2, 0.0)),
        on_table(DVec3::new(0.6, 0.25, r), DVec3::ZERO),
        on_table(DVec3::new(1.1, -0.15, r), DVec3::ZERO),
    ];
    let sim = simulate(&balls, &table, &ball, &phys);
    assert_eq!(sim.trajectories.len(), 3);
    let ball_hits =
        sim.events.iter().filter(|e| matches!(e.kind, ContactKind::BallBall { .. })).count();
    assert!(ball_hits >= 1, "expected a ball-ball collision");
    let mut last = 0.0;
    for e in &sim.events {
        assert!(f(e.time) >= last - 1e-12, "events must be ordered in time");
        last = f(e.time);
    }
    let [min_x, max_x, min_y, max_y] = bounds4(&table, &ball);
    for traj in &sim.trajectories {
        let rest = final_state(traj);
        assert!(rest.vel.length() < 1e-9, "all balls come to rest");
        assert!(rest.pos.x >= min_x - 1e-6 && rest.pos.x <= max_x + 1e-6, "x={}", rest.pos.x);
        assert!(rest.pos.y >= min_y - 1e-6 && rest.pos.y <= max_y + 1e-6, "y={}", rest.pos.y);
    }
}

/// Every instant of a whole shot lies in exactly one segment of each trajectory, and
/// no two rests follow one another.
#[test]
fn trajectories_have_no_gaps() {
    let (ball, phys, table) = setup();
    let r = f(ball.radius);
    let balls = [
        on_table(DVec3::new(-1.0, 0.0, r), DVec3::new(3.0, 0.2, 0.0)),
        on_table(DVec3::new(0.6, 0.25, r), DVec3::ZERO),
    ];
    let sim = simulate(&balls, &table, &ball, &phys);
    let end = f(sim.settled_time());
    for traj in &sim.trajectories {
        for i in 0..=200 {
            let t = s(end * 1.2 * i as f64 / 200.0);
            let holding = traj.segments.iter().filter(|g| g.contains(t)).count();
            assert_eq!(holding, 1);
        }
        for w in traj.segments.windows(2) {
            assert_eq!(w[0].t_end, w[1].t_start);
            let rests = [w[0].phase, w[1].phase];
            assert!(rests != [MotionPhase::Stationary, MotionPhase::Stationary]);
        }
    }
}

/// A three-ball shot, about 7 degrees at 5.15 m/s with running english, scores.
#[test]
fn known_shot_scores() {
    let (ball, phys, table) = setup();
    let r = f(ball.radius);
    let aim = 7f64.to_radians();
    let speed = 5.15;
    let cue = State {
        pos: DVec3::new(-1.15, -0.45, r),
        vel: DVec3::new(speed * aim.cos(), speed * aim.sin(), 0.0),
        angular_vel: DVec3::new(0.0, 0.0, 50.0),
    };
    let balls = [
        cue,
        State::at_rest(DVec3::new(0.65, 0.28, r)),
        State::at_rest(DVec3::new(1.05, -0.10, r)),
    ];
    let sim = simulate(&balls, &table, &ball, &phys);
    assert!(three_cushion_score(&sim, BallId(0)));
    assert!(sim.cushion_count(BallId(0)) >= 3);
}

fn corner5_arrival(cue_pos: DVec3, aim: f64, english: f64, speed: f64) -> Option<f64> {
    let (ball, phys, table) = setup();
    let (half_len, half_wid) = (f(table.length) / 2.0, f(table.width) / 2.0);
    let inset = contact_inset(&table, f(ball.radius));
    let target = DVec3::new(half_len - aim * DIAMOND, half_wid, f(ball.radius));
    let dir = (target - cue_pos).normalize();
    let cue = State {
        pos: cue_pos,
        vel: dir * speed,
        angular_vel: DVec3::new(0.0, 0.0, english),
    };
    let sim = simulate(&[cue], &table, &ball, &phys);
    let cushions: Vec<DVec3> = sim
        .events
        .iter()
        .filter(|e| matches!(e.kind, ContactKind::Cushion { ball } if ball == BallId(0)))
        .map(|e| state_at(&sim.trajectories[0], f(e.time)).pos)
        .collect();
    if cushions.len() < 3 {
        return None;
    }
    let (hx, hy) = (half_len - inset, half_wid - inset);
    let rail = |p: DVec3| -> char {
        if (p.y - hy).abs() < 0.02 {
            'T'
        } else if (p.y + hy).abs() < 0.02 {
            'B'
        } else if (p.x - hx).abs() < 0.02 {
            'R'
        } else if (p.x + hx).abs() < 0.02 {
            'L'
        } else {
            '?'
        }
    };
    let pattern: String = cushions[..3].iter().map(|&p| rail(p)).collect();
    if pattern != "TRB" {
        return None;
    }
    Some((half_len - cushions[2].x) / DIAMOND)
}

fn linfit(pts: &[(f64, f64)]) -> (f64, f64) {
    let n = pts.len() as f64;
    let (sx, sy): (f64, f64) = (pts.iter().map(|p| p.0).sum(), pts.iter().map(|p| p.1).sum());
    let sxx: f64 = pts.iter().map(|p| p.0 * p.0).sum();
    let sxy: f64 = pts.iter().map(|p| p.0 * p.1).sum();
    let slope = (n * sxy - sx * sy) / (n * sxx - sx * sx);
    (slope, (sy - slope * sx) / n)
}

fn corner5_points(english: f64) -> Vec<(f64, f64)> {
    let cue_pos = DVec3::new(-1.35, -0.60, f(BallSpec::carom().radius));
    [2.0, 2.5, 3.0, 3.5, 4.0]
        .into_iter()
        .filter_map(|aim| corner5_arrival(cue_pos, aim, english, 4.0).map(|t| (aim, t)))
        .collect()
}

#[test]
fn corner5_reproduces_diamond_system() {
    let pts = corner5_points(80.0);
    assert!(pts.len() >= 4, "expected valid corner-5 shots, got {}", pts.len());
    let (slope, intercept) = linfit(&pts);
    assert!((slope + 1.0).abs() < 0.2, "slope should be ≈ −1, got {slope:.3}");
    assert!((5.0..=6.5).contains(&intercept), "intercept should be ≈ 5, got {intercept:.3}");
    for &(aim, t) in &pts {
        let predicted = slope * aim + intercept;
        assert!((t - predicted).abs() < 0.5, "F={aim}: arrival {t:.2} vs fit {predicted:.2}");
    }
}

#[test]
fn running_english_opens_the_bank_angle() {
    let slope_at = |english: f64| linfit(&corner5_points(english)).0;
    assert!(slope_at(80.0) > slope_at(0.0), "running english should open the bank");
    assert!(slope_at(0.0) > slope_at(-40.0), "reverse english should steepen the bank");
}

/// A rebound soon after another cushion is boosted only where a chain restitution is
/// set, and the least and the greatest restitution hold.
#[test]
fn chain_restitution_boosts_a_quick_second_rebound() {
    let (ball, mut phys, table) = setup();
    let b = State {
        pos: DVec3::ZERO,
        vel: DVec3::new(2.0, 0.3, 0.0),
        angular_vel: DVec3::ZERO,
    };
    let n = DVec3::new(1.0, 0.0, 0.0);
    let h = f(table.cushion_height);
    let plain = rebound(&b, n, &ball, &phys, h, 1.0);
    phys.cushion_restitution_chain = s(0.05);
    let settled = rebound(&b, n, &ball, &phys, h, 0.0);
    let chained = rebound(&b, n, &ball, &phys, h, 1.0);
    assert_eq!(plain.vel, settled.vel);
    assert!(chained.vel.x < settled.vel.x, "a boosted rebound is faster");
    assert_eq!(f(effective_restitution(s(0.1))), 0.3);
    assert_eq!(f(effective_restitution(s(1.2))), 0.99);
    assert_eq!(f(effective_restitution(s(0.85))), 0.85);
}

/// English decays at a constant rate where boring friction is set, whatever else the
/// ball does, and stays at zero.
#[test]
fn boring_friction_decays_english() {
    let (ball, mut phys, table) = setup();
    let r = f(ball.radius);
    let spinning = |vel: DVec3| State {
        pos: DVec3::new(0.0, 0.0, r),
        vel,
        angular_vel: DVec3::new(0.0, 0.0, 20.0),
    };
    let english = |traj: &Trajectory, t: f64| state_at(traj, t).angular_vel.z;
    let plain = simulate_free(&spinning(DVec3::new(0.5, 0.0, 0.0)), &ball, &phys);
    assert_eq!(english(&plain, 1.0), 20.0);

    phys.mu_spin = s(0.01);
    let rate = 5.0 * 0.01 * f(phys.g) / (2.0 * r);
    for vel in [DVec3::ZERO, DVec3::new(0.5, 0.0, 0.0)] {
        let sim = simulate(&[spinning(vel)], &table, &ball, &phys);
        let free = simulate_free(&spinning(vel), &ball, &phys);
        for traj in [&sim.trajectories[0], &free] {
            for t in [0.3, 0.9, 1.5] {
                assert!((english(traj, t) - (20.0 - rate * t)).abs() < 1e-9);
            }
            assert_eq!(english(traj, 20.0 / rate + 0.1), 0.0);
            assert_eq!(english(traj, 90.0), 0.0);
        }
        let still = simulate_free(&State { angular_vel: DVec3::ZERO, ..spinning(vel) }, &ball, &phys);
        let end = state_at(&sim.trajectories[0], 90.0).pos;
        assert!((end - state_at(&still, 90.0).pos).length() < 1e-9, "the path is the same");
    }
}

/// The scheduler on one ball is the run of that ball on its own.
#[test]
fn one_ball_alone_is_the_ball_on_its_own() {
    let (ball, phys, table) = setup();
    let r = f(ball.radius);
    for (vx, vy, english) in [(3.0, 1.1, 20.0), (-2.0, 2.7, -40.0), (0.4, 0.0, 0.0), (0.0, 0.0, 0.0)]
    {
        let start = State {
            pos: DVec3::new(0.2, -0.1, r),
            vel: DVec3::new(vx, vy, 0.0),
            angular_vel: DVec3::new(0.0, 0.0, english),
        };
        let solo = simulate_table(&start, &table, &ball, &phys);
        let alone = simulate(&[start], &table, &ball, &phys);
        assert_eq!(alone.trajectories[0].segments, solo.segments);
    }
}
