//! Reading a shot back and choosing a better one.

use billiards_coach::model::{CueAction, PhysicsParams};
use billiards_coach::scalar::Scalar;
use billiards_coach::solver::aim::{
    aim_window, banked_first, barely_observed, departure_pair, first_early, first_struck,
    gives_direction, in_the_open, is_early, spanning_window, speed_range, unpins_speed,
    window_union, FirstMotion,
};
use billiards_coach::solver::align::BounceLists;
use billiards_coach::solver::bounces::{
    crowded, dips, is_bounce, observed_bounces, steepest, BallTables, Bounce, Found, RailTable,
    SideSample, Sides,
};
use billiards_coach::solver::calibration::{keep_in_bounds, pack, try_value, unchanged, unpack};
use billiards_coach::solver::choice::{
    candidate_seed, executed_speed, hits, leader, least_repair_speed, most_forgiving, offset_grid,
    player_seed, repaired, scoring, shortlist, smallest_change, winner, Repair, Solution,
};
use billiards_coach::solver::config::{
    choose_pass, relaxed_wins, strict_explains, CalibConfig, ExecutionNoise, FitConfig, Pass,
    RepairConfig, SolveConfig,
};
use billiards_coach::solver::descent::{Descent, Probe, Windows};
use billiards_coach::solver::grid::{Cell, Grid};
use billiards_coach::solver::launch::{
    chord_end, departs, departure_sample, fallback_sample, launch_speed, speed_samples, Launch,
    LaunchReading, LaunchSample,
};
use billiards_coach::solver::measure::{velocity_holds, window_measurable};
use billiards_coach::solver::penalty::{
    charged_delay, contact_charge, contradicted, cushion_charge, first_above, nearest_rail,
    ContactCharge, CushionCharge, RailSample,
};
use billiards_coach::solver::rests::{
    back_distance, back_time, cue_bend_before, deflection_holds, window_ends, Pickup, Rest, Turn,
};
use billiards_coach::solver::search::{correction, first_target, AimEstimate, Departure};
use billiards_coach::solver::testimony::{FirstMove, OwnSample, Sighting, Testimony};

fn s(x: f64) -> Scalar {
    Scalar::from_bits(x.to_bits())
}

fn f(x: Scalar) -> f64 {
    f64::from_bits(x.bits)
}

fn ss(xs: &[f64]) -> Vec<Scalar> {
    xs.iter().map(|&x| s(x)).collect()
}

fn lists(observed: &[(f64, u8)], simulated: &[(f64, u8)]) -> BounceLists {
    BounceLists {
        observed: observed.iter().map(|b| b.1).collect(),
        simulated: simulated.iter().map(|b| b.1).collect(),
        gaps: observed
            .iter()
            .map(|o| simulated.iter().map(|b| s((o.0 - b.0).abs())).collect())
            .collect(),
    }
}

#[test]
fn alignment_keeps_the_order() {
    let a = lists(&[(1.0, 0), (2.0, 3)], &[(0.9, 3), (1.2, 0), (2.1, 3)]).align();
    assert_eq!(a.matched, 2);
    assert_eq!(a.used, [false, true, true]);
    // The same rails the other way round: only one of them pairs.
    let crossed = lists(&[(1.0, 0), (1.5, 1)], &[(1.0, 1), (1.5, 0)]).align();
    assert_eq!(crossed.matched, 1);
    assert_eq!(crossed.used.iter().filter(|u| **u).count(), 1);
    // Too far apart in time.
    assert_eq!(lists(&[(1.0, 0)], &[(2.1, 0)]).align().matched, 0);
    assert_eq!(lists(&[(1.0, 0)], &[(2.0, 0)]).align().matched, 1);
    assert_eq!(lists(&[], &[(2.0, 0)]).align().used, [false]);
}

#[test]
fn faithful_bounces_are_free() {
    let b = [(0.5, 1), (1.0, 2), (1.8, 0)];
    let far = vec![RailSample { apart: s(0.1), dist: s(1.0) }; 9];
    let charge = cushion_charge(&lists(&b, &b), &[far.clone(), far.clone(), far.clone()]);
    assert_eq!(charge, CushionCharge { missing: 0, fabricated: 0 });
    let wrong = cushion_charge(&lists(&b, &[(0.5, 3), (1.0, 2)]), &[far.clone(), far]);
    assert_eq!(wrong, CushionCharge { missing: 2, fabricated: 1 });
}

#[test]
fn contradiction_takes_five_far_samples() {
    let sample = |apart: f64, dist: f64| RailSample { apart: s(apart), dist: s(dist) };
    assert!(contradicted(&[sample(0.5, 0.3); 5]));
    assert!(!contradicted(&[sample(0.5, 0.3); 4]));
    let mut near = vec![sample(0.5, 0.3); 6];
    near[3] = sample(1.0, 0.25);
    assert!(!contradicted(&near));
    near[3] = sample(1.1, 0.0);
    assert!(contradicted(&near), "a sample at another time says nothing");
}

#[test]
fn contact_charges_by_kind() {
    assert_eq!(contact_charge(FirstMove::Still, Some(s(1.0))), ContactCharge::Fabricated);
    assert_eq!(contact_charge(FirstMove::At(s(1.0)), None), ContactCharge::Missing);
    let both = contact_charge(FirstMove::At(s(1.0)), Some(s(1.5)));
    assert_eq!(both, ContactCharge::Delay(s(1.0), s(1.5)));
    assert_eq!(contact_charge(FirstMove::Still, None), ContactCharge::Free);
    assert_eq!(contact_charge(FirstMove::Unreliable, Some(s(1.0))), ContactCharge::Free);
    assert_eq!((f(charged_delay(s(0.2))), f(charged_delay(s(3.0)))), (0.2, 0.6));
    assert_eq!(nearest_rail(&[s(0.3), s(0.1), s(0.1), s(0.4)]), 1);
    assert_eq!(first_above(&ss(&[0.0, 0.02, 0.03]), s(0.02)), Some(2));
    assert_eq!(first_above(&[], s(0.02)), None);
}

/// Ball 1 rests for three frames and then leaves; ball 0 comes by as `near` says, and
/// the distance of ball 1's samples to it is `overlap`.
fn testify(near: &[(f64, f64)], overlap: f64) -> Testimony {
    let dists = [0.0, 0.0, 0.0, 0.05, 0.10, 0.15, 0.20, 0.25];
    let t = |k: usize| k as f64 * 0.1;
    let own: Vec<OwnSample> = (0..dists.len())
        .map(|k| OwnSample {
            t: s(t(k)),
            from_rest: s(dists[k]),
            window_lo: s(t(k.max(1) - 1) - 0.35),
            window_hi: s(t(k) + 0.12),
            judged_until: s(t(k) + 1.2),
        })
        .collect();
    let n = own.len();
    Testimony {
        ball: 1,
        own,
        others: vec![
            near.iter().map(|&(t, d)| Sighting { t: s(t), from_rest: s(d) }).collect(),
            Vec::new(),
        ],
        overlap: vec![vec![s(overlap); n], vec![s(0.0); n]],
    }
}

#[test]
fn first_moves_need_a_cause() {
    let hit = testify(&[(0.0, 0.5), (0.25, 0.07), (0.4, 0.3)], 0.2);
    assert_eq!(hit.first_move(), FirstMove::At(s(0.25)));
    // The closest approach lies after the move: it is dated to it.
    let late = testify(&[(0.0, 0.5), (0.4, 0.1)], 0.2);
    assert_eq!(late.first_move(), FirstMove::At(s(3.0 * 0.1)));
    // Seen, and never near: an artifact.
    let far = testify(&[(0.0, 0.5), (0.2, 0.5), (0.4, 0.5), (0.6, 0.5), (0.8, 0.5)], 0.2);
    assert_eq!(far.first_move(), FirstMove::Still);
    // Out of sight: it could have been at the contact.
    let unseen = testify(&[(9.0, 0.5)], 0.2);
    assert_eq!(unseen.first_move(), FirstMove::At(s(3.0 * 0.1)));
    // The samples ride the other ball: a swapped identity.
    let swapped = testify(&[(0.25, 0.07)], 0.01);
    assert_eq!(swapped.first_move(), FirstMove::Unreliable);
    let none = Testimony { ball: 0, own: Vec::new(), others: Vec::new(), overlap: Vec::new() };
    assert_eq!(none.first_move(), FirstMove::Unreliable);
}

#[test]
fn dips_are_the_lowest_of_each_stretch() {
    assert_eq!(dips(&ss(&[0.5, 0.1, 0.05, 0.05, 0.3, 0.16, 0.15])), [2, 6]);
    assert!(dips(&ss(&[0.5, 0.16])).is_empty());
    assert_eq!(dips(&ss(&[0.1])), [0]);
}

#[test]
fn rises_are_read_beside_the_minimum() {
    let side = |age: f64, height: f64, slope: f64| SideSample {
        age: s(age),
        height: s(height),
        slope: s(slope),
    };
    let all = [side(0.1, 0.1, 0.5), side(0.2, 0.3, 1.5), side(0.5, 0.9, 9.0), side(0.3, 0.9, 9.0)];
    assert_eq!(f(steepest(&all, s(0.05))), 1.5, "beyond the first late sample nothing counts");
    assert_eq!(f(steepest(&all, s(0.2))), 1.5);
    assert_eq!(f(steepest(&all, s(0.5))), 0.0);
    assert!(is_bounce(s(0.3), s(0.3)) && !is_bounce(s(0.2), s(0.3)));
}

fn found(bounces: &[(f64, u8, f64)]) -> Found {
    Found {
        bounces: bounces
            .iter()
            .map(|&(t, rail, k)| Bounce { time: s(t), rail, strength: s(k) })
            .collect(),
        gaps: bounces.iter().map(|a| bounces.iter().map(|b| s(b.0 - a.0)).collect()).collect(),
    }
}

#[test]
fn corners_claim_the_harder_impact() {
    assert_eq!(found(&[(1.0, 0, 1.0), (1.05, 2, 3.0)]).settle(), [1]);
    assert_eq!(found(&[(1.0, 0, 3.0), (1.05, 2, 3.0)]).settle(), [0], "the first of equals");
    assert_eq!(found(&[(1.05, 2, 3.0), (1.0, 2, 1.0)]).settle(), [1, 0], "one rail, in time order");
    assert_eq!(found(&[(1.0, 0, 1.0), (1.2, 2, 3.0)]).settle(), [0, 1]);
    let near = vec![vec![Sighting { t: s(0.1), from_rest: s(0.1) }], Vec::new()];
    assert!(crowded(1, &near) && !crowded(0, &near));
}

fn launch(moved: &[f64]) -> Launch {
    Launch {
        samples: moved
            .iter()
            .enumerate()
            .map(|(k, &d)| LaunchSample {
                t: s(k as f64 / 30.0),
                age: s(k as f64 / 30.0),
                moved: s(d),
                obstacles: vec![s(1.0 - d)],
                rails: [s(1.0), s(1.0 - d), s(0.5), s(0.5)],
                cross: s(0.0),
                bend: s(0.31 * d),
            })
            .collect(),
        start_rails: [s(1.0); 4],
        stop_at: s(f64::INFINITY),
        guard: s(0.0865),
    }
}

#[test]
fn flight_ends_where_something_is_near() {
    let free = launch(&[0.0, 0.01, 0.1, 0.2, 0.3]);
    let flight = free.flight();
    assert_eq!((flight.rest, flight.free), (1, vec![2, 3, 4]));
    let mut stop = launch(&[0.0, 0.01, 0.1, 0.2, 0.3]);
    stop.stop_at = s(0.1);
    assert_eq!(stop.flight().free, [2]);
    let mut bent = launch(&[0.0, 0.1, 0.2, 0.3]);
    bent.samples[3].cross = s(0.1);
    assert_eq!(bent.flight().free, [1, 2]);
    bent.samples[1].cross = s(0.1);
    assert_eq!(bent.flight().free, [1, 2], "the first sample in flight has no chord");
    assert_eq!(launch(&[0.0, 0.5, 0.95, 0.96]).flight().free, [1], "an object ball is near");
    let mut rail = launch(&[0.0, 0.2, 0.4]);
    rail.samples[2].rails[3] = s(0.01);
    assert_eq!(rail.flight().free, [1]);
    rail.start_rails[3] = s(0.02);
    assert_eq!(rail.flight().free, [1, 2], "it started beside that rail");
    let mut slow = launch(&[0.0, 0.2, 0.4]);
    slow.samples[1].age = s(0.46);
    assert!(slow.flight().free.is_empty());
}

#[test]
fn launch_is_read_near_the_strike() {
    assert_eq!(chord_end(&ss(&[0.1, 0.15, 0.18, 0.25, 0.4])), 3);
    assert_eq!(chord_end(&ss(&[0.3, 0.4, 0.5])), 2);
    assert_eq!(chord_end(&ss(&[0.3, 0.4])), 1);
    assert_eq!(speed_samples(&ss(&[0.2, 0.3, 0.4])), 2);
    assert_eq!(speed_samples(&ss(&[0.03, 0.06, 0.1, 0.17, 0.2])), 4);
    assert_eq!(f(launch_speed(s(0.1), s(9.0))), 8.0);
    assert_eq!(f(launch_speed(s(0.1), s(0.01))), 0.1);
    assert_eq!(f(launch_speed(s(0.0), s(3.0))), 2.0);
    assert_eq!(fallback_sample(&ss(&[0.0, 0.014, 0.015])), Some(2));
    assert_eq!(fallback_sample(&ss(&[0.0])), None);
    assert_eq!(departure_sample(&ss(&[0.0, 0.06, 0.1, 0.25, 0.4])), Some(3));
    assert_eq!(departure_sample(&ss(&[0.0, 0.06, 0.04])), Some(1));
    assert_eq!(departure_sample(&ss(&[0.0, 0.05])), None);
    assert!(departs(s(0.06)) && !departs(s(0.05)));
}

#[test]
fn windows_span_what_was_observed() {
    assert_eq!(f(aim_window(s(0.03), s(0.2))), 0.12);
    assert_eq!(f(aim_window(s(0.18), s(0.2))), 0.18);
    assert!(barely_observed(s(0.06)) && !barely_observed(s(0.05)));
    let m = |t: f64, age: f64| FirstMotion { t: s(t), age: s(age) };
    assert_eq!(first_early(&[m(1.0, 0.9), m(2.0, 0.5), m(2.0, 0.1)]), Some(1));
    assert_eq!(first_early(&[m(1.0, 0.8)]), None);
    let moves = [FirstMove::Still, FirstMove::At(s(2.0)), FirstMove::At(s(1.0))];
    assert_eq!(first_struck(&moves), Some((2, s(1.0))));
    assert_eq!(first_struck(&[FirstMove::Unreliable]), None);
    assert!(is_early(s(0.79)) && !is_early(s(0.8)));
    assert!(in_the_open(&[s(0.2), s(0.11), s(0.5), s(0.6)]));
    assert!(!in_the_open(&[s(0.2), s(0.11), s(0.5), s(0.1)]));
    assert!(gives_direction(s(0.09)) && !gives_direction(s(0.08)));
    assert_eq!(spanning_window(s(0.03), s(0.3), s(0.19)).map(f), Some(0.19));
    assert_eq!(spanning_window(s(0.03), s(0.3), s(0.5)).map(f), Some(0.2));
    assert_eq!(spanning_window(s(0.03), s(0.35), s(0.2)), None);
    assert!(banked_first(&[(s(0.5), 1)], s(0.6)) && !banked_first(&[(s(0.6), 1)], s(0.6)));
    assert!(unpins_speed(s(0.3), s(0.2), s(0.0), s(1.0)));
    assert!(unpins_speed(s(0.1), s(0.2), s(1.1), s(1.0)));
    assert!(!unpins_speed(s(0.1), s(0.2), s(1.0), s(1.0)));
    assert_eq!(departure_pair(&ss(&[0.0, 0.03, 0.0, 0.05]), &ss(&[0.0, 0.1, 0.2, 0.3])), Some((1, 3)));
    assert_eq!(departure_pair(&ss(&[0.03, 0.05]), &ss(&[0.1, 0.1])), None);
    assert_eq!(window_union(s(-0.1), s(0.1), s(-0.3), s(0.05)), (s(-0.3), s(0.1)));
    assert_eq!(speed_range(false, s(0.8), s(6.5), s(0.5), s(3.0)), (s(0.8), s(3.0)));
    assert_eq!(speed_range(true, s(0.8), s(6.5), s(0.5), s(3.0)), (s(0.8), s(6.5)));
}

#[test]
fn descent_keeps_what_improves() {
    let mut d = Descent::new(ss(&[1.0, 2.0]), s(5.0), ss(&[0.4, 0.2]), 2);
    assert_eq!(d.probe(), Some(Probe { coord: 0, up: true }));
    d.judge(s(1.4), s(4.0));
    assert_eq!(d.probe(), Some(Probe { coord: 0, up: false }));
    d.judge(s(1.0), s(4.0));
    assert_eq!(f(d.point[0]), 1.4, "an equal error is no improvement");
    d.pass();
    d.judge(s(1.8), s(9.0));
    assert_eq!(d.probe(), None);
    d.end_round(ss(&[0.2, 0.1]), None);
    assert_eq!((f(d.steps[0]), d.rounds), (0.4, 1));
    for _ in 0..4 {
        d.pass();
    }
    d.end_round(ss(&[0.2, 0.1]), Some(s(0.3)));
    assert_eq!((f(d.steps[0]), d.rounds), (0.2, 0));
    assert_eq!((f(d.point[0]), f(d.point[1]), f(d.err)), (1.4, 2.0, 4.0));
    let mut tiny = Descent::new(ss(&[1.0]), s(5.0), ss(&[0.4]), 9);
    tiny.pass();
    tiny.pass();
    tiny.end_round(ss(&[5e-5]), Some(s(1e-4)));
    assert_eq!(tiny.rounds, 0, "all steps are below the floor");
}

#[test]
fn searches_stay_in_their_windows() {
    let w = Windows {
        aim: (s(-0.1), s(0.1)),
        speed: (s(1.0), s(2.0)),
        miscue_limit: s(0.5),
    };
    assert!(w.admits(0, s(0.1), s(0.5)) && !w.admits(0, s(0.11), s(0.0)));
    assert!(w.admits(1, s(1.0), s(0.0)) && !w.admits(1, s(0.9), s(0.0)));
    assert!(w.admits(2, s(9.0), s(0.5)) && !w.admits(3, s(9.0), s(0.51)));
    assert_eq!(f(keep_in_bounds(0, s(1.0))), 0.98);
    assert_eq!(f(keep_in_bounds(1, s(0.0))), 0.05);
    assert_eq!(f(keep_in_bounds(2, s(0.2))), 0.2);
    assert_eq!(f(keep_in_bounds(3, s(0.0))), 0.003);
    assert!(unchanged(s(0.0)) && !unchanged(s(1e-12)));
}

fn action(aim: f64) -> CueAction {
    CueAction { aim: s(aim), speed: s(2.0), sidespin: s(0.0), follow: s(0.0) }
}

#[test]
fn most_forgiving_is_the_first_of_the_best() {
    let shots = [action(0.0), action(1.0), action(2.0)];
    let best = most_forgiving(&shots, &ss(&[0.2, 0.7, 0.7])).unwrap();
    assert_eq!(best.action, action(1.0));
    assert_eq!((f(best.success_prob), best.scoring_cells), (0.7, 3));
    assert!(most_forgiving(&[], &[]).is_none());
    assert_eq!(leader(&ss(&[f64::NAN, 1.0])), Some(0));
    let label = |p: f64| {
        Solution { action: action(0.0), success_prob: s(p), scoring_cells: 1 }.category()
    };
    assert_eq!((label(0.7), label(0.69)), ("easy", "medium"));
    assert_eq!((label(0.45), label(0.44)), ("medium", "hard"));
    assert_eq!((label(0.2), label(0.19)), ("hard", "very hard"));
}

#[test]
fn seeds_are_fixed() {
    assert_eq!(player_seed(0x5EED), 0x5EED ^ 0xB0B5_CA7E);
    assert_eq!(candidate_seed(0x5EED, 0), 0x5EED);
    assert_eq!(candidate_seed(0, 3), 3u64.wrapping_mul(0x9E37_79B9_7F4A_7C15));
    assert_eq!(hits(&[true, false, true]), 2);
    assert_eq!((f(executed_speed(s(0.1))), f(executed_speed(s(3.0)))), (0.2, 3.0));
    assert_eq!((f(least_repair_speed(s(-1.0))), f(least_repair_speed(s(3.0)))), (0.4, 3.0));
}

#[test]
fn candidates_are_ranked() {
    assert_eq!(offset_grid(&ss(&[0.3, 0.25, 0.1]), s(0.25)), [1, 2]);
    assert_eq!(shortlist(&ss(&[3.0, 1.0, 2.0, 1.0]), 3), [1, 3, 2]);
    assert_eq!(shortlist(&ss(&[3.0, 1.0]), 9), [1, 0]);
    assert_eq!(winner(&ss(&[3.0, 1.0, 1.0])), Some(1));
    assert_eq!(winner(&[]), None);
}

#[test]
fn smallest_change_that_scores() {
    let row = |cs: &[Option<f64>]| cs.iter().map(|c| c.map(s)).collect::<Vec<_>>();
    let rows = [
        row(&[None, Some(4.0), Some(2.0)]),
        row(&[None, None, None]),
        row(&[Some(1.5), Some(1.5), Some(1.6)]),
        row(&[Some(1.5), None, None]),
    ];
    assert_eq!(smallest_change(&rows), Some((2, 0)));
    assert_eq!(smallest_change(&rows[1..2]), None);
    let same = Repair::unchanged(action(1.0), s(0.6));
    assert!(same.already_scores && same.action == action(1.0));
    assert_eq!([same.d_aim, same.d_speed, same.d_english, same.d_follow, same.cost], [s(0.0); 5]);
    assert_eq!(f(same.success_prob), 0.6);
    let near = Repair { already_scores: false, action: action(2.0), ..same };
    assert_eq!(repaired(action(1.0), true, s(0.6), Some(near)), Some(same));
    assert_eq!(repaired(action(1.0), true, s(0.6), None), Some(same));
    assert_eq!(repaired(action(1.0), false, s(0.6), Some(near)), Some(near));
    assert_eq!(repaired(action(1.0), false, s(0.6), None), None);
}

#[test]
fn default_settings() {
    let n = ExecutionNoise::default();
    assert_eq!((f(n.aim_sd), f(n.speed_sd), f(n.offset_sd)), (0.025, 0.15, 0.04));
    let c = SolveConfig::default();
    assert_eq!((c.aim_steps, c.speed_steps, c.offset_steps, c.mc_samples), (180, 11, 7, 64));
    assert_eq!((f(c.speed_min), f(c.speed_max), f(c.miscue_limit)), (1.0, 6.0, 0.5));
    assert_eq!((c.seed, c.noise), (0x5EED, n));
    let r = RepairConfig::default();
    assert_eq!((r.aim_steps, r.speed_steps, r.offset_steps, r.mc_samples), (41, 17, 7, 48));
    assert_eq!((f(r.aim_window), f(r.speed_window), f(r.miscue_limit)), (0.35, 2.0, 0.5));
    assert_eq!((f(r.aim_scale), f(r.speed_scale), f(r.offset_scale)), (0.087, 0.5, 0.15));
    assert_eq!((r.seed, r.noise), (0x5EED, n));
    let t = FitConfig::default();
    assert_eq!((t.aim_steps, t.speed_steps, t.offset_steps), (41, 14, 7));
    assert_eq!((t.refine_iters, t.multistart, t.skeleton), (60, 24, true));
    assert_eq!((f(t.speed_min), f(t.speed_max), f(t.miscue_limit)), (0.8, 6.5, 0.5));
    assert_eq!((f(t.aim_window), f(t.speed_window)), (0.18, 0.22));
    let k = CalibConfig::default();
    assert_eq!((k.iters, k.fit.aim_steps, k.fit.speed_steps, k.fit.offset_steps), (50, 31, 8, 5));
    assert_eq!((k.fit.multistart, k.fit.refine_iters), (8, 30));
    assert_eq!(k.fit.aim_window, t.aim_window);
    let wide = t.relaxed(s(0.72), s(0.35));
    assert_eq!((f(wide.aim_window), f(wide.speed_window), f(wide.miscue_limit)), (0.72, 0.35, 0.72));
    let least = t.relaxed(s(0.04), s(0.9));
    assert_eq!((f(least.aim_window), f(least.speed_window)), (0.1, 0.5));
    assert_eq!(least.multistart, 24);
    assert!(strict_explains(s(0.3)) && !strict_explains(s(0.31)));
    assert!(relaxed_wins(s(0.2), s(0.24)) && !relaxed_wins(s(0.24), s(0.24)));
}

fn pickup() -> Pickup {
    Pickup {
        dists: ss(&[0.0, 0.03, 0.06]),
        ages: ss(&[0.0, 0.03, 0.06]),
        spread: s(0.01),
        speed: s(1.0),
        detected_gap: s(0.1),
        traced_gap: s(0.06),
        allowed_gap: s(0.11),
        deflected_gap: None,
    }
}

#[test]
fn late_pickups_are_traced() {
    assert_eq!(pickup().rest_of(), Rest::Traced);
    assert_eq!(Pickup { dists: Vec::new(), ages: Vec::new(), ..pickup() }.rest_of(), Rest::Unknown);
    assert_eq!(Pickup { dists: ss(&[0.0, 0.0, 0.02]), ..pickup() }.rest_of(), Rest::Detected);
    assert_eq!(Pickup { ages: ss(&[0.0, 0.09, 0.2]), ..pickup() }.rest_of(), Rest::Detected);
    assert_eq!(Pickup { spread: s(1e-9), ..pickup() }.rest_of(), Rest::Detected);
    assert_eq!(Pickup { speed: s(0.14), ..pickup() }.rest_of(), Rest::Detected);
    let wide = Pickup { traced_gap: s(0.2), ..pickup() };
    assert_eq!(wide.rest_of(), Rest::Detected);
    assert_eq!(Pickup { deflected_gap: Some(s(0.2)), ..wide }.rest_of(), Rest::Deflected);
    let away = Pickup { detected_gap: s(0.3), deflected_gap: Some(s(0.2)), ..pickup() };
    assert_eq!(away.rest_of(), Rest::Detected);
    assert_eq!((f(back_time(s(-0.1))), f(back_time(s(1.0)))), (0.0, 0.25));
    assert_eq!((f(back_distance(s(0.2))), f(back_distance(s(1.0)))), (0.2, 0.3));
}

#[test]
fn bends_and_deflections() {
    let turn = |t: f64, step: f64, cosine: f64| Turn {
        t: s(t),
        before: s(step),
        after: s(step),
        cosine: s(cosine),
    };
    let turns = [turn(0.1, 0.1, 0.5), turn(0.2, 0.1, 0.99), turn(0.3, 0.005, 0.1), turn(0.5, 0.1, 0.1)];
    assert_eq!(cue_bend_before(&turns, s(0.4)), Some(0));
    assert_eq!(cue_bend_before(&turns, s(0.5)), Some(3));
    assert_eq!(cue_bend_before(&turns, s(0.05)), None);
    assert_eq!(window_ends(&ss(&[0.0, 0.1, 0.2, 0.3]), s(0.05), s(0.25)), Some((1, 2)));
    assert_eq!(window_ends(&ss(&[0.0, 0.1]), s(0.5), s(0.6)), None);
    assert!(deflection_holds(s(0.1), s(0.1), s(0.3), s(0.3)));
    assert!(!deflection_holds(s(0.05), s(0.1), s(0.3), s(0.3)));
    assert!(!deflection_holds(s(0.1), s(0.1), s(0.29), s(0.3)));
}

#[test]
fn windows_that_measure() {
    assert!(window_measurable(3, s(0.1), &ss(&[0.05, 0.05])));
    assert!(!window_measurable(2, s(0.1), &ss(&[0.1])));
    assert!(!window_measurable(3, s(0.09), &ss(&[0.05, 0.04])));
    assert!(!window_measurable(3, s(0.2), &ss(&[0.07, 0.13])));
    assert!(velocity_holds(s(0.1), s(1.0)));
    assert!(!velocity_holds(s(0.0), s(1.0)) && !velocity_holds(s(0.1), s(0.0)));
}

#[test]
fn cells_go_by_aim_then_speed_then_strike() {
    let g = Grid { aims: 2, speeds: 3, strikes: 4 };
    assert_eq!(g.count(), Some(24));
    assert_eq!(g.cell(0), Cell { aim: 0, speed: 0, strike: 0 });
    assert_eq!(g.cell(7), Cell { aim: 0, speed: 1, strike: 3 });
    assert_eq!(g.cell(12), Cell { aim: 1, speed: 0, strike: 0 });
    assert_eq!(g.cell(23), Cell { aim: 1, speed: 2, strike: 3 });
    let cells: Vec<(usize, usize, usize)> =
        (0..24).map(|k| g.cell(k)).map(|c| (c.aim, c.speed, c.strike)).collect();
    assert!(cells.windows(2).all(|w| w[0] < w[1]));
    assert_eq!(Grid { aims: usize::MAX, speeds: 2, strikes: 1 }.count(), None);
    assert_eq!(Grid { aims: usize::MAX, speeds: 2, strikes: 0 }.count(), Some(0));
    assert_eq!(scoring(&[true, false, false, true]), [0, 3]);
    assert!(scoring(&[false]).is_empty());
}

#[test]
fn launches_are_read_off_the_flight() {
    match launch(&[0.0, 0.01, 0.1, 0.2, 0.3]).read() {
        LaunchReading::Flight { rest, free, end } => {
            assert_eq!((rest, free, end), (1, vec![2, 3, 4], 2));
        }
        other => panic!("{other:?}"),
    }
    // At an object ball at once: only the first sample past the wobble is left.
    match launch(&[0.0, 0.95, 0.96]).read() {
        LaunchReading::Blurred { rest, sample } => assert_eq!((rest, sample), (0, 1)),
        other => panic!("{other:?}"),
    }
    assert!(matches!(launch(&[0.0, 0.01]).read(), LaunchReading::Unknown));
    assert!(matches!(launch(&[]).read(), LaunchReading::Unknown));
}

fn departure(dists: &[f64], reach: f64, off: f64) -> Departure {
    Departure {
        rails: [s(0.5); 4],
        dists: ss(dists),
        aims: dists
            .iter()
            .map(|_| AimEstimate { reach: s(reach), off: s(off), half: s(off / 2.0 + 0.04) })
            .collect(),
    }
}

#[test]
fn departures_correct_a_blurred_aim() {
    let m = |t: f64, age: f64| FirstMotion { t: s(t), age: s(age) };
    let moves = [m(0.5, 0.5), m(0.2, 0.2)];
    let far = [0.0, 0.06, 0.1, 0.3, 0.5];
    let seen = |off: f64| vec![None, Some(departure(&far, 0.4, off))];
    let (i, k, w) = correction(s(0.03), s(0.1), &moves, &seen(0.2)).unwrap();
    assert_eq!((i, k, f(w)), (1, 3, 0.14));
    assert!(correction(s(0.03), s(0.05), &moves, &seen(0.2)).is_none(), "well observed");
    assert!(correction(s(0.03), s(0.1), &moves, &seen(0.35)).is_none(), "they disagree");
    let late = [m(0.9, 0.9), m(0.8, 0.8)];
    assert!(correction(s(0.03), s(0.1), &late, &seen(0.2)).is_none());
    assert!(correction(s(0.03), s(0.1), &moves, &[None, None]).is_none());
    let still = vec![None, Some(departure(&[0.0, 0.05], 0.4, 0.2))];
    assert!(correction(s(0.03), s(0.1), &moves, &still).is_none());
    let near = vec![None, Some(departure(&far, 0.08, 0.2))];
    assert!(correction(s(0.03), s(0.1), &moves, &near).is_none());
    let railed = Departure { rails: [s(0.5), s(0.1), s(0.5), s(0.5)], ..departure(&far, 0.4, 0.2) };
    assert!(correction(s(0.03), s(0.1), &moves, &[None, Some(railed)]).is_none());
}

#[test]
fn the_first_struck_ball_must_be_reached() {
    let moves = [FirstMove::At(s(0.6)), FirstMove::At(s(0.4)), FirstMove::Still];
    let ages = ss(&[0.6, 0.4, 9.0]);
    let reaches = ss(&[0.5, 0.5]);
    assert_eq!(first_target(&moves, &ages, &[], &reaches), Some(1));
    assert_eq!(first_target(&moves, &ages, &[(s(0.4), 0)], &reaches), Some(1));
    assert_eq!(first_target(&moves, &ages, &[(s(0.3), 0)], &reaches), None, "a bank first");
    assert_eq!(first_target(&moves, &ss(&[0.6, 0.8, 9.0]), &[], &reaches), None, "too late");
    assert_eq!(first_target(&moves, &ages, &[], &reaches[..1]), None, "not in the scene");
    assert_eq!(first_target(&moves, &ages, &[], &ss(&[0.5, 0.08])), None, "too near");
    assert_eq!(first_target(&moves[2..], &ages[2..], &[], &reaches), None);
}

/// A track beside one rail, as heights at tenths of a second.
fn beside(heights: &[f64]) -> RailTable {
    let t = |k: usize| k as f64 * 0.1;
    let side = |m: usize, ks: Vec<usize>| -> Vec<SideSample> {
        ks.into_iter()
            .map(|k| {
                let age = (t(k) - t(m)).abs();
                let slope = (heights[k] - heights[m]) / age;
                SideSample { age: s(age), height: s(heights[k]), slope: s(slope) }
            })
            .collect()
    };
    let sides = dips(&ss(heights))
        .into_iter()
        .map(|m| {
            let floor = s(heights[m] + 0.03);
            let before = side(m, (0..m).rev().collect());
            let after = side(m, (m + 1..heights.len()).collect());
            let strength = s(f(steepest(&before, floor)) + f(steepest(&after, floor)));
            Sides { floor, before, after, strength, around: Vec::new() }
        })
        .collect();
    RailTable { dists: ss(heights), sides }
}

#[test]
fn tracks_show_their_bounces() {
    let times: Vec<f64> = (0..7).map(|k| k as f64 * 0.1).collect();
    let later: Vec<Vec<Scalar>> =
        times.iter().map(|a| times.iter().map(|b| s(b - a)).collect()).collect();
    let v = [0.5, 0.3, 0.1, 0.3, 0.5, 0.7, 0.9];
    let soft = [0.15, 0.12, 0.05, 0.09, 0.15, 0.2, 0.2];
    let late = [0.9, 0.7, 0.5, 0.4, 0.3, 0.1, 0.3];
    let far = [0.5; 7];
    let show = |rails: [&[f64]; 4]| -> Vec<(usize, f64, u8)> {
        observed_bounces(&ss(&times), &rails.map(beside), &later)
            .into_iter()
            .map(|b| (b.sample, f(b.bounce.time), b.bounce.rail))
            .collect()
    };
    assert_eq!(show([&far, &far, &far, &v]), [(2, 0.2, 3)]);
    assert_eq!(show([&late, &far, &v, &far]), [(2, 0.2, 2), (5, 0.5, 0)], "in the order of time");
    // Two rails at one moment: only the harder impact.
    assert_eq!(show([&soft, &far, &far, &v]), [(2, 0.2, 3)]);
    assert_eq!(show([&soft, &far, &far, &far]), [(2, 0.2, 0)]);
    assert!(show([&far, &far, &far, &far]).is_empty());

    // A bounce is claimed where no other ball was near it.
    let mut rails = [&late[..], &far, &v, &far].map(beside);
    let sighting = |t: f64, d: f64| vec![vec![Sighting { t: s(t), from_rest: s(d) }], Vec::new()];
    rails[0].sides[0].around = sighting(0.1, 0.3);
    rails[2].sides[0].around = sighting(0.1, 0.1);
    let tables = BallTables { times: ss(&times), rails, later };
    assert_eq!(tables.claims(1), [(s(0.5), 0)]);
    assert_eq!(tables.claims(0), [(s(0.2), 2), (s(0.5), 0)], "its own samples say nothing");
}

#[test]
fn relaxing_never_worsens_the_fit() {
    for strict in [0.1, 0.3, 0.31, 0.5, 2.0] {
        for relaxed in [0.0, 0.2, 0.24, 0.39, 0.4, 3.0] {
            let limit = strict * 0.8;
            let kept = match choose_pass(s(strict), s(relaxed), s(limit)) {
                Pass::Strict => strict,
                Pass::Relaxed => relaxed,
            };
            assert!(kept <= strict);
            assert_eq!(kept == relaxed && kept != strict, strict > 0.3 && relaxed < limit);
        }
    }
    let nan = s(f64::NAN);
    assert_eq!(choose_pass(nan, s(0.1), nan), Pass::Strict);
}

#[test]
fn calibrated_parameters_are_packed() {
    let base = PhysicsParams::default();
    let x = pack(&base);
    assert_eq!(x, ss(&[0.85, 0.2, 0.2, 0.01]));
    let p = unpack(&base, &ss(&[0.9, 0.3, 0.15, 0.005]));
    assert_eq!((f(p.cushion_restitution), f(p.cushion_friction)), (0.9, 0.3));
    assert_eq!((f(p.mu_slide), f(p.mu_roll)), (0.15, 0.005));
    assert_eq!(unpack(&p, &x), base);
}

#[test]
fn only_dated_contacts_need_their_order() {
    let swap = |near: &[(f64, f64)], a: usize, b: usize| {
        let mut x = testify(near, 0.2);
        let t = x.own[a].t;
        x.own[a].t = x.own[b].t;
        x.own[b].t = t;
        x
    };
    let near = [(0.0, 0.5), (0.25, 0.07), (0.4, 0.3)];
    assert!(testify(&near, 0.2).can_be_dated());
    // The samples about the departure are in disorder.
    assert!(!swap(&near, 2, 3).can_be_dated());
    // Others may be.
    let other = swap(&near, 0, 1);
    assert!(other.can_be_dated());
    assert_eq!(other.first_move(), FirstMove::At(s(0.25)));
    let unseen = swap(&[(9.0, 0.5)], 6, 7);
    assert!(unseen.can_be_dated());
}

#[test]
fn tries_stay_in_bounds() {
    let base = PhysicsParams::default();
    let mut d = Descent::new(pack(&base), s(1.0), ss(&[0.5, 0.5, 0.5, 0.5]), 1);
    try_value(&mut d, s(1.35), s(0.13), s(0.5));
    assert_eq!((f(d.point[0]), f(d.err)), (0.98, 0.5), "kept at the bound");
    try_value(&mut d, s(0.48), s(0.38), s(0.7));
    assert_eq!(f(d.point[0]), 0.98, "no better");
    try_value(&mut d, s(0.7), s(0.0), s(0.1));
    assert_eq!((f(d.point[1]), f(d.err)), (0.2, 0.5), "nothing changes");
    try_value(&mut d, s(-0.3), s(0.15), s(0.4));
    assert_eq!((f(d.point[1]), f(d.err)), (0.05, 0.4));
    assert_eq!(d.probe(), Some(Probe { coord: 2, up: true }));
}
