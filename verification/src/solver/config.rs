//! Search settings and their defaults.

use vstd::prelude::*;

use crate::scalar::{num, Scalar};

verus! {

/// How precisely the player executes an intended action, as standard deviations.
#[derive(Clone, Copy, Debug, PartialEq, Eq, Structural)]
pub struct ExecutionNoise {
    /// rad
    pub aim_sd: Scalar,
    /// m/s
    pub speed_sd: Scalar,
    /// Tip placement, as a fraction of the ball radius.
    pub offset_sd: Scalar,
}

impl ExecutionNoise {
    /// A practised player.
    pub open spec fn standard() -> ExecutionNoise {
        ExecutionNoise {
            aim_sd: num(0x3F99_9999_9999_999A), // 0.025
            speed_sd: num(0x3FC3_3333_3333_3333), // 0.15
            offset_sd: num(0x3FA4_7AE1_47AE_147B), // 0.04
        }
    }
}

impl Default for ExecutionNoise {
    fn default() -> (c: ExecutionNoise)
        ensures
            c == ExecutionNoise::standard(),
    {
        ExecutionNoise {
            aim_sd: num(0x3F99_9999_9999_999A),
            speed_sd: num(0x3FC3_3333_3333_3333),
            offset_sd: num(0x3FA4_7AE1_47AE_147B),
        }
    }
}

/// Search resolution and robustness settings.
#[derive(Clone, Copy, Debug, PartialEq, Eq, Structural)]
pub struct SolveConfig {
    pub aim_steps: usize,
    /// m/s
    pub speed_min: Scalar,
    /// m/s
    pub speed_max: Scalar,
    pub speed_steps: usize,
    /// Steps per tip-offset axis (english and follow/draw each).
    pub offset_steps: usize,
    /// Max tip offset as a fraction of the ball radius.
    pub miscue_limit: Scalar,
    pub mc_samples: usize,
    pub noise: ExecutionNoise,
    pub seed: u64,
}

impl SolveConfig {
    /// The full search.
    pub open spec fn standard() -> SolveConfig {
        SolveConfig {
            aim_steps: 180,
            speed_min: num(0x3FF0_0000_0000_0000), // 1.0
            speed_max: num(0x4018_0000_0000_0000), // 6.0
            speed_steps: 11,
            offset_steps: 7,
            miscue_limit: num(0x3FE0_0000_0000_0000), // 0.5
            mc_samples: 64,
            noise: ExecutionNoise::standard(),
            seed: 0x5EED,
        }
    }
}

impl Default for SolveConfig {
    fn default() -> (c: SolveConfig)
        ensures
            c == SolveConfig::standard(),
    {
        SolveConfig {
            aim_steps: 180,
            speed_min: num(0x3FF0_0000_0000_0000),
            speed_max: num(0x4018_0000_0000_0000),
            speed_steps: 11,
            offset_steps: 7,
            miscue_limit: num(0x3FE0_0000_0000_0000),
            mc_samples: 64,
            noise: ExecutionNoise::default(),
            seed: 0x5EED,
        }
    }
}

/// How far around the player's shot a repair looks, and how each kind of change is weighed.
#[derive(Clone, Copy, Debug, PartialEq, Eq, Structural)]
pub struct RepairConfig {
    /// rad, on either side of the player's aim.
    pub aim_window: Scalar,
    /// m/s, on either side of the player's speed.
    pub speed_window: Scalar,
    pub aim_steps: usize,
    pub speed_steps: usize,
    pub offset_steps: usize,
    pub miscue_limit: Scalar,
    /// Just-noticeable aim change (rad).
    pub aim_scale: Scalar,
    /// Just-noticeable speed change (m/s).
    pub speed_scale: Scalar,
    /// Just-noticeable tip change (fraction of the radius).
    pub offset_scale: Scalar,
    pub mc_samples: usize,
    pub noise: ExecutionNoise,
    pub seed: u64,
}

impl RepairConfig {
    /// The usual neighborhood.
    pub open spec fn standard() -> RepairConfig {
        RepairConfig {
            aim_window: num(0x3FD6_6666_6666_6666), // 0.35
            speed_window: num(0x4000_0000_0000_0000), // 2.0
            aim_steps: 41,
            speed_steps: 17,
            offset_steps: 7,
            miscue_limit: num(0x3FE0_0000_0000_0000), // 0.5
            aim_scale: num(0x3FB6_45A1_CAC0_8312), // 0.087
            speed_scale: num(0x3FE0_0000_0000_0000), // 0.5
            offset_scale: num(0x3FC3_3333_3333_3333), // 0.15
            mc_samples: 48,
            noise: ExecutionNoise::standard(),
            seed: 0x5EED,
        }
    }
}

impl Default for RepairConfig {
    fn default() -> (c: RepairConfig)
        ensures
            c == RepairConfig::standard(),
    {
        RepairConfig {
            aim_window: num(0x3FD6_6666_6666_6666),
            speed_window: num(0x4000_0000_0000_0000),
            aim_steps: 41,
            speed_steps: 17,
            offset_steps: 7,
            miscue_limit: num(0x3FE0_0000_0000_0000),
            aim_scale: num(0x3FB6_45A1_CAC0_8312),
            speed_scale: num(0x3FE0_0000_0000_0000),
            offset_scale: num(0x3FC3_3333_3333_3333),
            mc_samples: 48,
            noise: ExecutionNoise::default(),
            seed: 0x5EED,
        }
    }
}

/// Search resolution for reading a shot back.
#[derive(Clone, Copy, Debug, PartialEq, Eq, Structural)]
pub struct FitConfig {
    pub aim_steps: usize,
    /// m/s
    pub speed_min: Scalar,
    /// m/s
    pub speed_max: Scalar,
    pub speed_steps: usize,
    pub offset_steps: usize,
    pub miscue_limit: Scalar,
    pub refine_iters: usize,
    /// Refine from this many best grid candidates.
    pub multistart: usize,
    /// Half-width (rad) of the aim search around the observed heading.
    pub aim_window: Scalar,
    /// Fractional half-width of the speed search around the observed
    /// launch speed.
    pub speed_window: Scalar,
    /// Hold candidates to the observed cushion bounces.
    pub skeleton: bool,
}

impl FitConfig {
    /// The full fit.
    pub open spec fn standard() -> FitConfig {
        FitConfig {
            aim_steps: 41,
            speed_min: num(0x3FE9_9999_9999_999A), // 0.8
            speed_max: num(0x401A_0000_0000_0000), // 6.5
            speed_steps: 14,
            offset_steps: 7,
            miscue_limit: num(0x3FE0_0000_0000_0000), // 0.5
            refine_iters: 60,
            multistart: 24,
            aim_window: num(0x3FC7_0A3D_70A3_D70A), // 0.18
            speed_window: num(0x3FCC_28F5_C28F_5C29), // 0.22
            skeleton: true,
        }
    }
}

impl Default for FitConfig {
    fn default() -> (c: FitConfig)
        ensures
            c == FitConfig::standard(),
    {
        FitConfig {
            aim_steps: 41,
            speed_min: num(0x3FE9_9999_9999_999A),
            speed_max: num(0x401A_0000_0000_0000),
            speed_steps: 14,
            offset_steps: 7,
            miscue_limit: num(0x3FE0_0000_0000_0000),
            refine_iters: 60,
            multistart: 24,
            aim_window: num(0x3FC7_0A3D_70A3_D70A),
            speed_window: num(0x3FCC_28F5_C28F_5C29),
            skeleton: true,
        }
    }
}

/// Settings for calibration.
#[derive(Clone, Copy, Debug, PartialEq, Eq, Structural)]
pub struct CalibConfig {
    /// Inner action-fit resolution, kept coarse: residuals are needed, not perfect
    /// actions.
    pub fit: FitConfig,
    pub iters: usize,
}

impl CalibConfig {
    /// The usual calibration.
    pub open spec fn standard() -> CalibConfig {
        CalibConfig {
            fit: FitConfig {
                aim_steps: 31,
                speed_steps: 8,
                offset_steps: 5,
                multistart: 8,
                refine_iters: 30,
                ..FitConfig::standard()
            },
            iters: 50,
        }
    }
}

impl Default for CalibConfig {
    fn default() -> (c: CalibConfig)
        ensures
            c == CalibConfig::standard(),
    {
        let mut fit: FitConfig = FitConfig::default();
        fit.aim_steps = 31;
        fit.speed_steps = 8;
        fit.offset_steps = 5;
        fit.multistart = 8;
        fit.refine_iters = 30;
        CalibConfig { fit, iters: 50 }
    }
}

/// The widest speed window (fraction) of a relaxed fit: 0.5.
pub const RELAXED_SPEED: u64 = 0x3FE0_0000_0000_0000;

/// The narrowest aim window (rad) of a relaxed fit: 0.10.
pub const RELAXED_AIM: u64 = 0x3FB9_9999_9999_999A;

/// The miscue limit of a relaxed fit: 0.72. Real strokes extract more spin per
/// offset than the simple tip map.
pub const RELAXED_MISCUE: u64 = 0x3FE7_0A3D_70A3_D70A;

/// A cue ball error (m) up to which the strict fit explains the data: 0.30.
pub const EXPLAINED: u64 = 0x3FD3_3333_3333_3333;

impl FitConfig {
    /// The relaxed settings, given the aim and speed windows widened.
    pub fn relaxed(&self, wide_aim: Scalar, wide_speed: Scalar) -> (c: FitConfig)
        ensures
            c == (FitConfig {
                aim_window: wide_aim.greater_of(num(RELAXED_AIM)),
                speed_window: wide_speed.lesser_of(num(RELAXED_SPEED)),
                miscue_limit: num(RELAXED_MISCUE),
                ..*self
            }),
    {
        let mut c: FitConfig = *self;
        c.aim_window = wide_aim.max(num(RELAXED_AIM));
        c.speed_window = wide_speed.min(num(RELAXED_SPEED));
        c.miscue_limit = num(RELAXED_MISCUE);
        c
    }
}

/// Whether a strict fit with this cue ball error stands without a relaxed one.
pub fn strict_explains(cue_error: Scalar) -> (r: bool)
    ensures
        r == cue_error.at_most(num(EXPLAINED)),
{
    cue_error.le(num(EXPLAINED))
}

/// Whether a relaxed fit beats the strict one: its cue ball error is below the
/// `limit`, a share of the strict one's.
pub fn relaxed_wins(cue_error: Scalar, limit: Scalar) -> (r: bool)
    ensures
        r == cue_error.less(limit),
{
    cue_error.lt(limit)
}

/// Which pass of a fit is kept.
#[derive(Clone, Copy, Debug, PartialEq, Eq, Structural)]
pub enum Pass {
    Strict,
    Relaxed,
}

/// The pass that is kept, from the cue ball errors of both: the strict one if it explains
/// the data, or if the relaxed one does not fit materially better.
pub open spec fn kept_pass(strict: Scalar, relaxed: Scalar, limit: Scalar) -> Pass {
    if strict.at_most(num(EXPLAINED)) {
        Pass::Strict
    } else if relaxed.less(limit) {
        Pass::Relaxed
    } else {
        Pass::Strict
    }
}

/// Choose the pass to keep; `limit` is a share of the strict one's cue ball error.
pub fn choose_pass(strict: Scalar, relaxed: Scalar, limit: Scalar) -> (p: Pass)
    ensures
        p == kept_pass(strict, relaxed, limit),
{
    if !strict_explains(strict) && relaxed_wins(relaxed, limit) {
        Pass::Relaxed
    } else {
        Pass::Strict
    }
}

/// The cue ball error of the pass that is kept.
pub open spec fn kept_error(strict: Scalar, relaxed: Scalar, limit: Scalar) -> Scalar {
    match kept_pass(strict, relaxed, limit) {
        Pass::Strict => strict,
        Pass::Relaxed => relaxed,
    }
}

/// Relaxing never makes the cue ball fit worse, and a shot that the strict pass explains
/// keeps it, whatever a relaxed one would give. A relaxed pass that is kept is below the
/// limit.
pub proof fn law_relaxing_never_worsens(strict: Scalar, relaxed: Scalar, limit: Scalar)
    requires
        limit.at_most(strict),
    ensures
        kept_error(strict, relaxed, limit).at_most(strict),
        strict.at_most(num(EXPLAINED)) ==> kept_pass(strict, relaxed, limit) == Pass::Strict,
        kept_pass(strict, relaxed, limit) == Pass::Relaxed ==> relaxed.less(limit),
{
}

/// The relaxed pass is kept exactly if the strict one does not explain the data and the
/// relaxed one is below the limit.
pub proof fn law_relaxed_pass_must_win(strict: Scalar, relaxed: Scalar, limit: Scalar)
    ensures
        kept_pass(strict, relaxed, limit) == Pass::Relaxed <==> !strict.at_most(num(EXPLAINED))
            && relaxed.less(limit),
        kept_pass(strict, relaxed, limit) == Pass::Strict <==> strict.at_most(num(EXPLAINED))
            || !relaxed.less(limit),
        kept_pass(strict, relaxed, limit) == Pass::Relaxed ==> kept_error(strict, relaxed, limit)
            == relaxed,
        kept_pass(strict, relaxed, limit) == Pass::Strict ==> kept_error(strict, relaxed, limit)
            == strict,
{
}

} // verus!
