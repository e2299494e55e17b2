//! When a window of samples gives a velocity.

use vstd::prelude::*;

use crate::scalar::{num, Scalar};

verus! {

/// The shortest window (s): 0.10.
pub const SPAN_MIN: u64 = 0x3FB9_9999_9999_999A;

/// The longest gap (s) inside a window: 0.12.
pub const GAP_MAX: u64 = 0x3FBE_B851_EB85_1EB8;

/// A spread of squared times below this is none: 1e-9.
pub const NO_SPREAD: u64 = 0x3E11_2E0B_E826_D695;

/// A speed (m/s) below this is none: 1e-6.
pub const NO_SPEED: u64 = 0x3EB0_C6F7_A0B5_ED8D;

/// Whether a window can be measured: at least three samples over a long enough
/// span, with no long gap between two of them. `gaps` are the times between
/// consecutive samples.
pub open spec fn measurable(samples: int, span: Scalar, gaps: Seq<Scalar>) -> bool {
    &&& samples >= 3
    &&& !span.less(num(SPAN_MIN))
    &&& forall|k: int| 0 <= k < gaps.len() ==> !num(GAP_MAX).less(#[trigger] gaps[k])
}

pub fn window_measurable(samples: usize, span: Scalar, gaps: &[Scalar]) -> (r: bool)
    ensures
        r == measurable(samples as int, span, gaps@),
{
    if samples < 3 || span.lt(num(SPAN_MIN)) {
        return false;
    }
    for k in 0..gaps.len()
        invariant
            forall|j: int| 0 <= j < k ==> !num(GAP_MAX).less(#[trigger] gaps@[j]),
    {
        if gaps[k].gt(num(GAP_MAX)) {
            return false;
        }
    }
    true
}

/// Whether a line fit gives a velocity: the times spread, and the speed is real.
pub fn velocity_holds(spread: Scalar, speed: Scalar) -> (r: bool)
    ensures
        r == (!spread.at_most(num(NO_SPREAD)) && !speed.less(num(NO_SPEED))),
{
    !spread.le(num(NO_SPREAD)) && !speed.lt(num(NO_SPEED))
}

/// A window is measured only with three samples over a long enough span, and one long gap in
/// it is enough to rule it out.
pub proof fn law_windows_without_gaps_measure(samples: int, span: Scalar, gaps: Seq<Scalar>, k: int)
    requires
        0 <= k < gaps.len(),
    ensures
        samples < 3 ==> !measurable(samples, span, gaps),
        span.less(num(SPAN_MIN)) ==> !measurable(samples, span, gaps),
        num(GAP_MAX).less(gaps[k]) ==> !measurable(samples, span, gaps),
        samples >= 3 && num(SPAN_MIN).at_most(span) && (forall|j: int|
            0 <= j < gaps.len() ==> (#[trigger] gaps[j]).at_most(num(GAP_MAX))) ==> measurable(
            samples,
            span,
            gaps,
        ),
{
    if forall|j: int| 0 <= j < gaps.len() ==> (#[trigger] gaps[j]).at_most(num(GAP_MAX)) {
        assert forall|j: int| 0 <= j < gaps.len() implies !num(GAP_MAX).less(
            #[trigger] gaps[j],
        ) by {
            assert(gaps[j].at_most(num(GAP_MAX)));
        }
    }
}

} // verus!
