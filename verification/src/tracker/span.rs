//! The rest-to-rest span of a stroke, from the motion per frame.

use vstd::prelude::*;

verus! {

/// Motion above this begins an episode.
pub const MOTION_HI: u32 = 55;

/// Motion up to this is quiet.
pub const MOTION_LO: u32 = 10;

/// Going on from frame `j` with `gap` quiet frames behind, until `rest` quiet
/// frames in a row have passed or the frames are over: the frame after, and the
/// quiet frames just before it.
pub open spec fn until_quiet(seg: Seq<u32>, j: int, gap: int, rest: int) -> (int, int)
    decreases seg.len() - j,
{
    if j < 0 || j >= seg.len() || gap >= rest {
        (j, gap)
    } else if seg[j] <= MOTION_LO {
        until_quiet(seg, j + 1, gap + 1, rest)
    } else {
        until_quiet(seg, j + 1, 0, rest)
    }
}

proof fn lemma_until_quiet(seg: Seq<u32>, j: int, gap: int, rest: int)
    requires
        0 <= j <= seg.len(),
        0 <= gap <= j,
        gap <= rest,
        forall|k: int| j - gap <= k < j ==> (#[trigger] seg[k]) <= MOTION_LO,
    ensures
        j <= until_quiet(seg, j, gap, rest).0 <= seg.len(),
        0 <= until_quiet(seg, j, gap, rest).1 <= rest,
        until_quiet(seg, j, gap, rest).0 - until_quiet(seg, j, gap, rest).1 >= j - gap,
        until_quiet(seg, j, gap, rest).0 < seg.len() ==> until_quiet(seg, j, gap, rest).1 == rest,
        forall|k: int|
            until_quiet(seg, j, gap, rest).0 - until_quiet(seg, j, gap, rest).1 <= k < until_quiet(
                seg,
                j,
                gap,
                rest,
            ).0 ==> (#[trigger] seg[k]) <= MOTION_LO,
    decreases seg.len() - j,
{
    if j < seg.len() && gap < rest {
        if seg[j] <= MOTION_LO {
            lemma_until_quiet(seg, j + 1, gap + 1, rest);
        } else {
            lemma_until_quiet(seg, j + 1, 0, rest);
        }
    }
}

/// The motion episodes from frame `i` on: each begins with a strong motion and
/// ends with the last frame before it stays quiet.
pub open spec fn episodes_from(seg: Seq<u32>, i: int, rest: int) -> Seq<(int, int)>
    decreases seg.len() - i,
    when rest > 0
    via episodes_decrease
{
    if i < 0 || i >= seg.len() {
        seq![]
    } else if seg[i] > MOTION_HI {
        let (j, gap) = until_quiet(seg, i, 0, rest);
        seq![(i, j - gap)] + episodes_from(seg, j, rest)
    } else {
        episodes_from(seg, i + 1, rest)
    }
}

#[via_fn]
proof fn episodes_decrease(seg: Seq<u32>, i: int, rest: int) {
    if 0 <= i < seg.len() && seg[i] > MOTION_HI {
        lemma_episode(seg, i, rest);
    }
}

proof fn lemma_episode(seg: Seq<u32>, i: int, rest: int)
    requires
        rest > 0,
        0 <= i < seg.len(),
        seg[i] > MOTION_HI,
    ensures
        until_quiet(seg, i, 0, rest) == until_quiet(seg, i + 1, 0, rest),
        i < until_quiet(seg, i, 0, rest).0 <= seg.len(),
        i + 1 <= until_quiet(seg, i, 0, rest).0 - until_quiet(seg, i, 0, rest).1,
        0 <= until_quiet(seg, i, 0, rest).1,
{
    lemma_until_quiet(seg, i + 1, 0, rest);
}

/// The motion in frames `s` to `e`.
pub open spec fn motion_in(seg: Seq<u32>, s: int, e: int) -> nat
    decreases e - s,
{
    if e <= s {
        0
    } else {
        motion_in(seg, s, e - 1) + seg[e - 1] as nat
    }
}

proof fn lemma_motion_bound(seg: Seq<u32>, s: int, e: int)
    requires
        0 <= s <= e <= seg.len(),
    ensures
        motion_in(seg, s, e) <= (e - s) * 0xFFFF_FFFF,
    decreases e - s,
{
    if e > s {
        lemma_motion_bound(seg, s, e - 1);
    }
}

/// Whether episode `k` is the one with the most motion; the last of equal ones.
pub open spec fn main_episode(seg: Seq<u32>, eps: Seq<(int, int)>, k: int) -> bool {
    &&& 0 <= k < eps.len()
    &&& forall|j: int|
        0 <= j < eps.len() ==> motion_in(seg, (#[trigger] eps[j]).0, eps[j].1) <= motion_in(
            seg,
            eps[k].0,
            eps[k].1,
        ) && (j > k ==> motion_in(seg, eps[j].0, eps[j].1) < motion_in(seg, eps[k].0, eps[k].1))
}

/// Whether `o` is the last quiet frame up to frame `s`, or the first frame where
/// none is quiet.
pub open spec fn onset_of(seg: Seq<u32>, s: int, o: int) -> bool {
    &&& 0 <= o <= s
    &&& o == 0 || seg[o] <= MOTION_LO
    &&& forall|k: int| o < k <= s ==> (#[trigger] seg[k]) > MOTION_LO
}

/// Whether a stroke spans frames `o` to `st`: it is the main episode, from the rest
/// before it to where it has stayed quiet.
pub open spec fn spans(seg: Seq<u32>, rest: int, o: int, st: int) -> bool {
    exists|k: int| #[trigger]
        main_episode(seg, episodes_from(seg, 0, rest), k) && onset_of(
            seg,
            episodes_from(seg, 0, rest)[k].0,
            o,
        ) && st == until_quiet(seg, episodes_from(seg, 0, rest)[k].1, 0, rest).0
}

fn quiet_after(seg: &[u32], from: usize, rest: usize) -> (r: (usize, usize))
    requires
        from <= seg@.len(),
    ensures
        r.0 == until_quiet(seg@, from as int, 0, rest as int).0,
        r.1 == until_quiet(seg@, from as int, 0, rest as int).1,
{
    let mut j: usize = from;
    let mut gap: usize = 0;
    while j < seg.len() && gap < rest
        invariant
            j <= seg@.len(),
            gap <= rest,
            until_quiet(seg@, from as int, 0, rest as int) == until_quiet(
                seg@,
                j as int,
                gap as int,
                rest as int,
            ),
        decreases seg@.len() - j,
    {
        gap = if seg[j] <= MOTION_LO {
            gap + 1
        } else {
            0
        };
        j += 1;
    }
    (j, gap)
}

fn find_episodes(seg: &[u32], rest: usize) -> (eps: Vec<(usize, usize)>)
    requires
        rest > 0,
    ensures
        eps@.len() == episodes_from(seg@, 0, rest as int).len(),
        forall|k: int|
            0 <= k < eps@.len() ==> (#[trigger] eps@[k]).0 == episodes_from(
                seg@,
                0,
                rest as int,
            )[k].0 && eps@[k].1 == episodes_from(seg@, 0, rest as int)[k].1 && eps@[k].0 < eps@[k].1
                <= seg@.len(),
{
    let mut eps: Vec<(usize, usize)> = Vec::new();
    let ghost mut done: Seq<(int, int)> = seq![];
    let mut i: usize = 0;
    assert(done + episodes_from(seg@, 0, rest as int) =~= episodes_from(seg@, 0, rest as int));
    while i < seg.len()
        invariant
            rest > 0,
            i <= seg@.len(),
            episodes_from(seg@, 0, rest as int) == done + episodes_from(
                seg@,
                i as int,
                rest as int,
            ),
            eps@.len() == done.len(),
            forall|k: int|
                0 <= k < eps@.len() ==> (#[trigger] eps@[k]).0 == done[k].0 && eps@[k].1
                    == done[k].1 && eps@[k].0 < eps@[k].1 <= seg@.len(),
        decreases seg@.len() - i,
    {
        if seg[i] > MOTION_HI {
            proof {
                lemma_episode(seg@, i as int, rest as int);
            }
            let (j, gap): (usize, usize) = quiet_after(seg, i, rest);
            let ghost next = episodes_from(seg@, j as int, rest as int);
            let ghost here = (i as int, j - gap);
            proof {
                assert(episodes_from(seg@, i as int, rest as int) == seq![here] + next);
                assert(done + (seq![here] + next) =~= done.push(here) + next);
                done = done.push(here);
            }
            eps.push((i, j - gap));
            i = j;
        } else {
            i += 1;
        }
    }
    assert(episodes_from(seg@, 0, rest as int) =~= done);
    eps
}

fn sum_motion(seg: &[u32], s: usize, e: usize) -> (m: u128)
    requires
        s <= e <= seg@.len(),
    ensures
        m == motion_in(seg@, s as int, e as int),
{
    let mut m: u128 = 0;
    for k in s..e
        invariant
            s <= e <= seg@.len(),
            m == motion_in(seg@, s as int, k as int),
    {
        proof {
            lemma_motion_bound(seg@, s as int, k + 1);
        }
        m += seg[k] as u128;
    }
    m
}

/// The span of the main stroke within the frames given, counted from the first of
/// them; none where nothing moves.
fn span_in(seg: &[u32], rest: usize) -> (r: Option<(usize, usize)>)
    requires
        rest > 0,
    ensures
        match r {
            Some((o, st)) => spans(seg@, rest as int, o as int, st as int) && o < st <= seg@.len(),
            None => forall|k: int| 0 <= k < seg@.len() ==> (#[trigger] seg@[k]) <= MOTION_HI,
        },
{
    let eps: Vec<(usize, usize)> = find_episodes(seg, rest);
    let ghost all = episodes_from(seg@, 0, rest as int);
    if eps.len() == 0 {
        proof {
            lemma_no_episode(seg@, 0, rest as int);
        }
        return None;
    }
    let mut best: usize = 0;
    let mut most: u128 = sum_motion(seg, eps[0].0, eps[0].1);
    for k in 1..eps.len()
        invariant
            eps@.len() == all.len(),
            forall|j: int|
                0 <= j < eps@.len() ==> (#[trigger] eps@[j]).0 == all[j].0 && eps@[j].1 == all[j].1
                    && eps@[j].0 < eps@[j].1 <= seg@.len(),
            best < k <= eps@.len(),
            most == motion_in(seg@, all[best as int].0, all[best as int].1),
            forall|j: int|
                0 <= j < k ==> motion_in(seg@, (#[trigger] all[j]).0, all[j].1) <= most && (j > best
                    ==> motion_in(seg@, all[j].0, all[j].1) < most),
    {
        let m: u128 = sum_motion(seg, eps[k].0, eps[k].1);
        assert(eps@[k as int].0 == all[k as int].0 && eps@[k as int].1 == all[k as int].1);
        if m >= most {
            best = k;
            most = m;
        }
    }
    assert(main_episode(seg@, all, best as int));
    let (s, e): (usize, usize) = eps[best];
    let mut o: usize = s;
    while o > 0 && seg[o] > MOTION_LO
        invariant
            o <= s < seg@.len(),
            forall|k: int| o < k <= s ==> (#[trigger] seg@[k]) > MOTION_LO,
        decreases o,
    {
        o -= 1;
    }
    proof {
        lemma_until_quiet(seg@, e as int, 0, rest as int);
    }
    let (st, _): (usize, usize) = quiet_after(seg, e, rest);
    assert(onset_of(seg@, all[best as int].0, o as int));
    assert(spans(seg@, rest as int, o as int, st as int));
    Some((o, st))
}

proof fn lemma_no_episode(seg: Seq<u32>, i: int, rest: int)
    requires
        rest > 0,
        0 <= i,
        episodes_from(seg, i, rest).len() == 0,
    ensures
        forall|k: int| i <= k < seg.len() ==> (#[trigger] seg[k]) <= MOTION_HI,
    decreases seg.len() - i,
{
    if i < seg.len() {
        if seg[i] > MOTION_HI {
            let (j, gap) = until_quiet(seg, i, 0, rest);
            assert(episodes_from(seg, i, rest) == seq![(i, j - gap)] + episodes_from(seg, j, rest));
        } else {
            lemma_no_episode(seg, i + 1, rest);
        }
    }
}

/// Rest-to-rest span of the main stroke inside frames `[a, b)`, given the motion of
/// every frame and how many quiet frames make a rest.
pub fn stroke_span(fine: &[u32], rest: usize, a: usize, b: usize) -> (r: Option<(usize, usize)>)
    requires
        rest > 0,
        a <= b,
        a <= fine@.len(),
    ensures
        ({
            let end = if b <= fine@.len() {
                b as int
            } else {
                fine@.len() as int
            };
            let seg = fine@.subrange(a as int, end);
            match r {
                Some((o, st)) => a <= o < st <= end && spans(seg, rest as int, o - a, st - a),
                None => forall|k: int| a <= k < end ==> (#[trigger] fine@[k]) <= MOTION_HI,
            }
        }),
{
    let end: usize = if b <= fine.len() {
        b
    } else {
        fine.len()
    };
    let mut seg: Vec<u32> = Vec::new();
    for k in a..end
        invariant
            a <= end <= fine@.len(),
            seg@ == fine@.subrange(a as int, k as int),
    {
        seg.push(fine[k]);
        assert(fine@.subrange(a as int, k + 1) =~= fine@.subrange(a as int, k as int).push(
            fine@[k as int],
        ));
    }
    match span_in(seg.as_slice(), rest) {
        Some((o, st)) => Some((a + o, a + st)),
        None => {
            assert forall|k: int| a <= k < end implies (#[trigger] fine@[k]) <= MOTION_HI by {
                assert(seg@[k - a] == fine@[k]);
            }
            None
        },
    }
}

/// A stroke has come to rest at the end of its span: unless the frames end there,
/// the frames just before have all been quiet, as many as make a rest.
pub proof fn law_span_ends_in_rest(seg: Seq<u32>, rest: int, o: int, st: int)
    requires
        rest > 0,
        spans(seg, rest, o, st),
        st < seg.len(),
    ensures
        st >= rest,
        forall|k: int| st - rest <= k < st ==> (#[trigger] seg[k]) <= MOTION_LO,
{
    let eps = episodes_from(seg, 0, rest);
    let k = choose|k: int| #[trigger]
        main_episode(seg, eps, k) && onset_of(seg, eps[k].0, o) && st == until_quiet(
            seg,
            eps[k].1,
            0,
            rest,
        ).0;
    lemma_episodes_inside(seg, 0, rest, k);
    lemma_until_quiet(seg, eps[k].1, 0, rest);
}

proof fn lemma_episodes_inside(seg: Seq<u32>, i: int, rest: int, k: int)
    requires
        rest > 0,
        0 <= i,
        0 <= k < episodes_from(seg, i, rest).len(),
    ensures
        i <= episodes_from(seg, i, rest)[k].0 < episodes_from(seg, i, rest)[k].1 <= seg.len(),
        seg[episodes_from(seg, i, rest)[k].0] > MOTION_HI,
    decreases seg.len() - i,
{
    if i < seg.len() {
        if seg[i] > MOTION_HI {
            lemma_episode(seg, i, rest);
            let (j, gap) = until_quiet(seg, i, 0, rest);
            let next = episodes_from(seg, j, rest);
            let all = episodes_from(seg, i, rest);
            assert(all == seq![(i, j - gap)] + next);
            if k > 0 {
                lemma_episodes_inside(seg, j, rest, k - 1);
                assert(all[k] == next[k - 1]);
            }
        } else {
            lemma_episodes_inside(seg, i + 1, rest, k);
        }
    }
}

/// A stroke begins at a quiet frame, or with the frames themselves, and the strong
/// motion that makes it a stroke lies within its span.
pub proof fn law_span_holds_stroke(seg: Seq<u32>, rest: int, o: int, st: int) -> (s: int)
    requires
        rest > 0,
        spans(seg, rest, o, st),
    ensures
        o == 0 || seg[o] <= MOTION_LO,
        o <= s < st <= seg.len(),
        seg[s] > MOTION_HI,
{
    let eps = episodes_from(seg, 0, rest);
    let k = choose|k: int| #[trigger]
        main_episode(seg, eps, k) && onset_of(seg, eps[k].0, o) && st == until_quiet(
            seg,
            eps[k].1,
            0,
            rest,
        ).0;
    lemma_episodes_inside(seg, 0, rest, k);
    lemma_until_quiet(seg, eps[k].1, 0, rest);
    eps[k].0
}

/// Quiet is found at the first frame with a rest of quiet frames just before it, or at the
/// end; the quiet frames that are counted are all there are since the last motion.
pub proof fn law_quiet_is_the_first(seg: Seq<u32>, j: int, gap: int, rest: int, e: int)
    requires
        0 <= gap <= j <= seg.len(),
        gap <= rest,
        j <= e <= seg.len(),
        e - rest >= j - gap,
        forall|k: int| e - rest <= k < e ==> (#[trigger] seg[k]) <= MOTION_LO,
    ensures
        until_quiet(seg, j, gap, rest).0 <= e,
    decreases seg.len() - j,
{
    if j < seg.len() && gap < rest {
        if seg[j] <= MOTION_LO {
            law_quiet_is_the_first(seg, j + 1, gap + 1, rest, e);
        } else {
            law_quiet_is_the_first(seg, j + 1, 0, rest, e);
        }
    }
}

proof fn lemma_motion_before_quiet(seg: Seq<u32>, j: int, gap: int, rest: int)
    requires
        0 <= gap <= j <= seg.len(),
        gap <= rest,
    ensures
        ({
            let (e, g) = until_quiet(seg, j, gap, rest);
            &&& j - gap <= e - g <= seg.len()
            &&& 0 <= g
            &&& e - g > j - gap ==> j <= e - g - 1 && seg[e - g - 1] > MOTION_LO
        }),
    decreases seg.len() - j,
{
    if j < seg.len() && gap < rest {
        if seg[j] <= MOTION_LO {
            lemma_motion_before_quiet(seg, j + 1, gap + 1, rest);
        } else {
            lemma_motion_before_quiet(seg, j + 1, 0, rest);
        }
    }
}

/// The motion of frames is that of their parts together, and that of one frame is its own.
pub proof fn law_motion_adds_up(seg: Seq<u32>, s: int, m: int, e: int)
    requires
        s <= m <= e,
    ensures
        motion_in(seg, s, e) == motion_in(seg, s, m) + motion_in(seg, m, e),
        motion_in(seg, s, s) == 0,
        motion_in(seg, s, s + 1) == seg[s],
    decreases e - m,
{
    reveal_with_fuel(motion_in, 2);
    if m < e {
        law_motion_adds_up(seg, s, m, e - 1);
    }
}

/// Whether an episode is one of motion: it begins with a strong motion and ends with its last
/// motion, a rest of quiet frames or the end follows, and none lies inside.
pub open spec fn is_episode(seg: Seq<u32>, rest: int, s: int, e: int) -> bool {
    &&& 0 <= s < e <= seg.len()
    &&& seg[s] > 55
    &&& seg[e - 1] > 10
    &&& forall|f: int| e <= f < e + rest && f < seg.len() ==> (#[trigger] seg[f]) <= 10
    &&& forall|a: int|
        s <= a && a + rest <= e ==> !#[trigger] quiet_from(seg, rest, a)
}

/// Whether the frames from `a` on are a rest.
pub open spec fn quiet_from(seg: Seq<u32>, rest: int, a: int) -> bool {
    forall|f: int| a <= f < a + rest ==> (#[trigger] seg[f]) <= 10
}

/// The episodes are all the motions there are: each is one of motion, they follow one
/// another, and every strong motion lies in one of them.
pub proof fn law_episodes_are_the_motions(seg: Seq<u32>, i: int, rest: int)
    requires
        rest > 0,
        0 <= i,
    ensures
        forall|k: int|
            0 <= k < episodes_from(seg, i, rest).len() ==> is_episode(
                seg,
                rest,
                (#[trigger] episodes_from(seg, i, rest)[k]).0,
                episodes_from(seg, i, rest)[k].1,
            ) && i <= episodes_from(seg, i, rest)[k].0,
        forall|k: int, m: int|
            0 <= k < m < episodes_from(seg, i, rest).len() ==> (#[trigger] episodes_from(
                seg,
                i,
                rest,
            )[k]).1 <= (#[trigger] episodes_from(seg, i, rest)[m]).0,
        forall|f: int|
            i <= f < seg.len() && (#[trigger] seg[f]) > MOTION_HI ==> in_some(
                episodes_from(seg, i, rest),
                f,
            ),
    decreases seg.len() - i,
{
    let all = episodes_from(seg, i, rest);
    if i < seg.len() {
        if seg[i] > MOTION_HI {
            lemma_episode(seg, i, rest);
            let (j, gap) = until_quiet(seg, i, 0, rest);
            let e = j - gap;
            let next = episodes_from(seg, j, rest);
            assert(all == seq![(i, e)] + next);
            law_episodes_are_the_motions(seg, j, rest);
            lemma_until_quiet(seg, i, 0, rest);
            lemma_motion_before_quiet(seg, i, 0, rest);
            assert forall|a: int| i <= a && a + rest <= e implies !#[trigger] quiet_from(
                seg,
                rest,
                a,
            ) by {
                if quiet_from(seg, rest, a) {
                    law_quiet_is_the_first(seg, i, 0, rest, a + rest);
                    assert(seg[e - 1] <= MOTION_LO);
                }
            }
            assert(is_episode(seg, rest, i, e));
            assert forall|k: int| 0 <= k < all.len() implies is_episode(
                seg,
                rest,
                (#[trigger] all[k]).0,
                all[k].1,
            ) && i <= all[k].0 by {
                if k > 0 {
                    assert(all[k] == next[k - 1]);
                }
            }
            assert forall|k: int, m: int| 0 <= k < m < all.len() implies (#[trigger] all[k]).1 <= (
            #[trigger] all[m]).0 by {
                assert(all[m] == next[m - 1]);
                if k > 0 {
                    assert(all[k] == next[k - 1]);
                }
            }
            assert forall|f: int| i <= f < seg.len() && (#[trigger] seg[f])
                > MOTION_HI implies in_some(all, f) by {
                if f < j {
                    assert(f < e);
                    assert(all[0].0 <= f < all[0].1);
                } else {
                    assert(in_some(next, f));
                    let k = choose|k: int|
                        0 <= k < next.len() && (#[trigger] next[k]).0 <= f < next[k].1;
                    assert(all[k + 1] == next[k]);
                }
            }
        } else {
            law_episodes_are_the_motions(seg, i + 1, rest);
            let next = episodes_from(seg, i + 1, rest);
            assert(all == next);
            assert forall|k: int| 0 <= k < all.len() implies is_episode(
                seg,
                rest,
                (#[trigger] all[k]).0,
                all[k].1,
            ) && i <= all[k].0 by {
                assert(next[k] == all[k]);
            }
        }
    }
}

/// Whether a frame lies in one of the episodes.
pub open spec fn in_some(eps: Seq<(int, int)>, f: int) -> bool {
    exists|k: int| 0 <= k < eps.len() && (#[trigger] eps[k]).0 <= f < eps[k].1
}

/// The stroke is the episode with the most motion, of equal ones the last. Its span runs
/// from the last quiet frame before it, or the first frame, with motion in every frame
/// between, to the first frame at which it has stayed quiet, or the end.
pub proof fn law_span_is_the_main_stroke(seg: Seq<u32>, rest: int, o: int, st: int) -> (k: int)
    requires
        rest > 0,
        spans(seg, rest, o, st),
    ensures
        ({
            let eps = episodes_from(seg, 0, rest);
            let (s, e) = eps[k];
            &&& 0 <= k < eps.len()
            &&& 0 <= o <= s < e <= st <= seg.len()
            &&& forall|j: int|
                0 <= j < eps.len() ==> motion_in(seg, (#[trigger] eps[j]).0, eps[j].1) <= motion_in(
                    seg,
                    s,
                    e,
                ) && (j > k ==> motion_in(seg, eps[j].0, eps[j].1) < motion_in(seg, s, e))
            &&& o == 0 || seg[o] <= 10
            &&& forall|f: int| o < f <= s ==> (#[trigger] seg[f]) > 10
            &&& st == if e + rest <= seg.len() {
                e + rest
            } else {
                seg.len() as int
            }
        }),
{
    let eps = episodes_from(seg, 0, rest);
    let k = choose|k: int| #[trigger]
        main_episode(seg, eps, k) && onset_of(seg, eps[k].0, o) && st == until_quiet(
            seg,
            eps[k].1,
            0,
            rest,
        ).0;
    law_episodes_are_the_motions(seg, 0, rest);
    let (s, e) = eps[k];
    assert(is_episode(seg, rest, eps[k].0, eps[k].1));
    lemma_until_quiet(seg, e, 0, rest);
    if e + rest <= seg.len() {
        law_quiet_is_the_first(seg, e, 0, rest, e + rest);
    }
    k
}

} // verus!
