//! Reading a game's video: command arguments, where things are in the frame, the
//! shot clock, and the shots between its resets.

use vstd::prelude::*;

use crate::files::shot::{pair_texts, Pair};
use crate::order::{lemma_one_more, lemma_places_step};
use crate::scalar::{num, Scalar, ZERO};
use crate::text::{
    char_place, chars_of, law_char_place, law_split_first, read_usize, same_text, split,
    split_at_each, split_first, split_once, texts, trim, trimmed, unsigned_value, words, words_of,
};
use crate::tracker::span::{spans, stroke_span, MOTION_HI};

verus! {

/// How much the clock ring grows at a reset: 0.25.
pub const RESET_RISE: u64 = 0x3FD0_0000_0000_0000;

/// How full the clock ring is after a reset: 0.5.
pub const RESET_FULL: u64 = 0x3FE0_0000_0000_0000;

/// A gray level that changes by more than this has moved.
pub const GRAY_MOVED: i32 = 28;

/// The first place of a name among arguments.
pub open spec fn arg_place(args: Seq<String>, name: Seq<char>, i: int) -> bool {
    &&& 0 <= i < args.len()
    &&& args[i]@ == name
    &&& forall|j: int| 0 <= j < i ==> (#[trigger] args[j])@ != name
}

/// The argument after a name: the one that follows its first place.
pub fn arg(args: &[String], name: &str) -> (r: Option<String>)
    ensures
        match r {
            Some(v) => exists|i: int| #[trigger]
                arg_place(args@, name@, i) && i + 1 < args@.len() && v@ == args@[i + 1]@,
            None => forall|i: int| #[trigger]
                arg_place(args@, name@, i) ==> i + 1 >= args@.len(),
        },
{
    let wanted: Vec<char> = chars_of(name);
    for i in 0..args.len()
        invariant
            wanted@ == name@,
            forall|j: int| 0 <= j < i ==> (#[trigger] args@[j])@ != name@,
    {
        if same_text(chars_of(args[i].as_str()).as_slice(), wanted.as_slice()) {
            assert(arg_place(args@, name@, i as int));
            assert forall|j: int| #[trigger] arg_place(args@, name@, j) implies j == i by {
                assert(args@[j]@ == name@ && args@[i as int]@ == name@);
            }
            if i < args.len() - 1 {
                return Some(args[i + 1].clone());
            } else {
                return None;
            }
        }
    }
    None
}

/// A crop of the frame.
#[derive(Clone, Copy, Debug, PartialEq, Eq, Structural)]
pub struct Crop {
    pub x: usize,
    pub y: usize,
    pub w: usize,
    pub h: usize,
}

/// A region of the frame, from `x0` to before `x1` and `y0` to before `y1`.
#[derive(Clone, Copy, Debug, PartialEq, Eq, Structural)]
pub struct Region {
    pub x0: usize,
    pub x1: usize,
    pub y0: usize,
    pub y1: usize,
}

/// Broadcast geometry of a stream resolution: the crop with the overhead view, the
/// playing surface in the full frame, and the table corners within the crop.
#[derive(Clone, Copy, Debug)]
pub struct Preset {
    pub inset: Crop,
    pub interior: Region,
    pub corners: &'static str,
}

/// The geometry of a resolution; 1080p unless 720p is named.
pub fn preset(name: &str) -> (p: Preset)
    ensures
        name@ == "720p"@ ==> {
            &&& p.inset == (Crop { x: 15, y: 270, w: 185, h: 333 })
            &&& p.interior == (Region { x0: 25, x1: 190, y0: 285, y1: 595 })
            &&& p.corners@ == "7,12 172,10 174,327 9,327"@
        },
        name@ != "720p"@ ==> {
            &&& p.inset == (Crop { x: 15, y: 405, w: 290, h: 515 })
            &&& p.interior == (Region { x0: 50, x1: 270, y0: 440, y1: 880 })
            &&& p.corners@ == "19,19 264,15 270,492 23,492"@
        },
{
    if same_text(chars_of(name).as_slice(), chars_of("720p").as_slice()) {
        Preset {
            inset: Crop { x: 15, y: 270, w: 185, h: 333 },
            interior: Region { x0: 25, x1: 190, y0: 285, y1: 595 },
            corners: "7,12 172,10 174,327 9,327",
        }
    } else {
        Preset {
            inset: Crop { x: 15, y: 405, w: 290, h: 515 },
            interior: Region { x0: 50, x1: 270, y0: 440, y1: 880 },
            corners: "19,19 264,15 270,492 23,492",
        }
    }
}

/// The resolution a frame height belongs to.
pub fn preset_name(height: usize) -> (s: &'static str)
    ensures
        s@ == (if height >= 1000 {
            "1080p"@
        } else {
            "720p"@
        }),
{
    if height >= 1000 {
        "1080p"
    } else {
        "720p"
    }
}

/// Whether a pixel has moved between two frames.
pub open spec fn pixel_moved(a: i16, b: i16) -> bool {
    a - b > GRAY_MOVED || b - a > GRAY_MOVED
}

/// How many of the first `n` pixels have moved.
pub open spec fn moved_among(gray: Seq<i16>, prev: Seq<i16>, n: int) -> nat
    decreases n,
{
    if n <= 0 {
        0
    } else {
        moved_among(gray, prev, n - 1) + if pixel_moved(gray[n - 1], prev[n - 1]) {
            1nat
        } else {
            0nat
        }
    }
}

/// The motion of a frame: how many pixels have moved since the frame before it.
pub fn frame_motion(gray: &[i16], prev: &[i16]) -> (m: u32)
    requires
        gray@.len() <= u32::MAX,
    ensures
        m == moved_among(
            gray@,
            prev@,
            if gray@.len() <= prev@.len() {
                gray@.len() as int
            } else {
                prev@.len() as int
            },
        ),
        m == Set::new(
            |k: int|
                0 <= k < gray@.len() && k < prev@.len() && (gray@[k] - prev@[k] > 28
                    || prev@[k] - gray@[k] > 28),
        ).len(),
{
    let n: usize = if gray.len() <= prev.len() {
        gray.len()
    } else {
        prev.len()
    };
    let mut m: u32 = 0;
    for k in 0..n
        invariant
            n <= gray@.len() <= u32::MAX,
            n <= prev@.len(),
            m == moved_among(gray@, prev@, k as int),
            m <= k,
    {
        let d: i32 = gray[k] as i32 - prev[k] as i32;
        if d > GRAY_MOVED || d < -GRAY_MOVED {
            m += 1;
        }
    }
    proof {
        law_motion_is_counted(gray@, prev@, n as int);
        assert(Set::new(
            |k: int|
                0 <= k < n && (gray@[k] - prev@[k] > 28 || prev@[k] - gray@[k]
                    > 28),
        ) =~= Set::new(
            |k: int|
                0 <= k < gray@.len() && k < prev@.len() && (gray@[k] - prev@[k] > 28
                    || prev@[k] - gray@[k] > 28),
        ));
    }
    m
}

/// The motion is the number of pixels whose gray changed by more than 28, up or down.
pub proof fn law_motion_is_counted(gray: Seq<i16>, prev: Seq<i16>, n: int)
    requires
        0 <= n,
    ensures
        Set::new(
            |k: int|
                0 <= k < n && (gray[k] - prev[k] > 28 || prev[k] - gray[k] > 28),
        ).finite(),
        moved_among(gray, prev, n) == Set::new(
            |k: int|
                0 <= k < n && (gray[k] - prev[k] > 28 || prev[k] - gray[k] > 28),
        ).len(),
    decreases n,
{
    let now = Set::new(
        |k: int|
            0 <= k < n && (gray[k] - prev[k] > 28 || prev[k] - gray[k] > 28),
    );
    if n > 0 {
        law_motion_is_counted(gray, prev, n - 1);
        let before = Set::new(
            |k: int|
                0 <= k < n - 1 && (gray[k] - prev[k] > 28 || prev[k] - gray[k]
                    > 28),
        );
        lemma_one_more(before, now, n - 1, pixel_moved(gray[n - 1], prev[n - 1]));
    } else {
        assert(now =~= Set::empty());
    }
}

/// A pixel in hue, saturation and value.
#[derive(Clone, Copy, Debug, PartialEq, Eq, Structural)]
pub struct Hsv {
    pub h: u8,
    pub s: u8,
    pub v: u8,
}

/// Whether a pixel has the green of the shot clock.
pub open spec fn clock_green(p: Hsv) -> bool {
    38 <= p.h <= 88 && 70 <= p.s && 70 <= p.v
}

/// How many of the first `n` pixels have the green of the shot clock.
pub open spec fn green_among(px: Seq<Hsv>, n: int) -> nat
    decreases n,
{
    if n <= 0 {
        0
    } else {
        green_among(px, n - 1) + if clock_green(px[n - 1]) {
            1nat
        } else {
            0nat
        }
    }
}

/// How much of the clock ring is lit, in pixels.
pub fn green_pixels(px: &[Hsv]) -> (n: usize)
    ensures
        n == green_among(px@, px@.len() as int),
        n <= px@.len(),
        n == px@.filter(|p: Hsv| 38 <= p.h <= 88 && 70 <= p.s && 70 <= p.v).len(),
{
    let mut n: usize = 0;
    for k in 0..px.len()
        invariant
            n == green_among(px@, k as int),
            n <= k,
    {
        let p: Hsv = px[k];
        if p.h >= 38 && p.h <= 88 && p.s >= 70 && p.v >= 70 {
            n += 1;
        }
    }
    proof {
        law_green_is_counted(px@, px@.len() as int);
        assert(px@.take(px@.len() as int) =~= px@);
    }
    n
}

/// The lit pixels are those with the green of the clock: a hue from 38 to 88, and a
/// saturation and a value of at least 70.
pub proof fn law_green_is_counted(px: Seq<Hsv>, n: int)
    requires
        0 <= n <= px.len(),
    ensures
        green_among(px, n) == px.take(n).filter(
            |p: Hsv| 38 <= p.h <= 88 && 70 <= p.s && 70 <= p.v,
        ).len(),
    decreases n,
{
    let green = |p: Hsv| 38 <= p.h <= 88 && 70 <= p.s && 70 <= p.v;
    if n > 0 {
        law_green_is_counted(px, n - 1);
        px.take(n - 1).lemma_filter_len_push(green, px[n - 1]);
        assert(px.take(n - 1).push(px[n - 1]) =~= px.take(n));
    } else {
        reveal(Seq::filter);
    }
}

/// A reading of the clock: how full the ring is, and how much it has grown since
/// the reading before.
#[derive(Clone, Copy, Debug)]
pub struct ClockReading {
    pub level: Scalar,
    pub rise: Scalar,
}

/// Whether the clock was reset at reading `k`.
pub open spec fn reset_at(clock: Seq<ClockReading>, k: int) -> bool {
    1 <= k < clock.len() && num(RESET_RISE).less(clock[k].rise) && num(RESET_FULL).less(
        clock[k].level,
    )
}

/// The readings, among the first `n`, at which the clock was reset.
pub open spec fn resets_among(clock: Seq<ClockReading>, n: int) -> Seq<int>
    decreases n,
{
    if n <= 0 {
        seq![]
    } else if reset_at(clock, n - 1) {
        resets_among(clock, n - 1).push(n - 1)
    } else {
        resets_among(clock, n - 1)
    }
}

/// The readings at which the clock was reset, one per shot.
pub fn clock_resets(clock: &[ClockReading]) -> (r: Vec<usize>)
    ensures
        r@.map_values(|k: usize| k as int) == resets_among(clock@, clock@.len() as int),
        forall|a: int| 0 <= a < r@.len() ==> (#[trigger] r@[a]) < clock@.len(),
        forall|a: int, b: int| 0 <= a < b < r@.len() ==> (#[trigger] r@[a]) < (#[trigger] r@[b]),
        forall|k: usize|
            k < clock@.len() ==> (#[trigger] r@.contains(k) <==> k >= 1 && num(RESET_RISE).less(
                clock@[k as int].rise,
            ) && num(RESET_FULL).less(clock@[k as int].level)),
{
    let mut r: Vec<usize> = Vec::new();
    let ghost as_int = |k: usize| k as int;
    assert(r@.map_values(as_int) =~= resets_among(clock@, 0));
    for k in 0..clock.len()
        invariant
            as_int == (|k: usize| k as int),
            r@.map_values(as_int) == resets_among(clock@, k as int),
            forall|a: int| 0 <= a < r@.len() ==> (#[trigger] r@[a]) < k,
    {
        let ghost before = r@;
        if k >= 1 && clock[k].rise.gt(num(RESET_RISE)) && clock[k].level.gt(num(RESET_FULL)) {
            r.push(k);
            assert(r@.map_values(as_int) =~= before.map_values(as_int).push(k as int));
        }
    }
    proof {
        law_resets_are_all_found(clock@, clock@.len() as int);
        lemma_same_places(r@, resets_among(clock@, clock@.len() as int));
    }
    r
}

/// Places held as machine numbers are the same places.
proof fn lemma_same_places(r: Seq<usize>, places: Seq<int>)
    requires
        r.map_values(|k: usize| k as int) == places,
    ensures
        r.len() == places.len(),
        forall|a: int| 0 <= a < r.len() ==> (#[trigger] r[a]) == places[a],
        forall|k: usize| #[trigger] r.contains(k) <==> places.contains(k as int),
{
    let as_int = |k: usize| k as int;
    assert(r.map_values(as_int).len() == r.len());
    assert forall|a: int| 0 <= a < r.len() implies (#[trigger] r[a]) == places[a] by {
        assert(r.map_values(as_int)[a] == r[a]);
    }
    assert forall|k: usize| #[trigger] r.contains(k) <==> places.contains(k as int) by {
        if r.contains(k) {
            let a = choose|a: int| 0 <= a < r.len() && r[a] == k;
            assert(places[a] == k);
        }
        if places.contains(k as int) {
            let a = choose|a: int| 0 <= a < places.len() && places[a] == k;
            assert(r[a] == k);
        }
    }
}

/// Every reading at which the ring has grown by more than a reset takes, and is fuller than
/// it leaves, is found, no other is, and they come in order: one reset per shot.
pub proof fn law_resets_are_all_found(clock: Seq<ClockReading>, n: int)
    requires
        0 <= n <= clock.len(),
    ensures
        forall|k: int| #[trigger]
            resets_among(clock, n).contains(k) <==> 1 <= k < n && num(RESET_RISE).less(
                clock[k].rise,
            ) && num(RESET_FULL).less(clock[k].level),
        forall|a: int, b: int|
            0 <= a < b < resets_among(clock, n).len() ==> (#[trigger] resets_among(clock, n)[a]) < (
            #[trigger] resets_among(clock, n)[b]),
    decreases n,
{
    if n > 0 {
        law_resets_are_all_found(clock, n - 1);
        lemma_places_step(
            resets_among(clock, n - 1),
            resets_among(clock, n),
            n - 1,
            reset_at(clock, n - 1),
        );
    }
}

/// The last frame at which the shot of reset `i` is looked for: that of the next
/// reset and some spill, or the end.
pub open spec fn window_end(resets: Seq<usize>, frames: int, spill: int, i: int) -> int {
    let b = if i + 1 < resets.len() {
        resets[i + 1] as int
    } else {
        frames
    };
    if b + spill <= frames {
        b + spill
    } else {
        frames
    }
}

/// Whether the window of reset `i` holds a stroke from frame `o` to frame `st`.
pub open spec fn window_spans(
    resets: Seq<usize>,
    fine: Seq<u32>,
    rest: int,
    spill: int,
    i: int,
    o: int,
    st: int,
) -> bool {
    let a = resets[i] as int;
    let end = window_end(resets, fine.len() as int, spill, i);
    a <= o < st <= end && spans(fine.subrange(a, end), rest, o - a, st - a)
}

/// Whether nothing moves in the window of reset `i`.
pub open spec fn window_still(resets: Seq<usize>, fine: Seq<u32>, spill: int, i: int) -> bool {
    forall|k: int|
        resets[i] <= k < window_end(resets, fine.len() as int, spill, i) ==> (#[trigger] fine[k])
            <= MOTION_HI
}

/// Whether `shots` are the strokes of the first `n` windows, in order: `from[k]` is
/// the reset of shot `k`.
pub open spec fn shots_found(
    resets: Seq<usize>,
    fine: Seq<u32>,
    rest: int,
    spill: int,
    n: int,
    shots: Seq<(usize, usize)>,
    from: Seq<int>,
) -> bool {
    &&& from.len() == shots.len()
    &&& forall|k: int|
        0 <= k < shots.len() ==> 0 <= (#[trigger] from[k]) < n && window_spans(
            resets,
            fine,
            rest,
            spill,
            from[k],
            shots[k].0 as int,
            shots[k].1 as int,
        )
    &&& forall|j: int, k: int|
        0 <= j < k < from.len() ==> (#[trigger] from[j]) < (#[trigger] from[k])
    &&& forall|i: int|
        0 <= i < n ==> from.contains(i) || #[trigger] window_still(resets, fine, spill, i)
}

/// Shot windows from clock resets, bounded rest-to-rest: `resets` are the frames of
/// the resets in order, `fine` the motion per frame.
pub fn find_shots(resets: &[usize], fine: &[u32], rest: usize, spill: usize) -> (r: Vec<
    (usize, usize),
>)
    requires
        rest > 0,
        fine@.len() + spill <= usize::MAX,
        forall|k: int| 0 <= k < resets@.len() ==> (#[trigger] resets@[k]) <= fine@.len(),
        forall|j: int, k: int|
            0 <= j < k < resets@.len() ==> (#[trigger] resets@[j]) <= (#[trigger] resets@[k]),
    ensures
        exists|from: Seq<int>| #[trigger]
            shots_found(
                resets@,
                fine@,
                rest as int,
                spill as int,
                resets@.len() as int,
                r@,
                from,
            ),
{
    let mut shots: Vec<(usize, usize)> = Vec::new();
    let ghost mut from: Seq<int> = seq![];
    for i in 0..resets.len()
        invariant
            rest > 0,
            fine@.len() + spill <= usize::MAX,
                forall|k: int| 0 <= k < resets@.len() ==> (#[trigger] resets@[k]) <= fine@.len(),
            forall|j: int, k: int|
                0 <= j < k < resets@.len() ==> (#[trigger] resets@[j]) <= (#[trigger] resets@[k]),
            shots_found(
                resets@,
                fine@,
                rest as int,
                spill as int,
                i as int,
                shots@,
                from,
            ),
    {
        let a: usize = resets[i];
        let b: usize = if i < resets.len() - 1 {
            resets[i + 1]
        } else {
            fine.len()
        };
        let end: usize = if b + spill <= fine.len() {
            b + spill
        } else {
            fine.len()
        };
        assert(end == window_end(resets@, fine@.len() as int, spill as int, i as int));
        let ghost had = from;
        match stroke_span(fine, rest, a, end) {
            Some((onset, settle)) => {
                let ghost before = shots@;
                shots.push((onset, settle));
                proof {
                    from = had.push(i as int);
                    assert forall|k: int| 0 <= k < shots@.len() implies 0 <= (#[trigger] from[k])
                        < i + 1 && window_spans(
                        resets@,
                        fine@,
                        rest as int,
                        spill as int,
                        from[k],
                        shots@[k].0 as int,
                        shots@[k].1 as int,
                    ) by {
                        if k < before.len() {
                            assert(from[k] == had[k]);
                            assert(shots@[k] == before[k]);
                        }
                    }
                    assert(from[had.len() as int] == i);
                    assert forall|k: int| 0 <= k < i + 1 implies from.contains(k)
                        || #[trigger] window_still(resets@, fine@, spill as int, k) by {
                        if had.contains(k) {
                            let w = choose|w: int| 0 <= w < had.len() && had[w] == k;
                            assert(from[w] == k);
                        }
                    }
                }
            },
            None => {
                assert(window_still(resets@, fine@, spill as int, i as int));
            },
        }
    }
    shots
}

/// What a probe of a video says: its dimensions, and its frame rate as a fraction in
/// texts, if it is one.
#[derive(Debug)]
pub struct Probe {
    pub width: usize,
    pub height: usize,
    pub rate: Option<(Vec<char>, Vec<char>)>,
}

/// Read the first line of a probe: width, height and frame rate between commas. None
/// where a dimension is missing or no number, or the rate is missing.
pub fn read_probe(text: &str) -> (r: Option<Probe>)
    ensures
        ({
            let f = split_at_each(trimmed(text@), ',');
            match r {
                Some(p) => {
                    &&& f.len() >= 3
                    &&& unsigned_value(f[0]) == Some(p.width as nat)
                    &&& unsigned_value(f[1]) == Some(p.height as nat)
                    &&& match p.rate {
                        Some((n, d)) => split_first(f[2], '/') == Some((n@, d@)),
                        None => split_first(f[2], '/') is None,
                    }
                },
                None => f.len() < 3 || unsigned_value(f[0]) is None || unsigned_value(f[0])->0
                    > usize::MAX || unsigned_value(f[1]) is None || unsigned_value(f[1])->0
                    > usize::MAX,
            }
        }),
{
    let line: Vec<char> = trim(chars_of(text).as_slice());
    let f: Vec<Vec<char>> = split(line.as_slice(), ',');
    let ghost all = texts(f@);
    if f.len() < 3 {
        return None;
    }
    assert(all[0] == f@[0]@ && all[1] == f@[1]@ && all[2] == f@[2]@);
    match (read_usize(f[0].as_slice()), read_usize(f[1].as_slice())) {
        (Some(width), Some(height)) => Some(
            Probe { width, height, rate: split_once(f[2].as_slice(), '/') },
        ),
        _ => None,
    }
}

/// The first `n` words' corners: the two coordinates about the first comma of each word
/// that has one.
pub open spec fn corners_given(ws: Seq<Seq<char>>, n: int) -> Seq<(Seq<char>, Seq<char>)>
    decreases n,
{
    if n <= 0 {
        seq![]
    } else {
        match split_first(ws[n - 1], ',') {
            Some(pair) => corners_given(ws, n - 1).push(pair),
            None => corners_given(ws, n - 1),
        }
    }
}

/// Read the table corners of a command line, as they are written.
pub fn read_corners(text: &str) -> (r: Vec<Pair>)
    ensures
        pair_texts(r@) == corners_given(words_of(text@), words_of(text@).len() as int),
{
    let ws: Vec<Vec<char>> = words(chars_of(text).as_slice());
    let ghost all = texts(ws@);
    let mut r: Vec<Pair> = Vec::new();
    assert(pair_texts(r@) =~= corners_given(all, 0));
    for k in 0..ws.len()
        invariant
            all == texts(ws@),
            pair_texts(r@) == corners_given(all, k as int),
    {
        let ghost before = pair_texts(r@);
        assert(all[k as int] == ws@[k as int]@);
        match split_once(ws[k].as_slice(), ',') {
            Some((u, v)) => {
                r.push(Pair { u, v });
                assert(pair_texts(r@) =~= before.push((u@, v@)));
            },
            None => {},
        }
    }
    r
}

/// Seconds of a clip before its stroke: 0.5; after it: 0.6; and the least from the
/// stroke on: 11.5.
pub const PAD_PRE: u64 = 0x3FE0_0000_0000_0000;

pub const PAD_POST: u64 = 0x3FE3_3333_3333_3333;

pub const CLIP_LEAST: u64 = 0x4027_0000_0000_0000;

/// The span of a clip: from the padded onset, not before the video begins, to the
/// padded end or the least end, whichever is later.
pub fn clip_span(padded_onset: Scalar, padded_end: Scalar, least_end: Scalar) -> (r: (
    Scalar,
    Scalar,
))
    ensures
        r.0 == padded_onset.greater_of(num(ZERO)),
        r.1 == padded_end.greater_of(least_end),
        num(ZERO).at_most(r.0),
        num(ZERO).at_most(padded_onset) ==> padded_onset.at_most(r.0) && r.0.at_most(padded_onset),
        !padded_end.nan() && !least_end.nan() ==> padded_end.at_most(r.1) && least_end.at_most(r.1),
{
    (padded_onset.max(num(ZERO)), padded_end.max(least_end))
}

/// The corners are those of the words with a comma, in their order, and corner `i` is word
/// `from[i]` cut at its first comma.
pub proof fn law_corners_are_the_words(ws: Seq<Seq<char>>, n: int) -> (from: Seq<int>)
    requires
        0 <= n <= ws.len(),
    ensures
        from.len() == corners_given(ws, n).len(),
        forall|k: int| #[trigger] from.contains(k) <==> 0 <= k < n && ws[k].contains(','),
        forall|i: int, j: int|
            0 <= i < j < from.len() ==> (#[trigger] from[i]) < (#[trigger] from[j]),
        forall|i: int|
            0 <= i < from.len() ==> !(#[trigger] corners_given(ws, n)[i]).0.contains(',')
                && ws[from[i]] == corners_given(ws, n)[i].0 + seq![','] + corners_given(ws, n)[i].1,
    decreases n,
{
    if n <= 0 {
        seq![]
    } else {
        let before = law_corners_are_the_words(ws, n - 1);
        let w = ws[n - 1];
        law_char_place(w, ',');
        let more = char_place(w, ',') is Some;
        let from = if more {
            before.push(n - 1)
        } else {
            before
        };
        if more {
            law_split_first(w, ',');
        }
        lemma_places_step(before, from, n - 1, more);
        let all = corners_given(ws, n);
        assert forall|i: int| 0 <= i < from.len() implies !(#[trigger] all[i]).0.contains(',')
            && ws[from[i]] == all[i].0 + seq![','] + all[i].1 by {
            if i < before.len() {
                assert(from[i] == before[i]);
                assert(all[i] == corners_given(ws, n - 1)[i]);
            } else {
                assert(all[i] == split_first(w, ',')->0);
            }
        }
        from
    }
}

/// A shot is looked for from its reset to the next one and the spill beyond, but never past
/// the last frame; that of the last reset to the end.
pub proof fn law_windows_follow_the_resets(resets: Seq<usize>, frames: int, spill: int, i: int)
    requires
        0 <= i < resets.len(),
        0 <= spill,
        forall|k: int| 0 <= k < resets.len() ==> (#[trigger] resets[k]) <= frames,
        forall|j: int, k: int|
            0 <= j < k < resets.len() ==> (#[trigger] resets[j]) <= (#[trigger] resets[k]),
    ensures
        resets[i] <= window_end(resets, frames, spill, i) <= frames,
        i == resets.len() - 1 ==> window_end(resets, frames, spill, i) == frames,
        i + 1 < resets.len() && resets[i + 1] + spill <= frames ==> window_end(
            resets,
            frames,
            spill,
            i,
        ) == resets[i + 1] + spill,
        i + 1 < resets.len() && resets[i + 1] + spill > frames ==> window_end(
            resets,
            frames,
            spill,
            i,
        ) == frames,
{
    assert(resets[i] <= frames);
    if i + 1 < resets.len() {
        assert(resets[i] <= resets[i + 1]);
    }
}

/// Every window with a strong motion gives its shot, and windows come in order: as many
/// shots as there are such windows.
pub proof fn law_every_stroke_is_found(
    resets: Seq<usize>,
    fine: Seq<u32>,
    rest: int,
    spill: int,
    shots: Seq<(usize, usize)>,
    from: Seq<int>,
    i: int,
    f: int,
)
    requires
        shots_found(resets, fine, rest, spill, resets.len() as int, shots, from),
        0 <= i < resets.len(),
        resets[i] <= f < window_end(resets, fine.len() as int, spill, i),
        fine[f] > MOTION_HI,
    ensures
        exists|k: int|
            0 <= k < shots.len() && #[trigger] from[k] == i && resets[i] <= shots[k].0 < shots[k].1
                <= window_end(resets, fine.len() as int, spill, i),
        shots.len() <= resets.len(),
{
    assert(!window_still(resets, fine, spill, i));
    assert(from.contains(i));
    let k = choose|k: int| 0 <= k < from.len() && from[k] == i;
    assert(from[k] == i);
    assert(window_spans(resets, fine, rest, spill, from[k], shots[k].0 as int, shots[k].1 as int));
    lemma_increasing_is_short(from, resets.len() as int);
}

proof fn lemma_increasing_is_short(from: Seq<int>, n: int)
    requires
        forall|j: int| 0 <= j < from.len() ==> 0 <= (#[trigger] from[j]) < n,
        forall|j: int, k: int|
            0 <= j < k < from.len() ==> (#[trigger] from[j]) < (#[trigger] from[k]),
    ensures
        from.len() > 0 ==> from.len() <= from.last() + 1,
        from.len() > 0 ==> from.len() <= n,
    decreases from.len(),
{
    if from.len() > 1 {
        let front = from.drop_last();
        assert forall|j: int| 0 <= j < front.len() implies 0 <= (#[trigger] front[j]) < n by {
            assert(front[j] == from[j]);
        }
        assert forall|j: int, k: int| 0 <= j < k < front.len() implies (#[trigger] front[j]) < (
        #[trigger] front[k]) by {
            assert(front[j] == from[j] && front[k] == from[k]);
        }
        lemma_increasing_is_short(front, n);
        assert(from[from.len() - 2] < from[from.len() - 1]);
    }
    if from.len() > 0 {
        assert(0 <= from[from.len() - 1] < n);
    }
}

/// An argument is found by the first place of its name, and by no other.
pub proof fn law_argument_follows_its_name(args: Seq<String>, name: Seq<char>, i: int, j: int)
    requires
        arg_place(args, name, i),
        0 <= j < args.len(),
    ensures
        0 <= i < args.len(),
        args[i]@ == name,
        args[j]@ == name ==> i <= j,
{
}

} // verus!
