//! Aligning the source footage with the reconstruction beside it.
//!
//! The transform is an optional vertical flip, then 0 to 3 clockwise
//! quarter-turns. The flip is needed where the footage's calibration is mirrored:
//! pure rotations can't fix chirality.

use vstd::prelude::*;

use crate::scalar::{num, Scalar, MINUS_INFINITE};

verus! {

/// A display transform: a vertical flip, then clockwise quarter-turns.
#[derive(Clone, Copy, Debug, PartialEq, Eq, Structural)]
pub struct Xform {
    pub flip: bool,
    pub turns: u8,
}

/// A direction in the frame, `v` growing downward, after clockwise quarter-turns:
/// each maps `(u, v)` to `(-v, u)`.
pub open spec fn turned(u: Scalar, v: Scalar, turns: nat) -> (Scalar, Scalar)
    decreases turns,
{
    if turns == 0 {
        (u, v)
    } else {
        let (a, b) = turned(u, v, (turns - 1) as nat);
        (b.opposite(), a)
    }
}

impl Xform {
    /// A direction in the frame after the transform.
    pub open spec fn direction(self, u: Scalar, v: Scalar) -> (Scalar, Scalar) {
        turned(
            u,
            if self.flip {
                v.opposite()
            } else {
                v
            },
            self.turns as nat,
        )
    }

    pub fn apply(self, u: Scalar, v: Scalar) -> (r: (Scalar, Scalar))
        ensures
            r == self.direction(u, v),
    {
        let v0: Scalar = if self.flip {
            v.neg()
        } else {
            v
        };
        let mut a: Scalar = u;
        let mut b: Scalar = v0;
        for k in 0..self.turns
            invariant
                (a, b) == turned(u, v0, k as nat),
        {
            let c: Scalar = b.neg();
            b = a;
            a = c;
        }
        (a, b)
    }

    /// The transforms in the order in which they are tried: the four turns without
    /// and then with the flip.
    pub open spec fn nth(k: int) -> Xform {
        Xform { flip: k >= 4, turns: (k % 4) as u8 }
    }

    pub fn candidate(k: usize) -> (x: Xform)
        requires
            k < 8,
        ensures
            x == Xform::nth(k as int),
    {
        Xform { flip: k >= 4, turns: (k % 4) as u8 }
    }
}

/// The best transform among the first `n`, by their scores: one is taken only when
/// it beats all before it. Without a score that does, the footage stays as it is.
pub open spec fn best_among(scores: Seq<Scalar>, n: int) -> (int, Scalar)
    decreases n,
{
    if n <= 0 {
        (0, num(MINUS_INFINITE))
    } else {
        let (k, s) = best_among(scores, n - 1);
        if s.less(scores[n - 1]) {
            (n - 1, scores[n - 1])
        } else {
            (k, s)
        }
    }
}

/// Pick the transform that best aligns the footage, from how well each of the
/// eight puts table +x to the right and +y up.
pub fn video_xform(scores: &[Scalar; 8]) -> (x: Xform)
    ensures
        x == Xform::nth(best_among(scores@, 8).0),
{
    let mut best: usize = 0;
    let mut score: Scalar = num(MINUS_INFINITE);
    for k in 0..8usize
        invariant
            best < 8,
            (best as int, score) == best_among(scores@, k as int),
    {
        if scores[k].gt(score) {
            score = scores[k];
            best = k;
        }
    }
    Xform::candidate(best)
}

/// The picked transform scores at least as well as every other one.
pub proof fn law_best_beats_all(scores: Seq<Scalar>, n: int)
    requires
        0 <= n <= scores.len(),
    ensures
        !best_among(scores, n).1.nan(),
        forall|k: int|
            0 <= k < n && !(#[trigger] scores[k]).nan() ==> scores[k].at_most(
                best_among(scores, n).1,
            ),
        best_among(scores, n).1 == num(MINUS_INFINITE) || best_among(scores, n).1
            == scores[best_among(scores, n).0],
    decreases n,
{
    if n > 0 {
        law_best_beats_all(scores, n - 1);
    }
}

/// Four quarter-turns are none, and a flip undoes itself.
pub proof fn law_turns_cycle(u: Scalar, v: Scalar)
    ensures
        turned(u, v, 4) == (u, v),
        v.opposite().opposite() == v,
{
    reveal_with_fuel(turned, 5);
}

/// The dimensions of a frame as displayed.
pub open spec fn displayed(w: u32, h: u32, turns: u8) -> (u32, u32) {
    if turns % 2 == 1 {
        (h, w)
    } else {
        (w, h)
    }
}

pub fn out_dims(w: u32, h: u32, turns: u8) -> (r: (u32, u32))
    ensures
        r == displayed(w, h, turns),
{
    if turns % 2 == 1 {
        (h, w)
    } else {
        (w, h)
    }
}

/// A frame: four bytes (red, green, blue, alpha) per pixel, row by row.
#[derive(Debug)]
pub struct Frame {
    pub width: u32,
    pub height: u32,
    pub rgba: Vec<u8>,
}

impl Frame {
    /// It holds its pixels, and a row and a column of it can be counted in bytes.
    pub open spec fn wf(self) -> bool {
        &&& self.rgba@.len() == 4 * (self.width * self.height)
        &&& 4 * self.width <= usize::MAX
        &&& 4 * self.height <= usize::MAX
    }

    /// The pixel in column `x` of row `y`.
    pub open spec fn pixel(self, x: int, y: int) -> Seq<u8> {
        self.rgba@.subrange(4 * (y * self.width + x), 4 * (y * self.width + x) + 4)
    }
}

/// `image::imageops::flip_vertical` turns a picture upside down: a pixel keeps its
/// column, and its row is counted from the other end. The bytes go into an
/// `image::RgbaImage` and come back out of one.
#[verifier::external_body]
fn flip_vertical(f: &Frame) -> (r: Frame)
    requires
        f.wf(),
    ensures
        r.wf(),
        r.width == f.width,
        r.height == f.height,
        forall|x: int, y: int|
            0 <= x < f.width && 0 <= y < f.height ==> r.pixel(x, f.height - 1 - y)
                == #[trigger] f.pixel(x, y),
{
    let img = image::RgbaImage::from_raw(f.width, f.height, f.rgba.clone()).unwrap();
    let out = image::imageops::flip_vertical(&img);
    Frame { width: out.width(), height: out.height(), rgba: out.into_raw() }
}

/// `image::imageops::rotate90` turns a picture clockwise by a quarter: a pixel's
/// row becomes its column, counted from the right, and its column its row.
#[verifier::external_body]
fn rotate90(f: &Frame) -> (r: Frame)
    requires
        f.wf(),
    ensures
        r.wf(),
        r.width == f.height,
        r.height == f.width,
        forall|x: int, y: int|
            0 <= x < f.width && 0 <= y < f.height ==> r.pixel(f.height - 1 - y, x)
                == #[trigger] f.pixel(x, y),
{
    let img = image::RgbaImage::from_raw(f.width, f.height, f.rgba.clone()).unwrap();
    let out = image::imageops::rotate90(&img);
    Frame { width: out.width(), height: out.height(), rgba: out.into_raw() }
}

/// `image::imageops::rotate180` turns a picture by a half: rows and columns are
/// both counted from the other end.
#[verifier::external_body]
fn rotate180(f: &Frame) -> (r: Frame)
    requires
        f.wf(),
    ensures
        r.wf(),
        r.width == f.width,
        r.height == f.height,
        forall|x: int, y: int|
            0 <= x < f.width && 0 <= y < f.height ==> r.pixel(
                f.width - 1 - x,
                f.height - 1 - y,
            ) == #[trigger] f.pixel(x, y),
{
    let img = image::RgbaImage::from_raw(f.width, f.height, f.rgba.clone()).unwrap();
    let out = image::imageops::rotate180(&img);
    Frame { width: out.width(), height: out.height(), rgba: out.into_raw() }
}

/// `image::imageops::rotate270` turns a picture counterclockwise by a quarter: a
/// pixel's column becomes its row, counted from the bottom, and its row its
/// column.
#[verifier::external_body]
fn rotate270(f: &Frame) -> (r: Frame)
    requires
        f.wf(),
    ensures
        r.wf(),
        r.width == f.height,
        r.height == f.width,
        forall|x: int, y: int|
            0 <= x < f.width && 0 <= y < f.height ==> r.pixel(y, f.width - 1 - x)
                == #[trigger] f.pixel(x, y),
{
    let img = image::RgbaImage::from_raw(f.width, f.height, f.rgba.clone()).unwrap();
    let out = image::imageops::rotate270(&img);
    Frame { width: out.width(), height: out.height(), rgba: out.into_raw() }
}

/// Where a pixel of a `w` by `h` frame is after clockwise quarter-turns.
pub open spec fn turned_place(x: int, y: int, w: int, h: int, turns: nat) -> (int, int)
    decreases turns,
{
    if turns == 0 {
        (x, y)
    } else {
        turned_place(h - 1 - y, x, h, w, (turns - 1) as nat)
    }
}

impl Xform {
    /// Where a pixel of a `w` by `h` frame is after the transform.
    pub open spec fn place(self, x: int, y: int, w: int, h: int) -> (int, int) {
        turned_place(
            x,
            if self.flip {
                h - 1 - y
            } else {
                y
            },
            w,
            h,
            self.turns as nat,
        )
    }
}

/// Transform a frame so that its table lies the same way as the reconstruction.
pub fn align_frame(f: Frame, x: Xform) -> (r: Frame)
    requires
        f.wf(),
        x.turns < 4,
    ensures
        r.wf(),
        (r.width, r.height) == displayed(f.width, f.height, x.turns),
        forall|a: int, b: int|
            0 <= a < f.width && 0 <= b < f.height ==> ({
                let p = x.place(a, b, f.width as int, f.height as int);
                r.pixel(p.0, p.1) == #[trigger] f.pixel(a, b)
            }),
{
    let ghost w = f.width as int;
    let ghost h = f.height as int;
    let whole: Ghost<Frame> = Ghost(f);
    let upright: Frame = if x.flip {
        flip_vertical(&f)
    } else {
        f
    };
    let r: Frame = if x.turns == 1 {
        rotate90(&upright)
    } else if x.turns == 2 {
        rotate180(&upright)
    } else if x.turns == 3 {
        rotate270(&upright)
    } else {
        upright
    };
    proof {
        reveal_with_fuel(turned_place, 4);
        assert forall|a: int, b: int| 0 <= a < w && 0 <= b < h implies ({
            let p = x.place(a, b, w, h);
            r.pixel(p.0, p.1) == #[trigger] whole@.pixel(a, b)
        }) by {
            let b1 = if x.flip {
                h - 1 - b
            } else {
                b
            };
            assert(upright.pixel(a, b1) == whole@.pixel(a, b));
        }
    }
    r
}

/// Frame index for a shot time, `offset` frames after the one at time 0, within the
/// available frames.
pub fn frame_at(start: usize, offset: i64, frames: usize) -> (k: usize)
    requires
        0 < frames <= i64::MAX,
        start <= i64::MAX,
        i64::MIN <= start + offset <= i64::MAX,
    ensures
        k < frames,
        k == (if start + offset < 0 {
            0
        } else if start + offset >= frames {
            frames - 1
        } else {
            start + offset
        }),
        0 <= start + offset < frames ==> k == start + offset,
        start + offset < 0 ==> k == 0,
        start + offset >= frames ==> k + 1 == frames,
{
    let idx: i64 = start as i64 + offset;
    if idx < 0 {
        0
    } else if idx >= frames as i64 {
        frames - 1
    } else {
        idx as usize
    }
}

/// A quarter-turn takes right to down and down to left; two turn a direction around; three
/// are one the other way.
pub proof fn law_quarter_turns(u: Scalar, v: Scalar)
    ensures
        turned(u, v, 0) == (u, v),
        turned(u, v, 1) == (v.opposite(), u),
        turned(u, v, 2) == (u.opposite(), v.opposite()),
        turned(u, v, 3) == (v, u.opposite()),
{
    reveal_with_fuel(turned, 4);
    assert(v.opposite().opposite() == v);
}

/// A flip turns the vertical around before the turns.
pub proof fn law_flip_comes_first(u: Scalar, v: Scalar, turns: u8)
    ensures
        (Xform { flip: true, turns }).direction(u, v) == turned(u, v.opposite(), turns as nat),
        (Xform { flip: false, turns }).direction(u, v) == turned(u, v, turns as nat),
{
}

/// The eight candidates are the four turns without the flip and the four with it, each once.
pub proof fn law_candidates_are_all_transforms(x: Xform, j: int, k: int)
    requires
        x.turns < 4,
        0 <= j < k < 8,
    ensures
        Xform::nth(x.turns as int + if x.flip {
            4int
        } else {
            0int
        }) == x,
        Xform::nth(j) != Xform::nth(k),
{
}

/// The picked transform is the first whose score no other one beats; where no score is above
/// the negative infinity the footage stays as it is.
pub proof fn law_picked_is_first_best(scores: Seq<Scalar>, n: int, j: int)
    requires
        0 <= j < n <= scores.len(),
        num(MINUS_INFINITE).less(scores[j]),
    ensures
        ({
            let k = best_among(scores, n).0;
            &&& 0 <= k < n
            &&& best_among(scores, n).1 == scores[k]
            &&& scores[j].at_most(scores[k])
            &&& j < k ==> scores[j].less(scores[k])
        }),
    decreases n,
{
    law_best_beats_all(scores, n - 1);
    law_best_beats_all(scores, n);
    if j < n - 1 {
        law_picked_is_first_best(scores, n - 1, j);
    } else if exists|i: int| 0 <= i < n - 1 && num(MINUS_INFINITE).less(#[trigger] scores[i]) {
        let i = choose|i: int|
            0 <= i < n - 1 && num(MINUS_INFINITE).less(#[trigger] scores[i]);
        law_picked_is_first_best(scores, n - 1, i);
    } else {
        lemma_nothing_beats(scores, n - 1);
    }
}

proof fn lemma_nothing_beats(scores: Seq<Scalar>, n: int)
    requires
        0 <= n <= scores.len(),
        forall|i: int| 0 <= i < n ==> !num(MINUS_INFINITE).less(#[trigger] scores[i]),
    ensures
        best_among(scores, n) == (0int, num(MINUS_INFINITE)),
    decreases n,
{
    if n > 0 {
        lemma_nothing_beats(scores, n - 1);
    }
}

/// Footage of which no transform scores above the negative infinity is left as it is.
pub proof fn law_unscored_footage_stays(scores: Seq<Scalar>)
    requires
        scores.len() == 8,
        forall|i: int| 0 <= i < 8 ==> !num(MINUS_INFINITE).less(#[trigger] scores[i]),
    ensures
        Xform::nth(best_among(scores, 8).0) == (Xform { flip: false, turns: 0 }),
{
    lemma_nothing_beats(scores, 8);
}

/// Where a pixel goes: with each clockwise quarter-turn its row becomes its column, counted
/// from the right, and its column its row; and the frame is as wide as it was high.
pub proof fn law_pixels_turn_with_the_frame(x: int, y: int, w: u32, h: u32)
    ensures
        turned_place(x, y, w as int, h as int, 0) == (x, y),
        turned_place(x, y, w as int, h as int, 1) == (h - 1 - y, x),
        turned_place(x, y, w as int, h as int, 2) == (w - 1 - x, h - 1 - y),
        turned_place(x, y, w as int, h as int, 3) == (y, w - 1 - x),
        displayed(w, h, 0) == (w, h),
        displayed(w, h, 1) == (h, w),
        displayed(w, h, 2) == (w, h),
        displayed(w, h, 3) == (h, w),
{
    reveal_with_fuel(turned_place, 4);
}

/// No two pixels of a frame come to the same place, and none leaves the frame.
pub proof fn law_no_pixel_is_lost(t: Xform, w: u32, h: u32, x: int, y: int, a: int, b: int)
    requires
        t.turns < 4,
        0 <= x < w && 0 <= y < h,
        0 <= a < w && 0 <= b < h,
    ensures
        ({
            let p = t.place(x, y, w as int, h as int);
            let q = t.place(a, b, w as int, h as int);
            &&& 0 <= p.0 < displayed(w, h, t.turns).0
            &&& 0 <= p.1 < displayed(w, h, t.turns).1
            &&& p == q ==> x == a && y == b
        }),
{
    reveal_with_fuel(turned_place, 4);
}

/// A flip counts the rows from the other end, before the turns.
pub proof fn law_flip_reverses_rows(x: int, y: int, w: int, h: int)
    ensures
        (Xform { flip: true, turns: 0 }).place(x, y, w, h) == (x, h - 1 - y),
        (Xform { flip: true, turns: 1 }).place(x, y, w, h) == (y, x),
        (Xform { flip: false, turns: 0 }).place(x, y, w, h) == (x, y),
{
    reveal_with_fuel(turned_place, 2);
}

} // verus!
