//! A shot for the editor: cue-first trajectories with each ball's true color, and
//! the link back to the source video.

use vstd::prelude::*;

use crate::files::shot::{
    color_named, copy_text, is_named, row_texts, Row, RowText, ShotText, Text,
};
use crate::model::ball::BallColor;
use crate::model::math::DVec3;
use crate::order::lemma_places_step;
use crate::scalar::{num, Scalar};
use crate::solver::penalty::ObservedTrack;

verus! {

/// The frame rate of a clip that gives none: 30.
pub const DEFAULT_FPS: u64 = 0x403E_0000_0000_0000;

/// Four image corners of the table.
#[derive(Clone, Copy, Debug, PartialEq, Eq)]
pub struct Corners {
    pub a: (Scalar, Scalar),
    pub b: (Scalar, Scalar),
    pub c: (Scalar, Scalar),
    pub d: (Scalar, Scalar),
}

/// A back-reference from a shot to the video clip it was tracked from.
#[derive(Debug)]
pub struct VideoRef {
    pub frames_dir: Text,
    pub fps: Scalar,
    /// Index (into the sorted frames) of the frame at shot time 0.
    pub start: usize,
    pub corners: Option<Corners>,
    pub vertical: bool,
}

/// A tracked shot: per-ball trajectories ordered cue-first, with each ball's true
/// color, plus an optional link back to the source video clip.
#[derive(Debug)]
pub struct ImportedShot {
    pub tracks: Vec<ObservedTrack>,
    pub colors: Vec<BallColor>,
    pub video: Option<VideoRef>,
}

/// A sample's numbers as read: time and place, or nothing where one of them is no
/// number.
#[derive(Clone, Copy, Debug, PartialEq, Eq, Structural)]
pub struct Reading {
    pub t: Scalar,
    pub x: Scalar,
    pub y: Scalar,
}

/// The samples of one ball among the first `n` rows, in order.
pub open spec fn track_among(
    rows: Seq<RowText>,
    readings: Seq<Option<Reading>>,
    ball: BallColor,
    radius: Scalar,
    n: int,
) -> Seq<(Scalar, DVec3)>
    decreases n,
{
    if n <= 0 {
        seq![]
    } else {
        let sofar = track_among(rows, readings, ball, radius, n - 1);
        match readings[n - 1] {
            Some(r) => if rows[n - 1].ball == ball {
                sofar.push((r.t, DVec3 { x: r.x, y: r.y, z: radius }))
            } else {
                sofar
            },
            None => sofar,
        }
    }
}

/// The samples of one ball.
pub fn track_of(
    rows: &Vec<Row>,
    readings: &[Option<Reading>],
    ball: BallColor,
    radius: Scalar,
) -> (r: ObservedTrack)
    requires
        readings@.len() == rows@.len(),
    ensures
        r@ == track_among(row_texts(rows@), readings@, ball, radius, rows@.len() as int),
        is_track_of(row_texts(rows@), readings@, ball, radius, r@),
{
    let mut r: ObservedTrack = Vec::new();
    for k in 0..rows.len()
        invariant
            readings@.len() == rows@.len(),
            r@ == track_among(row_texts(rows@), readings@, ball, radius, k as int),
    {
        assert(row_texts(rows@)[k as int] == rows@[k as int]@);
        if let Some(x) = readings[k] {
            if rows[k].ball == ball {
                r.push((x.t, DVec3::new(x.x, x.y, radius)));
            }
        }
    }
    proof {
        lemma_track_made(row_texts(rows@), readings@, ball, radius);
    }
    r
}

/// Whether a track is made of the rows `from`, in order: those of the ball whose numbers
/// could be read, each with the time and the place that it says.
pub open spec fn made_of(
    rows: Seq<RowText>,
    readings: Seq<Option<Reading>>,
    ball: BallColor,
    radius: Scalar,
    track: Seq<(Scalar, DVec3)>,
    from: Seq<int>,
) -> bool {
    &&& from.len() == track.len()
    &&& forall|k: int| #[trigger]
        from.contains(k) <==> 0 <= k < rows.len() && rows[k].ball == ball && readings[k] is Some
    &&& forall|i: int, j: int|
        0 <= i < j < from.len() ==> (#[trigger] from[i]) < (#[trigger] from[j])
    &&& forall|i: int|
        0 <= i < track.len() ==> {
            &&& (#[trigger] track[i]).0 == readings[from[i]]->0.t
            &&& track[i].1.x == readings[from[i]]->0.x
            &&& track[i].1.y == readings[from[i]]->0.y
            &&& track[i].1.z == radius
        }
}

/// Whether a track is what the rows of its ball say.
pub open spec fn is_track_of(
    rows: Seq<RowText>,
    readings: Seq<Option<Reading>>,
    ball: BallColor,
    radius: Scalar,
    track: Seq<(Scalar, DVec3)>,
) -> bool {
    exists|from: Seq<int>| #[trigger] made_of(rows, readings, ball, radius, track, from)
}

proof fn lemma_track_made(
    rows: Seq<RowText>,
    readings: Seq<Option<Reading>>,
    ball: BallColor,
    radius: Scalar,
) -> (from: Seq<int>)
    requires
        readings.len() == rows.len(),
    ensures
        made_of(
            rows,
            readings,
            ball,
            radius,
            track_among(rows, readings, ball, radius, rows.len() as int),
            from,
        ),
{
    law_track_is_its_rows(rows, readings, ball, radius, rows.len() as int)
}

/// A ball's track is what its rows say, in their order: sample `i` comes from row `from[i]`,
/// with that row's time, its x for x and its y for y, at the height of the ball's center;
/// every row of the ball whose numbers could be read has its sample, and no other row has.
pub proof fn law_track_is_its_rows(
    rows: Seq<RowText>,
    readings: Seq<Option<Reading>>,
    ball: BallColor,
    radius: Scalar,
    n: int,
) -> (from: Seq<int>)
    requires
        0 <= n <= rows.len(),
        readings.len() == rows.len(),
    ensures
        from.len() == track_among(rows, readings, ball, radius, n).len(),
        forall|k: int| #[trigger]
            from.contains(k) <==> 0 <= k < n && rows[k].ball == ball && readings[k] is Some,
        forall|i: int, j: int|
            0 <= i < j < from.len() ==> (#[trigger] from[i]) < (#[trigger] from[j]),
        forall|i: int|
            0 <= i < from.len() ==> {
                let s = #[trigger] track_among(rows, readings, ball, radius, n)[i];
                let r = readings[from[i]]->0;
                s.0 == r.t && s.1.x == r.x && s.1.y == r.y && s.1.z == radius
            },
    decreases n,
{
    if n <= 0 {
        seq![]
    } else {
        let before = law_track_is_its_rows(rows, readings, ball, radius, n - 1);
        let more = rows[n - 1].ball == ball && readings[n - 1] is Some;
        let from = if more {
            before.push(n - 1)
        } else {
            before
        };
        lemma_places_step(before, from, n - 1, more);
        let all = track_among(rows, readings, ball, radius, n);
        let had = track_among(rows, readings, ball, radius, n - 1);
        assert forall|i: int| 0 <= i < from.len() implies {
            let s = #[trigger] all[i];
            let r = readings[from[i]]->0;
            s.0 == r.t && s.1.x == r.x && s.1.y == r.y && s.1.z == radius
        } by {
            if i < before.len() {
                assert(all[i] == had[i]);
                assert(from[i] == before[i]);
            }
        }
        from
    }
}

/// The three balls with the cue ball first, the others in their usual order. A
/// name that is no color leaves the usual order.
pub open spec fn lineup(cue: Seq<char>) -> Seq<BallColor> {
    match color_named(cue) {
        Some(BallColor::Yellow) => seq![BallColor::Yellow, BallColor::White, BallColor::Red],
        Some(BallColor::Red) => seq![BallColor::Red, BallColor::White, BallColor::Yellow],
        _ => seq![BallColor::White, BallColor::Yellow, BallColor::Red],
    }
}

/// The balls of the first `n` in a lineup that have samples.
pub open spec fn present(
    line: Seq<BallColor>,
    rows: Seq<RowText>,
    readings: Seq<Option<Reading>>,
    radius: Scalar,
    n: int,
) -> Seq<BallColor>
    decreases n,
{
    if n <= 0 {
        seq![]
    } else {
        let sofar = present(line, rows, readings, radius, n - 1);
        if track_among(rows, readings, line[n - 1], radius, rows.len() as int).len() > 0 {
            sofar.push(line[n - 1])
        } else {
            sofar
        }
    }
}

/// The balls of a shot, cue first.
pub open spec fn balls_of(
    cue: Seq<char>,
    rows: Seq<RowText>,
    readings: Seq<Option<Reading>>,
    radius: Scalar,
) -> Seq<BallColor> {
    present(lineup(cue), rows, readings, radius, 3)
}

fn cue_lineup(cue: &[char]) -> (r: Vec<BallColor>)
    ensures
        r@ == lineup(cue@),
{
    let mut r: Vec<BallColor> = Vec::new();
    if is_named(cue, BallColor::Yellow) {
        r.push(BallColor::Yellow);
        r.push(BallColor::White);
        r.push(BallColor::Red);
    } else if is_named(cue, BallColor::Red) {
        r.push(BallColor::Red);
        r.push(BallColor::White);
        r.push(BallColor::Yellow);
    } else {
        r.push(BallColor::White);
        r.push(BallColor::Yellow);
        r.push(BallColor::Red);
    }
    proof {
        reveal_strlit("white");
        reveal_strlit("yellow");
        reveal_strlit("red");
        assert("white"@.len() == 5 && "yellow"@.len() == 6 && "red"@.len() == 3);
        assert(r@ =~= lineup(cue@));
    }
    r
}

/// The last of the values that could be read, or the default.
pub open spec fn last_read(values: Seq<Option<Scalar>>, default: Scalar) -> Scalar
    decreases values.len(),
{
    if values.len() == 0 {
        default
    } else {
        match values.last() {
            Some(v) => v,
            None => last_read(values.drop_last(), default),
        }
    }
}

pub fn last_value(values: &[Option<Scalar>], default: Scalar) -> (r: Scalar)
    ensures
        r == last_read(values@, default),
{
    let mut r: Scalar = default;
    for k in 0..values.len()
        invariant
            r == last_read(values@.take(k as int), default),
    {
        assert(values@.take(k + 1).drop_last() =~= values@.take(k as int));
        if let Some(v) = values[k] {
            r = v;
        }
    }
    assert(values@.take(values@.len() as int) =~= values@);
    r
}

/// The corners that could be read, among the first `n` of a line.
pub open spec fn corners_read(line: Seq<Option<(Scalar, Scalar)>>, n: int) -> Seq<(Scalar, Scalar)>
    decreases n,
{
    if n <= 0 {
        seq![]
    } else {
        match line[n - 1] {
            Some(p) => corners_read(line, n - 1).push(p),
            None => corners_read(line, n - 1),
        }
    }
}

/// The corners of the last, among the first `n` lines, that has exactly four.
pub open spec fn corners_given(lines: Seq<Vec<Option<(Scalar, Scalar)>>>, n: int) -> Option<Corners>
    decreases n,
{
    if n <= 0 {
        None
    } else {
        let pts = corners_read(lines[n - 1]@, lines[n - 1]@.len() as int);
        if pts.len() == 4 {
            Some(Corners { a: pts[0], b: pts[1], c: pts[2], d: pts[3] })
        } else {
            corners_given(lines, n - 1)
        }
    }
}

/// The table corners that the corner lines give.
pub fn corners_of(lines: &[Vec<Option<(Scalar, Scalar)>>]) -> (r: Option<Corners>)
    ensures
        r == corners_given(lines@, lines@.len() as int),
{
    let mut r: Option<Corners> = None;
    for k in 0..lines.len()
        invariant
            r == corners_given(lines@, k as int),
    {
        let line: &Vec<Option<(Scalar, Scalar)>> = &lines[k];
        let mut pts: Vec<(Scalar, Scalar)> = Vec::new();
        for i in 0..line.len()
            invariant
                pts@ == corners_read(line@, i as int),
        {
            if let Some(p) = line[i] {
                pts.push(p);
            }
        }
        if pts.len() == 4 {
            r = Some(Corners { a: pts[0], b: pts[1], c: pts[2], d: pts[3] });
        }
    }
    r
}

/// The tracks of the listed balls.
pub open spec fn tracks_of(
    balls: Seq<BallColor>,
    rows: Seq<RowText>,
    readings: Seq<Option<Reading>>,
    radius: Scalar,
) -> Seq<Seq<(Scalar, DVec3)>> {
    Seq::new(
        balls.len(),
        |k: int| track_among(rows, readings, balls[k], radius, rows.len() as int),
    )
}

pub open spec fn track_views(v: Seq<ObservedTrack>) -> Seq<Seq<(Scalar, DVec3)>> {
    Seq::new(v.len(), |k: int| v[k]@)
}

/// Put a shot together from what its file says and the numbers read in it: the
/// trajectories ordered cue-first with their true colors, and the video link. A cue ball
/// without samples is passed over; the ball that then comes first needs more than one.
pub fn parse_shot(
    said: &ShotText,
    readings: &[Option<Reading>],
    fps: &[Option<Scalar>],
    corners: &[Vec<Option<(Scalar, Scalar)>>],
    radius: Scalar,
) -> (r: Option<ImportedShot>)
    requires
        readings@.len() == said.rows@.len(),
    ensures
        ({
            let balls = balls_of(said@.cue, said@.rows, readings@, radius);
            let tracks = tracks_of(balls, said@.rows, readings@, radius);
            match r {
                None => balls.len() == 0 || tracks[0].len() <= 1,
                Some(shot) => {
                    &&& balls.len() > 0 && tracks[0].len() > 1
                    &&& shot.colors@ == balls
                    &&& track_views(shot.tracks@) == tracks
                    &&& shot.tracks@.len() == shot.colors@.len()
                    &&& forall|b: int|
                        0 <= b < shot.tracks@.len() ==> is_track_of(
                            said@.rows,
                            readings@,
                            shot.colors@[b],
                            radius,
                            (#[trigger] shot.tracks@[b])@,
                        )
                    &&& shot.video is Some <==> said.frames is Some
                    &&& shot.video is Some ==> {
                        &&& shot.video->0.frames_dir@ == said.frames->0@
                        &&& shot.video->0.fps == last_read(fps@, num(DEFAULT_FPS))
                        &&& shot.video->0.start == said.start
                        &&& shot.video->0.corners == corners_given(
                            corners@,
                            corners@.len() as int,
                        )
                        &&& shot.video->0.vertical == said.vertical
                    }
                },
            }
        }),
{
    let ghost rows = said@.rows;
    let line: Vec<BallColor> = cue_lineup(said.cue.as_slice());
    let ghost order = lineup(said@.cue);
    let mut tracks: Vec<ObservedTrack> = Vec::new();
    let mut colors: Vec<BallColor> = Vec::new();
    assert(track_views(tracks@) =~= tracks_of(colors@, rows, readings@, radius));
    for k in 0..3usize
        invariant
            readings@.len() == said.rows@.len(),
            rows == row_texts(said.rows@),
            line@ == order,
            order.len() == 3,
            colors@ == present(order, rows, readings@, radius, k as int),
            track_views(tracks@) == tracks_of(colors@, rows, readings@, radius),
    {
        let ghost before = track_views(tracks@);
        let ghost had = colors@;
        let track: ObservedTrack = track_of(&said.rows, readings, line[k], radius);
        if track.len() > 0 {
            tracks.push(track);
            colors.push(line[k]);
            assert(track_views(tracks@) =~= before.push(track@));
            assert(tracks_of(colors@, rows, readings@, radius) =~= before.push(track@));
        }
    }
    assert(track_views(tracks@).len() == tracks@.len());
    if tracks.len() == 0 {
        return None;
    }
    assert(track_views(tracks@)[0] == tracks@[0]@);
    if tracks[0].len() <= 1 {
        return None;
    }
    let video: Option<VideoRef> = match &said.frames {
        Some(dir) => Some(
            VideoRef {
                frames_dir: copy_text(dir),
                fps: last_value(fps, num(DEFAULT_FPS)),
                start: said.start,
                corners: corners_of(corners),
                vertical: said.vertical,
            },
        ),
        None => None,
    };
    proof {
        assert(tracks_of(colors@, rows, readings@, radius).len() == colors@.len());
        assert forall|b: int| 0 <= b < tracks@.len() implies is_track_of(
            rows,
            readings@,
            colors@[b],
            radius,
            (#[trigger] tracks@[b])@,
        ) by {
            assert(track_views(tracks@)[b] == tracks@[b]@);
            assert(tracks_of(colors@, rows, readings@, radius)[b] == track_among(
                rows,
                readings@,
                colors@[b],
                radius,
                rows.len() as int,
            ));
            let from = lemma_track_made(rows, readings@, colors@[b], radius);
            assert(made_of(rows, readings@, colors@[b], radius, tracks@[b]@, from));
        }
    }
    Some(ImportedShot { tracks, colors, video })
}

/// The cue ball of a shot comes first whenever it has samples.
pub proof fn law_cue_comes_first(
    cue: Seq<char>,
    rows: Seq<RowText>,
    readings: Seq<Option<Reading>>,
    radius: Scalar,
)
    requires
        color_named(cue) is Some,
        track_among(rows, readings, color_named(cue)->0, radius, rows.len() as int).len() > 0,
    ensures
        balls_of(cue, rows, readings, radius).len() > 0,
        balls_of(cue, rows, readings, radius)[0] == color_named(cue)->0,
{
    let line = lineup(cue);
    reveal_with_fuel(present, 4);
    assert(line[0] == color_named(cue)->0);
}

/// Every ball of a shot is listed once, and exactly those with samples are.
pub proof fn law_balls_listed_once(
    cue: Seq<char>,
    rows: Seq<RowText>,
    readings: Seq<Option<Reading>>,
    radius: Scalar,
    ball: BallColor,
)
    ensures
        balls_of(cue, rows, readings, radius).no_duplicates(),
        balls_of(cue, rows, readings, radius).contains(ball) <==> track_among(
            rows,
            readings,
            ball,
            radius,
            rows.len() as int,
        ).len() > 0,
{
    let line = lineup(cue);
    let t = balls_of(cue, rows, readings, radius);
    reveal_with_fuel(present, 4);
    let has0 = track_among(rows, readings, line[0], radius, rows.len() as int).len() > 0;
    let has1 = track_among(rows, readings, line[1], radius, rows.len() as int).len() > 0;
    let has2 = track_among(rows, readings, line[2], radius, rows.len() as int).len() > 0;
    let s0 = if has0 {
        seq![line[0]]
    } else {
        seq![]
    };
    let s1 = if has1 {
        s0.push(line[1])
    } else {
        s0
    };
    let s2 = if has2 {
        s1.push(line[2])
    } else {
        s1
    };
    assert(t =~= s2);
    assert(line[0] == ball || line[1] == ball || line[2] == ball);
    if line[0] == ball && has0 {
        assert(t[0] == ball);
    }
    if line[1] == ball && has1 {
        assert(t[s0.len() as int] == ball);
    }
    if line[2] == ball && has2 {
        assert(t[s1.len() as int] == ball);
    }
}

/// A ball is listed exactly if some row of it could be read. Behind the cue ball, and
/// throughout where the file names none, the balls come as white, yellow, red.
pub proof fn law_balls_are_those_seen(
    cue: Seq<char>,
    rows: Seq<RowText>,
    readings: Seq<Option<Reading>>,
    radius: Scalar,
)
    requires
        readings.len() == rows.len(),
    ensures
        forall|ball: BallColor| #[trigger]
            balls_of(cue, rows, readings, radius).contains(ball) <==> exists|k: int|
                0 <= k < rows.len() && (#[trigger] rows[k]).ball == ball && readings[k] is Some,
        forall|i: int, j: int|
            0 <= i < j < balls_of(cue, rows, readings, radius).len() && (i > 0
                || color_named(cue) is None) ==> (#[trigger] balls_of(
                cue,
                rows,
                readings,
                radius,
            )[j]) != BallColor::White && (balls_of(cue, rows, readings, radius)[j]
                == BallColor::Yellow ==> (#[trigger] balls_of(cue, rows, readings, radius)[i])
                == BallColor::White),
{
    let t = balls_of(cue, rows, readings, radius);
    assert forall|ball: BallColor| #[trigger] t.contains(ball) <==> exists|k: int|
        0 <= k < rows.len() && (#[trigger] rows[k]).ball == ball && readings[k] is Some by {
        law_balls_listed_once(cue, rows, readings, radius, ball);
        let from = law_track_is_its_rows(rows, readings, ball, radius, rows.len() as int);
        if from.len() > 0 {
            assert(from.contains(from[0]));
            assert(rows[from[0]].ball == ball);
        }
        if exists|k: int|
            0 <= k < rows.len() && (#[trigger] rows[k]).ball == ball && readings[k] is Some {
            let k = choose|k: int|
                0 <= k < rows.len() && (#[trigger] rows[k]).ball == ball && readings[k] is Some;
            assert(from.contains(k));
        }
    }
    reveal_with_fuel(present, 4);
    reveal_strlit("white");
    reveal_strlit("yellow");
    reveal_strlit("red");
}

/// The value that counts is the last that could be read, and the default only where none
/// could.
pub proof fn law_last_value_counts(values: Seq<Option<Scalar>>, default: Scalar, k: int)
    requires
        0 <= k <= values.len(),
        forall|j: int| k <= j < values.len() ==> (#[trigger] values[j]) is None,
        k > 0 ==> values[k - 1] is Some,
    ensures
        k > 0 ==> last_read(values, default) == values[k - 1]->0,
        k == 0 ==> last_read(values, default) == default,
    decreases values.len(),
{
    if values.len() > k {
        let front = values.drop_last();
        assert(values.last() is None);
        assert forall|j: int| k <= j < front.len() implies (#[trigger] front[j]) is None by {
            assert(front[j] == values[j]);
        }
        law_last_value_counts(front, default, k);
    }
}

/// The corners of a line are the points that could be read, all of them, in their order:
/// corner `i` is that of place `from[i]`.
pub proof fn law_corners_read_are_the_points(line: Seq<Option<(Scalar, Scalar)>>, n: int) -> (from:
    Seq<int>)
    requires
        0 <= n <= line.len(),
    ensures
        from.len() == corners_read(line, n).len(),
        forall|k: int| #[trigger] from.contains(k) <==> 0 <= k < n && line[k] is Some,
        forall|i: int, j: int|
            0 <= i < j < from.len() ==> (#[trigger] from[i]) < (#[trigger] from[j]),
        forall|i: int|
            0 <= i < from.len() ==> Some(#[trigger] corners_read(line, n)[i]) == line[from[i]],
    decreases n,
{
    if n <= 0 {
        seq![]
    } else {
        let before = law_corners_read_are_the_points(line, n - 1);
        let from = if line[n - 1] is Some {
            before.push(n - 1)
        } else {
            before
        };
        lemma_places_step(before, from, n - 1, line[n - 1] is Some);
        let all = corners_read(line, n);
        assert forall|i: int| 0 <= i < from.len() implies Some(#[trigger] all[i])
            == line[from[i]] by {
            if i < before.len() {
                assert(all[i] == corners_read(line, n - 1)[i]);
            }
        }
        from
    }
}

/// The table corners are the four of the last line that gives exactly four, in the order of
/// that line; there are none where no line does.
pub proof fn law_corners_are_the_last_four(
    lines: Seq<Vec<Option<(Scalar, Scalar)>>>,
    n: int,
) -> (k: int)
    requires
        0 <= n <= lines.len(),
    ensures
        corners_given(lines, n) is None <==> forall|j: int|
            0 <= j < n ==> corners_read((#[trigger] lines[j])@, lines[j]@.len() as int).len() != 4,
        corners_given(lines, n) is Some ==> {
            let c = corners_given(lines, n)->0;
            let pts = corners_read(lines[k]@, lines[k]@.len() as int);
            &&& 0 <= k < n
            &&& pts == seq![c.a, c.b, c.c, c.d]
            &&& forall|j: int|
                k < j < n ==> corners_read((#[trigger] lines[j])@, lines[j]@.len() as int).len()
                    != 4
        },
    decreases n,
{
    if n <= 0 {
        0
    } else {
        let pts = corners_read(lines[n - 1]@, lines[n - 1]@.len() as int);
        if pts.len() == 4 {
            let c = corners_given(lines, n)->0;
            assert(pts =~= seq![c.a, c.b, c.c, c.d]);
            n - 1
        } else {
            law_corners_are_the_last_four(lines, n - 1)
        }
    }
}

/// What tracks are said to hold is what they hold, in their order.
pub proof fn law_tracks_say_what_they_hold(v: Seq<ObservedTrack>, k: int)
    requires
        0 <= k < v.len(),
    ensures
        track_views(v).len() == v.len(),
        track_views(v)[k] == v[k]@,
{
}

} // verus!
