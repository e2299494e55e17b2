//! The shared loader of tracked shot files: which ball is the cue ball, and the
//! observed tracks cue first.
//!
//! A line `cue COLOR` names the cue ball; data lines are `COLOR,t,x,y`; other
//! lines are passed over. The label is sometimes wrong. The cue is, by
//! definition, the ball the player sets in motion, so when the labeled cue
//! verifiably never leaves its rest while another (white or yellow) ball travels
//! the table, the earliest mover is the cue. Red is never a cue ball in carom.

use vstd::prelude::*;

use crate::files::imported::Reading;
use crate::files::shot::{color_name, copy_text, is_named, Text};
use crate::model::ball::BallColor;
use crate::model::math::DVec3;
use crate::model::scene::Scene;
use crate::order::{greatest, greatest_of, law_greatest_bounds, lemma_places_step};
use crate::scalar::{num, Scalar, ZERO};
use crate::solver::penalty::{first_above, ObservedTrack};
use crate::text::{
    begins, chars_of, copy, is_word, joined, law_field_follows,
    law_joined_is_split, law_trim_is_tight, lower, lowered_text, same_text, split, split_at_each,
    starts_with, texts, trim, trimmed,
};

verus! {

/// A ball that travels less than this (m) stays at its rest: 0.05.
pub const STAYS: u64 = 0x3FA9_9999_9999_999A;

/// A ball that travels more than this (m) crosses the table: 0.30.
pub const WANDERS: u64 = 0x3FD3_3333_3333_3333;

/// A ball this far (m) from its first position has moved: 0.03.
pub const MOVED: u64 = 0x3F9E_B851_EB85_1EB8;

/// A data line with any label.
#[derive(Debug)]
pub struct LooseRow {
    pub label: Text,
    pub t: Text,
    pub x: Text,
    pub y: Text,
}

pub struct LooseRowText {
    pub label: Seq<char>,
    pub t: Seq<char>,
    pub x: Seq<char>,
    pub y: Seq<char>,
}

impl View for LooseRow {
    type V = LooseRowText;

    open spec fn view(&self) -> LooseRowText {
        LooseRowText { label: self.label@, t: self.t@, x: self.x@, y: self.y@ }
    }
}

/// What a file says, before its numbers are read.
#[derive(Debug)]
pub struct LooseText {
    pub cue: Text,
    pub rows: Vec<LooseRow>,
}

pub struct LooseSpec {
    pub cue: Seq<char>,
    pub rows: Seq<LooseRowText>,
}

pub open spec fn loose_rows(v: Seq<LooseRow>) -> Seq<LooseRowText> {
    Seq::new(v.len(), |k: int| v[k]@)
}

impl View for LooseText {
    type V = LooseSpec;

    open spec fn view(&self) -> LooseSpec {
        LooseSpec { cue: self.cue@, rows: loose_rows(self.rows@) }
    }
}

/// What a file says with one more line.
pub open spec fn loose_step(st: LooseSpec, raw: Seq<char>) -> LooseSpec {
    let line = trimmed(raw);
    let f = split_at_each(line, ',');
    if begins(line, "cue "@) {
        LooseSpec { cue: lowered_text(trimmed(line.skip("cue "@.len() as int))), ..st }
    } else if f.len() == 4 {
        LooseSpec {
            rows: st.rows.push(
                LooseRowText {
                    label: trimmed(f[0]),
                    t: trimmed(f[1]),
                    x: trimmed(f[2]),
                    y: trimmed(f[3]),
                },
            ),
            ..st
        }
    } else {
        st
    }
}

/// What the first `n` lines say.
pub open spec fn loose_after(lines: Seq<Seq<char>>, n: int) -> LooseSpec
    decreases n,
{
    if n <= 0 {
        LooseSpec { cue: "white"@, rows: seq![] }
    } else {
        loose_step(loose_after(lines, n - 1), lines[n - 1])
    }
}

impl LooseText {
    fn read_line(&mut self, raw: &[char])
        ensures
            final(self)@ == loose_step(old(self)@, raw@),
    {
        let ghost st = self@;
        let line: Text = trim(raw);
        let prefix: Text = chars_of("cue ");
        if starts_with(line.as_slice(), prefix.as_slice()) {
            let rest: Text = copy(line.as_slice(), prefix.len(), line.len());
            assert(rest@ =~= line@.skip(prefix@.len() as int));
            self.cue = lower(trim(rest.as_slice()).as_slice());
            return;
        }
        let f: Vec<Text> = split(line.as_slice(), ',');
        let ghost all = texts(f@);
        if f.len() == 4 {
            assert(all[0] == f@[0]@ && all[1] == f@[1]@ && all[2] == f@[2]@ && all[3] == f@[3]@);
            let row: LooseRow = LooseRow {
                label: trim(f[0].as_slice()),
                t: trim(f[1].as_slice()),
                x: trim(f[2].as_slice()),
                y: trim(f[3].as_slice()),
            };
            self.rows.push(row);
            assert(self@.rows =~= st.rows.push(row@));
        }
    }
}

/// Read a shot file up to its numbers.
pub fn lex_loose(text: &str) -> (s: LooseText)
    ensures
        ({
            let lines = split_at_each(text@, '\n');
            s@ == loose_after(lines, lines.len() as int)
        }),
{
    let chars: Text = chars_of(text);
    let lines: Vec<Text> = split(chars.as_slice(), '\n');
    let ghost all = texts(lines@);
    let mut s: LooseText = LooseText { cue: chars_of("white"), rows: Vec::new() };
    assert(s@.rows =~= seq![]);
    for k in 0..lines.len()
        invariant
            all == texts(lines@),
            s@ == loose_after(all, k as int),
    {
        assert(all[k as int] == lines@[k as int]@);
        s.read_line(lines[k].as_slice());
    }
    s
}

/// The samples under one label among the first `n` rows, in order.
pub open spec fn labeled_among(
    rows: Seq<LooseRowText>,
    readings: Seq<Option<Reading>>,
    label: Seq<char>,
    radius: Scalar,
    n: int,
) -> Seq<(Scalar, DVec3)>
    decreases n,
{
    if n <= 0 {
        seq![]
    } else {
        let sofar = labeled_among(rows, readings, label, radius, n - 1);
        match readings[n - 1] {
            Some(r) => if rows[n - 1].label == label {
                sofar.push((r.t, DVec3 { x: r.x, y: r.y, z: radius }))
            } else {
                sofar
            },
            None => sofar,
        }
    }
}

/// The samples under one label.
pub open spec fn labeled(
    said: LooseSpec,
    readings: Seq<Option<Reading>>,
    label: Seq<char>,
    radius: Scalar,
) -> Seq<(Scalar, DVec3)> {
    labeled_among(said.rows, readings, label, radius, said.rows.len() as int)
}

pub fn labeled_track(
    said: &LooseText,
    readings: &[Option<Reading>],
    label: &[char],
    radius: Scalar,
) -> (r: ObservedTrack)
    requires
        readings@.len() == said.rows@.len(),
    ensures
        r@ == labeled(said@, readings@, label@, radius),
{
    let ghost rows = said@.rows;
    let mut r: ObservedTrack = Vec::new();
    for k in 0..said.rows.len()
        invariant
            readings@.len() == said.rows@.len(),
            rows == loose_rows(said.rows@),
            r@ == labeled_among(rows, readings@, label@, radius, k as int),
    {
        assert(rows[k as int] == said.rows@[k as int]@);
        if let Some(x) = readings[k] {
            if same_text(said.rows[k].label.as_slice(), label) {
                r.push((x.t, DVec3::new(x.x, x.y, radius)));
            }
        }
    }
    r
}

/// How a track moves: per sample, its time and the distance from the first one. No
/// samples stand for no track.
#[derive(Debug)]
pub struct TrackMotion {
    pub times: Vec<Scalar>,
    pub dists: Vec<Scalar>,
}

impl TrackMotion {
    pub open spec fn wf(self) -> bool {
        self.times@.len() == self.dists@.len()
    }

    /// The farthest it gets from its first position.
    pub open spec fn travel(self) -> Scalar {
        greatest_of(self.dists@, num(ZERO))
    }

    /// Whether sample `k` is the first that has moved.
    pub open spec fn moves_at(self, k: int) -> bool {
        &&& 0 <= k < self.dists@.len()
        &&& num(MOVED).less(self.dists@[k])
        &&& forall|j: int| 0 <= j < k ==> !num(MOVED).less(#[trigger] self.dists@[j])
    }

    /// When it first moves, if it crosses the table.
    pub open spec fn sets_out(self) -> Option<Scalar> {
        if num(WANDERS).less(self.travel()) && exists|k: int| self.moves_at(k) {
            Some(self.times@[choose|k: int| self.moves_at(k)])
        } else {
            None
        }
    }

    fn setting_out(&self) -> (r: Option<Scalar>)
        requires
            self.wf(),
        ensures
            r == self.sets_out(),
    {
        if !greatest(self.dists.as_slice(), num(ZERO)).gt(num(WANDERS)) {
            return None;
        }
        match first_above(self.dists.as_slice(), num(MOVED)) {
            Some(k) => {
                assert(self.moves_at(k as int));
                assert forall|j: int| self.moves_at(j) implies j == k by {}
                Some(self.times[k])
            },
            None => {
                assert forall|j: int| !self.moves_at(j) by {}
                None
            },
        }
    }
}

/// Whether a labeled cue ball stands as the cue: it has a track that leaves its
/// rest.
pub open spec fn cue_stands(labeled: TrackMotion) -> bool {
    labeled.dists@.len() > 0 && !labeled.travel().less(num(STAYS))
}

/// When a ball sets out, unless it is the labeled cue ball.
pub open spec fn other_sets_out(cue: Seq<char>, ball: BallColor, motion: TrackMotion) -> Option<
    Scalar,
> {
    if cue == color_name(ball) {
        None
    } else {
        motion.sets_out()
    }
}

/// The name of the cue ball: the labeled one, unless it stays at rest while
/// another one sets out; then the one of white and yellow that sets out first.
pub open spec fn true_cue(
    cue: Seq<char>,
    labeled: TrackMotion,
    white: TrackMotion,
    yellow: TrackMotion,
) -> Seq<char> {
    if cue_stands(labeled) {
        cue
    } else {
        match (
            other_sets_out(cue, BallColor::White, white),
            other_sets_out(cue, BallColor::Yellow, yellow),
        ) {
            (Some(w), Some(y)) => if y.rank() < w.rank() {
                "yellow"@
            } else {
                "white"@
            },
            (Some(_), None) => "white"@,
            (None, Some(_)) => "yellow"@,
            (None, None) => cue,
        }
    }
}

/// Decide which ball is the cue ball, from the motion of the labeled one and of
/// the two that can be.
pub fn find_cue(cue: &Text, labeled: &TrackMotion, white: &TrackMotion, yellow: &TrackMotion) -> (r:
    Text)
    requires
        labeled.wf(),
        white.wf(),
        yellow.wf(),
    ensures
        r@ == true_cue(cue@, *labeled, *white, *yellow),
{
    if labeled.dists.len() > 0 && !greatest(labeled.dists.as_slice(), num(ZERO)).lt(num(STAYS)) {
        return copy_text(cue);
    }
    let w: Option<Scalar> = if is_named(cue.as_slice(), BallColor::White) {
        None
    } else {
        white.setting_out()
    };
    let y: Option<Scalar> = if is_named(cue.as_slice(), BallColor::Yellow) {
        None
    } else {
        yellow.setting_out()
    };
    match (w, y) {
        (Some(tw), Some(ty)) => {
            if ty.ranks_before(tw) {
                chars_of("yellow")
            } else {
                chars_of("white")
            }
        },
        (Some(_), None) => chars_of("white"),
        (None, Some(_)) => chars_of("yellow"),
        (None, None) => copy_text(cue),
    }
}

/// The names a shot's balls can have, the cue ball's first.
pub open spec fn names(cue: Seq<char>) -> Seq<Seq<char>> {
    seq![cue] + seq!["white"@, "yellow"@, "red"@].filter(|c: Seq<char>| c != cue)
}

/// The names, among the first `n`, that have samples.
pub open spec fn tracked_names(
    said: LooseSpec,
    readings: Seq<Option<Reading>>,
    radius: Scalar,
    list: Seq<Seq<char>>,
    n: int,
) -> Seq<Seq<char>>
    decreases n,
{
    if n <= 0 {
        seq![]
    } else {
        let sofar = tracked_names(said, readings, radius, list, n - 1);
        if labeled(said, readings, list[n - 1], radius).len() > 0 {
            sofar.push(list[n - 1])
        } else {
            sofar
        }
    }
}

fn list_names(cue: &Text) -> (r: Vec<Text>)
    ensures
        texts(r@) == names(cue@),
{
    let mut r: Vec<Text> = Vec::new();
    r.push(copy_text(cue));
    let ghost keep = |c: Seq<char>| c != cue@;
    let ghost w = "white"@;
    let ghost y = "yellow"@;
    let ghost d = "red"@;
    proof {
        reveal(Seq::filter);
        let all = seq![w, y, d];
        assert(all.drop_last() =~= seq![w, y]);
        assert(seq![w, y].drop_last() =~= seq![w]);
        assert(seq![w].drop_last() =~= seq![]);
        assert(Seq::<Seq<char>>::empty().filter(keep) =~= seq![]);
        assert(seq![w].filter(keep) =~= if keep(w) {
            seq![w]
        } else {
            seq![]
        });
        assert(seq![w, y].filter(keep) =~= if keep(y) {
            seq![w].filter(keep).push(y)
        } else {
            seq![w].filter(keep)
        });
        assert(all.filter(keep) =~= if keep(d) {
            seq![w, y].filter(keep).push(d)
        } else {
            seq![w, y].filter(keep)
        });
    }
    if !is_named(cue.as_slice(), BallColor::White) {
        r.push(chars_of("white"));
    }
    if !is_named(cue.as_slice(), BallColor::Yellow) {
        r.push(chars_of("yellow"));
    }
    if !is_named(cue.as_slice(), BallColor::Red) {
        r.push(chars_of("red"));
    }
    assert(texts(r@) =~= names(cue@));
    r
}

/// The tracked balls of a shot, cue first: their names and their tracks.
#[derive(Debug)]
pub struct Observed {
    pub order: Vec<Text>,
    pub tracks: Vec<ObservedTrack>,
}

/// Whether a ball has a usable cue track: at least two samples of its own.
pub open spec fn usable(
    said: LooseSpec,
    readings: Seq<Option<Reading>>,
    cue: Seq<char>,
    radius: Scalar,
) -> bool {
    labeled(said, readings, cue, radius).len() >= 2
}

/// Whether these are the tracked balls of a shot in order: none without a usable track of
/// the cue ball itself, else that ball first and then the other balls with samples.
pub open spec fn ordered(
    said: LooseSpec,
    readings: Seq<Option<Reading>>,
    cue: Seq<char>,
    radius: Scalar,
    r: Option<Observed>,
) -> bool {
    match r {
        None => !usable(said, readings, cue, radius),
        Some(o) => {
            &&& usable(said, readings, cue, radius)
            &&& texts(o.order@) == tracked_names(
                said,
                readings,
                radius,
                names(cue),
                names(cue).len() as int,
            )
            &&& o.order@.len() > 0 && o.order@[0]@ == cue
            &&& o.tracks@.len() == o.order@.len()
            &&& forall|k: int|
                0 <= k < o.tracks@.len() ==> (#[trigger] o.tracks@[k])@ == labeled(
                    said,
                    readings,
                    o.order@[k]@,
                    radius,
                )
        },
    }
}

proof fn lemma_cue_leads(
    said: LooseSpec,
    readings: Seq<Option<Reading>>,
    radius: Scalar,
    list: Seq<Seq<char>>,
    n: int,
)
    requires
        n >= 1,
        labeled(said, readings, list[0], radius).len() > 0,
    ensures
        tracked_names(said, readings, radius, list, n).len() > 0,
        tracked_names(said, readings, radius, list, n)[0] == list[0],
    decreases n,
{
    reveal_with_fuel(tracked_names, 2);
    if n > 1 {
        lemma_cue_leads(said, readings, radius, list, n - 1);
    }
}

/// Put the tracks of a shot in order, cue first. There is no such order without a usable
/// track of the cue ball.
pub fn order_tracks(
    said: &LooseText,
    readings: &[Option<Reading>],
    cue: &Text,
    radius: Scalar,
) -> (r: Option<Observed>)
    requires
        readings@.len() == said.rows@.len(),
    ensures
        ordered(said@, readings@, cue@, radius, r),
{
    if labeled_track(said, readings, cue.as_slice(), radius).len() < 2 {
        return None;
    }
    let list: Vec<Text> = list_names(cue);
    let ghost all = names(cue@);
    let mut order: Vec<Text> = Vec::new();
    let mut tracks: Vec<ObservedTrack> = Vec::new();
    assert(texts(order@) =~= tracked_names(said@, readings@, radius, all, 0));
    for k in 0..list.len()
        invariant
            readings@.len() == said.rows@.len(),
            all == texts(list@),
            texts(order@) == tracked_names(said@, readings@, radius, all, k as int),
            tracks@.len() == order@.len(),
            forall|i: int|
                0 <= i < tracks@.len() ==> (#[trigger] tracks@[i])@ == labeled(
                    said@,
                    readings@,
                    order@[i]@,
                    radius,
                ),
    {
        let ghost before = texts(order@);
        assert(all[k as int] == list@[k as int]@);
        let track: ObservedTrack = labeled_track(said, readings, list[k].as_slice(), radius);
        if track.len() > 0 {
            tracks.push(track);
            order.push(copy_text(&list[k]));
            assert(texts(order@) =~= before.push(all[k as int]));
        }
    }
    proof {
        assert(texts(list@).len() == list@.len());
        assert(all[0] == cue@);
        lemma_cue_leads(said@, readings@, radius, all, all.len() as int);
        assert(texts(order@).len() == order@.len());
        assert(texts(order@)[0] == order@[0]@);
    }
    Some(Observed { order, tracks })
}

/// A parsed shot: ball color names cue-first, their observed tracks, and the scene
/// (with corrected object rests) to reconstruct from.
#[derive(Debug)]
pub struct LoadedShot {
    pub order: Vec<Text>,
    pub observed: Vec<ObservedTrack>,
    pub scene: Scene,
}

/// The rests that are known.
pub open spec fn known(rests: Seq<Option<DVec3>>, n: int) -> Seq<DVec3>
    decreases n,
{
    if n <= 0 {
        seq![]
    } else {
        match rests[n - 1] {
            Some(p) => known(rests, n - 1).push(p),
            None => known(rests, n - 1),
        }
    }
}

/// Build the initial scene from cue-first tracks and the rests of the object
/// balls. There is none without a usable cue track.
pub fn scene_from_tracks(tracks: &Vec<ObservedTrack>, rests: &[Option<DVec3>]) -> (r: Option<Scene>)
    ensures
        match r {
            None => tracks@.len() == 0 || tracks@[0]@.len() < 2,
            Some(s) => {
                &&& tracks@.len() > 0 && tracks@[0]@.len() >= 2
                &&& s.cue == tracks@[0]@[0].1
                &&& s.objects@ == known(rests@, rests@.len() as int)
            },
        },
{
    if tracks.len() == 0 || tracks[0].len() < 2 {
        return None;
    }
    let mut objects: Vec<DVec3> = Vec::new();
    for k in 0..rests.len()
        invariant
            objects@ == known(rests@, k as int),
    {
        if let Some(p) = rests[k] {
            objects.push(p);
        }
    }
    Some(Scene::new(tracks[0][0].1, objects))
}

/// Whether this is the loaded shot of ordered tracks and the rests of their object balls.
pub open spec fn loads(
    observed: Observed,
    rests: Seq<Option<DVec3>>,
    r: Option<LoadedShot>,
) -> bool {
    match r {
        None => observed.tracks@.len() == 0 || observed.tracks@[0]@.len() < 2,
        Some(s) => {
            &&& observed.tracks@.len() > 0 && observed.tracks@[0]@.len() >= 2
            &&& s.order == observed.order
            &&& s.observed == observed.tracks
            &&& s.scene.cue == observed.tracks@[0]@[0].1
            &&& s.scene.objects@ == known(rests, rests.len() as int)
        },
    }
}

/// The loaded shot, from its tracks and the rests of its object balls. There is none
/// without a usable cue track.
pub fn parse(observed: Observed, rests: &[Option<DVec3>]) -> (r: Option<LoadedShot>)
    ensures
        loads(observed, rests@, r),
{
    match scene_from_tracks(&observed.tracks, rests) {
        Some(scene) => Some(LoadedShot { order: observed.order, observed: observed.tracks, scene }),
        None => None,
    }
}

/// A shot file loads if and only if the ball found to be the cue has a usable track of its
/// own; that ball is then the cue ball of the shot, and no other ball ever stands in for
/// it. So red is the cue ball only where the file says so.
pub proof fn law_shot_has_its_own_cue(
    said: LooseSpec,
    readings: Seq<Option<Reading>>,
    radius: Scalar,
    marked: TrackMotion,
    white: TrackMotion,
    yellow: TrackMotion,
    observed: Option<Observed>,
    rests: Seq<Option<DVec3>>,
    shot: Option<LoadedShot>,
)
    requires
        ordered(said, readings, true_cue(said.cue, marked, white, yellow), radius, observed),
        match observed {
            Some(o) => loads(o, rests, shot),
            None => shot is None,
        },
    ensures
        shot is Some <==> usable(
            said,
            readings,
            true_cue(said.cue, marked, white, yellow),
            radius,
        ),
        shot is Some ==> {
            let cue = true_cue(said.cue, marked, white, yellow);
            &&& shot->0.order@[0]@ == cue
            &&& shot->0.observed@[0]@ == labeled(said, readings, cue, radius)
            &&& shot->0.scene.cue == labeled(said, readings, cue, radius)[0].1
            &&& said.cue != "red"@ ==> shot->0.order@[0]@ != "red"@
        },
{
    if said.cue != "red"@ {
        law_red_is_never_found(said.cue, marked, white, yellow);
    }
    if let Some(o) = observed {
        assert(o.tracks@[0]@ == labeled(said, readings, o.order@[0]@, radius));
    }
}

/// A cue ball that moves keeps its label.
pub proof fn law_moving_cue_keeps_label(
    cue: Seq<char>,
    labeled: TrackMotion,
    white: TrackMotion,
    yellow: TrackMotion,
    k: int,
)
    requires
        0 <= k < labeled.dists@.len(),
        num(STAYS).at_most(labeled.dists@[k]),
    ensures
        true_cue(cue, labeled, white, yellow) == cue,
{
    crate::order::law_greatest_bounds(labeled.dists@, num(ZERO));
}

/// Red is the cue ball only where the file says so.
pub proof fn law_red_is_never_found(
    cue: Seq<char>,
    labeled: TrackMotion,
    white: TrackMotion,
    yellow: TrackMotion,
)
    requires
        cue != "red"@,
    ensures
        true_cue(cue, labeled, white, yellow) != "red"@,
{
    reveal_strlit("white");
    reveal_strlit("yellow");
    reveal_strlit("red");
    assert("white"@.len() == 5 && "yellow"@.len() == 6 && "red"@.len() == 3);
}

/// A line `cue COLOR` names the cue ball, in small letters, and says nothing else; a line of
/// four fields that is none adds a row with these fields, in their order.
pub proof fn law_loose_lines_are_read(
    st: LooseSpec,
    w: Seq<char>,
    name: Seq<char>,
    t: Seq<char>,
    x: Seq<char>,
    y: Seq<char>,
)
    requires
        is_word(w),
        is_word(name) && is_word(t) && is_word(x) && is_word(y),
        !name.contains(',') && !t.contains(',') && !x.contains(',') && !y.contains(','),
    ensures
        loose_step(st, "cue "@ + w) == (LooseSpec { cue: lowered_text(w), ..st }),
        loose_step(st, ((name.push(',') + t).push(',') + x).push(',') + y) == (LooseSpec {
            rows: st.rows.push(LooseRowText { label: name, t, x, y }),
            ..st
        }),
{
    reveal_strlit("cue ");
    let head = "cue "@ + w;
    assert(head.last() == w[w.len() - 1]);
    law_trim_is_tight(seq![], head, seq![]);
    assert(head.take(4) =~= "cue "@);
    assert(head.skip(4) =~= w);
    law_trim_is_tight(seq![], w, seq![]);
    let line = ((name.push(',') + t).push(',') + x).push(',') + y;
    let fields = seq![name, t, x, y];
    reveal_with_fuel(joined, 5);
    assert(fields.drop_last() =~= seq![name, t, x]);
    assert(seq![name, t, x].drop_last() =~= seq![name, t]);
    assert(seq![name, t].drop_last() =~= seq![name]);
    assert(joined(fields, ',') == line);
    law_joined_is_split(fields, ',');
    assert(line[0] == name[0] && line.last() == y[y.len() - 1]);
    law_trim_is_tight(seq![], line, seq![]);
    law_trim_is_tight(seq![], name, seq![]);
    law_trim_is_tight(seq![], t, seq![]);
    law_trim_is_tight(seq![], x, seq![]);
    law_trim_is_tight(seq![], y, seq![]);
    if begins(line, "cue "@) {
        assert(line.take(4)[3] == line[3] && line.take(4)[0] == line[0]);
        assert(line.take(4)[1] == line[1] && line.take(4)[2] == line[2]);
        let a = name.len() as int;
        if a > 3 {
            assert(line[3] == name[3]);
        } else if a == 3 {
            assert(line[3] == ',');
        } else {
            assert(line[a] == ',');
        }
    }
}

/// A file is read line by line: with one more line it says what it said, and then what that
/// line says. Without a line it says that the cue ball is white.
pub proof fn law_loose_is_read_by_line(text: Seq<char>, line: Seq<char>)
    requires
        !line.contains('\n'),
    ensures
        ({
            let lines = split_at_each(text, '\n');
            let more = split_at_each(text.push('\n') + line, '\n');
            loose_after(more, more.len() as int) == loose_step(
                loose_after(lines, lines.len() as int),
                line,
            )
        }),
        loose_after(seq![], 0) == (LooseSpec { cue: "white"@, rows: seq![] }),
{
    law_field_follows(text, '\n', line);
    let lines = split_at_each(text, '\n');
    lemma_loose_prefix(lines, lines.push(line), lines.len() as int);
}

proof fn lemma_loose_prefix(lines: Seq<Seq<char>>, more: Seq<Seq<char>>, n: int)
    requires
        0 <= n <= lines.len() <= more.len(),
        forall|k: int| 0 <= k < lines.len() ==> #[trigger] lines[k] == more[k],
    ensures
        loose_after(lines, n) == loose_after(more, n),
    decreases n,
{
    if n > 0 {
        lemma_loose_prefix(lines, more, n - 1);
        assert(lines[n - 1] == more[n - 1]);
    }
}

/// The track under a label is what its rows say, in their order: sample `i` comes from row
/// `from[i]`, with that row's time, its x for x and its y for y; every row with the label
/// whose numbers could be read has its sample, and no other row has.
pub proof fn law_labeled_track_is_its_rows(
    rows: Seq<LooseRowText>,
    readings: Seq<Option<Reading>>,
    label: Seq<char>,
    radius: Scalar,
    n: int,
) -> (from: Seq<int>)
    requires
        0 <= n <= rows.len(),
        readings.len() == rows.len(),
    ensures
        from.len() == labeled_among(rows, readings, label, radius, n).len(),
        forall|k: int| #[trigger]
            from.contains(k) <==> 0 <= k < n && rows[k].label == label && readings[k] is Some,
        forall|i: int, j: int|
            0 <= i < j < from.len() ==> (#[trigger] from[i]) < (#[trigger] from[j]),
        forall|i: int|
            0 <= i < from.len() ==> {
                let s = #[trigger] labeled_among(rows, readings, label, radius, n)[i];
                let r = readings[from[i]]->0;
                s.0 == r.t && s.1.x == r.x && s.1.y == r.y && s.1.z == radius
            },
    decreases n,
{
    if n <= 0 {
        seq![]
    } else {
        let before = law_labeled_track_is_its_rows(rows, readings, label, radius, n - 1);
        let more = rows[n - 1].label == label && readings[n - 1] is Some;
        let from = if more {
            before.push(n - 1)
        } else {
            before
        };
        lemma_places_step(before, from, n - 1, more);
        let all = labeled_among(rows, readings, label, radius, n);
        let had = labeled_among(rows, readings, label, radius, n - 1);
        assert forall|i: int| 0 <= i < from.len() implies {
            let s = #[trigger] all[i];
            let r = readings[from[i]]->0;
            s.0 == r.t && s.1.x == r.x && s.1.y == r.y && s.1.z == radius
        } by {
            if i < before.len() {
                assert(all[i] == had[i]);
                assert(from[i] == before[i]);
            }
        }
        from
    }
}

/// A ball sets out exactly if it gets far enough to cross the table, and then at the time of
/// its first sample that has moved.
pub proof fn law_setting_out(m: TrackMotion, k: int)
    requires
        m.wf(),
        0 <= k < m.dists@.len(),
        num(MOVED).less(m.dists@[k]),
        forall|j: int| 0 <= j < k ==> !num(MOVED).less(#[trigger] m.dists@[j]),
    ensures
        m.sets_out() is Some <==> exists|j: int|
            0 <= j < m.dists@.len() && num(WANDERS).less(#[trigger] m.dists@[j]),
        m.sets_out() is Some ==> m.sets_out() == Some(m.times@[k]),
{
    law_greatest_bounds(m.dists@, num(ZERO));
    assert(m.moves_at(k));
    assert forall|j: int| m.moves_at(j) implies j == k by {}
    if num(WANDERS).less(m.travel()) {
        assert(!num(WANDERS).less(num(ZERO)));
        let j = choose|j: int| 0 <= j < m.dists@.len() && m.dists@[j] == m.travel();
        assert(num(WANDERS).less(m.dists@[j]));
    }
}

/// A ball that never leaves its first position does not set out.
pub proof fn law_resting_ball_stays(m: TrackMotion)
    requires
        forall|j: int| 0 <= j < m.dists@.len() ==> !num(MOVED).less(#[trigger] m.dists@[j]),
    ensures
        m.sets_out() is None,
{
    assert forall|j: int| !m.moves_at(j) by {}
}

/// Where the labeled cue ball stays at its rest, or has no track, the ball that sets out is
/// the cue ball: of white and yellow the one that does, of both the earlier one, and the
/// labeled one where neither does.
pub proof fn law_earliest_mover_is_the_cue(
    cue: Seq<char>,
    labeled: TrackMotion,
    white: TrackMotion,
    yellow: TrackMotion,
)
    requires
        forall|k: int| 0 <= k < labeled.dists@.len() ==> (#[trigger] labeled.dists@[k]).less(
            num(STAYS),
        ),
    ensures
        ({
            let r = true_cue(cue, labeled, white, yellow);
            let w = white.sets_out();
            let y = yellow.sets_out();
            &&& cue != "white"@ && cue != "yellow"@ && w is Some && y is Some ==> r == (
            if y->0.rank() < w->0.rank() {
                "yellow"@
            } else {
                "white"@
            })
            &&& cue != "white"@ && w is Some && (cue == "yellow"@ || y is None) ==> r == "white"@
            &&& cue != "yellow"@ && y is Some && (cue == "white"@ || w is None) ==> r
                == "yellow"@
            &&& (cue == "white"@ || w is None) && (cue == "yellow"@ || y is None) ==> r == cue
        }),
{
    law_greatest_bounds(labeled.dists@, num(ZERO));
    if labeled.dists@.len() > 0 {
        assert(num(ZERO).less(num(STAYS)));
        let t = labeled.travel();
        if t != num(ZERO) {
            let k = choose|k: int| 0 <= k < labeled.dists@.len() && labeled.dists@[k] == t;
            assert(labeled.dists@[k].less(num(STAYS)));
        }
        assert(t.less(num(STAYS)));
    }
    reveal_strlit("white");
    reveal_strlit("yellow");
    assert("white"@.len() == 5 && "yellow"@.len() == 6);
}

spec fn kept_of(c: Seq<char>, p: spec_fn(Seq<char>) -> bool) -> Seq<Seq<char>> {
    if p(c) {
        seq![c]
    } else {
        seq![]
    }
}

proof fn lemma_filter_three(
    a: Seq<char>,
    b: Seq<char>,
    c: Seq<char>,
    p: spec_fn(Seq<char>) -> bool,
)
    ensures
        seq![a, b, c].filter(p) == kept_of(a, p) + kept_of(b, p) + kept_of(c, p),
{
    reveal(Seq::filter);
    assert(seq![a, b, c].drop_last() =~= seq![a, b]);
    assert(seq![a, b].drop_last() =~= seq![a]);
    assert(seq![a].drop_last() =~= seq![]);
    assert(Seq::<Seq<char>>::empty().filter(p) =~= seq![]);
    assert(seq![a].filter(p) =~= kept_of(a, p));
    assert(seq![a, b].filter(p) =~= kept_of(a, p) + kept_of(b, p));
    assert(seq![a, b, c].filter(p) =~= kept_of(a, p) + kept_of(b, p) + kept_of(c, p));
}

/// A shot's balls are called by the name of the cue ball, which comes first, and the other
/// colors, each once, in the order white, yellow, red.
pub proof fn law_names_begin_with_the_cue(cue: Seq<char>)
    ensures
        names(cue)[0] == cue,
        cue == "white"@ ==> names(cue) == seq![cue, "yellow"@, "red"@],
        cue == "yellow"@ ==> names(cue) == seq![cue, "white"@, "red"@],
        cue == "red"@ ==> names(cue) == seq![cue, "white"@, "yellow"@],
        cue != "white"@ && cue != "yellow"@ && cue != "red"@ ==> names(cue) == seq![
            cue,
            "white"@,
            "yellow"@,
            "red"@,
        ],
{
    reveal_strlit("white");
    reveal_strlit("yellow");
    reveal_strlit("red");
    let w = "white"@;
    let y = "yellow"@;
    let d = "red"@;
    assert(w.len() == 5 && y.len() == 6 && d.len() == 3);
    assert forall|s: Seq<Seq<char>>, p: spec_fn(Seq<char>) -> bool|
        s.len() == 3 implies #[trigger] s.filter(p) == kept_of(s[0], p) + kept_of(s[1], p)
        + kept_of(s[2], p) by {
        lemma_filter_three(s[0], s[1], s[2], p);
        assert(s =~= seq![s[0], s[1], s[2]]);
    }
    assert(cue == w ==> names(cue) =~= seq![cue, y, d]);
    assert(cue == y ==> names(cue) =~= seq![cue, w, d]);
    assert(cue == d ==> names(cue) =~= seq![cue, w, y]);
    assert(cue != w && cue != y && cue != d ==> names(cue) =~= seq![cue, w, y, d]);
}

/// The tracked balls are those of the names under which some row could be read, in the order
/// of the names: ball `i` is name `from[i]`.
pub proof fn law_tracked_are_those_seen(
    said: LooseSpec,
    readings: Seq<Option<Reading>>,
    radius: Scalar,
    list: Seq<Seq<char>>,
    n: int,
) -> (from: Seq<int>)
    requires
        0 <= n <= list.len(),
        readings.len() == said.rows.len(),
    ensures
        from.len() == tracked_names(said, readings, radius, list, n).len(),
        forall|i: int|
            0 <= i < from.len() ==> #[trigger] tracked_names(said, readings, radius, list, n)[i]
                == list[from[i]],
        forall|i: int, j: int|
            0 <= i < j < from.len() ==> (#[trigger] from[i]) < (#[trigger] from[j]),
        forall|k: int| #[trigger]
            from.contains(k) <==> 0 <= k < n && exists|r: int|
                0 <= r < said.rows.len() && (#[trigger] said.rows[r]).label == list[k]
                    && readings[r] is Some,
    decreases n,
{
    if n <= 0 {
        seq![]
    } else {
        let before = law_tracked_are_those_seen(said, readings, radius, list, n - 1);
        let name = list[n - 1];
        let more = labeled(said, readings, name, radius).len() > 0;
        let rows = law_labeled_track_is_its_rows(
            said.rows,
            readings,
            name,
            radius,
            said.rows.len() as int,
        );
        if more {
            assert(rows.contains(rows[0]));
            assert(said.rows[rows[0]].label == name);
        }
        if exists|r: int|
            0 <= r < said.rows.len() && (#[trigger] said.rows[r]).label == name
                && readings[r] is Some {
            let r = choose|r: int|
                0 <= r < said.rows.len() && (#[trigger] said.rows[r]).label == name
                    && readings[r] is Some;
            assert(rows.contains(r));
        }
        let from = if more {
            before.push(n - 1)
        } else {
            before
        };
        lemma_places_step(before, from, n - 1, more);
        let all = tracked_names(said, readings, radius, list, n);
        assert forall|i: int| 0 <= i < from.len() implies #[trigger] all[i] == list[from[i]] by {
            if i < before.len() {
                assert(all[i] == tracked_names(said, readings, radius, list, n - 1)[i]);
            }
        }
        from
    }
}

/// The objects of a scene are the rests that are known, all of them, in their order and as
/// they are: object `i` is rest `from[i]`.
pub proof fn law_known_rests_are_kept(rests: Seq<Option<DVec3>>, n: int) -> (from: Seq<int>)
    requires
        0 <= n <= rests.len(),
    ensures
        from.len() == known(rests, n).len(),
        forall|k: int| #[trigger] from.contains(k) <==> 0 <= k < n && rests[k] is Some,
        forall|i: int, j: int|
            0 <= i < j < from.len() ==> (#[trigger] from[i]) < (#[trigger] from[j]),
        forall|i: int|
            0 <= i < from.len() ==> Some(#[trigger] known(rests, n)[i]) == rests[from[i]],
    decreases n,
{
    if n <= 0 {
        seq![]
    } else {
        let before = law_known_rests_are_kept(rests, n - 1);
        let from = if rests[n - 1] is Some {
            before.push(n - 1)
        } else {
            before
        };
        lemma_places_step(before, from, n - 1, rests[n - 1] is Some);
        let all = known(rests, n);
        assert forall|i: int| 0 <= i < from.len() implies Some(#[trigger] all[i])
            == rests[from[i]] by {
            if i < before.len() {
                assert(all[i] == known(rests, n - 1)[i]);
            }
        }
        from
    }
}

/// A shot needs two samples of its cue ball: two rows under its name that could be read.
pub proof fn law_cue_needs_two_samples(
    said: LooseSpec,
    readings: Seq<Option<Reading>>,
    cue: Seq<char>,
    radius: Scalar,
)
    requires
        readings.len() == said.rows.len(),
    ensures
        usable(said, readings, cue, radius) <==> exists|a: int, b: int|
            0 <= a < b < said.rows.len() && (#[trigger] said.rows[a]).label == cue
                && readings[a] is Some && (#[trigger] said.rows[b]).label == cue
                && readings[b] is Some,
{
    let rows = said.rows;
    let from = law_labeled_track_is_its_rows(rows, readings, cue, radius, rows.len() as int);
    if usable(said, readings, cue, radius) {
        let (a, b) = (from[0], from[1]);
        assert(from.contains(a) && from.contains(b));
        assert(rows[a].label == cue && rows[b].label == cue);
    }
    if exists|a: int, b: int|
        0 <= a < b < rows.len() && (#[trigger] rows[a]).label == cue && readings[a] is Some && (
        #[trigger] rows[b]).label == cue && readings[b] is Some {
        let (a, b) = choose|a: int, b: int|
            0 <= a < b < rows.len() && (#[trigger] rows[a]).label == cue && readings[a] is Some && (
            #[trigger] rows[b]).label == cue && readings[b] is Some;
        assert(from.contains(a) && from.contains(b));
        let x = choose|x: int| 0 <= x < from.len() && from[x] == a;
        let y = choose|y: int| 0 <= y < from.len() && from[y] == b;
        assert(x != y);
    }
}

/// What a file is said to say is what is held of it: the name of the cue ball, and every row
/// its own label, time, x and y.
pub proof fn law_loose_says_what_it_holds(s: LooseText, k: int)
    ensures
        s@.cue == s.cue@,
        s@.rows.len() == s.rows@.len(),
        0 <= k < s.rows@.len() ==> {
            let (row, held) = (s@.rows[k], s.rows@[k]);
            row.label == held.label@ && row.t == held.t@ && row.x == held.x@ && row.y == held.y@
        },
{
}

} // verus!
