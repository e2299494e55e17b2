//! Scene files: where the balls of a frame are.
//!
//! Ball lines are `color x y` in table meters; optional `image PATH`,
//! `corners x,y x,y x,y x,y` and `orient horizontal|vertical` carry the source
//! frame and its calibration. Comments start `#`. White is the cue ball; yellow
//! and red are the objects.

use vstd::prelude::*;

use crate::files::imported::{corners_given, corners_of, Corners};
use crate::files::shot::{
    color_for, color_name, color_named, copy_text, corner_texts, law_colors_have_names, pairs_of,
    read_pairs, Pair, Text,
};
use crate::model::ball::BallColor;
use crate::model::math::DVec3;
use crate::model::scene::Scene;
use crate::scalar::Scalar;
use crate::text::{
    chars_of, is_word, law_blank_is_trimmed_away, law_field_follows, law_lowered,
    law_three_words, law_trim_keeps_beginning, law_two_words, lower, lowered_text, same_text,
    space, split, split_at_each, texts, trim, trimmed, words, words_of,
};

verus! {

/// A ball line: whose place it is, and the place as it is written.
#[derive(Debug)]
pub struct BallLine {
    pub ball: BallColor,
    pub x: Text,
    pub y: Text,
}

pub struct BallLineText {
    pub ball: BallColor,
    pub x: Seq<char>,
    pub y: Seq<char>,
}

impl View for BallLine {
    type V = BallLineText;

    open spec fn view(&self) -> BallLineText {
        BallLineText { ball: self.ball, x: self.x@, y: self.y@ }
    }
}

/// What a scene file says, before its numbers are read.
#[derive(Debug)]
pub struct SceneText {
    pub image: Option<Text>,
    pub vertical: bool,
    /// Corner lines in the order in which they are given.
    pub corners: Vec<Vec<Pair>>,
    pub balls: Vec<BallLine>,
}

pub struct SceneSpec {
    pub image: Option<Seq<char>>,
    pub vertical: bool,
    pub corners: Seq<Seq<(Seq<char>, Seq<char>)>>,
    pub balls: Seq<BallLineText>,
}

pub open spec fn ball_lines(v: Seq<BallLine>) -> Seq<BallLineText> {
    Seq::new(v.len(), |k: int| v[k]@)
}

impl View for SceneText {
    type V = SceneSpec;

    open spec fn view(&self) -> SceneSpec {
        SceneSpec {
            image: match self.image {
                Some(p) => Some(p@),
                None => None,
            },
            vertical: self.vertical,
            corners: corner_texts(self.corners@),
            balls: ball_lines(self.balls@),
        }
    }
}

pub open spec fn blank_scene() -> SceneSpec {
    SceneSpec { image: None, vertical: false, corners: seq![], balls: seq![] }
}

/// What a file says with one more line. Keys may be written in capitals.
pub open spec fn scene_step(st: SceneSpec, raw: Seq<char>) -> SceneSpec {
    let line = trimmed(raw);
    let ws = words_of(line);
    if line.len() == 0 || line[0] == '#' || ws.len() == 0 {
        st
    } else {
        let key = lowered_text(ws[0]);
        let rest = ws.skip(1);
        if key == "image"@ {
            SceneSpec {
                image: if rest.len() > 0 {
                    Some(rest[0])
                } else {
                    None
                },
                ..st
            }
        } else if key == "orient"@ && rest.len() > 0 && rest[0] == "vertical"@ {
            SceneSpec { vertical: true, ..st }
        } else if key == "corners"@ {
            SceneSpec { corners: st.corners.push(pairs_of(rest, rest.len() as int)), ..st }
        } else {
            match color_named(key) {
                Some(ball) => if rest.len() >= 2 {
                    SceneSpec {
                        balls: st.balls.push(BallLineText { ball, x: rest[0], y: rest[1] }),
                        ..st
                    }
                } else {
                    st
                },
                None => st,
            }
        }
    }
}

/// What the first `n` lines say.
pub open spec fn scene_after(lines: Seq<Seq<char>>, n: int) -> SceneSpec
    decreases n,
{
    if n <= 0 {
        blank_scene()
    } else {
        scene_step(scene_after(lines, n - 1), lines[n - 1])
    }
}

/// What a scene file says.
pub open spec fn scene_said(text: Seq<char>) -> SceneSpec {
    let lines = split_at_each(text, '\n');
    scene_after(lines, lines.len() as int)
}

impl SceneText {
    fn read_line(&mut self, raw: &[char])
        ensures
            final(self)@ == scene_step(old(self)@, raw@),
    {
        let ghost st = self@;
        let line: Text = trim(raw);
        let ws: Vec<Text> = words(line.as_slice());
        let ghost all = texts(ws@);
        if line.len() == 0 || line[0] == '#' || ws.len() == 0 {
            return;
        }
        assert(all[0] == ws@[0]@);
        let ghost rest = all.skip(1);
        if ws.len() > 1 {
            assert(rest[0] == ws@[1]@);
        }
        let key: Text = lower(ws[0].as_slice());
        if same_text(key.as_slice(), chars_of("image").as_slice()) {
            if ws.len() > 1 {
                self.image = Some(copy_text(&ws[1]));
            } else {
                self.image = None;
            }
        } else if same_text(key.as_slice(), chars_of("orient").as_slice()) && ws.len() > 1
            && same_text(ws[1].as_slice(), chars_of("vertical").as_slice()) {
            self.vertical = true;
        } else if same_text(key.as_slice(), chars_of("corners").as_slice()) {
            self.corners.push(read_pairs(&ws, 1));
            assert(self@.corners =~= st.corners.push(pairs_of(rest, rest.len() as int)));
        } else if let Some(ball) = color_for(key.as_slice()) {
            if ws.len() >= 3 {
                assert(rest[1] == ws@[2]@);
                let b: BallLine = BallLine { ball, x: copy_text(&ws[1]), y: copy_text(&ws[2]) };
                self.balls.push(b);
                assert(self@.balls =~= st.balls.push(b@));
            }
        }
    }
}

/// Read a scene file up to its numbers.
pub fn lex_scene(text: &str) -> (s: SceneText)
    ensures
        s@ == scene_said(text@),
{
    let chars: Text = chars_of(text);
    let lines: Vec<Text> = split(chars.as_slice(), '\n');
    let ghost all = texts(lines@);
    let mut s: SceneText = SceneText {
        image: None,
        vertical: false,
        corners: Vec::new(),
        balls: Vec::new(),
    };
    assert(s@.corners =~= seq![]);
    assert(s@.balls =~= seq![]);
    for k in 0..lines.len()
        invariant
            all == texts(lines@),
            s@ == scene_after(all, k as int),
    {
        assert(all[k as int] == lines@[k as int]@);
        s.read_line(lines[k].as_slice());
    }
    s
}

/// A scene imported from a video frame, with the source frame and calibration.
#[derive(Debug)]
pub struct ImportedScene {
    pub scene: Scene,
    pub image_path: Option<Text>,
    pub corners: Option<Corners>,
    pub vertical: bool,
}

/// The place of a ball: that of its last line, among the first `n`, whose numbers
/// could be read.
pub open spec fn place_among(
    balls: Seq<BallLineText>,
    places: Seq<Option<(Scalar, Scalar)>>,
    ball: BallColor,
    radius: Scalar,
    n: int,
) -> Option<DVec3>
    decreases n,
{
    if n <= 0 {
        None
    } else {
        match places[n - 1] {
            Some((x, y)) => if balls[n - 1].ball == ball {
                Some(DVec3 { x, y, z: radius })
            } else {
                place_among(balls, places, ball, radius, n - 1)
            },
            None => place_among(balls, places, ball, radius, n - 1),
        }
    }
}

fn place_of_ball(
    balls: &Vec<BallLine>,
    places: &[Option<(Scalar, Scalar)>],
    ball: BallColor,
    radius: Scalar,
) -> (r: Option<DVec3>)
    requires
        places@.len() == balls@.len(),
    ensures
        r == place_among(ball_lines(balls@), places@, ball, radius, balls@.len() as int),
{
    let mut r: Option<DVec3> = None;
    for k in 0..balls.len()
        invariant
            places@.len() == balls@.len(),
            r == place_among(ball_lines(balls@), places@, ball, radius, k as int),
    {
        assert(ball_lines(balls@)[k as int] == balls@[k as int]@);
        if let Some((x, y)) = places[k] {
            if balls[k].ball == ball {
                r = Some(DVec3::new(x, y, radius));
            }
        }
    }
    r
}

/// An object ball, unless it is where the cue ball is.
pub open spec fn object_of(p: Option<DVec3>, cue: DVec3) -> Seq<DVec3> {
    match p {
        Some(p) => if p.same(cue) {
            seq![]
        } else {
            seq![p]
        },
        None => seq![],
    }
}

fn add_object(objects: &mut Vec<DVec3>, p: Option<DVec3>, cue: DVec3)
    ensures
        final(objects)@ == old(objects)@ + object_of(p, cue),
{
    if let Some(p) = p {
        if !p.equals(cue) {
            objects.push(p);
        }
    }
    assert(objects@ =~= old(objects)@ + object_of(p, cue));
}

/// Put a scene together from what its file says and the numbers read in it. White
/// is the cue ball, or yellow where white is missing; without either there is no
/// scene.
pub fn parse_scene(
    said: &SceneText,
    places: &[Option<(Scalar, Scalar)>],
    corners: &[Vec<Option<(Scalar, Scalar)>>],
    radius: Scalar,
) -> (r: Option<ImportedScene>)
    requires
        places@.len() == said.balls@.len(),
    ensures
        ({
            let n = places@.len() as int;
            let white = place_among(said@.balls, places@, BallColor::White, radius, n);
            let yellow = place_among(said@.balls, places@, BallColor::Yellow, radius, n);
            let red = place_among(said@.balls, places@, BallColor::Red, radius, n);
            match r {
                None => white is None && yellow is None,
                Some(s) => {
                    let cue = match white {
                        Some(p) => p,
                        None => yellow->0,
                    };
                    &&& white is Some || yellow is Some
                    &&& s.scene.cue == cue
                    &&& s.scene.objects@ == object_of(yellow, cue) + object_of(red, cue)
                        + object_of(white, cue)
                    &&& s.image_path is Some <==> said.image is Some
                    &&& s.image_path is Some ==> s.image_path->0@ == said.image->0@
                    &&& s.corners == corners_given(corners@, corners@.len() as int)
                    &&& s.vertical == said.vertical
                },
            }
        }),
{
    let white: Option<DVec3> = place_of_ball(&said.balls, places, BallColor::White, radius);
    let yellow: Option<DVec3> = place_of_ball(&said.balls, places, BallColor::Yellow, radius);
    let red: Option<DVec3> = place_of_ball(&said.balls, places, BallColor::Red, radius);
    let cue: DVec3 = match white {
        Some(p) => p,
        None => match yellow {
            Some(p) => p,
            None => {
                return None;
            },
        },
    };
    let mut objects: Vec<DVec3> = Vec::new();
    add_object(&mut objects, yellow, cue);
    add_object(&mut objects, red, cue);
    add_object(&mut objects, white, cue);
    assert(objects@ =~= object_of(yellow, cue) + object_of(red, cue) + object_of(white, cue));
    let image_path: Option<Text> = match &said.image {
        Some(p) => Some(copy_text(p)),
        None => None,
    };
    Some(
        ImportedScene {
            scene: Scene::new(cue, objects),
            image_path,
            corners: corners_of(corners),
            vertical: said.vertical,
        },
    )
}

proof fn lemma_scene_keys()
    ensures
        is_word("image"@) && "image"@.len() == 5 && "image"@[0] == 'i',
        is_word("orient"@) && "orient"@.len() == 6 && "orient"@[0] == 'o',
        is_word("corners"@) && "corners"@.len() == 7 && "corners"@[0] == 'c',
        is_word("vertical"@),
        "white"@.len() == 5 && "white"@[0] == 'w',
        "yellow"@.len() == 6 && "yellow"@[0] == 'y',
        "red"@.len() == 3 && "red"@[0] == 'r',
        lowered_text("image"@) == "image"@,
        lowered_text("orient"@) == "orient"@,
        lowered_text("corners"@) == "corners"@,
{
    reveal_strlit("image");
    reveal_strlit("orient");
    reveal_strlit("corners");
    reveal_strlit("vertical");
    reveal_strlit("white");
    reveal_strlit("yellow");
    reveal_strlit("red");
    assert(lowered_text("image"@) =~= "image"@);
    assert(lowered_text("orient"@) =~= "orient"@);
    assert(lowered_text("corners"@) =~= "corners"@);
}

/// A line `COLOR x y`, the color in small letters or in capitals, adds the place of that
/// ball, x first and then y, and changes nothing else.
pub proof fn law_ball_line_is_read(
    st: SceneSpec,
    ball: BallColor,
    name: Seq<char>,
    x: Seq<char>,
    y: Seq<char>,
)
    requires
        is_word(name) && is_word(x) && is_word(y),
        lowered_text(name) == color_name(ball),
    ensures
        scene_step(st, (name.push(' ') + x).push(' ') + y) == (SceneSpec {
            balls: st.balls.push(BallLineText { ball, x, y }),
            ..st
        }),
{
    let line = (name.push(' ') + x).push(' ') + y;
    law_three_words(name, x, y);
    law_colors_have_names(ball);
    lemma_scene_keys();
    assert(line[0] == name[0]);
    law_lowered(name, 0);
    assert(color_name(ball)[0] == lowered_text(name)[0]);
    let ws = words_of(line);
    assert(ws[0] == name);
    assert(ws.skip(1) =~= seq![x, y]);
}

/// A header line says one thing: the source frame, or how the table lies in it, and leaves
/// all else as it was.
pub proof fn law_scene_headers_are_read(st: SceneSpec, w: Seq<char>)
    requires
        is_word(w),
    ensures
        scene_step(st, "image"@.push(' ') + w) == (SceneSpec { image: Some(w), ..st }),
        scene_step(st, "orient"@.push(' ') + "vertical"@) == (SceneSpec { vertical: true, ..st }),
        w != "vertical"@ ==> scene_step(st, "orient"@.push(' ') + w) == st,
{
    lemma_scene_keys();
    law_two_words("image"@, w);
    law_two_words("orient"@, w);
    law_two_words("orient"@, "vertical"@);
    assert(seq!["image"@, w].skip(1) =~= seq![w]);
    assert(seq!["orient"@, w].skip(1) =~= seq![w]);
    assert(seq!["orient"@, "vertical"@].skip(1) =~= seq!["vertical"@]);
    assert(("image"@.push(' ') + w)[0] == 'i');
    assert(("orient"@.push(' ') + w)[0] == 'o');
    assert(("orient"@.push(' ') + "vertical"@)[0] == 'o');
}

/// A corner line adds the corners in its words, as one line of corners; a comment or a blank
/// line says nothing.
pub proof fn law_scene_lines_beside(
    st: SceneSpec,
    line: Seq<char>,
    rest: Seq<Seq<char>>,
    words: Seq<char>,
    blank: Seq<char>,
)
    requires
        forall|k: int| 0 <= k < blank.len() ==> space(#[trigger] blank[k]),
    ensures
        words_of(trimmed(line)) == seq!["corners"@] + rest && trimmed(line).len() > 0
            && trimmed(line)[0] != '#' ==> scene_step(st, line) == (SceneSpec {
            corners: st.corners.push(pairs_of(rest, rest.len() as int)),
            ..st
        }),
        scene_step(st, seq!['#'] + words) == st,
        scene_step(st, blank) == st,
{
    lemma_scene_keys();
    let comment = seq!['#'] + words;
    assert(comment[0] == '#');
    law_trim_keeps_beginning(comment);
    law_blank_is_trimmed_away(blank);
    if words_of(trimmed(line)) == seq!["corners"@] + rest {
        let ws = words_of(trimmed(line));
        assert(ws[0] == "corners"@);
        assert(ws.skip(1) =~= rest);
    }
}

/// A scene file is read line by line: with one more line it says what it said, and then what
/// that line says. A file without a line says nothing.
pub proof fn law_scene_is_read_by_line(text: Seq<char>, line: Seq<char>)
    requires
        !line.contains('\n'),
    ensures
        scene_said(text.push('\n') + line) == scene_step(scene_said(text), line),
        scene_said(seq![]) == (SceneSpec {
            image: None,
            vertical: false,
            corners: seq![],
            balls: seq![],
        }),
{
    law_field_follows(text, '\n', line);
    let lines = split_at_each(text, '\n');
    lemma_scene_prefix(lines, lines.push(line), lines.len() as int);
    let none = split_at_each(seq![], '\n');
    assert(none =~= seq![seq![]]);
    reveal_with_fuel(scene_after, 2);
    law_blank_is_trimmed_away(seq![]);
}

proof fn lemma_scene_prefix(lines: Seq<Seq<char>>, more: Seq<Seq<char>>, n: int)
    requires
        0 <= n <= lines.len() <= more.len(),
        forall|k: int| 0 <= k < lines.len() ==> #[trigger] lines[k] == more[k],
    ensures
        scene_after(lines, n) == scene_after(more, n),
    decreases n,
{
    if n > 0 {
        lemma_scene_prefix(lines, more, n - 1);
        assert(lines[n - 1] == more[n - 1]);
    }
}

/// A ball is where its last line that could be read puts it, x for x and y for y; it is
/// nowhere exactly if none could.
pub proof fn law_ball_is_where_its_last_line_is(
    balls: Seq<BallLineText>,
    places: Seq<Option<(Scalar, Scalar)>>,
    ball: BallColor,
    radius: Scalar,
    n: int,
) -> (k: int)
    requires
        0 <= n <= balls.len(),
        places.len() == balls.len(),
    ensures
        place_among(balls, places, ball, radius, n) is None <==> forall|j: int|
            0 <= j < n ==> !((#[trigger] balls[j]).ball == ball && places[j] is Some),
        place_among(balls, places, ball, radius, n) is Some ==> {
            let p = place_among(balls, places, ball, radius, n)->0;
            &&& 0 <= k < n && balls[k].ball == ball
            &&& places[k] == Some((p.x, p.y))
            &&& p.z == radius
            &&& forall|j: int|
                k < j < n ==> !((#[trigger] balls[j]).ball == ball && places[j] is Some)
        },
    decreases n,
{
    if n <= 0 {
        0
    } else if balls[n - 1].ball == ball && places[n - 1] is Some {
        n - 1
    } else {
        law_ball_is_where_its_last_line_is(balls, places, ball, radius, n - 1)
    }
}

/// The objects of a scene are the balls other than the cue ball: one that is where the cue
/// ball is, number for number, is not among them, and any other is, as it is.
pub proof fn law_objects_are_the_others(
    yellow: Option<DVec3>,
    red: Option<DVec3>,
    white: Option<DVec3>,
    cue: DVec3,
    p: DVec3,
)
    ensures
        ({
            let objects = object_of(yellow, cue) + object_of(red, cue) + object_of(white, cue);
            &&& objects.contains(p) <==> (yellow == Some(p) || red == Some(p) || white == Some(p))
                && !(p.x.same(cue.x) && p.y.same(cue.y) && p.z.same(cue.z))
            &&& objects.len() <= 3
        }),
{
    let objects = object_of(yellow, cue) + object_of(red, cue) + object_of(white, cue);
    let a = object_of(yellow, cue).len() as int;
    let b = object_of(red, cue).len() as int;
    if !p.same(cue) {
        if yellow == Some(p) {
            assert(objects[0] == p);
        }
        if red == Some(p) {
            assert(objects[a] == p);
        }
        if white == Some(p) {
            assert(objects[a + b] == p);
        }
    }
}

/// What a scene file is said to say is what is held of it: every ball line its own ball, x
/// and y, every corner its two coordinates in their order, and every header its own value.
pub proof fn law_scene_says_what_it_holds(s: SceneText, k: int, i: int)
    ensures
        s@.image is Some <==> s.image is Some,
        s.image is Some ==> s@.image == Some(s.image->0@),
        s@.vertical == s.vertical,
        s@.balls.len() == s.balls@.len(),
        0 <= k < s.balls@.len() ==> {
            let (line, held) = (s@.balls[k], s.balls@[k]);
            line.ball == held.ball && line.x == held.x@ && line.y == held.y@
        },
        s@.corners.len() == s.corners@.len(),
        0 <= k < s.corners@.len() && 0 <= i < s.corners@[k]@.len() ==> s@.corners[k].len()
            == s.corners@[k]@.len() && s@.corners[k][i].0 == s.corners@[k]@[i].u@
            && s@.corners[k][i].1 == s.corners@[k]@[i].v@,
{
}

} // verus!
