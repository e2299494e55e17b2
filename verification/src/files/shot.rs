//! Shot files: a header, then one line per sample.
//!
//! Header lines are space-separated `key value…`: `cue COLOR`, and for a shot
//! tracked from real footage `frames DIR`, `fps N`, `start N`, `corners …` and
//! `orient …`. Data lines are `COLOR,t,x,y` in table meters. Comments start `#`.

use vstd::prelude::*;

use crate::model::ball::BallColor;
use crate::order::lemma_places_step;
use crate::text::{
    chars_of, decimal, is_word, joined, law_blank_is_trimmed_away, law_field_follows,
    law_joined_is_split, law_separator_makes_fields, law_signs_are_read, law_trim_is_tight,
    law_trim_keeps_beginning, law_two_words, law_word_is_one_word, lower, lowered_text, read_usize,
    same_text, space, split, split_at_each, texts, trim, trimmed, unsigned_value, words, words_of,
};

verus! {

/// A piece of a file, as characters.
pub type Text = Vec<char>;

/// The ball a color name stands for.
pub open spec fn color_named(name: Seq<char>) -> Option<BallColor> {
    if name == "white"@ {
        Some(BallColor::White)
    } else if name == "yellow"@ {
        Some(BallColor::Yellow)
    } else if name == "red"@ {
        Some(BallColor::Red)
    } else {
        None
    }
}

/// The name of a ball's color.
pub open spec fn color_name(color: BallColor) -> Seq<char> {
    match color {
        BallColor::White => "white"@,
        BallColor::Yellow => "yellow"@,
        BallColor::Red => "red"@,
    }
}

/// Read a color name.
pub fn color_for(name: &[char]) -> (r: Option<BallColor>)
    ensures
        r == color_named(name@),
{
    if same_text(name, chars_of("white").as_slice()) {
        Some(BallColor::White)
    } else if same_text(name, chars_of("yellow").as_slice()) {
        Some(BallColor::Yellow)
    } else if same_text(name, chars_of("red").as_slice()) {
        Some(BallColor::Red)
    } else {
        None
    }
}

/// Whether a name is that of a ball's color.
pub fn is_named(name: &[char], color: BallColor) -> (r: bool)
    ensures
        r == (name@ == color_name(color)),
{
    match color {
        BallColor::White => same_text(name, chars_of("white").as_slice()),
        BallColor::Yellow => same_text(name, chars_of("yellow").as_slice()),
        BallColor::Red => same_text(name, chars_of("red").as_slice()),
    }
}

/// Two coordinates that a corner is given by.
#[derive(Debug)]
pub struct Pair {
    pub u: Text,
    pub v: Text,
}

/// The first two of the coordinates in each word that has two.
pub open spec fn pairs_of(rest: Seq<Seq<char>>, n: int) -> Seq<(Seq<char>, Seq<char>)>
    decreases n,
{
    if n <= 0 {
        seq![]
    } else {
        let pieces = split_at_each(rest[n - 1], ',');
        if pieces.len() >= 2 {
            pairs_of(rest, n - 1).push((pieces[0], pieces[1]))
        } else {
            pairs_of(rest, n - 1)
        }
    }
}

pub open spec fn pair_texts(v: Seq<Pair>) -> Seq<(Seq<char>, Seq<char>)> {
    Seq::new(v.len(), |k: int| (v[k].u@, v[k].v@))
}

/// Read the corners in the words of a line, from word `from` on.
pub fn read_pairs(ws: &Vec<Text>, from: usize) -> (r: Vec<Pair>)
    requires
        from <= ws@.len(),
    ensures
        pair_texts(r@) == pairs_of(texts(ws@).skip(from as int), ws@.len() - from),
{
    let mut r: Vec<Pair> = Vec::new();
    let ghost rest = texts(ws@).skip(from as int);
    assert(pair_texts(r@) =~= pairs_of(rest, 0));
    for k in from..ws.len()
        invariant
            from <= ws@.len(),
            rest == texts(ws@).skip(from as int),
            pair_texts(r@) == pairs_of(rest, k - from),
    {
        let ghost before = pair_texts(r@);
        assert(rest[k - from] == ws@[k as int]@);
        let pieces: Vec<Text> = split(ws[k].as_slice(), ',');
        let ghost all = texts(pieces@);
        if pieces.len() >= 2 {
            assert(all[0] == pieces@[0]@ && all[1] == pieces@[1]@);
            let p: Pair = Pair { u: copy_text(&pieces[0]), v: copy_text(&pieces[1]) };
            r.push(p);
            assert(pair_texts(r@) =~= before.push((all[0], all[1])));
        }
    }
    r
}

/// A copy of a text.
pub fn copy_text(s: &Text) -> (r: Text)
    ensures
        r@ == s@,
{
    crate::text::copy(s.as_slice(), 0, s.len())
}

/// A data line: whose sample it is, and its time and place as they are written.
#[derive(Debug)]
pub struct Row {
    pub ball: BallColor,
    pub t: Text,
    pub x: Text,
    pub y: Text,
}

pub struct RowText {
    pub ball: BallColor,
    pub t: Seq<char>,
    pub x: Seq<char>,
    pub y: Seq<char>,
}

impl View for Row {
    type V = RowText;

    open spec fn view(&self) -> RowText {
        RowText { ball: self.ball, t: self.t@, x: self.x@, y: self.y@ }
    }
}

/// What a shot file says, before its numbers are read.
#[derive(Debug)]
pub struct ShotText {
    /// Name of the cue ball's color.
    pub cue: Text,
    /// Directory of the source frames.
    pub frames: Option<Text>,
    /// Frame rates in the order in which they are given.
    pub fps: Vec<Text>,
    /// Index of the frame at shot time 0.
    pub start: usize,
    /// Corner lines in the order in which they are given.
    pub corners: Vec<Vec<Pair>>,
    /// Whether the table stands upright in the frame.
    pub vertical: bool,
    pub rows: Vec<Row>,
}

pub struct ShotSpec {
    pub cue: Seq<char>,
    pub frames: Option<Seq<char>>,
    pub fps: Seq<Seq<char>>,
    pub start: usize,
    pub corners: Seq<Seq<(Seq<char>, Seq<char>)>>,
    pub vertical: bool,
    pub rows: Seq<RowText>,
}

pub open spec fn row_texts(v: Seq<Row>) -> Seq<RowText> {
    Seq::new(v.len(), |k: int| v[k]@)
}

pub open spec fn corner_texts(v: Seq<Vec<Pair>>) -> Seq<Seq<(Seq<char>, Seq<char>)>> {
    Seq::new(v.len(), |k: int| pair_texts(v[k]@))
}

impl View for ShotText {
    type V = ShotSpec;

    open spec fn view(&self) -> ShotSpec {
        ShotSpec {
            cue: self.cue@,
            frames: match self.frames {
                Some(f) => Some(f@),
                None => None,
            },
            fps: texts(self.fps@),
            start: self.start,
            corners: corner_texts(self.corners@),
            vertical: self.vertical,
            rows: row_texts(self.rows@),
        }
    }
}

/// A file that says nothing: the cue ball is white.
pub open spec fn blank_shot() -> ShotSpec {
    ShotSpec {
        cue: "white"@,
        frames: None,
        fps: seq![],
        start: 0,
        corners: seq![],
        vertical: false,
        rows: seq![],
    }
}

/// The data line a line is: four fields, the first of them a color.
pub open spec fn row_of(line: Seq<char>) -> Option<RowText> {
    let f = split_at_each(line, ',');
    if f.len() != 4 {
        None
    } else {
        match color_named(trimmed(f[0])) {
            Some(ball) => Some(
                RowText { ball, t: trimmed(f[1]), x: trimmed(f[2]), y: trimmed(f[3]) },
            ),
            None => None,
        }
    }
}

/// What a file says with one more line.
pub open spec fn shot_step(st: ShotSpec, raw: Seq<char>) -> ShotSpec {
    let line = trimmed(raw);
    let ws = words_of(line);
    if line.len() == 0 || line[0] == '#' || ws.len() == 0 {
        st
    } else {
        let key = ws[0];
        let rest = ws.skip(1);
        if key == "cue"@ {
            if rest.len() > 0 {
                ShotSpec { cue: lowered_text(rest[0]), ..st }
            } else {
                st
            }
        } else if key == "frames"@ {
            ShotSpec {
                frames: if rest.len() > 0 {
                    Some(rest[0])
                } else {
                    None
                },
                ..st
            }
        } else if key == "fps"@ {
            if rest.len() > 0 {
                ShotSpec { fps: st.fps.push(rest[0]), ..st }
            } else {
                st
            }
        } else if key == "start"@ {
            if rest.len() > 0 && unsigned_value(rest[0]) is Some && unsigned_value(rest[0])->0
                <= usize::MAX {
                ShotSpec { start: unsigned_value(rest[0])->0 as usize, ..st }
            } else {
                st
            }
        } else if key == "orient"@ && rest.len() > 0 && rest[0] == "vertical"@ {
            ShotSpec { vertical: true, ..st }
        } else if key == "corners"@ {
            ShotSpec { corners: st.corners.push(pairs_of(rest, rest.len() as int)), ..st }
        } else {
            match row_of(line) {
                Some(row) => ShotSpec { rows: st.rows.push(row), ..st },
                None => st,
            }
        }
    }
}

/// What the first `n` lines say.
pub open spec fn shot_after(lines: Seq<Seq<char>>, n: int) -> ShotSpec
    decreases n,
{
    if n <= 0 {
        blank_shot()
    } else {
        shot_step(shot_after(lines, n - 1), lines[n - 1])
    }
}

/// What a shot file says.
pub open spec fn shot_said(text: Seq<char>) -> ShotSpec {
    let lines = split_at_each(text, '\n');
    shot_after(lines, lines.len() as int)
}

fn read_row(line: &[char]) -> (r: Option<Row>)
    ensures
        r is Some <==> row_of(line@) is Some,
        r is Some ==> r->0@ == row_of(line@)->0,
{
    let f: Vec<Text> = split(line, ',');
    let ghost all = texts(f@);
    if f.len() != 4 {
        return None;
    }
    assert(all[0] == f@[0]@ && all[1] == f@[1]@ && all[2] == f@[2]@ && all[3] == f@[3]@);
    match color_for(trim(f[0].as_slice()).as_slice()) {
        Some(ball) => Some(
            Row {
                ball,
                t: trim(f[1].as_slice()),
                x: trim(f[2].as_slice()),
                y: trim(f[3].as_slice()),
            },
        ),
        None => None,
    }
}

impl ShotText {
    fn blank() -> (s: ShotText)
        ensures
            s@ == blank_shot(),
    {
        let s: ShotText = ShotText {
            cue: chars_of("white"),
            frames: None,
            fps: Vec::new(),
            start: 0,
            corners: Vec::new(),
            vertical: false,
            rows: Vec::new(),
        };
        assert(s@.fps =~= seq![]);
        assert(s@.corners =~= seq![]);
        assert(s@.rows =~= seq![]);
        s
    }

    fn read_line(&mut self, raw: &[char])
        ensures
            final(self)@ == shot_step(old(self)@, raw@),
    {
        let ghost st = self@;
        let line: Text = trim(raw);
        let ws: Vec<Text> = words(line.as_slice());
        let ghost all = texts(ws@);
        if line.len() == 0 || line[0] == '#' || ws.len() == 0 {
            return;
        }
        assert(all[0] == ws@[0]@);
        let ghost rest = all.skip(1);
        if ws.len() > 1 {
            assert(rest[0] == ws@[1]@);
        }
        let key: &Text = &ws[0];
        if same_text(key.as_slice(), chars_of("cue").as_slice()) {
            if ws.len() > 1 {
                self.cue = lower(ws[1].as_slice());
            }
        } else if same_text(key.as_slice(), chars_of("frames").as_slice()) {
            if ws.len() > 1 {
                self.frames = Some(copy_text(&ws[1]));
            } else {
                self.frames = None;
            }
        } else if same_text(key.as_slice(), chars_of("fps").as_slice()) {
            if ws.len() > 1 {
                self.fps.push(copy_text(&ws[1]));
                assert(self@.fps =~= st.fps.push(rest[0]));
            }
        } else if same_text(key.as_slice(), chars_of("start").as_slice()) {
            if ws.len() > 1 {
                if let Some(n) = read_usize(ws[1].as_slice()) {
                    self.start = n;
                }
            }
        } else if same_text(key.as_slice(), chars_of("orient").as_slice()) && ws.len() > 1
            && same_text(ws[1].as_slice(), chars_of("vertical").as_slice()) {
            self.vertical = true;
        } else if same_text(key.as_slice(), chars_of("corners").as_slice()) {
            self.corners.push(read_pairs(&ws, 1));
            assert(self@.corners =~= st.corners.push(pairs_of(rest, rest.len() as int)));
        } else {
            if let Some(row) = read_row(line.as_slice()) {
                self.rows.push(row);
                assert(self@.rows =~= st.rows.push(row@));
            }
        }
    }
}

/// Read a shot file up to its numbers.
pub fn lex_shot(text: &str) -> (s: ShotText)
    ensures
        s@ == shot_said(text@),
{
    let chars: Text = chars_of(text);
    let lines: Vec<Text> = split(chars.as_slice(), '\n');
    let ghost all = texts(lines@);
    let mut s: ShotText = ShotText::blank();
    for k in 0..lines.len()
        invariant
            all == texts(lines@),
            s@ == shot_after(all, k as int),
    {
        assert(all[k as int] == lines@[k as int]@);
        s.read_line(lines[k].as_slice());
    }
    s
}

/// Every color has its own name, and a name stands for the color that it is the name of.
pub proof fn law_colors_have_names(color: BallColor)
    ensures
        color_named(color_name(color)) == Some(color),
        color_name(BallColor::White) == "white"@,
        color_name(BallColor::Yellow) == "yellow"@,
        color_name(BallColor::Red) == "red"@,
        is_word(color_name(color)),
        !color_name(color).contains(','),
{
    reveal_strlit("white");
    reveal_strlit("yellow");
    reveal_strlit("red");
    assert("white"@.len() == 5 && "yellow"@.len() == 6 && "red"@.len() == 3);
}

/// The corners of a line are those of its words with a comma, in their order: corner `i` is
/// the first two fields of word `from[i]`.
pub proof fn law_pairs_are_the_words(rest: Seq<Seq<char>>, n: int) -> (from: Seq<int>)
    requires
        0 <= n <= rest.len(),
    ensures
        from.len() == pairs_of(rest, n).len(),
        forall|k: int| #[trigger] from.contains(k) <==> 0 <= k < n && rest[k].contains(','),
        forall|i: int, j: int|
            0 <= i < j < from.len() ==> (#[trigger] from[i]) < (#[trigger] from[j]),
        forall|i: int|
            0 <= i < from.len() ==> (#[trigger] pairs_of(rest, n)[i]).0 == split_at_each(
                rest[from[i]],
                ',',
            )[0] && pairs_of(rest, n)[i].1 == split_at_each(rest[from[i]], ',')[1],
    decreases n,
{
    if n <= 0 {
        seq![]
    } else {
        let before = law_pairs_are_the_words(rest, n - 1);
        let more = rest[n - 1].contains(',');
        law_separator_makes_fields(rest[n - 1], ',');
        let from = if more {
            before.push(n - 1)
        } else {
            before
        };
        lemma_places_step(before, from, n - 1, more);
        let all = pairs_of(rest, n);
        assert forall|i: int| 0 <= i < from.len() implies (#[trigger] all[i]).0 == split_at_each(
            rest[from[i]],
            ',',
        )[0] && all[i].1 == split_at_each(rest[from[i]], ',')[1] by {
            if i < before.len() {
                assert(all[i] == pairs_of(rest, n - 1)[i]);
            }
        }
        from
    }
}

/// A corner that is written as two coordinates with a comma between them is read as these
/// two, in that order.
pub proof fn law_corner_is_read(u: Seq<char>, v: Seq<char>)
    requires
        !u.contains(','),
        !v.contains(','),
    ensures
        pairs_of(seq![u.push(',') + v], 1) == seq![(u, v)],
{
    let fields = seq![u, v];
    reveal_with_fuel(joined, 3);
    reveal_with_fuel(pairs_of, 2);
    assert(fields.drop_last() =~= seq![u]);
    assert(joined(fields, ',') == u.push(',') + v);
    law_joined_is_split(fields, ',');
    assert(pairs_of(seq![u.push(',') + v], 1) =~= seq![(u, v)]);
}

proof fn lemma_keys()
    ensures
        is_word("cue"@) && "cue"@.len() == 3 && "cue"@[0] != '#',
        is_word("frames"@) && "frames"@.len() == 6 && "frames"@[0] == 'f' && "frames"@[1] == 'r',
        is_word("fps"@) && "fps"@.len() == 3 && "fps"@[0] == 'f',
        is_word("start"@) && "start"@.len() == 5 && "start"@[0] == 's',
        is_word("orient"@) && "orient"@.len() == 6 && "orient"@[0] == 'o',
        is_word("corners"@) && "corners"@.len() == 7 && "corners"@[0] == 'c',
        is_word("vertical"@),
        !"cue"@.contains(',') && !"frames"@.contains(',') && !"fps"@.contains(','),
        !"start"@.contains(',') && !"orient"@.contains(',') && !"corners"@.contains(','),
        "cue"@[0] == 'c',
{
    reveal_strlit("cue");
    reveal_strlit("frames");
    reveal_strlit("fps");
    reveal_strlit("start");
    reveal_strlit("orient");
    reveal_strlit("corners");
    reveal_strlit("vertical");
}

/// A header line says one thing: the color of the cue ball, the directory of the frames, the
/// frame rate, and leaves all else as it was.
pub proof fn law_headers_are_read(st: ShotSpec, w: Seq<char>)
    requires
        is_word(w),
    ensures
        shot_step(st, "cue"@.push(' ') + w) == (ShotSpec { cue: lowered_text(w), ..st }),
        shot_step(st, "frames"@.push(' ') + w) == (ShotSpec { frames: Some(w), ..st }),
        shot_step(st, "fps"@.push(' ') + w) == (ShotSpec { fps: st.fps.push(w), ..st }),
        shot_step(st, "orient"@.push(' ') + "vertical"@) == (ShotSpec { vertical: true, ..st }),
{
    lemma_keys();
    lemma_header(st, "cue"@, w);
    lemma_header(st, "frames"@, w);
    lemma_header(st, "fps"@, w);
    lemma_header(st, "orient"@, "vertical"@);
}

proof fn lemma_header(st: ShotSpec, key: Seq<char>, w: Seq<char>)
    requires
        is_word(key),
        is_word(w),
        key[0] != '#',
    ensures
        ({
            let line = key.push(' ') + w;
            &&& trimmed(line) == line
            &&& line.len() > 0 && line[0] != '#'
            &&& words_of(line) == seq![key, w]
            &&& words_of(line)[0] == key
            &&& words_of(line).skip(1) == seq![w]
        }),
{
    law_two_words(key, w);
    let line = key.push(' ') + w;
    assert(line[0] == key[0]);
    assert(words_of(line).skip(1) =~= seq![w]);
}

/// The frame of shot time 0 is the number that a start line gives, if it is one of machine
/// size.
pub proof fn law_start_is_read(st: ShotSpec, digits: Seq<char>)
    requires
        digits.len() > 0,
        forall|i: int| 0 <= i < digits.len() ==> '0' <= (#[trigger] digits[i]) <= '9',
    ensures
        shot_step(st, "start"@.push(' ') + digits) == (if decimal(digits) <= usize::MAX {
            ShotSpec { start: decimal(digits) as usize, ..st }
        } else {
            st
        }),
{
    lemma_keys();
    law_signs_are_read(digits);
    assert(is_word(digits));
    lemma_header(st, "start"@, digits);
}

/// A comment, or a blank line, says nothing.
pub proof fn law_comments_say_nothing(st: ShotSpec, words: Seq<char>, blank: Seq<char>)
    requires
        forall|k: int| 0 <= k < blank.len() ==> space(#[trigger] blank[k]),
    ensures
        shot_step(st, seq!['#'] + words) == st,
        shot_step(st, blank) == st,
{
    let line = seq!['#'] + words;
    assert(line[0] == '#');
    law_trim_keeps_beginning(line);
    law_blank_is_trimmed_away(blank);
}

/// A data line is read field by field: the color, then the time, then x, then y, and white
/// space around a field does not count.
pub proof fn law_row_is_four_fields(
    name: Seq<char>,
    t: Seq<char>,
    x: Seq<char>,
    y: Seq<char>,
)
    requires
        !name.contains(',') && !t.contains(',') && !x.contains(',') && !y.contains(','),
    ensures
        ({
            let row = row_of(((name.push(',') + t).push(',') + x).push(',') + y);
            &&& row is Some <==> color_named(trimmed(name)) is Some
            &&& row is Some ==> row->0.ball == color_named(trimmed(name))->0 && row->0.t
                == trimmed(t) && row->0.x == trimmed(x) && row->0.y == trimmed(y)
        }),
{
    let fields = seq![name, t, x, y];
    reveal_with_fuel(joined, 5);
    assert(fields.drop_last() =~= seq![name, t, x]);
    assert(seq![name, t, x].drop_last() =~= seq![name, t]);
    assert(seq![name, t].drop_last() =~= seq![name]);
    assert(joined(fields, ',') == ((name.push(',') + t).push(',') + x).push(',') + y);
    law_joined_is_split(fields, ',');
}

/// A line `COLOR,t,x,y` adds one sample of that ball, as it is written, and changes nothing
/// else.
pub proof fn law_data_line_is_read(
    st: ShotSpec,
    ball: BallColor,
    t: Seq<char>,
    x: Seq<char>,
    y: Seq<char>,
)
    requires
        is_word(t) && is_word(x) && is_word(y),
        !t.contains(',') && !x.contains(',') && !y.contains(','),
    ensures
        shot_step(st, ((color_name(ball).push(',') + t).push(',') + x).push(',') + y) == (ShotSpec {
            rows: st.rows.push(RowText { ball, t, x, y }),
            ..st
        }),
{
    let name = color_name(ball);
    let line = ((name.push(',') + t).push(',') + x).push(',') + y;
    law_colors_have_names(ball);
    law_row_is_four_fields(name, t, x, y);
    law_trim_is_tight(seq![], name, seq![]);
    law_trim_is_tight(seq![], t, seq![]);
    law_trim_is_tight(seq![], x, seq![]);
    law_trim_is_tight(seq![], y, seq![]);
    lemma_no_space_in_row(name, t, x, y);
    law_word_is_one_word(line);
    law_trim_is_tight(seq![], line, seq![]);
    lemma_keys();
    assert(line[name.len() as int] == ',');
    assert(line.contains(','));
    assert(line[0] == name[0]);
    reveal_strlit("white");
    reveal_strlit("yellow");
    reveal_strlit("red");
}

proof fn lemma_no_space_in_row(name: Seq<char>, t: Seq<char>, x: Seq<char>, y: Seq<char>)
    requires
        is_word(name) && is_word(t) && is_word(x) && is_word(y),
    ensures
        is_word(((name.push(',') + t).push(',') + x).push(',') + y),
{
    let line = ((name.push(',') + t).push(',') + x).push(',') + y;
    let a = name.len() as int;
    let b = a + 1 + t.len();
    let c = b + 1 + x.len();
    assert forall|k: int| 0 <= k < line.len() implies !space(#[trigger] line[k]) by {
        if k < a {
            assert(line[k] == name[k]);
        } else if k == a || k == b || k == c {
            assert(line[k] == ',');
        } else if k < b {
            assert(line[k] == t[k - a - 1]);
        } else if k < c {
            assert(line[k] == x[k - b - 1]);
        } else {
            assert(line[k] == y[k - c - 1]);
        }
    }
}

/// A file is read line by line: with one more line it says what it said, and then what that
/// line says. A file without a line says that the cue ball is white, and nothing else.
pub proof fn law_shot_is_read_by_line(text: Seq<char>, line: Seq<char>)
    requires
        !line.contains('\n'),
    ensures
        shot_said(text.push('\n') + line) == shot_step(shot_said(text), line),
        shot_said(seq![]) == (ShotSpec {
            cue: "white"@,
            frames: None,
            fps: seq![],
            start: 0,
            corners: seq![],
            vertical: false,
            rows: seq![],
        }),
{
    law_field_follows(text, '\n', line);
    let lines = split_at_each(text, '\n');
    let more = lines.push(line);
    lemma_shot_prefix(lines, more, lines.len() as int);
    let none = split_at_each(seq![], '\n');
    assert(none =~= seq![seq![]]);
    reveal_with_fuel(shot_after, 2);
    law_blank_is_trimmed_away(seq![]);
}

proof fn lemma_shot_prefix(lines: Seq<Seq<char>>, more: Seq<Seq<char>>, n: int)
    requires
        0 <= n <= lines.len() <= more.len(),
        forall|k: int| 0 <= k < lines.len() ==> #[trigger] lines[k] == more[k],
    ensures
        shot_after(lines, n) == shot_after(more, n),
    decreases n,
{
    if n > 0 {
        lemma_shot_prefix(lines, more, n - 1);
        assert(lines[n - 1] == more[n - 1]);
    }
}

/// A corner line adds the corners in its words, all of them and as one line of corners.
pub proof fn law_corner_line_is_read(st: ShotSpec, line: Seq<char>, rest: Seq<Seq<char>>)
    requires
        words_of(trimmed(line)) == seq!["corners"@] + rest,
        trimmed(line).len() > 0 && trimmed(line)[0] != '#',
    ensures
        shot_step(st, line) == (ShotSpec {
            corners: st.corners.push(pairs_of(rest, rest.len() as int)),
            ..st
        }),
{
    lemma_keys();
    let ws = words_of(trimmed(line));
    assert(ws[0] == "corners"@);
    assert(ws.skip(1) =~= rest);
}

/// Nothing but the name of a color stands for a ball.
pub proof fn law_only_colors_are_balls(name: Seq<char>)
    ensures
        color_named(name) is Some <==> name == "white"@ || name == "yellow"@ || name == "red"@,
        color_named(name) is Some ==> color_name(color_named(name)->0) == name,
{
}

/// What a file is said to say is what is held of it: every row its own ball, time, x and y,
/// every corner its two coordinates in their order, and every header its own value.
pub proof fn law_shot_says_what_it_holds(s: ShotText, k: int, i: int)
    ensures
        s@.cue == s.cue@,
        s@.frames is Some <==> s.frames is Some,
        s.frames is Some ==> s@.frames == Some(s.frames->0@),
        s@.fps.len() == s.fps@.len(),
        0 <= k < s.fps@.len() ==> s@.fps[k] == s.fps@[k]@,
        s@.start == s.start,
        s@.vertical == s.vertical,
        s@.rows.len() == s.rows@.len(),
        0 <= k < s.rows@.len() ==> {
            let (row, held) = (s@.rows[k], s.rows@[k]);
            row.ball == held.ball && row.t == held.t@ && row.x == held.x@ && row.y == held.y@
        },
        s@.corners.len() == s.corners@.len(),
        0 <= k < s.corners@.len() ==> s@.corners[k].len() == s.corners@[k]@.len(),
        0 <= k < s.corners@.len() && 0 <= i < s.corners@[k]@.len() ==> s@.corners[k][i].0
            == s.corners@[k]@[i].u@ && s@.corners[k][i].1 == s.corners@[k]@[i].v@,
{
}

} // verus!
