//! The footage headers of a shot file that is shown beside its video clip.

use vstd::prelude::*;

use crate::files::shot::{copy_text, corner_texts, pairs_of, read_pairs, Pair, Text};
use crate::text::{
    chars_of, is_word, law_field_follows, law_two_words, same_text, split, split_at_each, texts,
    words, words_of,
};

verus! {

/// What the footage headers say, before their numbers are read.
#[derive(Debug)]
pub struct FootageText {
    /// The frame rate the last `fps` line gives, if it gives any.
    pub fps: Option<Text>,
    /// The frame of shot time 0 the last `start` line gives, if it gives any.
    pub start: Option<Text>,
    /// Corner lines in the order in which they are given.
    pub corners: Vec<Vec<Pair>>,
    /// Whether the table stands upright in the frame.
    pub vertical: bool,
}

pub struct FootageSpec {
    pub fps: Option<Seq<char>>,
    pub start: Option<Seq<char>>,
    pub corners: Seq<Seq<(Seq<char>, Seq<char>)>>,
    pub vertical: bool,
}

impl View for FootageText {
    type V = FootageSpec;

    open spec fn view(&self) -> FootageSpec {
        FootageSpec {
            fps: match self.fps {
                Some(t) => Some(t@),
                None => None,
            },
            start: match self.start {
                Some(t) => Some(t@),
                None => None,
            },
            corners: corner_texts(self.corners@),
            vertical: self.vertical,
        }
    }
}

/// The first word after the key of a line.
pub open spec fn argument(ws: Seq<Seq<char>>) -> Option<Seq<char>> {
    if ws.len() > 1 {
        Some(ws[1])
    } else {
        None
    }
}

/// What the headers say with one more line.
pub open spec fn footage_step(st: FootageSpec, line: Seq<char>) -> FootageSpec {
    let ws = words_of(line);
    if ws.len() == 0 {
        st
    } else if ws[0] == "corners"@ {
        FootageSpec { corners: st.corners.push(pairs_of(ws.skip(1), ws.len() - 1)), ..st }
    } else if ws[0] == "orient"@ && argument(ws) == Some("vertical"@) {
        FootageSpec { vertical: true, ..st }
    } else if ws[0] == "fps"@ {
        FootageSpec { fps: argument(ws), ..st }
    } else if ws[0] == "start"@ {
        FootageSpec { start: argument(ws), ..st }
    } else {
        st
    }
}

/// What the first `n` lines say.
pub open spec fn footage_after(lines: Seq<Seq<char>>, n: int) -> FootageSpec
    decreases n,
{
    if n <= 0 {
        FootageSpec { fps: None, start: None, corners: seq![], vertical: false }
    } else {
        footage_step(footage_after(lines, n - 1), lines[n - 1])
    }
}

impl FootageText {
    fn read_line(&mut self, line: &[char])
        ensures
            final(self)@ == footage_step(old(self)@, line@),
    {
        let ghost st = self@;
        let ws: Vec<Text> = words(line);
        let ghost all = texts(ws@);
        if ws.len() == 0 {
            return;
        }
        assert(all[0] == ws@[0]@);
        if ws.len() > 1 {
            assert(all[1] == ws@[1]@);
        }
        let key: &Text = &ws[0];
        if same_text(key.as_slice(), chars_of("corners").as_slice()) {
            self.corners.push(read_pairs(&ws, 1));
            assert(self@.corners =~= st.corners.push(pairs_of(all.skip(1), all.len() - 1)));
        } else if same_text(key.as_slice(), chars_of("orient").as_slice()) && ws.len() > 1
            && same_text(ws[1].as_slice(), chars_of("vertical").as_slice()) {
            self.vertical = true;
        } else if same_text(key.as_slice(), chars_of("fps").as_slice()) {
            self.fps = if ws.len() > 1 {
                Some(copy_text(&ws[1]))
            } else {
                None
            };
        } else if same_text(key.as_slice(), chars_of("start").as_slice()) {
            self.start = if ws.len() > 1 {
                Some(copy_text(&ws[1]))
            } else {
                None
            };
        }
    }
}

/// Read the footage headers up to their numbers.
pub fn lex_footage(text: &str) -> (f: FootageText)
    ensures
        ({
            let lines = split_at_each(text@, '\n');
            f@ == footage_after(lines, lines.len() as int)
        }),
{
    let chars: Text = chars_of(text);
    let lines: Vec<Text> = split(chars.as_slice(), '\n');
    let ghost all = texts(lines@);
    let mut f: FootageText = FootageText {
        fps: None,
        start: None,
        corners: Vec::new(),
        vertical: false,
    };
    assert(f@.corners =~= seq![]);
    for k in 0..lines.len()
        invariant
            all == texts(lines@),
            f@ == footage_after(all, k as int),
    {
        assert(all[k as int] == lines@[k as int]@);
        f.read_line(lines[k].as_slice());
    }
    f
}

/// A header line says one thing: the frame rate, the frame of shot time 0, or how the table
/// lies in the frame, and leaves all else as it was. The last line of a kind counts.
pub proof fn law_footage_headers_are_read(st: FootageSpec, w: Seq<char>)
    requires
        is_word(w),
    ensures
        footage_step(st, "fps"@.push(' ') + w) == (FootageSpec { fps: Some(w), ..st }),
        footage_step(st, "start"@.push(' ') + w) == (FootageSpec { start: Some(w), ..st }),
        footage_step(st, "orient"@.push(' ') + "vertical"@) == (FootageSpec {
            vertical: true,
            ..st
        }),
        w != "vertical"@ ==> footage_step(st, "orient"@.push(' ') + w) == st,
{
    lemma_footage_keys();
    law_two_words("fps"@, w);
    law_two_words("start"@, w);
    law_two_words("orient"@, w);
    law_two_words("orient"@, "vertical"@);
}

proof fn lemma_footage_keys()
    ensures
        is_word("fps"@) && "fps"@.len() == 3 && "fps"@[0] == 'f',
        is_word("start"@) && "start"@.len() == 5 && "start"@[0] == 's',
        is_word("orient"@) && "orient"@.len() == 6 && "orient"@[0] == 'o',
        "corners"@.len() == 7 && "corners"@[0] == 'c',
        is_word("vertical"@),
{
    reveal_strlit("fps");
    reveal_strlit("start");
    reveal_strlit("orient");
    reveal_strlit("corners");
    reveal_strlit("vertical");
}

/// A corner line adds the corners in its words, as one line of corners; a line that begins
/// with no key says nothing.
pub proof fn law_footage_lines_beside(st: FootageSpec, line: Seq<char>, rest: Seq<Seq<char>>)
    ensures
        words_of(line) == seq!["corners"@] + rest ==> footage_step(st, line) == (FootageSpec {
            corners: st.corners.push(pairs_of(rest, rest.len() as int)),
            ..st
        }),
        (forall|k: int|
            0 <= k < words_of(line).len() ==> (#[trigger] words_of(line)[k]) != "corners"@
                && words_of(line)[k] != "orient"@ && words_of(line)[k] != "fps"@
                && words_of(line)[k] != "start"@) ==> footage_step(st, line) == st,
{
    if words_of(line) == seq!["corners"@] + rest {
        let ws = words_of(line);
        assert(ws[0] == "corners"@);
        assert(ws.skip(1) =~= rest);
    }
}

/// The headers are read line by line: with one more line they say what they said, and then
/// what that line says. Without a line they say nothing.
pub proof fn law_footage_is_read_by_line(text: Seq<char>, line: Seq<char>)
    requires
        !line.contains('\n'),
    ensures
        ({
            let lines = split_at_each(text, '\n');
            let more = split_at_each(text.push('\n') + line, '\n');
            footage_after(more, more.len() as int) == footage_step(
                footage_after(lines, lines.len() as int),
                line,
            )
        }),
        footage_after(seq![], 0) == (FootageSpec {
            fps: None,
            start: None,
            corners: seq![],
            vertical: false,
        }),
{
    law_field_follows(text, '\n', line);
    let lines = split_at_each(text, '\n');
    lemma_footage_prefix(lines, lines.push(line), lines.len() as int);
}

proof fn lemma_footage_prefix(lines: Seq<Seq<char>>, more: Seq<Seq<char>>, n: int)
    requires
        0 <= n <= lines.len() <= more.len(),
        forall|k: int| 0 <= k < lines.len() ==> #[trigger] lines[k] == more[k],
    ensures
        footage_after(lines, n) == footage_after(more, n),
    decreases n,
{
    if n > 0 {
        lemma_footage_prefix(lines, more, n - 1);
        assert(lines[n - 1] == more[n - 1]);
    }
}

/// What the headers are said to say is what is held of them.
pub proof fn law_footage_says_what_it_holds(f: FootageText, k: int, i: int)
    ensures
        f@.fps is Some <==> f.fps is Some,
        f.fps is Some ==> f@.fps == Some(f.fps->0@),
        f@.start is Some <==> f.start is Some,
        f.start is Some ==> f@.start == Some(f.start->0@),
        f@.vertical == f.vertical,
        f@.corners.len() == f.corners@.len(),
        0 <= k < f.corners@.len() && 0 <= i < f.corners@[k]@.len() ==> f@.corners[k].len()
            == f.corners@[k]@.len() && f@.corners[k][i].0 == f.corners@[k]@[i].u@
            && f@.corners[k][i].1 == f.corners@[k]@[i].v@,
{
}

} // verus!
