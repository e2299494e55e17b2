//! The match manifest, the per-game calibration, and shot headers.
//!
//! Manifest and calibration are flat objects of `"key": value` pairs, so a value
//! is found by its quoted key.

use vstd::prelude::*;

use crate::model::table::PhysicsParams;
use crate::order::lemma_places_step;
use crate::scalar::Scalar;
use crate::text::{
    begins, char_place, chars_of, copy, decimal, find, find_char, first_stands_at, law_char_place,
    law_number_leads, law_place_is_first, law_signs_are_read, law_trim_is_tight, law_unled,
    number_run, place_of, read_i64, signed_value, skip_spaces, space, split, split_at_each,
    stands_at, starts_with, string_of, take_number, texts, trim, trimmed, unled,
};

verus! {

/// One game in a multi-game match manifest.
#[derive(Debug)]
pub struct GameEntry {
    pub dir: String,
    pub left: String,
    pub right: String,
    pub n_shots: i64,
    pub n_made: Option<i64>,
}

/// What a game entry holds.
pub struct GameText {
    pub dir: Seq<char>,
    pub left: Seq<char>,
    pub right: Seq<char>,
    pub n_shots: i64,
    pub n_made: Option<i64>,
}

impl View for GameEntry {
    type V = GameText;

    open spec fn view(&self) -> GameText {
        GameText {
            dir: self.dir@,
            left: self.left@,
            right: self.right@,
            n_shots: self.n_shots,
            n_made: self.n_made,
        }
    }
}

/// A key as it stands in an object.
pub open spec fn quoted(key: Seq<char>) -> Seq<char> {
    seq!['"'] + key + seq!['"']
}

/// What follows the first colon after the first place of a key.
pub open spec fn value_of(obj: Seq<char>, key: Seq<char>) -> Option<Seq<char>> {
    match place_of(obj, quoted(key)) {
        None => None,
        Some(i) => {
            let after = obj.skip(i + key.len() + 2);
            match char_place(after, ':') {
                None => None,
                Some(c) => Some(after.skip(c + 1)),
            }
        },
    }
}

/// The string value of a key: what stands between the next two quotes.
pub open spec fn string_value(obj: Seq<char>, key: Seq<char>) -> Option<Seq<char>> {
    match value_of(obj, key) {
        None => None,
        Some(after) => match char_place(after, '"') {
            None => None,
            Some(q) => {
                let rest = after.skip(q + 1);
                match char_place(rest, '"') {
                    None => None,
                    Some(e) => Some(rest.take(e)),
                }
            },
        },
    }
}

/// The whole-number value of a key.
pub open spec fn int_value(obj: Seq<char>, key: Seq<char>) -> Option<i64> {
    match value_of(obj, key) {
        None => None,
        Some(after) => match signed_value(number_run(unled(after), true)) {
            None => None,
            Some(n) => if i64::MIN <= n <= i64::MAX {
                Some(n as i64)
            } else {
                None
            },
        },
    }
}

fn find_value(obj: &[char], key: &[char]) -> (r: Option<Vec<char>>)
    ensures
        r is Some <==> value_of(obj@, key@) is Some,
        r is Some ==> r->0@ == value_of(obj@, key@)->0,
{
    let mut needle: Vec<char> = Vec::new();
    needle.push('"');
    needle.extend_from_slice(key);
    needle.push('"');
    assert(needle@ =~= quoted(key@));
    let n: usize = obj.len();
    match find(obj, needle.as_slice()) {
        None => None,
        Some(i) => {
            let after: Vec<char> = copy(obj, i + needle.len(), n);
            assert(after@ =~= obj@.skip(i + key@.len() + 2));
            match find_char(after.as_slice(), ':') {
                None => None,
                Some(c) => {
                    let m: usize = after.len();
                    let r: Vec<char> = copy(after.as_slice(), c + 1, m);
                    assert(r@ =~= after@.skip(c + 1));
                    Some(r)
                },
            }
        },
    }
}

fn find_string(obj: &[char], key: &[char]) -> (r: Option<Vec<char>>)
    ensures
        r is Some <==> string_value(obj@, key@) is Some,
        r is Some ==> r->0@ == string_value(obj@, key@)->0,
{
    match find_value(obj, key) {
        None => None,
        Some(after) => match find_char(after.as_slice(), '"') {
            None => None,
            Some(q) => {
                let m: usize = after.len();
                let rest: Vec<char> = copy(after.as_slice(), q + 1, m);
                assert(rest@ =~= after@.skip(q + 1));
                match find_char(rest.as_slice(), '"') {
                    None => None,
                    Some(e) => {
                        let r: Vec<char> = copy(rest.as_slice(), 0, e);
                        assert(r@ =~= rest@.take(e as int));
                        Some(r)
                    },
                }
            },
        },
    }
}

fn find_int(obj: &[char], key: &[char]) -> (r: Option<i64>)
    ensures
        r == int_value(obj@, key@),
{
    match find_value(obj, key) {
        None => None,
        Some(after) => {
            let after: Vec<char> = skip_spaces(after.as_slice());
            let number: Vec<char> = take_number(after.as_slice(), true);
            read_i64(number.as_slice())
        },
    }
}

/// Extract a `"key":"string"` value from a flat JSON fragment.
pub fn json_str(obj: &str, key: &str) -> (r: Option<String>)
    ensures
        r is Some <==> string_value(obj@, key@) is Some,
        r is Some ==> r->0@ == string_value(obj@, key@)->0,
{
    let obj: Vec<char> = chars_of(obj);
    let key: Vec<char> = chars_of(key);
    match find_string(obj.as_slice(), key.as_slice()) {
        Some(v) => Some(string_of(v.as_slice())),
        None => None,
    }
}

/// Extract a `"key": number` value from a flat JSON fragment.
pub fn json_int(obj: &str, key: &str) -> (r: Option<i64>)
    ensures
        r == int_value(obj@, key@),
{
    let obj: Vec<char> = chars_of(obj);
    let key: Vec<char> = chars_of(key);
    find_int(obj.as_slice(), key.as_slice())
}

/// The game an object describes; one without a directory is none.
pub open spec fn game_of(obj: Seq<char>) -> Option<GameText> {
    match string_value(obj, "dir"@) {
        None => None,
        Some(dir) => Some(
            GameText {
                dir,
                left: match string_value(obj, "left"@) {
                    Some(s) => s,
                    None => seq![],
                },
                right: match string_value(obj, "right"@) {
                    Some(s) => s,
                    None => seq![],
                },
                n_shots: match int_value(obj, "n_shots"@) {
                    Some(n) => n,
                    None => 0,
                },
                n_made: int_value(obj, "n_made"@),
            },
        ),
    }
}

/// The games among the first `n` objects of a list; what comes before the first
/// brace is none.
pub open spec fn games_among(objs: Seq<Seq<char>>, n: int) -> Seq<GameText>
    decreases n,
{
    if n <= 1 {
        seq![]
    } else {
        match game_of(objs[n - 1]) {
            Some(g) => games_among(objs, n - 1).push(g),
            None => games_among(objs, n - 1),
        }
    }
}

/// The games of a manifest: the objects after the key `games`.
pub open spec fn games_of(text: Seq<char>) -> Seq<GameText> {
    match place_of(text, "\"games\""@) {
        None => seq![],
        Some(gi) => {
            let objs = split_at_each(text.skip(gi), '{');
            games_among(objs, objs.len() as int)
        },
    }
}

fn string_or_empty(s: Option<Vec<char>>) -> (r: String)
    ensures
        r@ == (match s {
            Some(v) => v@,
            None => seq![],
        }),
{
    match s {
        Some(v) => string_of(v.as_slice()),
        None => String::new(),
    }
}

fn read_game(obj: &[char]) -> (r: Option<GameEntry>)
    ensures
        r is Some <==> game_of(obj@) is Some,
        r is Some ==> r->0@ == game_of(obj@)->0,
{
    match find_string(obj, chars_of("dir").as_slice()) {
        None => None,
        Some(dir) => {
            let left: Option<Vec<char>> = find_string(obj, chars_of("left").as_slice());
            let right: Option<Vec<char>> = find_string(obj, chars_of("right").as_slice());
            let shots: Option<i64> = find_int(obj, chars_of("n_shots").as_slice());
            Some(
                GameEntry {
                    dir: string_of(dir.as_slice()),
                    left: string_or_empty(left),
                    right: string_or_empty(right),
                    n_shots: match shots {
                        Some(n) => n,
                        None => 0,
                    },
                    n_made: find_int(obj, chars_of("n_made").as_slice()),
                },
            )
        },
    }
}

/// What a list of games holds.
pub open spec fn game_texts(games: Seq<GameEntry>) -> Seq<GameText> {
    Seq::new(games.len(), |k: int| games[k]@)
}

/// Parse the game list out of a manifest. Each game object is split on braces,
/// safe as they don't nest.
pub fn parse_match_games(text: &str) -> (r: Vec<GameEntry>)
    ensures
        game_texts(r@) == games_of(text@),
{
    let text: Vec<char> = chars_of(text);
    let mut r: Vec<GameEntry> = Vec::new();
    match find(text.as_slice(), chars_of("\"games\"").as_slice()) {
        None => {
            assert(game_texts(r@) =~= seq![]);
            r
        },
        Some(gi) => {
            let tail: Vec<char> = copy(text.as_slice(), gi, text.len());
            assert(tail@ =~= text@.skip(gi as int));
            let objs: Vec<Vec<char>> = split(tail.as_slice(), '{');
            assert(game_texts(r@) =~= games_among(texts(objs@), 1));
            for k in 1..objs.len()
                invariant
                    objs@.len() > 0,
                    game_texts(r@) == games_among(texts(objs@), k as int),
            {
                let ghost before = game_texts(r@);
                assert(texts(objs@)[k as int] == objs@[k as int]@);
                if let Some(g) = read_game(objs[k].as_slice()) {
                    r.push(g);
                    assert(game_texts(r@) =~= before.push(g@));
                }
            }
            r
        },
    }
}

/// The text of a number value of a key, for reading as a number.
pub open spec fn number_value(text: Seq<char>, key: Seq<char>) -> Option<Seq<char>> {
    match value_of(text, key) {
        None => None,
        Some(after) => Some(number_run(unled(after), false)),
    }
}

/// Extract the text of a `"key": number` value that may have a fraction.
pub fn calibration_number(text: &str, key: &str) -> (r: Option<String>)
    ensures
        r is Some <==> number_value(text@, key@) is Some,
        r is Some ==> r->0@ == number_value(text@, key@)->0,
{
    let text: Vec<char> = chars_of(text);
    let key: Vec<char> = chars_of(key);
    match find_value(text.as_slice(), key.as_slice()) {
        None => None,
        Some(after) => {
            let after: Vec<char> = skip_spaces(after.as_slice());
            Some(string_of(take_number(after.as_slice(), false).as_slice()))
        },
    }
}

/// Per-game physics: the four calibrated parameters over the built-in
/// calibration, or none where one of them is missing.
pub fn load_calibration(
    fallback: PhysicsParams,
    restitution: Option<Scalar>,
    friction: Option<Scalar>,
    slide: Option<Scalar>,
    roll: Option<Scalar>,
) -> (r: Option<PhysicsParams>)
    ensures
        r == (match (restitution, friction, slide, roll) {
            (Some(e), Some(f), Some(s), Some(m)) => Some(
                PhysicsParams {
                    cushion_restitution: e,
                    cushion_friction: f,
                    mu_slide: s,
                    mu_roll: m,
                    ..fallback
                },
            ),
            _ => None,
        }),
{
    match (restitution, friction, slide, roll) {
        (Some(e), Some(f), Some(s), Some(m)) => {
            let mut p: PhysicsParams = fallback;
            p.cushion_restitution = e;
            p.cushion_friction = f;
            p.mu_slide = s;
            p.mu_roll = m;
            Some(p)
        },
        _ => None,
    }
}

/// Whether a line gives a header field: the key, then a space.
pub open spec fn gives(line: Seq<char>, key: Seq<char>) -> bool {
    begins(trimmed(line), key.push(' '))
}

/// The value a header line gives.
pub open spec fn given(line: Seq<char>, key: Seq<char>) -> Seq<char> {
    trimmed(trimmed(line).skip(key.len() as int))
}

/// Pull a `key value` header field out of a shot file's text: from the first line
/// that gives it.
pub fn header_field(text: &str, key: &str) -> (r: Option<String>)
    ensures
        match r {
            Some(v) => exists|k: int|
                0 <= k < split_at_each(text@, '\n').len() && gives(
                    #[trigger] split_at_each(text@, '\n')[k],
                    key@,
                ) && v@ == given(split_at_each(text@, '\n')[k], key@) && forall|j: int|
                    0 <= j < k ==> !gives(#[trigger] split_at_each(text@, '\n')[j], key@),
            None => forall|j: int|
                0 <= j < split_at_each(text@, '\n').len() ==> !gives(
                    #[trigger] split_at_each(text@, '\n')[j],
                    key@,
                ),
        },
{
    let text_chars: Vec<char> = chars_of(text);
    let key_chars: Vec<char> = chars_of(key);
    let mut prefix: Vec<char> = chars_of(key);
    prefix.push(' ');
    let lines: Vec<Vec<char>> = split(text_chars.as_slice(), '\n');
    let ghost all = split_at_each(text@, '\n');
    assert(texts(lines@) == all);
    for k in 0..lines.len()
        invariant
            text_chars@ == text@,
            all == split_at_each(text@, '\n'),
            texts(lines@) == all,
            lines@.len() == all.len(),
            key_chars@ == key@,
            prefix@ == key@.push(' '),
            forall|j: int| 0 <= j < k ==> !gives(#[trigger] all[j], key@),
    {
        assert(all[k as int] == lines@[k as int]@);
        let line: Vec<char> = trim(lines[k].as_slice());
        if starts_with(line.as_slice(), prefix.as_slice()) {
            let rest: Vec<char> = copy(line.as_slice(), key_chars.len(), line.len());
            assert(rest@ =~= line@.skip(key@.len() as int));
            return Some(string_of(trim(rest.as_slice()).as_slice()));
        }
    }
    None
}

/// What a key's value is read from: a text with the key in quotes, whose first place that
/// is, and later a colon. The value is what follows the first colon behind the key.
pub proof fn law_value_follows_its_key(
    before: Seq<char>,
    key: Seq<char>,
    between: Seq<char>,
    after: Seq<char>,
)
    requires
        !between.contains(':'),
        forall|j: int|
            0 <= j < before.len() ==> !#[trigger] stands_at(
                before + quoted(key) + between.push(':') + after,
                quoted(key),
                j,
            ),
    ensures
        value_of(before + quoted(key) + between.push(':') + after, key) == Some(after),
{
    let needle = quoted(key);
    let obj = before + needle + between.push(':') + after;
    let at = before.len() as int;
    assert forall|k: int| 0 <= k < needle.len() implies obj[at + k] == #[trigger] needle[k] by {}
    law_place_is_first(obj, needle, at);
    let p = place_of(obj, needle)->0;
    assert(obj.subrange(p, p + needle.len()) =~= needle);
    assert(stands_at(obj, needle, p));
    assert(p == at);
    assert(needle.len() == key.len() + 2);
    let rest = obj.skip(at + key.len() + 2);
    assert(rest =~= between.push(':') + after);
    law_char_place(rest, ':');
    let n = between.len() as int;
    assert(rest[n] == ':');
    assert(rest.contains(':'));
    let c = char_place(rest, ':')->0;
    assert(c == n) by {
        if c < n {
            assert(rest[c] == between[c]);
            assert(between.contains(between[c]));
        }
    }
    assert(rest.skip(c + 1) =~= after);
}

/// A string value is what stands between the quotes behind the key.
pub proof fn law_string_is_read(
    obj: Seq<char>,
    key: Seq<char>,
    gap: Seq<char>,
    value: Seq<char>,
    after: Seq<char>,
)
    requires
        value_of(obj, key) == Some(gap.push('"') + value.push('"') + after),
        !gap.contains('"'),
        !value.contains('"'),
    ensures
        string_value(obj, key) == Some(value),
{
    let tail = gap.push('"') + value.push('"') + after;
    law_char_place(tail, '"');
    let g = gap.len() as int;
    assert(tail[g] == '"');
    assert(tail.contains('"'));
    let q = char_place(tail, '"')->0;
    assert(q == g) by {
        if q < g {
            assert(tail[q] == gap[q]);
            assert(gap.contains(gap[q]));
        }
    }
    let rest = tail.skip(q + 1);
    assert(rest =~= value.push('"') + after);
    law_char_place(rest, '"');
    let n = value.len() as int;
    assert(rest[n] == '"');
    assert(rest.contains('"'));
    let e = char_place(rest, '"')->0;
    assert(e == n) by {
        if e < n {
            assert(rest[e] == value[e]);
            assert(value.contains(value[e]));
        }
    }
    assert(rest.take(e) =~= value);
}

/// A whole number is read with its sign, past the white space before it and up to the first
/// character that is none of its own.
pub proof fn law_int_is_read(
    obj: Seq<char>,
    key: Seq<char>,
    gap: Seq<char>,
    negative: bool,
    digits: Seq<char>,
    after: Seq<char>,
)
    requires
        value_of(obj, key) == Some(
            gap + (if negative {
                seq!['-']
            } else {
                seq![]
            }) + digits + after,
        ),
        forall|k: int| 0 <= k < gap.len() ==> space(#[trigger] gap[k]),
        digits.len() > 0,
        forall|k: int| 0 <= k < digits.len() ==> '0' <= (#[trigger] digits[k]) <= '9',
        after.len() > 0 ==> !('0' <= after[0] <= '9') && after[0] != '-',
        decimal(digits) <= i64::MAX,
    ensures
        int_value(obj, key) == Some(
            if negative {
                (-decimal(digits)) as i64
            } else {
                decimal(digits) as i64
            },
        ),
{
    let number = (if negative {
        seq!['-']
    } else {
        seq![]
    }) + digits;
    let tail = gap + (if negative {
        seq!['-']
    } else {
        seq![]
    }) + digits + after;
    assert(number[number.len() - 1] == digits[digits.len() - 1]);
    assert forall|k: int| 0 <= k < number.len() implies '0' <= (#[trigger] number[k]) <= '9'
        || number[k] == '-' by {
        if negative && k > 0 {
            assert(number[k] == digits[k - 1]);
        } else if !negative {
            assert(number[k] == digits[k]);
        }
    }
    let a = law_unled(tail);
    let g = gap.len() as int;
    assert(tail[g] == number[0]);
    assert(!space(number[0]));
    assert(a == g) by {
        if a < g {
            assert(tail[a] == gap[a]);
        }
    }
    let lead = unled(tail);
    assert(lead =~= number + after);
    let k = law_number_leads(lead, true);
    let n = number.len() as int;
    assert(k == n) by {
        if k < n {
            assert(lead[k] == number[k]);
        }
        if k > n {
            assert(lead[n] == after[0]);
        }
    }
    assert(lead.take(k) =~= number);
    law_signs_are_read(digits);
    if negative {
        assert(number =~= seq!['-'] + digits);
    } else {
        assert(number =~= digits);
    }
}

/// A game is told by its own keys: the directory, which it must have, the two players by
/// side, the shots, and those made where they are given.
pub proof fn law_game_is_told_by_its_keys(obj: Seq<char>)
    ensures
        game_of(obj) is Some <==> string_value(obj, "dir"@) is Some,
        game_of(obj) is Some ==> {
            let g = game_of(obj)->0;
            &&& Some(g.dir) == string_value(obj, "dir"@)
            &&& string_value(obj, "left"@) is Some ==> Some(g.left) == string_value(obj, "left"@)
            &&& string_value(obj, "left"@) is None ==> g.left.len() == 0
            &&& string_value(obj, "right"@) is Some ==> Some(g.right) == string_value(
                obj,
                "right"@,
            )
            &&& string_value(obj, "right"@) is None ==> g.right.len() == 0
            &&& int_value(obj, "n_shots"@) is Some ==> Some(g.n_shots) == int_value(
                obj,
                "n_shots"@,
            )
            &&& int_value(obj, "n_shots"@) is None ==> g.n_shots == 0
            &&& g.n_made == int_value(obj, "n_made"@)
        },
{
}

/// The games are the objects with a directory, all of them, in their order: game `i` is that
/// of object `from[i]`. What stands before the first brace is no object.
pub proof fn law_games_are_the_objects(objs: Seq<Seq<char>>, n: int) -> (from: Seq<int>)
    requires
        0 <= n <= objs.len(),
    ensures
        from.len() == games_among(objs, n).len(),
        forall|k: int| #[trigger]
            from.contains(k) <==> 1 <= k < n && string_value(objs[k], "dir"@) is Some,
        forall|i: int, j: int|
            0 <= i < j < from.len() ==> (#[trigger] from[i]) < (#[trigger] from[j]),
        forall|i: int|
            0 <= i < from.len() ==> Some(#[trigger] games_among(objs, n)[i]) == game_of(
                objs[from[i]],
            ),
    decreases n,
{
    if n <= 1 {
        seq![]
    } else {
        let before = law_games_are_the_objects(objs, n - 1);
        let more = string_value(objs[n - 1], "dir"@) is Some;
        let from = if more {
            before.push(n - 1)
        } else {
            before
        };
        lemma_places_step(before, from, n - 1, more);
        let all = games_among(objs, n);
        assert forall|i: int| 0 <= i < from.len() implies Some(#[trigger] all[i]) == game_of(
            objs[from[i]],
        ) by {
            if i < before.len() {
                assert(all[i] == games_among(objs, n - 1)[i]);
            }
        }
        from
    }
}

/// A manifest that does not speak of games has none; in one that does, what comes before the
/// first mention makes no game.
pub proof fn law_games_follow_their_key(text: Seq<char>, gi: int)
    ensures
        (forall|j: int| !#[trigger] stands_at(text, "\"games\""@, j)) ==> games_of(text).len() == 0,
        first_stands_at(text, "\"games\""@, gi) ==> games_of(text) == games_of(text.skip(gi)),
{
    let key = "\"games\""@;
    if forall|j: int| !#[trigger] stands_at(text, key, j) {
        assert forall|j: int| !first_stands_at(text, key, j) by {
            assert(!stands_at(text, key, j));
        }
    }
    if first_stands_at(text, key, gi) {
        let p = place_of(text, key)->0;
        assert(first_stands_at(text, key, p));
        assert(p == gi) by {
            assert(stands_at(text, key, p) && stands_at(text, key, gi));
        }
        let tail = text.skip(gi);
        assert(tail.subrange(0, key.len() as int) =~= text.subrange(gi, gi + key.len()));
        assert(stands_at(tail, key, 0));
        assert(first_stands_at(tail, key, 0));
        let q = place_of(tail, key)->0;
        assert(first_stands_at(tail, key, q));
        assert(q == 0) by {
            assert(stands_at(tail, key, q) && stands_at(tail, key, 0));
        }
        assert(tail.skip(0) =~= tail);
    }
}

/// A header line is the key, a blank and the value; the value is given without the white
/// space around it, whatever stands around the line.
pub proof fn law_header_is_given(
    lead: Seq<char>,
    key: Seq<char>,
    gap: Seq<char>,
    value: Seq<char>,
    trail: Seq<char>,
)
    requires
        key.len() > 0 && !space(key[0]),
        value.len() > 0 && !space(value[0]) && !space(value.last()),
        forall|k: int| 0 <= k < lead.len() ==> space(#[trigger] lead[k]),
        forall|k: int| 0 <= k < gap.len() ==> space(#[trigger] gap[k]),
        forall|k: int| 0 <= k < trail.len() ==> space(#[trigger] trail[k]),
    ensures
        gives(lead + (key.push(' ') + gap + value) + trail, key),
        given(lead + (key.push(' ') + gap + value) + trail, key) == value,
{
    let line = key.push(' ') + gap + value;
    assert(line[0] == key[0] && line.last() == value[value.len() - 1]);
    law_trim_is_tight(lead, line, trail);
    assert(line.take(key.push(' ').len() as int) =~= key.push(' '));
    let blank = seq![' '] + gap;
    assert(line.skip(key.len() as int) =~= blank + value + seq![]);
    assert forall|k: int| 0 <= k < blank.len() implies space(#[trigger] blank[k]) by {
        if k > 0 {
            assert(blank[k] == gap[k - 1]);
        }
    }
    law_trim_is_tight(blank, value, seq![]);
}

/// A key stands in double quotes.
pub proof fn law_keys_are_quoted(key: Seq<char>, k: int)
    ensures
        quoted(key).len() == key.len() + 2,
        quoted(key)[0] == '"',
        quoted(key).last() == '"',
        0 <= k < key.len() ==> quoted(key)[k + 1] == key[k],
{
}

/// A number that may have a fraction is taken past the white space before it, and up to the
/// first character that is none of its own.
pub proof fn law_number_is_taken(
    text: Seq<char>,
    key: Seq<char>,
    gap: Seq<char>,
    number: Seq<char>,
    after: Seq<char>,
)
    requires
        value_of(text, key) == Some(gap + number + after),
        forall|k: int| 0 <= k < gap.len() ==> space(#[trigger] gap[k]),
        number.len() > 0,
        forall|k: int|
            0 <= k < number.len() ==> '0' <= (#[trigger] number[k]) <= '9' || number[k] == '.'
                || number[k] == '-' || number[k] == '+' || number[k] == 'e' || number[k] == 'E',
        after.len() > 0 ==> !('0' <= after[0] <= '9') && after[0] != '.' && after[0] != '-'
            && after[0] != '+' && after[0] != 'e' && after[0] != 'E',
    ensures
        number_value(text, key) == Some(number),
{
    let tail = gap + number + after;
    let a = law_unled(tail);
    let g = gap.len() as int;
    assert(tail[g] == number[0]);
    assert(!space(number[0]));
    assert(a == g) by {
        if a < g {
            assert(tail[a] == gap[a]);
        }
    }
    let lead = unled(tail);
    assert(lead =~= number + after);
    let k = law_number_leads(lead, false);
    let n = number.len() as int;
    assert(k == n) by {
        if k < n {
            assert(lead[k] == number[k]);
        }
        if k > n {
            assert(lead[n] == after[0]);
        }
    }
    assert(lead.take(k) =~= number);
}

/// What a list of games is said to hold is what its entries hold, in their order.
pub proof fn law_games_say_what_they_hold(games: Seq<GameEntry>, k: int)
    requires
        0 <= k < games.len(),
    ensures
        game_texts(games).len() == games.len(),
        ({
            let (g, held) = (game_texts(games)[k], games[k]);
            &&& g.dir == held.dir@ && g.left == held.left@ && g.right == held.right@
            &&& g.n_shots == held.n_shots && g.n_made == held.n_made
        }),
{
}

} // verus!
