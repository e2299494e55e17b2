//! Reading plain text: lines, words, fields and whole numbers.
//!
//! Text is worked on as a sequence of characters.

use vstd::prelude::*;

verus! {

/// `String::push` appends the character to the string.
pub assume_specification[ String::push ](s: &mut String, c: char)
    ensures
        final(s)@ == old(s)@.push(c),
;

/// The characters of a text.
pub fn chars_of(s: &str) -> (v: Vec<char>)
    ensures
        v@ == s@,
{
    let mut v: Vec<char> = Vec::new();
    for c in it: s.chars()
        invariant
            v@ == it.seq().take(it.index() as int),
            it.seq() == s@,
    {
        v.push(c);
    }
    v
}

/// The text made of characters.
pub fn string_of(v: &[char]) -> (s: String)
    ensures
        s@ == v@,
{
    let mut s: String = String::new();
    for k in 0..v.len()
        invariant
            s@ == v@.take(k as int),
    {
        s.push(v[k]);
        assert(v@.take(k + 1) =~= v@.take(k as int).push(v@[k as int]));
    }
    assert(v@.take(v@.len() as int) =~= v@);
    s
}

/// The texts in a list.
pub open spec fn texts(v: Seq<Vec<char>>) -> Seq<Seq<char>> {
    Seq::new(v.len(), |k: int| v[k]@)
}

/// White space, as Unicode defines it.
pub open spec fn space(c: char) -> bool {
    ||| '\u{9}' <= c <= '\u{d}'
    ||| c == '\u{20}'
    ||| c == '\u{85}'
    ||| c == '\u{a0}'
    ||| c == '\u{1680}'
    ||| '\u{2000}' <= c <= '\u{200a}'
    ||| c == '\u{2028}'
    ||| c == '\u{2029}'
    ||| c == '\u{202f}'
    ||| c == '\u{205f}'
    ||| c == '\u{3000}'
}

pub fn is_space(c: char) -> (r: bool)
    ensures
        r == space(c),
{
    ('\u{9}' <= c && c <= '\u{d}') || c == '\u{20}' || c == '\u{85}' || c == '\u{a0}' || c
        == '\u{1680}' || ('\u{2000}' <= c && c <= '\u{200a}') || c == '\u{2028}' || c == '\u{2029}'
        || c == '\u{202f}' || c == '\u{205f}' || c == '\u{3000}'
}

pub open spec fn digit(c: char) -> bool {
    '0' <= c <= '9'
}

pub fn is_digit(c: char) -> (r: bool)
    ensures
        r == digit(c),
{
    '0' <= c && c <= '9'
}

/// A text without the white space around it.
pub open spec fn trimmed(s: Seq<char>) -> Seq<char>
    decreases s.len(),
{
    if s.len() > 0 && space(s[0]) {
        trimmed(s.drop_first())
    } else if s.len() > 0 && space(s.last()) {
        trimmed(s.drop_last())
    } else {
        s
    }
}

pub fn trim(s: &[char]) -> (r: Vec<char>)
    ensures
        r@ == trimmed(s@),
{
    let mut a: usize = 0;
    let mut b: usize = s.len();
    assert(s@.subrange(0, b as int) =~= s@);
    while a < b && is_space(s[a])
        invariant
            a <= b == s@.len(),
            trimmed(s@) == trimmed(s@.subrange(a as int, b as int)),
        decreases b - a,
    {
        assert(s@.subrange(a as int, b as int).drop_first() =~= s@.subrange(a + 1, b as int));
        a += 1;
    }
    while a < b && is_space(s[b - 1])
        invariant
            a <= b <= s@.len(),
            a < b ==> !space(s@[a as int]),
            trimmed(s@) == trimmed(s@.subrange(a as int, b as int)),
        decreases b - a,
    {
        assert(s@.subrange(a as int, b as int).drop_last() =~= s@.subrange(a as int, b - 1));
        b -= 1;
    }
    copy(s, a, b)
}

/// The part of a text from `a` to before `b`.
pub fn copy(s: &[char], a: usize, b: usize) -> (r: Vec<char>)
    requires
        a <= b <= s@.len(),
    ensures
        r@ == s@.subrange(a as int, b as int),
{
    let mut r: Vec<char> = Vec::new();
    for k in a..b
        invariant
            a <= b <= s@.len(),
            r@ == s@.subrange(a as int, k as int),
    {
        r.push(s[k]);
        assert(s@.subrange(a as int, k + 1) =~= s@.subrange(a as int, k as int).push(
            s@[k as int],
        ));
    }
    r
}

/// The fields of a text between separators.
pub open spec fn split_at_each(s: Seq<char>, sep: char) -> Seq<Seq<char>>
    decreases s.len(),
{
    if s.len() == 0 {
        seq![seq![]]
    } else {
        let front = split_at_each(s.drop_last(), sep);
        if s.last() == sep {
            front.push(seq![])
        } else {
            front.update(front.len() - 1, front.last().push(s.last()))
        }
    }
}

pub fn split(s: &[char], sep: char) -> (r: Vec<Vec<char>>)
    ensures
        texts(r@) == split_at_each(s@, sep),
        r@.len() > 0,
{
    let mut r: Vec<Vec<char>> = Vec::new();
    r.push(Vec::new());
    assert(texts(r@) =~= split_at_each(s@.take(0), sep)) by {
        assert(texts(r@)[0] =~= seq![]);
    }
    for k in 0..s.len()
        invariant
            r@.len() > 0,
            texts(r@) == split_at_each(s@.take(k as int), sep),
    {
        let ghost before = texts(r@);
        assert(s@.take(k + 1).drop_last() =~= s@.take(k as int));
        let c: char = s[k];
        if c == sep {
            r.push(Vec::new());
            assert(texts(r@) =~= before.push(seq![]));
        } else {
            let last: usize = r.len() - 1;
            r[last].push(c);
            assert(texts(r@) =~= before.update(before.len() - 1, before.last().push(c)));
        }
    }
    assert(s@.take(s@.len() as int) =~= s@);
    r
}

/// The words of a text: what stands between white space.
pub open spec fn words_of(s: Seq<char>) -> Seq<Seq<char>>
    decreases s.len(),
{
    if s.len() == 0 {
        seq![]
    } else {
        let front = words_of(s.drop_last());
        if space(s.last()) {
            front
        } else if s.len() == 1 || space(s[s.len() - 2]) {
            front.push(seq![s.last()])
        } else {
            front.update(front.len() - 1, front.last().push(s.last()))
        }
    }
}

proof fn lemma_words_open(s: Seq<char>)
    ensures
        s.len() > 0 && !space(s.last()) ==> words_of(s).len() > 0,
    decreases s.len(),
{
    if s.len() > 0 && !space(s.last()) {
        lemma_words_open(s.drop_last());
    }
}

pub fn words(s: &[char]) -> (r: Vec<Vec<char>>)
    ensures
        texts(r@) == words_of(s@),
{
    let mut r: Vec<Vec<char>> = Vec::new();
    assert(texts(r@) =~= words_of(s@.take(0)));
    for k in 0..s.len()
        invariant
            texts(r@) == words_of(s@.take(k as int)),
    {
        let ghost before = texts(r@);
        let ghost here = s@.take(k + 1);
        assert(here.drop_last() =~= s@.take(k as int));
        let c: char = s[k];
        if !is_space(c) {
            if k == 0 || is_space(s[k - 1]) {
                let mut w: Vec<char> = Vec::new();
                w.push(c);
                r.push(w);
                assert(texts(r@) =~= before.push(seq![c])) by {
                    assert(w@ =~= seq![c]);
                }
            } else {
                proof {
                    assert(s@.take(k as int).last() == s@[k - 1]);
                    lemma_words_open(s@.take(k as int));
                }
                let last: usize = r.len() - 1;
                r[last].push(c);
                assert(texts(r@) =~= before.update(before.len() - 1, before.last().push(c)));
            }
        }
    }
    assert(s@.take(s@.len() as int) =~= s@);
    r
}

/// A character with an ASCII capital made small.
pub open spec fn lowered(c: char) -> char {
    if 'A' <= c <= 'Z' {
        (c as u32 + 32) as char
    } else {
        c
    }
}

/// A text with its ASCII capitals made small.
pub open spec fn lowered_text(s: Seq<char>) -> Seq<char> {
    Seq::new(s.len(), |i: int| lowered(s[i]))
}

pub fn lower(s: &[char]) -> (r: Vec<char>)
    ensures
        r@ == lowered_text(s@),
{
    let mut r: Vec<char> = Vec::new();
    for k in 0..s.len()
        invariant
            r@.len() == k,
            forall|i: int| 0 <= i < k ==> #[trigger] r@[i] == lowered(s@[i]),
    {
        let c: char = s[k];
        if 'A' <= c && c <= 'Z' {
            let small: u8 = c as u8 + 32;
            r.push(small as char);
        } else {
            r.push(c);
        }
    }
    r
}

/// Whether two texts are the same.
pub fn same_text(a: &[char], b: &[char]) -> (r: bool)
    ensures
        r == (a@ == b@),
{
    if a.len() != b.len() {
        return false;
    }
    for k in 0..a.len()
        invariant
            a@.len() == b@.len(),
            forall|i: int| 0 <= i < k ==> #[trigger] a@[i] == b@[i],
    {
        if a[k] != b[k] {
            return false;
        }
    }
    assert(a@ =~= b@);
    true
}

/// Whether a text begins with another.
pub open spec fn begins(s: Seq<char>, prefix: Seq<char>) -> bool {
    prefix.len() <= s.len() && s.take(prefix.len() as int) == prefix
}

/// Whether `needle` stands at place `i` of `hay`.
pub open spec fn stands_at(hay: Seq<char>, needle: Seq<char>, i: int) -> bool {
    0 <= i && i + needle.len() <= hay.len() && hay.subrange(i, i + needle.len()) == needle
}

fn check_at(hay: &[char], needle: &[char], i: usize) -> (r: bool)
    requires
        i + needle@.len() <= hay@.len(),
    ensures
        r == stands_at(hay@, needle@, i as int),
{
    let n: usize = hay.len();
    for k in 0..needle.len()
        invariant
            n == hay@.len(),
            i + needle@.len() <= hay@.len(),
            forall|j: int| 0 <= j < k ==> hay@[i + j] == #[trigger] needle@[j],
    {
        if hay[i + k] != needle[k] {
            assert(hay@.subrange(i as int, i + needle@.len())[k as int] == hay@[i + k]);
            return false;
        }
    }
    assert(hay@.subrange(i as int, i + needle@.len()) =~= needle@);
    true
}

/// Whether `i` is the first place at which `needle` stands in `hay`.
pub open spec fn first_stands_at(hay: Seq<char>, needle: Seq<char>, i: int) -> bool {
    stands_at(hay, needle, i) && forall|j: int| j < i ==> !#[trigger] stands_at(hay, needle, j)
}

/// The first place at which `needle` stands in `hay`.
pub open spec fn place_of(hay: Seq<char>, needle: Seq<char>) -> Option<int> {
    if exists|i: int| first_stands_at(hay, needle, i) {
        Some(choose|i: int| first_stands_at(hay, needle, i))
    } else {
        None
    }
}

pub fn find(hay: &[char], needle: &[char]) -> (r: Option<usize>)
    ensures
        r is Some <==> place_of(hay@, needle@) is Some,
        r is Some ==> r->0 == place_of(hay@, needle@)->0 && r->0 + needle@.len() <= hay@.len(),
{
    if needle.len() > hay.len() {
        return None;
    }
    let last: usize = hay.len() - needle.len();
    let mut i: usize = 0;
    loop
        invariant
            last == hay@.len() - needle@.len(),
            i <= last,
            forall|j: int| j < i ==> !#[trigger] stands_at(hay@, needle@, j),
        decreases last - i,
    {
        if check_at(hay, needle, i) {
            assert(first_stands_at(hay@, needle@, i as int));
            return Some(i);
        }
        if i == last {
            assert forall|j: int| !first_stands_at(hay@, needle@, j) by {
                assert(j <= i || !stands_at(hay@, needle@, j));
            }
            return None;
        }
        i += 1;
    }
}

/// The first place of a character in a text.
pub open spec fn char_place(s: Seq<char>, c: char) -> Option<int>
    decreases s.len(),
{
    if s.len() == 0 {
        None
    } else if s[0] == c {
        Some(0)
    } else {
        match char_place(s.drop_first(), c) {
            Some(k) => Some(k + 1),
            None => None,
        }
    }
}

pub fn find_char(s: &[char], c: char) -> (r: Option<usize>)
    ensures
        r is Some <==> char_place(s@, c) is Some,
        r is Some ==> r->0 == char_place(s@, c)->0 && r->0 < s@.len(),
{
    assert(s@.skip(0) =~= s@);
    for k in 0..s.len()
        invariant
            char_place(s@, c) == match char_place(s@.skip(k as int), c) {
                Some(j) => Some(j + k),
                None => None,
            },
    {
        assert(s@.skip(k as int).drop_first() =~= s@.skip(k + 1));
        if s[k] == c {
            return Some(k);
        }
    }
    None
}

/// A text from its first character that is not white space on.
pub open spec fn unled(s: Seq<char>) -> Seq<char>
    decreases s.len(),
{
    if s.len() > 0 && space(s[0]) {
        unled(s.drop_first())
    } else {
        s
    }
}

pub fn skip_spaces(s: &[char]) -> (r: Vec<char>)
    ensures
        r@ == unled(s@),
{
    let mut a: usize = 0;
    assert(s@.skip(0) =~= s@);
    while a < s.len() && is_space(s[a])
        invariant
            a <= s@.len(),
            unled(s@) == unled(s@.skip(a as int)),
        decreases s@.len() - a,
    {
        assert(s@.skip(a as int).drop_first() =~= s@.skip(a + 1));
        a += 1;
    }
    assert(s@.subrange(a as int, s@.len() as int) =~= s@.skip(a as int));
    copy(s, a, s.len())
}

/// A character of a whole number: a digit or a minus sign.
pub open spec fn whole_char(c: char) -> bool {
    digit(c) || c == '-'
}

/// A character of a number that may have a fraction and an exponent.
pub open spec fn number_char(c: char) -> bool {
    digit(c) || c == '.' || c == '-' || c == 'e' || c == 'E' || c == '+'
}

/// The longest beginning of a text that is made of number characters; `whole`
/// selects those of whole numbers.
pub open spec fn number_run(s: Seq<char>, whole: bool) -> Seq<char>
    decreases s.len(),
{
    if s.len() > 0 && (if whole {
        whole_char(s[0])
    } else {
        number_char(s[0])
    }) {
        seq![s[0]] + number_run(s.drop_first(), whole)
    } else {
        seq![]
    }
}

pub fn take_number(s: &[char], whole: bool) -> (r: Vec<char>)
    ensures
        r@ == number_run(s@, whole),
{
    let mut r: Vec<char> = Vec::new();
    let mut k: usize = 0;
    assert(s@.skip(0) =~= s@);
    assert(r@ + number_run(s@.skip(0), whole) =~= number_run(s@, whole));
    while k < s.len() && (is_digit(s[k]) || s[k] == '-' || (!whole && (s[k] == '.' || s[k] == 'e'
        || s[k] == 'E' || s[k] == '+')))
        invariant
            k <= s@.len(),
            number_run(s@, whole) == r@ + number_run(s@.skip(k as int), whole),
        decreases s@.len() - k,
    {
        let ghost before = r@;
        let ghost rest = number_run(s@.skip(k + 1), whole);
        assert(s@.skip(k as int).drop_first() =~= s@.skip(k + 1));
        assert(before + (seq![s@[k as int]] + rest) =~= before.push(s@[k as int]) + rest);
        r.push(s[k]);
        k += 1;
    }
    assert(number_run(s@.skip(k as int), whole) =~= seq![]);
    assert(r@ + number_run(s@.skip(k as int), whole) =~= r@);
    r
}

/// Whether `prefix` begins a text.
pub fn starts_with(s: &[char], prefix: &[char]) -> (r: bool)
    ensures
        r == begins(s@, prefix@),
{
    if prefix.len() > s.len() {
        return false;
    }
    let r: bool = check_at(s, prefix, 0);
    assert(s@.subrange(0, prefix@.len() as int) =~= s@.take(prefix@.len() as int));
    r
}

pub open spec fn all_digits(s: Seq<char>) -> bool {
    forall|i: int| 0 <= i < s.len() ==> digit(#[trigger] s[i])
}

/// What a row of decimal digits stands for.
pub open spec fn decimal(s: Seq<char>) -> nat
    decreases s.len(),
{
    if s.len() == 0 {
        0
    } else {
        10 * decimal(s.drop_last()) + (s.last() as u32 - '0' as u32) as nat
    }
}

proof fn lemma_decimal_grows(s: Seq<char>, k: int)
    requires
        0 <= k <= s.len(),
    ensures
        decimal(s.take(k)) <= decimal(s),
    decreases s.len() - k,
{
    if k < s.len() {
        lemma_decimal_grows(s, k + 1);
        assert(s.take(k + 1).drop_last() =~= s.take(k));
    } else {
        assert(s.take(k) =~= s);
    }
}

/// Read decimal digits, at least one and nothing else, up to a limit.
pub fn read_digits(s: &[char], limit: u64) -> (r: Option<u64>)
    ensures
        r is Some <==> s@.len() > 0 && all_digits(s@) && decimal(s@) <= limit,
        r is Some ==> r->0 == decimal(s@),
{
    if s.len() == 0 {
        return None;
    }
    let mut v: u64 = 0;
    for k in 0..s.len()
        invariant
            forall|i: int| 0 <= i < k ==> digit(#[trigger] s@[i]),
            v == decimal(s@.take(k as int)),
            v <= limit,
    {
        if !is_digit(s[k]) {
            return None;
        }
        let d: u64 = (s[k] as u32 - '0' as u32) as u64;
        assert(s@.take(k + 1).drop_last() =~= s@.take(k as int));
        let next: u128 = 10 * (v as u128) + (d as u128);
        if next > limit as u128 {
            proof {
                lemma_decimal_grows(s@, k + 1);
            }
            return None;
        }
        v = next as u64;
    }
    assert(s@.take(s@.len() as int) =~= s@);
    Some(v)
}

/// The signed whole number a text stands for: digits, after an optional minus
/// sign or plus sign.
pub open spec fn signed_value(s: Seq<char>) -> Option<int> {
    let body = if s.len() > 0 && (s[0] == '-' || s[0] == '+') {
        s.drop_first()
    } else {
        s
    };
    if body.len() == 0 || !all_digits(body) {
        None
    } else if s[0] == '-' {
        Some(-decimal(body))
    } else {
        Some(decimal(body) as int)
    }
}

/// Read a signed 64-bit whole number.
pub fn read_i64(s: &[char]) -> (r: Option<i64>)
    ensures
        match r {
            Some(n) => signed_value(s@) == Some(n as int),
            None => signed_value(s@) is None || !(i64::MIN <= signed_value(s@)->0 <= i64::MAX),
        },
{
    if s.len() == 0 {
        return None;
    }
    if s[0] == '-' {
        let body: Vec<char> = copy(s, 1, s.len());
        assert(body@ =~= s@.drop_first());
        match read_digits(body.as_slice(), 0x8000_0000_0000_0000) {
            Some(v) => {
                if v == 0x8000_0000_0000_0000 {
                    Some(i64::MIN)
                } else {
                    Some(-(v as i64))
                }
            },
            None => None,
        }
    } else {
        let from: usize = if s[0] == '+' {
            1
        } else {
            0
        };
        let body: Vec<char> = copy(s, from, s.len());
        assert(body@ =~= if s@[0] == '+' {
            s@.drop_first()
        } else {
            s@
        });
        match read_digits(body.as_slice(), 0x7FFF_FFFF_FFFF_FFFF) {
            Some(v) => Some(v as i64),
            None => None,
        }
    }
}

/// The unsigned whole number a text stands for: digits, after an optional plus
/// sign.
pub open spec fn unsigned_value(s: Seq<char>) -> Option<nat> {
    let body = if s.len() > 0 && s[0] == '+' {
        s.drop_first()
    } else {
        s
    };
    if body.len() == 0 || !all_digits(body) {
        None
    } else {
        Some(decimal(body))
    }
}

/// Read an unsigned whole number of machine size.
pub fn read_usize(s: &[char]) -> (r: Option<usize>)
    ensures
        match r {
            Some(n) => unsigned_value(s@) == Some(n as nat),
            None => unsigned_value(s@) is None || unsigned_value(s@)->0 > usize::MAX,
        },
{
    if s.len() == 0 {
        return None;
    }
    let from: usize = if s[0] == '+' {
        1
    } else {
        0
    };
    let body: Vec<char> = copy(s, from, s.len());
    assert(body@ =~= if s@[0] == '+' {
        s@.drop_first()
    } else {
        s@
    });
    match read_digits(body.as_slice(), usize::MAX as u64) {
        Some(v) => Some(v as usize),
        None => None,
    }
}

/// A text split at the first place of a character.
pub open spec fn split_first(s: Seq<char>, c: char) -> Option<(Seq<char>, Seq<char>)> {
    match char_place(s, c) {
        Some(k) => Some((s.take(k), s.skip(k + 1))),
        None => None,
    }
}

pub fn split_once(s: &[char], c: char) -> (r: Option<(Vec<char>, Vec<char>)>)
    ensures
        match r {
            Some((a, b)) => split_first(s@, c) == Some((a@, b@)),
            None => split_first(s@, c) is None,
        },
{
    let n: usize = s.len();
    match find_char(s, c) {
        Some(k) => {
            let a: Vec<char> = copy(s, 0, k);
            let b: Vec<char> = copy(s, k + 1, n);
            assert(a@ =~= s@.take(k as int));
            assert(b@ =~= s@.skip(k + 1));
            Some((a, b))
        },
        None => None,
    }
}

/// The first place of a character: it stands there and not before; where there is none, the
/// text does not hold it.
pub proof fn law_char_place(s: Seq<char>, c: char)
    ensures
        char_place(s, c) is Some <==> s.contains(c),
        char_place(s, c) is Some ==> {
            let k = char_place(s, c)->0;
            0 <= k < s.len() && s[k] == c && forall|j: int| 0 <= j < k ==> #[trigger] s[j] != c
        },
    decreases s.len(),
{
    if s.len() > 0 && s[0] != c {
        let rest = s.drop_first();
        law_char_place(rest, c);
        assert forall|j: int| 0 < j < s.len() implies #[trigger] s[j] == rest[j - 1] by {}
        if s.contains(c) {
            let k = choose|k: int| 0 <= k < s.len() && s[k] == c;
            assert(rest[k - 1] == c);
        }
        if rest.contains(c) {
            let k = choose|k: int| 0 <= k < rest.len() && rest[k] == c;
            assert(s[k + 1] == c);
        }
    } else if s.len() > 0 {
        assert(s[0] == c);
    }
}

/// A text cut at the first place of a character: the two parts with the character between
/// them are the text, and the first part does not hold it. It is cut exactly if it holds it.
pub proof fn law_split_first(s: Seq<char>, c: char)
    ensures
        split_first(s, c) is Some <==> s.contains(c),
        split_first(s, c) is Some ==> {
            let (a, b) = split_first(s, c)->0;
            s == a + seq![c] + b && !a.contains(c)
        },
{
    law_char_place(s, c);
    if let Some((a, b)) = split_first(s, c) {
        assert(s =~= a + seq![c] + b);
    }
}

/// What is left between the white space around a text: a stretch of it that neither begins
/// nor ends with white space, and all before and after it is white space.
pub proof fn law_trimmed(s: Seq<char>) -> (r: (int, int))
    ensures
        0 <= r.0 <= r.1 <= s.len(),
        trimmed(s) == s.subrange(r.0, r.1),
        forall|k: int| 0 <= k < s.len() && (k < r.0 || r.1 <= k) ==> space(#[trigger] s[k]),
        trimmed(s).len() > 0 ==> !space(trimmed(s)[0]) && !space(trimmed(s).last()),
    decreases s.len(),
{
    if s.len() > 0 && space(s[0]) {
        let rest = s.drop_first();
        let (a, b) = law_trimmed(rest);
        assert(rest.subrange(a, b) =~= s.subrange(a + 1, b + 1));
        assert forall|k: int| 0 <= k < s.len() && (k < a + 1 || b + 1 <= k) implies space(
            #[trigger] s[k],
        ) by {
            if k > 0 {
                assert(s[k] == rest[k - 1]);
            }
        }
        (a + 1, b + 1)
    } else if s.len() > 0 && space(s.last()) {
        let rest = s.drop_last();
        let (a, b) = law_trimmed(rest);
        assert(rest.subrange(a, b) =~= s.subrange(a, b));
        assert forall|k: int| 0 <= k < s.len() && (k < a || b <= k) implies space(
            #[trigger] s[k],
        ) by {
            if k < s.len() - 1 {
                assert(s[k] == rest[k]);
            }
        }
        (a, b)
    } else {
        assert(s.subrange(0, s.len() as int) =~= s);
        (0, s.len() as int)
    }
}

/// Fields put together again with a separator between them.
pub open spec fn joined(fields: Seq<Seq<char>>, sep: char) -> Seq<char>
    decreases fields.len(),
{
    if fields.len() <= 1 {
        if fields.len() == 1 {
            fields[0]
        } else {
            seq![]
        }
    } else {
        joined(fields.drop_last(), sep).push(sep) + fields.last()
    }
}

/// The fields of a text, put together again with the separator between them, are the text,
/// and no field holds the separator.
pub proof fn law_split_is_undone(s: Seq<char>, sep: char)
    ensures
        split_at_each(s, sep).len() > 0,
        joined(split_at_each(s, sep), sep) == s,
        forall|k: int|
            0 <= k < split_at_each(s, sep).len() ==> !(#[trigger] split_at_each(
                s,
                sep,
            )[k]).contains(sep),
    decreases s.len(),
{
    let all = split_at_each(s, sep);
    if s.len() == 0 {
        assert(all =~= seq![seq![]]);
        assert(joined(all, sep) =~= s);
    } else {
        let c = s.last();
        let front = split_at_each(s.drop_last(), sep);
        law_split_is_undone(s.drop_last(), sep);
        assert(s.drop_last().push(c) =~= s);
        if c == sep {
            assert(all.drop_last() =~= front);
            assert(joined(all, sep) =~= s);
            assert forall|k: int| 0 <= k < all.len() implies !(#[trigger] all[k]).contains(sep) by {
                if k < front.len() {
                    assert(all[k] == front[k]);
                }
            }
        } else {
            assert(all.drop_last() =~= front.drop_last());
            assert(all.last() == front.last().push(c));
            if front.len() == 1 {
                assert(joined(all, sep) =~= s);
            } else {
                assert(joined(front, sep) == joined(front.drop_last(), sep).push(sep)
                    + front.last());
                assert(joined(all, sep) =~= s);
            }
            assert forall|k: int| 0 <= k < all.len() implies !(#[trigger] all[k]).contains(sep) by {
                if k < front.len() - 1 {
                    assert(all[k] == front[k]);
                } else {
                    assert(!front[front.len() - 1].contains(sep));
                    let last = front.last();
                    if all[k].contains(sep) {
                        let i = choose|i: int| 0 <= i < all[k].len() && all[k][i] == sep;
                        assert(last[i] == sep);
                        assert(last.contains(sep));
                    }
                }
            }
        }
    }
}

/// Fields without the separator that are put together with it come apart again as they
/// were.
pub proof fn law_joined_is_split(fields: Seq<Seq<char>>, sep: char)
    requires
        fields.len() > 0,
        forall|k: int| 0 <= k < fields.len() ==> !(#[trigger] fields[k]).contains(sep),
    ensures
        split_at_each(joined(fields, sep), sep) == fields,
    decreases fields.len(),
{
    if fields.len() == 1 {
        assert(!fields[0].contains(sep));
        lemma_field_added(seq![], fields[0], sep);
        assert(seq![] + fields[0] =~= fields[0]);
        assert(split_at_each(seq![], sep) =~= seq![seq![]]);
        assert(split_at_each(fields[0], sep) =~= fields);
    } else {
        let front = fields.drop_last();
        assert forall|k: int| 0 <= k < front.len() implies !(#[trigger] front[k]).contains(sep) by {
            assert(front[k] == fields[k]);
        }
        law_joined_is_split(front, sep);
        let before = joined(front, sep).push(sep);
        assert(before.drop_last() =~= joined(front, sep));
        assert(split_at_each(before, sep) == front.push(seq![]));
        let last = fields[fields.len() - 1];
        assert(!last.contains(sep));
        lemma_field_added(before, last, sep);
        assert(split_at_each(before + last, sep) =~= fields);
    }
}

/// Characters other than the separator go to the last field.
proof fn lemma_field_added(s: Seq<char>, more: Seq<char>, sep: char)
    requires
        !more.contains(sep),
    ensures
        split_at_each(s, sep).len() > 0,
        split_at_each(s + more, sep) == split_at_each(s, sep).update(
            split_at_each(s, sep).len() - 1,
            split_at_each(s, sep).last() + more,
        ),
    decreases more.len(),
{
    law_split_is_undone(s, sep);
    let old_fields = split_at_each(s, sep);
    if more.len() == 0 {
        assert(s + more =~= s);
        assert(old_fields.last() + more =~= old_fields.last());
        assert(old_fields.update(old_fields.len() - 1, old_fields.last()) =~= old_fields);
    } else {
        let front = more.drop_last();
        assert forall|k: int| 0 <= k < front.len() implies #[trigger] front[k] != sep by {
            assert(more[k] == front[k]);
            assert(more.contains(more[k]));
        }
        assert(more.contains(more[more.len() - 1]));
        lemma_field_added(s, front, sep);
        assert((s + more).drop_last() =~= s + front);
        assert((s + more).last() == more.last());
        let mid = split_at_each(s + front, sep);
        assert(mid.last().push(more.last()) =~= old_fields.last() + more);
        assert(split_at_each(s + more, sep) =~= old_fields.update(
            old_fields.len() - 1,
            old_fields.last() + more,
        ));
    }
}

/// A text without white space is one word, and it is that word.
pub proof fn law_word_is_one_word(w: Seq<char>)
    requires
        w.len() > 0,
        forall|k: int| 0 <= k < w.len() ==> !space(#[trigger] w[k]),
    ensures
        words_of(w) == seq![w],
    decreases w.len(),
{
    let front = w.drop_last();
    assert(!space(w[w.len() - 1]));
    if w.len() == 1 {
        assert(words_of(front) =~= seq![]);
        assert(seq![w.last()] =~= w);
        assert(words_of(w) =~= seq![w]);
    } else {
        assert forall|k: int| 0 <= k < front.len() implies !space(#[trigger] front[k]) by {
            assert(front[k] == w[k]);
        }
        law_word_is_one_word(front);
        assert(!space(w[w.len() - 2]));
        assert(front.push(w.last()) =~= w);
        assert(words_of(w) =~= seq![w]);
    }
}

/// White space separates words: those before it and those after it are the words of the
/// whole.
pub proof fn law_space_separates_words(a: Seq<char>, c: char, b: Seq<char>)
    requires
        space(c),
    ensures
        words_of(a.push(c) + b) == words_of(a) + words_of(b),
    decreases b.len(),
{
    let left = a.push(c);
    let whole = left + b;
    if b.len() == 0 {
        assert(whole =~= left);
        assert(left.drop_last() =~= a);
        assert(words_of(a) + words_of(b) =~= words_of(a));
    } else {
        let front = b.drop_last();
        law_space_separates_words(a, c, front);
        assert(whole.drop_last() =~= left + front);
        assert(whole.last() == b.last());
        lemma_words_open(front);
        if !space(b.last()) {
            if b.len() == 1 {
                assert(whole[whole.len() - 2] == c);
                assert(words_of(front) =~= seq![]);
                assert(words_of(whole) =~= words_of(a) + words_of(b));
            } else {
                assert(whole[whole.len() - 2] == b[b.len() - 2]);
                assert(front.last() == b[b.len() - 2]);
                assert(words_of(whole) =~= words_of(a) + words_of(b));
            }
        }
    }
}

/// Every word is a run of characters without white space.
pub proof fn law_words_hold_no_space(s: Seq<char>)
    ensures
        forall|k: int| 0 <= k < words_of(s).len() ==> (#[trigger] words_of(s)[k]).len() > 0,
        forall|k: int, i: int|
            0 <= k < words_of(s).len() && 0 <= i < words_of(s)[k].len() ==> !space(
                #[trigger] words_of(s)[k][i],
            ),
    decreases s.len(),
{
    if s.len() > 0 {
        let rest = s.drop_last();
        law_words_hold_no_space(rest);
        lemma_words_open(rest);
        let had = words_of(rest);
        let now = words_of(s);
        assert forall|k: int| 0 <= k < now.len() implies (#[trigger] now[k]).len() > 0 && forall|
            i: int,
        | 0 <= i < now[k].len() ==> !space(#[trigger] now[k][i]) by {
            if space(s.last()) {
                assert(now[k] == had[k]);
                assert(forall|i: int| 0 <= i < had[k].len() ==> !space(#[trigger] had[k][i]));
            } else if s.len() == 1 || space(s[s.len() - 2]) {
                if k < had.len() {
                    assert(now[k] == had[k]);
                    assert(forall|i: int| 0 <= i < had[k].len() ==> !space(#[trigger] had[k][i]));
                } else {
                    assert(now[k] == seq![s.last()]);
                }
            } else {
                assert(rest.last() == s[s.len() - 2]);
                assert(forall|i: int| 0 <= i < had[k].len() ==> !space(#[trigger] had[k][i]));
                if k < had.len() - 1 {
                    assert(now[k] == had[k]);
                } else {
                    assert(now[k] == had[k].push(s.last()));
                }
            }
        }
    }
}

/// What is left after the white space that leads a text: an end of it that does not begin
/// with white space, and all before it is white space.
pub proof fn law_unled(s: Seq<char>) -> (k: int)
    ensures
        0 <= k <= s.len(),
        unled(s) == s.skip(k),
        forall|j: int| 0 <= j < k ==> space(#[trigger] s[j]),
        k < s.len() ==> !space(s[k]),
    decreases s.len(),
{
    if s.len() > 0 && space(s[0]) {
        let rest = s.drop_first();
        let k = law_unled(rest);
        assert(rest.skip(k) =~= s.skip(k + 1));
        assert forall|j: int| 0 <= j < k + 1 implies space(#[trigger] s[j]) by {
            if j > 0 {
                assert(s[j] == rest[j - 1]);
            }
        }
        k + 1
    } else {
        assert(s.skip(0) =~= s);
        0
    }
}

/// The number that leads a text: its longest beginning made of digits and minus signs, or,
/// where it may have a fraction and an exponent, of points, signs and the letter e as well.
pub proof fn law_number_leads(s: Seq<char>, whole: bool) -> (k: int)
    ensures
        0 <= k <= s.len(),
        number_run(s, whole) == s.take(k),
        forall|j: int|
            0 <= j < k ==> ('0' <= (#[trigger] s[j]) <= '9' || s[j] == '-' || (!whole && (s[j] == '.'
                || s[j] == 'e' || s[j] == 'E' || s[j] == '+'))),
        k < s.len() ==> !('0' <= s[k] <= '9' || s[k] == '-' || (!whole && (s[k] == '.' || s[k] == 'e'
            || s[k] == 'E' || s[k] == '+'))),
    decreases s.len(),
{
    if number_run(s, whole).len() > 0 {
        let rest = s.drop_first();
        let k = law_number_leads(rest, whole);
        assert(seq![s[0]] + rest.take(k) =~= s.take(k + 1));
        assert forall|j: int| 0 <= j < k + 1 implies ('0' <= (#[trigger] s[j]) <= '9' || s[j] == '-'
            || (!whole && (s[j] == '.' || s[j] == 'e' || s[j] == 'E' || s[j] == '+'))) by {
            if j > 0 {
                assert(s[j] == rest[j - 1]);
            }
        }
        k + 1
    } else {
        assert(s.take(0) =~= seq![]);
        assert(number_run(s, whole) =~= seq![]);
        0
    }
}

/// Decimal digits count by place: a digit stands for itself, and digits before others for as
/// many tens as those have places.
pub proof fn law_decimal_by_place(a: Seq<char>, b: Seq<char>, d: char)
    requires
        '0' <= d <= '9',
    ensures
        decimal(a + b) == decimal(a) * vstd::arithmetic::power::pow(10, b.len()) + decimal(b),
        decimal(seq![d]) == d as u32 - '0' as u32,
    decreases b.len(),
{
    reveal(vstd::arithmetic::power::pow);
    assert(seq![d].drop_last() =~= seq![]);
    assert(decimal(seq![]) == 0);
    assert(decimal(seq![d]) == 10 * decimal(seq![d].drop_last()) + (d as u32 - '0' as u32) as nat);
    if b.len() == 0 {
        assert(a + b =~= a);
        assert(vstd::arithmetic::power::pow(10, 0) == 1);
    } else {
        let front = b.drop_last();
        law_decimal_by_place(a, front, d);
        assert((a + b).drop_last() =~= a + front);
        assert((a + b).last() == b.last());
        let p = vstd::arithmetic::power::pow(10, front.len());
        assert(vstd::arithmetic::power::pow(10, b.len()) == 10 * p);
        let x = decimal(a) as int;
        assert(10 * (x * p) == x * (10 * p)) by (nonlinear_arith);
    }
}

/// A signed number is read with its sign: digits stand for their value, with or without a
/// plus, for its opposite after a minus, and anything else is no number.
pub proof fn law_signs_are_read(digits: Seq<char>)
    requires
        digits.len() > 0,
        forall|i: int| 0 <= i < digits.len() ==> '0' <= (#[trigger] digits[i]) <= '9',
    ensures
        signed_value(digits) == Some(decimal(digits) as int),
        signed_value(seq!['+'] + digits) == Some(decimal(digits) as int),
        signed_value(seq!['-'] + digits) == Some(-decimal(digits)),
        unsigned_value(digits) == Some(decimal(digits)),
        unsigned_value(seq!['+'] + digits) == Some(decimal(digits)),
        unsigned_value(seq!['-'] + digits) is None,
{
    assert(digit(digits[0]));
    assert(all_digits(digits));
    let plus = seq!['+'] + digits;
    let minus = seq!['-'] + digits;
    assert(plus.drop_first() =~= digits);
    assert(minus.drop_first() =~= digits);
    assert(!digit(minus[0]));
}

/// A text with anything in it but digits and a leading sign is no number, and neither is one
/// without a digit.
pub proof fn law_others_are_no_number(s: Seq<char>, k: int)
    requires
        0 <= k < s.len(),
        !('0' <= s[k] <= '9'),
        k > 0 || !(s[k] == '-' || s[k] == '+'),
    ensures
        signed_value(s) is None,
        unsigned_value(s) is None,
        signed_value(seq![]) is None,
        unsigned_value(seq![]) is None,
{
    if k > 0 {
        assert(s.drop_first()[k - 1] == s[k]);
    }
    assert(!digit(s[k]));
}

/// Capitals of the alphabet become the small letters 32 places on; nothing else changes.
pub proof fn law_lowered(s: Seq<char>, i: int)
    requires
        0 <= i < s.len(),
    ensures
        lowered_text(s).len() == s.len(),
        'A' <= s[i] <= 'Z' ==> lowered_text(s)[i] as u32 == s[i] as u32 + 32,
        !('A' <= s[i] <= 'Z') ==> lowered_text(s)[i] == s[i],
{
}

/// The first place of a text in another: it stands there, character by character, and it
/// stands nowhere before; where there is none, it stands nowhere.
pub proof fn law_place_is_first(hay: Seq<char>, needle: Seq<char>, j: int)
    requires
        0 <= j,
        j + needle.len() <= hay.len(),
        forall|k: int| 0 <= k < needle.len() ==> hay[j + k] == #[trigger] needle[k],
    ensures
        place_of(hay, needle) is Some,
        0 <= place_of(hay, needle)->0 <= j,
        place_of(hay, needle)->0 + needle.len() <= hay.len(),
        forall|k: int|
            0 <= k < needle.len() ==> hay[place_of(hay, needle)->0 + k] == #[trigger] needle[k],
{
    assert(hay.subrange(j, j + needle.len()) =~= needle);
    assert(stands_at(hay, needle, j));
    let i = lemma_first_place(hay, needle, j);
    assert(first_stands_at(hay, needle, i));
    let p = place_of(hay, needle)->0;
    assert(first_stands_at(hay, needle, p));
    assert forall|k: int| 0 <= k < needle.len() implies hay[p + k] == #[trigger] needle[k] by {
        assert(hay.subrange(p, p + needle.len())[k] == hay[p + k]);
    }
}

proof fn lemma_first_place(hay: Seq<char>, needle: Seq<char>, j: int) -> (i: int)
    requires
        stands_at(hay, needle, j),
    ensures
        i <= j,
        first_stands_at(hay, needle, i),
    decreases j,
{
    if exists|i: int| i < j && #[trigger] stands_at(hay, needle, i) {
        let i = choose|i: int| i < j && #[trigger] stands_at(hay, needle, i);
        lemma_first_place(hay, needle, i)
    } else {
        j
    }
}

/// Of the first 128 characters, white space is the blank and those from the tab to the
/// carriage return.
pub proof fn law_plain_space(c: char)
    requires
        (c as u32) < 128,
    ensures
        space(c) <==> c == ' ' || 9 <= c as u32 <= 13,
{
}

/// One more field without the separator, after a separator, is one more field.
pub proof fn law_field_follows(a: Seq<char>, sep: char, b: Seq<char>)
    requires
        !b.contains(sep),
    ensures
        split_at_each(a.push(sep) + b, sep) == split_at_each(a, sep).push(b),
{
    let left = a.push(sep);
    assert(left.drop_last() =~= a);
    lemma_field_added(left, b, sep);
    assert(seq![] + b =~= b);
    assert(split_at_each(left + b, sep) =~= split_at_each(a, sep).push(b));
}

/// A text has more than one field exactly if it holds the separator.
pub proof fn law_separator_makes_fields(s: Seq<char>, sep: char)
    ensures
        split_at_each(s, sep).len() >= 2 <==> s.contains(sep),
{
    law_split_is_undone(s, sep);
    let f = split_at_each(s, sep);
    if f.len() == 1 {
        assert(!f[0].contains(sep));
    } else {
        let before = joined(f.drop_last(), sep).push(sep);
        assert(before[before.len() - 1] == sep);
        assert(s[before.len() - 1] == sep);
    }
}

/// A text that neither begins nor ends with white space has none around it, and white space
/// put around it is taken off again.
pub proof fn law_trim_is_tight(a: Seq<char>, s: Seq<char>, b: Seq<char>)
    requires
        s.len() > 0,
        !space(s[0]),
        !space(s.last()),
        forall|k: int| 0 <= k < a.len() ==> space(#[trigger] a[k]),
        forall|k: int| 0 <= k < b.len() ==> space(#[trigger] b[k]),
    ensures
        trimmed(a + s + b) == s,
        trimmed(s) == s,
    decreases a.len() + b.len(),
{
    let whole = a + s + b;
    if a.len() > 0 {
        assert(whole[0] == a[0]);
        assert(whole.drop_first() =~= a.drop_first() + s + b);
        assert forall|k: int| 0 <= k < a.drop_first().len() implies space(
            #[trigger] a.drop_first()[k],
        ) by {
            assert(a.drop_first()[k] == a[k + 1]);
        }
        law_trim_is_tight(a.drop_first(), s, b);
    } else if b.len() > 0 {
        assert(whole[0] == s[0]);
        assert(whole.last() == b[b.len() - 1]);
        assert(whole.drop_last() =~= a + s + b.drop_last());
        law_trim_is_tight(a, s, b.drop_last());
    } else {
        assert(whole =~= s);
    }
}

/// A text that begins with something other than white space still begins with it when
/// trimmed.
pub proof fn law_trim_keeps_beginning(s: Seq<char>)
    requires
        s.len() > 0,
        !space(s[0]),
    ensures
        trimmed(s).len() > 0,
        trimmed(s)[0] == s[0],
{
    let (a, b) = law_trimmed(s);
    assert(a == 0 && b > 0);
}

/// A text of nothing but white space is empty when trimmed.
pub proof fn law_blank_is_trimmed_away(s: Seq<char>)
    requires
        forall|k: int| 0 <= k < s.len() ==> space(#[trigger] s[k]),
    ensures
        trimmed(s).len() == 0,
{
    let (a, b) = law_trimmed(s);
    if a < b {
        assert(trimmed(s)[0] == s[a]);
    }
}

/// Whether a text is one word: not empty, and without white space.
pub open spec fn is_word(w: Seq<char>) -> bool {
    w.len() > 0 && forall|k: int| 0 <= k < w.len() ==> !space(#[trigger] w[k])
}

/// Two words with a blank between them are read as these two words.
pub proof fn law_two_words(a: Seq<char>, b: Seq<char>)
    requires
        is_word(a),
        is_word(b),
    ensures
        words_of(a.push(' ') + b) == seq![a, b],
        trimmed(a.push(' ') + b) == a.push(' ') + b,
{
    law_word_is_one_word(a);
    law_word_is_one_word(b);
    law_space_separates_words(a, ' ', b);
    assert(seq![a] + seq![b] =~= seq![a, b]);
    let line = a.push(' ') + b;
    assert(line[0] == a[0] && line.last() == b[b.len() - 1]);
    law_trim_is_tight(seq![], line, seq![]);
}

/// Three words with blanks between them are read as these three words.
pub proof fn law_three_words(a: Seq<char>, b: Seq<char>, c: Seq<char>)
    requires
        is_word(a),
        is_word(b),
        is_word(c),
    ensures
        words_of((a.push(' ') + b).push(' ') + c) == seq![a, b, c],
        trimmed((a.push(' ') + b).push(' ') + c) == (a.push(' ') + b).push(' ') + c,
{
    law_two_words(a, b);
    law_word_is_one_word(c);
    law_space_separates_words(a.push(' ') + b, ' ', c);
    assert(seq![a, b] + seq![c] =~= seq![a, b, c]);
    let line = (a.push(' ') + b).push(' ') + c;
    assert(line[0] == a[0] && line.last() == c[c.len() - 1]);
    law_trim_is_tight(seq![], line, seq![]);
}

/// The texts of a list are its own, in its order.
pub proof fn law_texts_are_the_lists_own(v: Seq<Vec<char>>, k: int)
    requires
        0 <= k < v.len(),
    ensures
        texts(v).len() == v.len(),
        texts(v)[k] == v[k]@,
{
}

} // verus!
