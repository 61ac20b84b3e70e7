//! Hex color preview popup.
//!
//! Finds the hex color under a clicked column of a line of text, and lays
//! out the small popup that shows a swatch of it.

use vstd::prelude::*;
use crate::geometry::{max16, min16, sat_add, sat_sub, Rect};
use crate::text::{chars_of, string_of};
use crate::unicode;
use crate::unicode::count_graphemes;
use crate::selection_style::{Color, Style};

verus! {

// ---------------------------------------------------------------------------
// Byte offsets and character positions
// ---------------------------------------------------------------------------

/// Bytes of a character's UTF-8 encoding.
pub open spec fn utf8_char_len(c: char) -> nat {
    let u = c as u32;
    if u < 0x80 {
        1
    } else if u < 0x800 {
        2
    } else if u < 0x10000 {
        3
    } else {
        4
    }
}

/// Bytes of the UTF-8 encoding of a text.
pub open spec fn byte_len(s: Seq<char>) -> nat
    decreases s.len(),
{
    if s.len() == 0 {
        0
    } else {
        byte_len(s.drop_last()) + utf8_char_len(s.last())
    }
}

/// Byte offset `b` is the start of the character at position `k` (or the
/// end of the text, for `k == s.len()`).
pub open spec fn boundary_at(s: Seq<char>, b: int, k: int) -> bool {
    0 <= k <= s.len() && byte_len(s.subrange(0, k)) == b
}

/// A match span: byte offsets `start <= end`, both on character boundaries.
pub open spec fn span_ok(s: Seq<char>, span: (usize, usize)) -> bool {
    &&& span.0 <= span.1
    &&& exists|k: int| boundary_at(s, span.0 as int, k)
    &&& exists|k: int| boundary_at(s, span.1 as int, k)
}

/// The character position of byte offset `b`.
pub open spec fn char_pos(s: Seq<char>, b: int) -> int {
    choose|k: int| boundary_at(s, b, k)
}

proof fn lemma_byte_len_prefix_step(s: Seq<char>, k: int)
    requires
        0 <= k < s.len(),
    ensures
        byte_len(s.subrange(0, k + 1)) == byte_len(s.subrange(0, k)) + utf8_char_len(s[k]),
{
    assert(s.subrange(0, k + 1).drop_last() =~= s.subrange(0, k));
}

proof fn lemma_byte_len_strict(s: Seq<char>, j: int, k: int)
    requires
        0 <= j < k <= s.len(),
    ensures
        byte_len(s.subrange(0, j)) < byte_len(s.subrange(0, k)),
    decreases k - j,
{
    lemma_byte_len_prefix_step(s, k - 1);
    if j < k - 1 {
        lemma_byte_len_strict(s, j, k - 1);
    }
}

proof fn lemma_boundary_unique(s: Seq<char>, b: int, k: int)
    requires
        boundary_at(s, b, k),
    ensures
        char_pos(s, b) == k,
{
    let k2 = char_pos(s, b);
    if k2 < k {
        lemma_byte_len_strict(s, k2, k);
    } else if k < k2 {
        lemma_byte_len_strict(s, k, k2);
    }
}

/// The bytes of a character's UTF-8 encoding.
fn char_utf8_len(c: char) -> (res: usize)
    ensures
        res == utf8_char_len(c),
{
    let u = c as u32;
    if u < 0x80 {
        1
    } else if u < 0x800 {
        2
    } else if u < 0x10000 {
        3
    } else {
        4
    }
}

/// The character position of byte offset `b` of `v`, which must be a
/// character boundary.
fn char_pos_of(v: &Vec<char>, b: usize) -> (res: usize)
    requires
        exists|k: int| boundary_at(v@, b as int, k),
    ensures
        res as int == char_pos(v@, b as int),
        boundary_at(v@, b as int, res as int),
{
    let ghost target = choose|k: int| boundary_at(v@, b as int, k);
    proof {
        lemma_boundary_unique(v@, b as int, target);
        assert(v@.subrange(0, 0) =~= Seq::<char>::empty());
    }
    let n = v.len();
    let mut k: usize = 0;
    let mut acc: usize = 0;
    while acc < b
        invariant
            0 <= k <= target <= v@.len(),
            n == v@.len(),
            acc as int == byte_len(v@.subrange(0, k as int)),
            boundary_at(v@, b as int, target),
            acc <= b,
        decreases target - k,
    {
        proof {
            if k == target {
                assert(false);
            }
            lemma_byte_len_prefix_step(v@, k as int);
            if k + 1 < target {
                lemma_byte_len_strict(v@, k + 1, target);
            }
        }
        acc = acc + char_utf8_len(v[k]);
        k = k + 1;
    }
    proof {
        if k < target {
            lemma_byte_len_strict(v@, k as int, target);
        }
    }
    k
}

// ---------------------------------------------------------------------------
// Regular expression search (`regex`)
// ---------------------------------------------------------------------------

/// What a search with `regex` yields for a pattern over a text: `None` when
/// `Regex::new` refuses the pattern, otherwise the byte spans of the matches
/// `Regex::find_iter` reports, in order.
pub uninterp spec fn regex_match_spans(pattern: Seq<char>, text: Seq<char>) -> Option<Seq<(usize, usize)>>;

/// The views of optional spans.
pub open spec fn spans_view(v: Option<Vec<(usize, usize)>>) -> Option<Seq<(usize, usize)>> {
    match v {
        Some(v) => Some(v@),
        None => None,
    }
}

/// `regex::Regex::new` on `pattern`, then `Regex::find_iter` over `text`,
/// each match taken as its byte span `(start, end)`; `None` when the pattern
/// is refused. The compiled expression is opaque, so the result is named as
/// a function of the pattern and the text. Beside that the contract claims
/// what the crate documents of the matches: each has `start <= end` with
/// both on character boundaries of the text, and they come in order without
/// overlapping.
#[verifier::external_body]
fn regex_find_spans(pattern: &str, text: &str) -> (res: Option<Vec<(usize, usize)>>)
    ensures
        spans_view(res) == regex_match_spans(pattern@, text@),
        res matches Some(v) ==> forall|i: int| 0 <= i < v@.len() ==> span_ok(text@, #[trigger] v@[i]),
        res matches Some(v) ==> forall|i: int, j: int|
            0 <= i < j < v@.len() ==> #[trigger] v@[i].1 <= #[trigger] v@[j].0,
{
    match regex::Regex::new(pattern) {
        Ok(re) => Some(re.find_iter(text).map(|m| (m.start(), m.end())).collect()),
        Err(_) => None,
    }
}

/// The pattern of a hex color: `#` and six or three hex digits, ending at a
/// word boundary.
pub open spec fn hex_color_pattern() -> Seq<char> {
    "#([0-9a-fA-F]{6}|[0-9a-fA-F]{3})\\b"@
}

// ---------------------------------------------------------------------------
// Hex colors
// ---------------------------------------------------------------------------

/// The value of a hex digit (either case).
pub open spec fn hex_value(c: char) -> Option<u8> {
    if '0' <= c && c <= '9' {
        Some((c as u32 - '0' as u32) as u8)
    } else if 'a' <= c && c <= 'f' {
        Some((c as u32 - 'a' as u32 + 10) as u8)
    } else if 'A' <= c && c <= 'F' {
        Some((c as u32 - 'A' as u32 + 10) as u8)
    } else {
        None
    }
}

/// `u8::from_str_radix(s, 16)` for the two-character string `[a, b]`:
/// two hex digits, or `'+'` and one hex digit.
pub open spec fn hex_pair(a: char, b: char) -> Option<u8> {
    if a == '+' {
        hex_value(b)
    } else {
        match (hex_value(a), hex_value(b)) {
            (Some(x), Some(y)) => Some((x * 16 + y) as u8),
            _ => None,
        }
    }
}

/// `str::trim_start_matches('#')`.
pub open spec fn strip_hashes(s: Seq<char>) -> Seq<char>
    decreases s.len(),
{
    if s.len() > 0 && s[0] == '#' {
        strip_hashes(s.drop_first())
    } else {
        s
    }
}

/// An ASCII character.
pub open spec fn is_ascii_char(c: char) -> bool {
    (c as u32) < 0x80
}

/// The color a matched hex string spells: three digits each doubled, or
/// the first six digits in pairs.
pub open spec fn hex_rgb(m: Seq<char>) -> Option<(u8, u8, u8)> {
    let d = strip_hashes(m);
    if byte_len(d) == 3 {
        if d.len() == 3 {
            match (hex_pair(d[0], d[0]), hex_pair(d[1], d[1]), hex_pair(d[2], d[2])) {
                (Some(r), Some(g), Some(b)) => Some((r, g, b)),
                _ => None,
            }
        } else {
            None
        }
    } else if d.len() >= 6 && (forall|i: int| 0 <= i < 6 ==> is_ascii_char(#[trigger] d[i])) {
        match (hex_pair(d[0], d[1]), hex_pair(d[2], d[3]), hex_pair(d[4], d[5])) {
            (Some(r), Some(g), Some(b)) => Some((r, g, b)),
            _ => None,
        }
    } else {
        None
    }
}

/// The color under column `col` among the matches `spans` of `text`: the
/// first match whose grapheme columns cover `col` decides.
pub open spec fn hex_color_in_spans_spec(text: Seq<char>, spans: Seq<(usize, usize)>, col: int) -> Option<(u8, u8, u8, Seq<char>)>
    decreases spans.len(),
{
    if spans.len() == 0 {
        None
    } else {
        let ks = char_pos(text, spans[0].0 as int);
        let ke = char_pos(text, spans[0].1 as int);
        let m = text.subrange(ks, ke);
        let start_col = unicode::grapheme_count(text.subrange(0, ks)) as int;
        let end_col = start_col + unicode::grapheme_count(m) as int;
        if start_col <= col < end_col {
            match hex_rgb(m) {
                Some((r, g, b)) => Some((r, g, b, m)),
                None => None,
            }
        } else {
            hex_color_in_spans_spec(text, spans.drop_first(), col)
        }
    }
}

/// The text of a match: the characters its byte span covers.
pub open spec fn match_text(text: Seq<char>, span: (usize, usize)) -> Seq<char> {
    text.subrange(char_pos(text, span.0 as int), char_pos(text, span.1 as int))
}

/// The first grapheme column a match covers: the number of grapheme
/// clusters before it.
pub open spec fn match_start_col(text: Seq<char>, span: (usize, usize)) -> int {
    unicode::grapheme_count(text.subrange(0, char_pos(text, span.0 as int))) as int
}

/// One past the last grapheme column a match covers.
pub open spec fn match_end_col(text: Seq<char>, span: (usize, usize)) -> int {
    match_start_col(text, span) + unicode::grapheme_count(match_text(text, span)) as int
}

/// Whether a match covers grapheme column `col`: from its first column up
/// to and including its last.
pub open spec fn covers(text: Seq<char>, span: (usize, usize), col: int) -> bool {
    match_start_col(text, span) <= col && col < match_end_col(text, span)
}

/// The first match that covers a column decides: every column a match
/// covers, its last included, gives the color that match spells (with the
/// match's text), or nothing when it spells none, unless an earlier match
/// covers the column too; a column no match covers gives nothing.
pub proof fn lemma_covering_match_decides(text: Seq<char>, spans: Seq<(usize, usize)>, col: int, j: int)
    requires
        0 <= j < spans.len(),
        covers(text, spans[j], col),
        forall|i: int| 0 <= i < j ==> !covers(text, #[trigger] spans[i], col),
    ensures
        hex_color_in_spans_spec(text, spans, col) == match hex_rgb(match_text(text, spans[j])) {
            Some((r, g, b)) => Some((r, g, b, match_text(text, spans[j]))),
            None => None,
        },
    decreases j,
{
    if j > 0 {
        let rest = spans.drop_first();
        assert(!covers(text, spans[0], col));
        assert forall|i: int| 0 <= i < j - 1 implies !covers(text, #[trigger] rest[i], col) by {
            assert(rest[i] == spans[i + 1]);
        }
        assert(rest[j - 1] == spans[j]);
        lemma_covering_match_decides(text, rest, col, j - 1);
    }
}

/// A column that no match covers gives no color.
pub proof fn lemma_uncovered_column(text: Seq<char>, spans: Seq<(usize, usize)>, col: int)
    requires
        forall|i: int| 0 <= i < spans.len() ==> !covers(text, #[trigger] spans[i], col),
    ensures
        hex_color_in_spans_spec(text, spans, col) is None,
    decreases spans.len(),
{
    if spans.len() > 0 {
        let rest = spans.drop_first();
        assert(!covers(text, spans[0], col));
        assert forall|i: int| 0 <= i < rest.len() implies !covers(text, #[trigger] rest[i], col) by {
            assert(rest[i] == spans[i + 1]);
        }
        lemma_uncovered_column(text, rest, col);
    }
}

/// A match of `#` and three or six hex digits spells its color: with three
/// digits each channel is its digit doubled (`17 * d`), with six each
/// channel is its pair of digits (`16 * hi + lo`).
pub proof fn lemma_hex_rgb_digits(m: Seq<char>)
    requires
        m.len() == 4 || m.len() == 7,
        m[0] == '#',
        forall|i: int| 1 <= i < m.len() ==> crate::format::is_hex_digit(#[trigger] m[i]),
    ensures
        m.len() == 4 ==> hex_rgb(m) == Some(
            (
                (17 * crate::format::hex_digit_value(m[1])) as u8,
                (17 * crate::format::hex_digit_value(m[2])) as u8,
                (17 * crate::format::hex_digit_value(m[3])) as u8,
            ),
        ),
        m.len() == 7 ==> hex_rgb(m) == Some(
            (
                (16 * crate::format::hex_digit_value(m[1]) + crate::format::hex_digit_value(m[2])) as u8,
                (16 * crate::format::hex_digit_value(m[3]) + crate::format::hex_digit_value(m[4])) as u8,
                (16 * crate::format::hex_digit_value(m[5]) + crate::format::hex_digit_value(m[6])) as u8,
            ),
        ),
{
    let d = m.drop_first();
    assert(d[0] == m[1]);
    assert(d[0] != '#');
    assert(strip_hashes(d) == d);
    assert(strip_hashes(m) == d);
    assert forall|i: int| 0 <= i < d.len() implies is_ascii_char(#[trigger] d[i]) && hex_value(d[i])
        == Some(crate::format::hex_digit_value(d[i]) as u8) && d[i] != '+'
        && crate::format::hex_digit_value(d[i]) < 16 by {
        assert(d[i] == m[i + 1]);
        assert(crate::format::is_hex_digit(d[i]));
    }
    lemma_byte_len_ascii(d);
}

proof fn lemma_byte_len_ascii(s: Seq<char>)
    requires
        forall|i: int| 0 <= i < s.len() ==> is_ascii_char(#[trigger] s[i]),
    ensures
        byte_len(s) == s.len(),
    decreases s.len(),
{
    if s.len() > 0 {
        let d = s.drop_last();
        assert forall|i: int| 0 <= i < d.len() implies is_ascii_char(#[trigger] d[i]) by {
            assert(d[i] == s[i]);
        }
        assert(is_ascii_char(s[s.len() - 1]));
        lemma_byte_len_ascii(d);
    }
}

/// The view of a found color.
pub open spec fn color_view(res: Option<(u8, u8, u8, String)>) -> Option<(u8, u8, u8, Seq<char>)> {
    match res {
        Some((r, g, b, s)) => Some((r, g, b, s@)),
        None => None,
    }
}

fn hex_value_of(c: char) -> (res: Option<u8>)
    ensures
        res == hex_value(c),
{
    if '0' <= c && c <= '9' {
        Some((c as u32 - '0' as u32) as u8)
    } else if 'a' <= c && c <= 'f' {
        Some((c as u32 - 'a' as u32 + 10) as u8)
    } else if 'A' <= c && c <= 'F' {
        Some((c as u32 - 'A' as u32 + 10) as u8)
    } else {
        None
    }
}

fn hex_pair_of(a: char, b: char) -> (res: Option<u8>)
    ensures
        res == hex_pair(a, b),
{
    if a == '+' {
        hex_value_of(b)
    } else {
        match (hex_value_of(a), hex_value_of(b)) {
            (Some(x), Some(y)) => Some(x * 16 + y),
            _ => None,
        }
    }
}

proof fn lemma_strip_hashes_at(s: Seq<char>, k: int)
    requires
        0 <= k <= s.len(),
        forall|i: int| 0 <= i < k ==> #[trigger] s[i] == '#',
        k == s.len() || s[k] != '#',
    ensures
        strip_hashes(s) == s.subrange(k, s.len() as int),
    decreases k,
{
    if k == 0 {
        assert(s.subrange(0, s.len() as int) =~= s);
    } else {
        let t = s.drop_first();
        assert forall|i: int| 0 <= i < k - 1 implies #[trigger] t[i] == '#' by {
            assert(t[i] == s[i + 1]);
        }
        if k - 1 < t.len() {
            assert(t[k - 1] == s[k]);
        }
        lemma_strip_hashes_at(t, k - 1);
        assert(t.subrange(k - 1, t.len() as int) =~= s.subrange(k, s.len() as int));
    }
}

/// The byte length of `v[from..to]`.
fn byte_len_of(v: &Vec<char>, from: usize, to: usize) -> (res: u128)
    requires
        from <= to <= v@.len(),
    ensures
        res as int == byte_len(v@.subrange(from as int, to as int)),
{
    let mut acc: u128 = 0;
    let mut k = from;
    proof {
        assert(v@.subrange(from as int, from as int) =~= Seq::<char>::empty());
    }
    while k < to
        invariant
            from <= k <= to <= v@.len(),
            acc as int == byte_len(v@.subrange(from as int, k as int)),
            acc <= 4 * (k - from),
        decreases to - k,
    {
        proof {
            lemma_byte_len_prefix_step(v@.subrange(from as int, to as int), k - from);
            assert(v@.subrange(from as int, to as int).subrange(0, k + 1 - from) =~= v@.subrange(
                from as int,
                k + 1,
            ));
            assert(v@.subrange(from as int, to as int).subrange(0, k - from) =~= v@.subrange(
                from as int,
                k as int,
            ));
        }
        acc = acc + char_utf8_len(v[k]) as u128;
        k = k + 1;
    }
    acc
}

/// The color that the match `v[from..to]` spells.
fn hex_rgb_of(v: &Vec<char>, from: usize, to: usize) -> (res: Option<(u8, u8, u8)>)
    requires
        from <= to <= v@.len(),
    ensures
        res == hex_rgb(v@.subrange(from as int, to as int)),
{
    let ghost m = v@.subrange(from as int, to as int);
    let mut start = from;
    while start < to && v[start] == '#'
        invariant
            from <= start <= to <= v@.len(),
            forall|j: int| from <= j < start ==> #[trigger] v@[j] == '#',
        decreases to - start,
    {
        start = start + 1;
    }
    let ghost d = v@.subrange(start as int, to as int);
    proof {
        assert forall|j: int| 0 <= j < start - from implies #[trigger] m[j] == '#' by {
            assert(m[j] == v@[from + j]);
        }
        if start < to {
            assert(m[start - from] == v@[start as int]);
        }
        lemma_strip_hashes_at(m, start - from);
        assert(m.subrange(start - from, m.len() as int) =~= d);
    }
    let n = to - start;
    let bytes = byte_len_of(v, start, to);
    if bytes == 3 {
        if n == 3 {
            proof {
                assert(d[0] == v@[start as int]);
                assert(d[1] == v@[start + 1]);
                assert(d[2] == v@[start + 2]);
            }
            match (hex_pair_of(v[start], v[start]), hex_pair_of(v[start + 1], v[start + 1]), hex_pair_of(v[start + 2], v[start + 2])) {
                (Some(r), Some(g), Some(b)) => Some((r, g, b)),
                _ => None,
            }
        } else {
            None
        }
    } else if n >= 6 {
        let mut i: usize = 0;
        while i < 6
            invariant
                i <= 6,
                n >= 6,
                start + n == to,
                to <= v@.len(),
                d == v@.subrange(start as int, to as int),
                strip_hashes(v@.subrange(from as int, to as int)) == d,
                byte_len(d) != 3,
                forall|j: int| 0 <= j < i ==> is_ascii_char(#[trigger] d[j]),
            decreases 6 - i,
        {
            proof {
                assert(d[i as int] == v@[start + i]);
            }
            if (v[start + i] as u32) >= 0x80 {
                proof {
                    assert(!is_ascii_char(d[i as int]));
                }
                return None;
            }
            i = i + 1;
        }
        proof {
            assert(d[0] == v@[start as int]);
            assert(d[1] == v@[start + 1]);
            assert(d[2] == v@[start + 2]);
            assert(d[3] == v@[start + 3]);
            assert(d[4] == v@[start + 4]);
            assert(d[5] == v@[start + 5]);
        }
        match (hex_pair_of(v[start], v[start + 1]), hex_pair_of(v[start + 2], v[start + 3]), hex_pair_of(v[start + 4], v[start + 5])) {
            (Some(r), Some(g), Some(b)) => Some((r, g, b)),
            _ => None,
        }
    } else {
        None
    }
}

/// Find the color under grapheme column `col` among the match spans
/// `spans` (byte offsets) of `text`.
///
/// Returns `(r, g, b, original_match)` or `None`.
pub fn hex_color_in_spans(text: &str, spans: &Vec<(usize, usize)>, col: usize) -> (res: Option<(u8, u8, u8, String)>)
    requires
        forall|i: int| 0 <= i < spans@.len() ==> span_ok(text@, #[trigger] spans@[i]),
    ensures
        color_view(res) == hex_color_in_spans_spec(text@, spans@, col as int),
{
    let v = chars_of(text);
    let mut i: usize = 0;
    proof {
        assert(spans@.subrange(0, spans@.len() as int) =~= spans@);
    }
    while i < spans.len()
        invariant
            i <= spans@.len(),
            v@ == text@,
            forall|j: int| 0 <= j < spans@.len() ==> span_ok(text@, #[trigger] spans@[j]),
            hex_color_in_spans_spec(text@, spans@, col as int) == hex_color_in_spans_spec(
                text@,
                spans@.subrange(i as int, spans@.len() as int),
                col as int,
            ),
        decreases spans@.len() - i,
    {
        let (s, e) = spans[i];
        let ghost rest = spans@.subrange(i as int, spans@.len() as int);
        proof {
            assert(span_ok(text@, spans@[i as int]));
            assert(rest[0] == (s, e));
            assert(rest.drop_first() =~= spans@.subrange(i + 1, spans@.len() as int));
        }
        let ks = char_pos_of(&v, s);
        let ke = char_pos_of(&v, e);
        proof {
            if ke < ks {
                lemma_byte_len_strict(v@, ke as int, ks as int);
            }
        }
        let start_col = count_graphemes(string_of(&v, 0, ks).as_str()) as u128;
        let end_col = start_col + count_graphemes(string_of(&v, ks, ke).as_str()) as u128;
        if start_col <= col as u128 && (col as u128) < end_col {
            return match hex_rgb_of(&v, ks, ke) {
                Some((r, g, b)) => Some((r, g, b, string_of(&v, ks, ke))),
                None => None,
            };
        }
        i = i + 1;
    }
    None
}

/// Find a hex color in `text` covering grapheme column `col`.
///
/// Returns `(r, g, b, original_match)` or `None`. The color is the one
/// [`hex_color_in_spans`] finds among the matches in `text` of
/// [`hex_color_pattern`].
pub fn extract_hex_color_at_col(text: &str, col: usize) -> (res: Option<(u8, u8, u8, String)>)
    ensures
        color_view(res) == match regex_match_spans(hex_color_pattern(), text@) {
            Some(spans) => hex_color_in_spans_spec(text@, spans, col as int),
            None => None,
        },
{
    match regex_find_spans("#([0-9a-fA-F]{6}|[0-9a-fA-F]{3})\\b", text) {
        Some(spans) => hex_color_in_spans(text, &spans, col),
        None => None,
    }
}

// ---------------------------------------------------------------------------
// The preview popup
// ---------------------------------------------------------------------------

/// State for an active hex color preview popup.
pub struct ColorPreview {
    pub r: u8,
    pub g: u8,
    pub b: u8,
    /// Original matched text (e.g. `"#abc"` or `"#aabbcc"`)
    pub hex: String,
    /// Screen row of the click
    pub screen_row: u16,
    /// Screen column of the click
    pub screen_col: u16,
}

/// The border's style: dark gray on black.
pub open spec fn border_style() -> Style {
    Style { fg: Some(Color::DarkGray), bg: Some(Color::Black), bold: false }
}

/// The style of the text inside the border: white on black.
pub open spec fn content_style() -> Style {
    Style { fg: Some(Color::White), bg: Some(Color::Black), bold: false }
}

/// The swatch's style: the previewed color as both foreground and
/// background.
pub open spec fn swatch_style(r: u8, g: u8, b: u8) -> Style {
    Style { fg: Some(Color::Rgb(r, g, b)), bg: Some(Color::Rgb(r, g, b)), bold: false }
}

fn border_style_of() -> (res: Style)
    ensures
        res == border_style(),
{
    Style { fg: Some(Color::DarkGray), bg: Some(Color::Black), bold: false }
}

fn content_style_of() -> (res: Style)
    ensures
        res == content_style(),
{
    Style { fg: Some(Color::White), bg: Some(Color::Black), bold: false }
}

fn swatch_style_of(r: u8, g: u8, b: u8) -> (res: Style)
    ensures
        res == swatch_style(r, g, b),
{
    Style { fg: Some(Color::Rgb(r, g, b)), bg: Some(Color::Rgb(r, g, b)), bold: false }
}

/// One cell write of the preview: the character and style put at `(x, y)`.
#[derive(Debug, Clone, Copy, PartialEq, Eq, Structural)]
pub struct ColorCell {
    pub x: u16,
    pub y: u16,
    pub ch: char,
    pub style: Style,
}

/// The byte length of the hex text, as a `u16`.
pub open spec fn hex_len16(hex: Seq<char>) -> u16 {
    (vstd::utf8::encode_utf8(hex).len() as usize) as u16
}

/// Popup width: `│ ██ #hex │`, the hex text plus 7 cells.
pub open spec fn preview_width(hex: Seq<char>) -> int {
    hex_len16(hex) + 7
}

/// Whether the panel can hold the popup (3 rows, [`preview_width`] columns).
pub open spec fn preview_fits(p: ColorPreview, panel: Rect) -> bool {
    panel.width >= preview_width(p.hex@) && panel.height >= 3
}

/// The popup's top-left corner: one row above the click, or below it when
/// there is no room, two columns left of the click, kept inside the panel.
pub open spec fn preview_origin(p: ColorPreview, panel: Rect) -> (u16, u16) {
    let w = preview_width(p.hex@) as u16;
    let raw_y = if p.screen_row >= panel.y + 3 {
        (p.screen_row - 3) as u16
    } else {
        (p.screen_row + 1) as u16
    };
    let x = max16(min16(sat_sub(p.screen_col, 2), (panel.x + sat_sub(panel.width, w)) as u16), panel.x);
    let y = max16(min16(raw_y, (panel.y + sat_sub(panel.height, 3)) as u16), panel.y);
    (x, y)
}

/// Rendering the preview involves no `u16` overflow: the width (from the
/// hex text's byte length cut to `u16`), the position, and the columns of
/// the hex text's characters all fit.
pub open spec fn preview_ok(p: ColorPreview, panel: Rect) -> bool {
    let w = preview_width(p.hex@);
    let (x, y) = preview_origin(p, panel);
    &&& hex_len16(p.hex@) + 7 <= u16::MAX
    &&& preview_fits(p, panel) ==> {
        &&& panel.y + 3 <= u16::MAX
        &&& panel.x + sat_sub(panel.width, w as u16) <= u16::MAX
        &&& panel.y + sat_sub(panel.height, 3) <= u16::MAX
        &&& x + w <= u16::MAX + 1
        &&& x + 5 + p.hex@.len() <= u16::MAX + 1
        &&& y + 2 <= u16::MAX
    }
}

/// A cell at `(x, y)` when the buffer holds it.
pub open spec fn color_cell(x: int, y: int, ch: char, style: Style, buf: Rect) -> Seq<ColorCell> {
    if buf.contains_spec(x, y) {
        seq![ColorCell { x: x as u16, y: y as u16, ch, style }]
    } else {
        Seq::empty()
    }
}

/// Border cells `─` of row `y` at columns `bx + col` to `bx + end`.
pub open spec fn border_run(bx: int, y: int, col: int, end: int, buf: Rect) -> Seq<ColorCell>
    decreases end - col,
{
    if col >= end {
        Seq::empty()
    } else {
        color_cell(bx + col, y, '─', border_style(), buf) + border_run(bx, y, col + 1, end, buf)
    }
}

/// The hex text's cells from column `x` on.
pub open spec fn hex_cells(chars: Seq<char>, x: int, y: int, buf: Rect) -> Seq<ColorCell>
    decreases chars.len(),
{
    if chars.len() == 0 {
        Seq::empty()
    } else {
        color_cell(x, y, chars[0], content_style(), buf) + hex_cells(chars.drop_first(), x + 1, y, buf)
    }
}

/// The cell writes of the preview with its top-left corner at `(bx, by)`:
/// a border around one content row holding a space, a two-cell swatch, a
/// space, the hex text and a space.
pub open spec fn preview_cells(hex: Seq<char>, bx: int, by: int, swatch: Style, buf: Rect) -> Seq<ColorCell> {
    let w = preview_width(hex);
    let hl = hex_len16(hex) as int;
    let cy = by + 1;
    let by2 = by + 2;
    color_cell(bx, by, '┌', border_style(), buf) + border_run(bx, by, 1, w - 1, buf)
        + color_cell(bx + w - 1, by, '┐', border_style(), buf)
        + color_cell(bx, cy, '│', border_style(), buf)
        + color_cell(bx + 1, cy, ' ', content_style(), buf)
        + color_cell(bx + 2, cy, '█', swatch, buf)
        + color_cell(bx + 3, cy, '█', swatch, buf)
        + color_cell(bx + 4, cy, ' ', content_style(), buf)
        + hex_cells(hex, bx + 5, cy, buf)
        + color_cell(bx + 5 + hl, cy, ' ', content_style(), buf)
        + color_cell(bx + w - 1, cy, '│', border_style(), buf)
        + color_cell(bx, by2, '└', border_style(), buf)
        + border_run(bx, by2, 1, w - 1, buf)
        + color_cell(bx + w - 1, by2, '┘', border_style(), buf)
}

/// The preview's cell writes in `panel`: nothing when it does not fit.
pub open spec fn preview_layout_spec(p: ColorPreview, panel: Rect, buf: Rect) -> Seq<ColorCell> {
    if !preview_fits(p, panel) {
        Seq::empty()
    } else {
        let (x, y) = preview_origin(p, panel);
        preview_cells(p.hex@, x as int, y as int, swatch_style(p.r, p.g, p.b), buf)
    }
}

/// When the preview fits in the panel, it stays inside the panel wherever
/// the click is.
pub proof fn lemma_preview_inside_panel(p: ColorPreview, panel: Rect)
    requires
        preview_fits(p, panel),
        vstd::utf8::encode_utf8(p.hex@).len() + 7 <= u16::MAX,
        panel.x + panel.width <= u16::MAX,
        panel.y + panel.height <= u16::MAX,
    ensures
        panel.x <= preview_origin(p, panel).0,
        preview_origin(p, panel).0 + preview_width(p.hex@) <= panel.x + panel.width,
        panel.y <= preview_origin(p, panel).1,
        preview_origin(p, panel).1 + 3 <= panel.y + panel.height,
{
}

/// Whether each cell lies in the columns `x0..x1` and rows `y0..y1`, and
/// in the buffer.
pub open spec fn cells_within(cells: Seq<ColorCell>, x0: int, y0: int, x1: int, y1: int, buf: Rect) -> bool {
    forall|i: int|
        0 <= i < cells.len() ==> {
            &&& x0 <= #[trigger] cells[i].x < x1
            &&& y0 <= cells[i].y < y1
            &&& buf.contains_spec(cells[i].x as int, cells[i].y as int)
        }
}

proof fn lemma_cells_within_concat(a: Seq<ColorCell>, b: Seq<ColorCell>, x0: int, y0: int, x1: int, y1: int, buf: Rect)
    requires
        cells_within(a, x0, y0, x1, y1, buf),
        cells_within(b, x0, y0, x1, y1, buf),
    ensures
        cells_within(a + b, x0, y0, x1, y1, buf),
{
    assert forall|i: int| 0 <= i < (a + b).len() implies {
        &&& x0 <= #[trigger] (a + b)[i].x < x1
        &&& y0 <= (a + b)[i].y < y1
        &&& buf.contains_spec((a + b)[i].x as int, (a + b)[i].y as int)
    } by {
        if i < a.len() {
            assert((a + b)[i] == a[i]);
        } else {
            assert((a + b)[i] == b[i - a.len()]);
        }
    }
}

proof fn lemma_color_cell_within(x: int, y: int, ch: char, style: Style, buf: Rect, x0: int, y0: int, x1: int, y1: int)
    requires
        x0 <= x < x1,
        y0 <= y < y1,
    ensures
        cells_within(color_cell(x, y, ch, style, buf), x0, y0, x1, y1, buf),
{
}

proof fn lemma_border_run_within(bx: int, y: int, col: int, end: int, buf: Rect)
    requires
        y >= 0,
    ensures
        cells_within(border_run(bx, y, col, end, buf), bx + col, y, bx + end, y + 1, buf),
    decreases end - col,
{
    if col < end {
        lemma_border_run_within(bx, y, col + 1, end, buf);
        lemma_color_cell_within(bx + col, y, '─', border_style(), buf, bx + col, y, bx + end, y + 1);
        lemma_cells_within_concat(
            color_cell(bx + col, y, '─', border_style(), buf),
            border_run(bx, y, col + 1, end, buf),
            bx + col,
            y,
            bx + end,
            y + 1,
            buf,
        );
    }
}

proof fn lemma_hex_cells_within(chars: Seq<char>, x: int, y: int, buf: Rect)
    requires
        y >= 0,
    ensures
        cells_within(hex_cells(chars, x, y, buf), x, y, x + chars.len(), y + 1, buf),
    decreases chars.len(),
{
    if chars.len() > 0 {
        lemma_hex_cells_within(chars.drop_first(), x + 1, y, buf);
        lemma_color_cell_within(x, y, chars[0], content_style(), buf, x, y, x + chars.len(), y + 1);
        lemma_cells_within_concat(
            color_cell(x, y, chars[0], content_style(), buf),
            hex_cells(chars.drop_first(), x + 1, y, buf),
            x,
            y,
            x + chars.len(),
            y + 1,
            buf,
        );
    }
}

fn push_color_cell(out: &mut Vec<ColorCell>, x: u16, y: u16, ch: char, style: Style, buf: Rect)
    ensures
        final(out)@ == old(out)@ + color_cell(x as int, y as int, ch, style, buf),
{
    if x >= buf.left() && x < buf.right() && y >= buf.top() && y < buf.bottom() {
        out.push(ColorCell { x, y, ch, style });
        proof {
            assert(final(out)@ =~= old(out)@ + color_cell(x as int, y as int, ch, style, buf));
        }
    } else {
        proof {
            assert(final(out)@ =~= old(out)@ + color_cell(x as int, y as int, ch, style, buf));
        }
    }
}

fn push_border_run(out: &mut Vec<ColorCell>, bx: u16, y: u16, end: u16, buf: Rect)
    requires
        bx + end <= u16::MAX + 1,
    ensures
        final(out)@ == old(out)@ + border_run(bx as int, y as int, 1, end as int, buf),
{
    let mut col: u16 = 1;
    proof {
        assert(old(out)@ + border_run(bx as int, y as int, 1, end as int, buf) == out@ + border_run(
            bx as int,
            y as int,
            col as int,
            end as int,
            buf,
        ));
    }
    while col < end
        invariant
            1 <= col,
            bx + end <= u16::MAX + 1,
            old(out)@ + border_run(bx as int, y as int, 1, end as int, buf) == out@ + border_run(
                bx as int,
                y as int,
                col as int,
                end as int,
                buf,
            ),
        decreases end - col,
    {
        let ghost before = out@;
        push_color_cell(out, bx + col, y, '─', border_style_of(), buf);
        proof {
            assert(before + border_run(bx as int, y as int, col as int, end as int, buf) =~= out@
                + border_run(bx as int, y as int, col + 1, end as int, buf));
        }
        col = col + 1;
    }
    proof {
        assert(out@ + border_run(bx as int, y as int, col as int, end as int, buf) =~= out@);
    }
}

fn push_hex_cells(out: &mut Vec<ColorCell>, hex: &Vec<char>, x0: u16, y: u16, buf: Rect)
    requires
        x0 + hex@.len() <= u16::MAX + 1,
    ensures
        final(out)@ == old(out)@ + hex_cells(hex@, x0 as int, y as int, buf),
{
    let mut i: usize = 0;
    proof {
        assert(hex@.subrange(0, hex@.len() as int) =~= hex@);
    }
    while i < hex.len()
        invariant
            i <= hex@.len(),
            x0 + hex@.len() <= u16::MAX + 1,
            old(out)@ + hex_cells(hex@, x0 as int, y as int, buf) == out@ + hex_cells(
                hex@.subrange(i as int, hex@.len() as int),
                x0 + i,
                y as int,
                buf,
            ),
        decreases hex@.len() - i,
    {
        let c = hex[i];
        let ghost before = out@;
        let ghost rest = hex@.subrange(i as int, hex@.len() as int);
        push_color_cell(out, x0 + i as u16, y, c, content_style_of(), buf);
        proof {
            assert(rest[0] == c);
            assert(rest.drop_first() =~= hex@.subrange(i + 1, hex@.len() as int));
            lemma_hex_cells_step(rest, c, x0 + i, y as int, buf);
            assert(before + hex_cells(rest, x0 + i, y as int, buf) =~= out@ + hex_cells(
                rest.drop_first(),
                x0 + i + 1,
                y as int,
                buf,
            ));
        }
        i = i + 1;
    }
    proof {
        assert(out@ + hex_cells(hex@.subrange(i as int, hex@.len() as int), x0 + i, y as int, buf)
            =~= out@);
    }
}

proof fn lemma_hex_cells_step(rest: Seq<char>, c: char, x: int, y: int, buf: Rect)
    requires
        rest.len() > 0,
        rest[0] == c,
    ensures
        hex_cells(rest, x, y, buf) == color_cell(x, y, c, content_style(), buf) + hex_cells(
            rest.drop_first(),
            x + 1,
            y,
            buf,
        ),
{
}

proof fn lemma_byte_len_ge_len(s: Seq<char>)
    ensures
        byte_len(s) >= s.len(),
    decreases s.len(),
{
    if s.len() > 0 {
        lemma_byte_len_ge_len(s.drop_last());
    }
}

proof fn lemma_encode_len_ge_len(s: Seq<char>)
    ensures
        vstd::utf8::encode_utf8(s).len() >= s.len(),
    decreases s.len(),
{
    if s.len() > 0 {
        lemma_encode_len_ge_len(s.drop_first());
    }
}

proof fn lemma_cells_within_widen(c: Seq<ColorCell>, x0: int, y0: int, x1: int, y1: int, a0: int, b0: int, a1: int, b1: int, buf: Rect)
    requires
        cells_within(c, x0, y0, x1, y1, buf),
        a0 <= x0,
        b0 <= y0,
        x1 <= a1,
        y1 <= b1,
    ensures
        cells_within(c, a0, b0, a1, b1, buf),
{
}

/// Every cell the preview writes lies inside the popup's box, the three
/// rows and [`preview_width`] columns at its origin, which itself lies in
/// the panel; and inside the buffer.
pub proof fn lemma_preview_cells_inside(p: ColorPreview, panel: Rect, buf: Rect)
    requires
        vstd::utf8::encode_utf8(p.hex@).len() + 7 <= u16::MAX,
        panel.x + panel.width <= u16::MAX,
        panel.y + panel.height <= u16::MAX,
    ensures
        cells_within(
            preview_layout_spec(p, panel, buf),
            preview_origin(p, panel).0 as int,
            preview_origin(p, panel).1 as int,
            preview_origin(p, panel).0 + preview_width(p.hex@),
            preview_origin(p, panel).1 + 3,
            buf,
        ),
        cells_within(
            preview_layout_spec(p, panel, buf),
            panel.x as int,
            panel.y as int,
            panel.x + panel.width,
            panel.y + panel.height,
            buf,
        ),
{
    let (ox, oy) = preview_origin(p, panel);
    let x0 = ox as int;
    let y0 = oy as int;
    let hex = p.hex@;
    let w = preview_width(hex);
    let x1 = x0 + w;
    let y1 = y0 + 3;
    if !preview_fits(p, panel) {
        assert(preview_layout_spec(p, panel, buf) =~= Seq::<ColorCell>::empty());
        return;
    }
    lemma_preview_inside_panel(p, panel);
    lemma_encode_len_ge_len(hex);
    let hl = hex_len16(hex) as int;
    assert(hl == vstd::utf8::encode_utf8(hex).len());
    let cy = y0 + 1;
    let by2 = y0 + 2;
    let mut acc = color_cell(x0, y0, '┌', border_style(), buf);
    lemma_color_cell_within(x0, y0, '┌', border_style(), buf, x0, y0, x1, y1);
    lemma_border_run_within(x0, y0, 1, w - 1, buf);
    lemma_cells_within_widen(border_run(x0, y0, 1, w - 1, buf), x0 + 1, y0, x0 + w - 1, y0 + 1, x0, y0, x1, y1, buf);
    lemma_cells_within_concat(acc, border_run(x0, y0, 1, w - 1, buf), x0, y0, x1, y1, buf);
    acc = acc + border_run(x0, y0, 1, w - 1, buf);
    let c = color_cell(x0 + w - 1, y0, '┐', border_style(), buf);
    lemma_color_cell_within(x0 + w - 1, y0, '┐', border_style(), buf, x0, y0, x1, y1);
    lemma_cells_within_concat(acc, c, x0, y0, x1, y1, buf);
    acc = acc + c;
    let c = color_cell(x0, cy, '│', border_style(), buf);
    lemma_color_cell_within(x0, cy, '│', border_style(), buf, x0, y0, x1, y1);
    lemma_cells_within_concat(acc, c, x0, y0, x1, y1, buf);
    acc = acc + c;
    let c = color_cell(x0 + 1, cy, ' ', content_style(), buf);
    lemma_color_cell_within(x0 + 1, cy, ' ', content_style(), buf, x0, y0, x1, y1);
    lemma_cells_within_concat(acc, c, x0, y0, x1, y1, buf);
    acc = acc + c;
    let c = color_cell(x0 + 2, cy, '█', swatch_style(p.r, p.g, p.b), buf);
    lemma_color_cell_within(x0 + 2, cy, '█', swatch_style(p.r, p.g, p.b), buf, x0, y0, x1, y1);
    lemma_cells_within_concat(acc, c, x0, y0, x1, y1, buf);
    acc = acc + c;
    let c = color_cell(x0 + 3, cy, '█', swatch_style(p.r, p.g, p.b), buf);
    lemma_color_cell_within(x0 + 3, cy, '█', swatch_style(p.r, p.g, p.b), buf, x0, y0, x1, y1);
    lemma_cells_within_concat(acc, c, x0, y0, x1, y1, buf);
    acc = acc + c;
    let c = color_cell(x0 + 4, cy, ' ', content_style(), buf);
    lemma_color_cell_within(x0 + 4, cy, ' ', content_style(), buf, x0, y0, x1, y1);
    lemma_cells_within_concat(acc, c, x0, y0, x1, y1, buf);
    acc = acc + c;
    let c = hex_cells(hex, x0 + 5, cy, buf);
    lemma_hex_cells_within(hex, x0 + 5, cy, buf);
    lemma_cells_within_widen(c, x0 + 5, cy, x0 + 5 + hex.len(), cy + 1, x0, y0, x1, y1, buf);
    lemma_cells_within_concat(acc, c, x0, y0, x1, y1, buf);
    acc = acc + c;
    let c = color_cell(x0 + 5 + hl, cy, ' ', content_style(), buf);
    lemma_color_cell_within(x0 + 5 + hl, cy, ' ', content_style(), buf, x0, y0, x1, y1);
    lemma_cells_within_concat(acc, c, x0, y0, x1, y1, buf);
    acc = acc + c;
    let c = color_cell(x0 + w - 1, cy, '│', border_style(), buf);
    lemma_color_cell_within(x0 + w - 1, cy, '│', border_style(), buf, x0, y0, x1, y1);
    lemma_cells_within_concat(acc, c, x0, y0, x1, y1, buf);
    acc = acc + c;
    let c = color_cell(x0, by2, '└', border_style(), buf);
    lemma_color_cell_within(x0, by2, '└', border_style(), buf, x0, y0, x1, y1);
    lemma_cells_within_concat(acc, c, x0, y0, x1, y1, buf);
    acc = acc + c;
    let c = border_run(x0, by2, 1, w - 1, buf);
    lemma_border_run_within(x0, by2, 1, w - 1, buf);
    lemma_cells_within_widen(c, x0 + 1, by2, x0 + w - 1, by2 + 1, x0, y0, x1, y1, buf);
    lemma_cells_within_concat(acc, c, x0, y0, x1, y1, buf);
    acc = acc + c;
    let c = color_cell(x0 + w - 1, by2, '┘', border_style(), buf);
    lemma_color_cell_within(x0 + w - 1, by2, '┘', border_style(), buf, x0, y0, x1, y1);
    lemma_cells_within_concat(acc, c, x0, y0, x1, y1, buf);
    acc = acc + c;
    assert(acc == preview_layout_spec(p, panel, buf));
    lemma_cells_within_widen(
        acc,
        x0,
        y0,
        x1,
        y1,
        panel.x as int,
        panel.y as int,
        panel.x + panel.width,
        panel.y + panel.height,
        buf,
    );
}

impl ColorPreview {
    /// The cell writes of the popup in `panel_area`, for a buffer whose area
    /// is `buf_area`; none when the panel is too small.
    ///
    /// Layout (3 rows):
    /// ```text
    /// ┌────────────┐
    /// │ ██ #aabbcc │
    /// └────────────┘
    /// ```
    pub fn layout(&self, panel_area: Rect, buf_area: Rect) -> (res: Vec<ColorCell>)
        requires
            preview_ok(*self, panel_area),
        ensures
            res@ == preview_layout_spec(*self, panel_area, buf_area),
    {
        let hex_len = self.hex.as_str().len() as u16;
        // width = │ + space + ██ + space + hex + space + │
        let popup_width = hex_len + 7;
        let popup_height: u16 = 3;
        let mut cells: Vec<ColorCell> = Vec::new();
        if panel_area.width < popup_width || panel_area.height < popup_height {
            return cells;
        }
        // Place 1 row above the click, or below if there's no room
        let raw_y = if self.screen_row >= panel_area.y + popup_height {
            self.screen_row - popup_height
        } else {
            self.screen_row + 1
        };
        // Clamp x so popup stays inside panel
        let sx = self.screen_col.saturating_sub(2);
        let lim_x = panel_area.x + panel_area.width.saturating_sub(popup_width);
        let mx = if sx <= lim_x {
            sx
        } else {
            lim_x
        };
        let popup_x = if mx >= panel_area.x {
            mx
        } else {
            panel_area.x
        };
        // Clamp y
        let lim_y = panel_area.y + panel_area.height.saturating_sub(popup_height);
        let my = if raw_y <= lim_y {
            raw_y
        } else {
            lim_y
        };
        let popup_y = if my >= panel_area.y {
            my
        } else {
            panel_area.y
        };
        let bx = popup_x;
        let by = popup_y;
        let hex = chars_of(self.hex.as_str());
        proof {
            assert(hex_len == hex_len16(self.hex@));
            lemma_encode_len_ge_len(hex@);
        }
        let border = border_style_of();
        let content = content_style_of();
        let swatch = swatch_style_of(self.r, self.g, self.b);
        // Top border row
        push_color_cell(&mut cells, bx, by, '┌', border, buf_area);
        push_border_run(&mut cells, bx, by, popup_width - 1, buf_area);
        push_color_cell(&mut cells, bx + (popup_width - 1), by, '┐', border, buf_area);
        // Content row
        let cy = by + 1;
        push_color_cell(&mut cells, bx, cy, '│', border, buf_area);
        push_color_cell(&mut cells, bx + 1, cy, ' ', content, buf_area);
        push_color_cell(&mut cells, bx + 2, cy, '█', swatch, buf_area);
        push_color_cell(&mut cells, bx + 3, cy, '█', swatch, buf_area);
        push_color_cell(&mut cells, bx + 4, cy, ' ', content, buf_area);
        push_hex_cells(&mut cells, &hex, bx + 5, cy, buf_area);
        push_color_cell(&mut cells, bx + 5 + hex_len, cy, ' ', content, buf_area);
        push_color_cell(&mut cells, bx + (popup_width - 1), cy, '│', border, buf_area);
        // Bottom border row
        let by2 = by + 2;
        push_color_cell(&mut cells, bx, by2, '└', border, buf_area);
        push_border_run(&mut cells, bx, by2, popup_width - 1, buf_area);
        push_color_cell(&mut cells, bx + (popup_width - 1), by2, '┘', border, buf_area);
        proof {
            assert((bx, by) == preview_origin(*self, panel_area));
            assert(cells@ =~= preview_cells(self.hex@, bx as int, by as int, swatch, buf_area));
        }
        cells
    }

    /// Whether rendering in `panel_area` stays within `u16`.
    fn check_render(&self, panel_area: Rect) -> (res: bool)
        ensures
            res == preview_ok(*self, panel_area),
    {
        let hl = self.hex.as_str().len() as u16;
        if hl > u16::MAX - 7 {
            return false;
        }
        let w = hl + 7;
        if panel_area.width < w || panel_area.height < 3 {
            return true;
        }
        if panel_area.y > u16::MAX - 3 {
            return false;
        }
        let lim_x32 = panel_area.x as u32 + panel_area.width.saturating_sub(w) as u32;
        let lim_y32 = panel_area.y as u32 + (panel_area.height - 3) as u32;
        if lim_x32 > u16::MAX as u32 || lim_y32 > u16::MAX as u32 {
            return false;
        }
        let lim_x = lim_x32 as u16;
        let lim_y = lim_y32 as u16;
        let raw_y = if self.screen_row >= panel_area.y + 3 {
            self.screen_row - 3
        } else {
            self.screen_row + 1
        };
        let sx = self.screen_col.saturating_sub(2);
        let mx = if sx <= lim_x {
            sx
        } else {
            lim_x
        };
        let x = if mx >= panel_area.x {
            mx
        } else {
            panel_area.x
        };
        let my = if raw_y <= lim_y {
            raw_y
        } else {
            lim_y
        };
        let y = if my >= panel_area.y {
            my
        } else {
            panel_area.y
        };
        let n = chars_of(self.hex.as_str()).len();
        proof {
            assert(hl == hex_len16(self.hex@));
            assert((x, y) == preview_origin(*self, panel_area));
        }
        (x as u32) + (w as u32) <= u16::MAX as u32 + 1 && (x as usize) + 5 <= u16::MAX as usize + 1 && n
            <= u16::MAX as usize + 1 - 5 - (x as usize) && (y as u32) + 2 <= u16::MAX as u32
    }

    /// Render the popup constrained to `panel_area`, for a buffer whose
    /// area is `buf_area`: the cell writes, none when the panel is too
    /// small; `None` when the sizes or positions would overflow `u16`.
    pub fn render(&self, panel_area: Rect, buf_area: Rect) -> (res: Option<Vec<ColorCell>>)
        ensures
            match res {
                Some(cells) => preview_ok(*self, panel_area) && cells@ == preview_layout_spec(
                    *self,
                    panel_area,
                    buf_area,
                ),
                None => !preview_ok(*self, panel_area),
            },
    {
        if self.check_render(panel_area) {
            Some(self.layout(panel_area, buf_area))
        } else {
            None
        }
    }
}

} // verus!
