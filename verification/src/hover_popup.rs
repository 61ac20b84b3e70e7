//! Hover popup for LSP hover information.
//!
//! Turns the contents of an LSP hover response into word-wrapped lines,
//! keeps the scroll position, and lays the popup out at a click position.

use vstd::prelude::*;
use crate::text;
use crate::text::{
    chars_of, is_blank_chars, is_whitespace, next_line, push_all, skip_ws_backward,
    skip_ws_forward, string_of, string_of_all, subvec,
};
use crate::unicode;
use crate::unicode::{char_display_width, display_width};
use crate::geometry::{max16, min16, sat_add, sat_sub, Rect};

verus! {

/// Maximum width of the hover popup.
pub const MAX_POPUP_WIDTH: u16 = 80;

/// Maximum height of the hover popup.
pub const MAX_POPUP_HEIGHT: u16 = 15;

/// Minimum width of the hover popup.
pub const MIN_POPUP_WIDTH: u16 = 20;

/// Width that hover text is wrapped to (the popup width minus padding).
pub const WRAP_WIDTH: usize = 78;

// ---------------------------------------------------------------------------
// Hover contents (the shape of an LSP `Hover`)
// ---------------------------------------------------------------------------

/// A code block with the language it is written in.
pub struct LanguageString {
    pub language: String,
    pub value: String,
}

/// Hover text: plain markdown or a code block.
pub enum MarkedString {
    String(String),
    LanguageString(LanguageString),
}

/// How markup content is written.
pub enum MarkupKind {
    PlainText,
    Markdown,
}

/// Markup content of a hover.
pub struct MarkupContent {
    pub kind: MarkupKind,
    pub value: String,
}

/// The contents of a hover response.
pub enum HoverContents {
    Scalar(MarkedString),
    Array(Vec<MarkedString>),
    Markup(MarkupContent),
}

/// A position in a text document (zero-based line and character).
pub struct Position {
    pub line: u32,
    pub character: u32,
}

/// A range in a text document.
pub struct Range {
    pub start: Position,
    pub end: Position,
}

/// An LSP hover response.
pub struct Hover {
    pub contents: HoverContents,
    pub range: Option<Range>,
}

// ---------------------------------------------------------------------------
// From hover contents to text
// ---------------------------------------------------------------------------

/// The text of a marked string; blank text gives nothing, and a code block is
/// fenced with its language.
pub open spec fn marked_text(m: MarkedString) -> Option<Seq<char>> {
    match m {
        MarkedString::String(s) => if text::is_blank(s@) {
            None
        } else {
            Some(s@)
        },
        MarkedString::LanguageString(ls) => if text::is_blank(ls.value@) {
            None
        } else {
            Some("```"@ + ls.language@ + "\n"@ + ls.value@ + "\n```"@)
        },
    }
}

/// The texts of the marked strings that have some, in order.
pub open spec fn marked_texts(arr: Seq<MarkedString>) -> Seq<Seq<char>> {
    arr.filter_map(|m: MarkedString| marked_text(m))
}

/// The raw text of hover contents, before wrapping.
pub open spec fn raw_text(contents: HoverContents) -> Option<Seq<char>> {
    match contents {
        HoverContents::Scalar(m) => marked_text(m),
        HoverContents::Markup(mc) => Some(mc.value@),
        HoverContents::Array(arr) => {
            let texts = marked_texts(arr@);
            if texts.len() == 0 {
                None
            } else {
                Some(text::join_with(texts, "\n\n"@))
            }
        },
    }
}

/// The character views of a list of strings.
pub open spec fn string_views(v: Seq<String>) -> Seq<Seq<char>> {
    v.map_values(|s: String| s@)
}

/// Convert a MarkedString to plain text.
pub fn marked_string_to_text(marked: &MarkedString) -> (res: Option<String>)
    ensures
        match res {
            Some(s) => marked_text(*marked) == Some(s@),
            None => marked_text(*marked) is None,
        },
{
    match marked {
        MarkedString::String(s) => {
            if is_blank_chars(&chars_of(s.as_str())) {
                None
            } else {
                Some(s.clone())
            }
        },
        MarkedString::LanguageString(ls) => {
            if is_blank_chars(&chars_of(ls.value.as_str())) {
                None
            } else {
                let mut v = chars_of("```");
                push_all(&mut v, &chars_of(ls.language.as_str()));
                push_all(&mut v, &chars_of("\n"));
                push_all(&mut v, &chars_of(ls.value.as_str()));
                push_all(&mut v, &chars_of("\n```"));
                Some(string_of_all(&v))
            }
        },
    }
}

/// The strings joined with `sep` between each two.
pub fn join_strings(parts: &Vec<String>, sep: &str) -> (res: String)
    ensures
        res@ == text::join_with(string_views(parts@), sep@),
{
    let mut v: Vec<char> = Vec::new();
    let sep_chars = chars_of(sep);
    let mut i: usize = 0;
    while i < parts.len()
        invariant
            i <= parts@.len(),
            sep_chars@ == sep@,
            v@ == text::join_with(string_views(parts@).take(i as int), sep@),
        decreases parts@.len() - i,
    {
        let ghost views = string_views(parts@);
        if i > 0 {
            push_all(&mut v, &sep_chars);
        }
        push_all(&mut v, &chars_of(parts[i].as_str()));
        proof {
            assert(views.take(i + 1).drop_last() =~= views.take(i as int));
            assert(views.take(i + 1).last() == parts@[i as int]@);
            if i == 0 {
                assert(views.take(1)[0] == parts@[0]@);
                assert(v@ =~= text::join_with(views.take(1), sep@));
            }
        }
        i = i + 1;
    }
    proof {
        assert(string_views(parts@).take(parts@.len() as int) =~= string_views(parts@));
    }
    string_of_all(&v)
}

// ---------------------------------------------------------------------------
// Word wrapping
// ---------------------------------------------------------------------------

/// Number of `' '` characters the text starts with.
pub open spec fn leading_space_count(s: Seq<char>) -> nat
    decreases s.len(),
{
    if s.len() > 0 && s[0] == ' ' {
        1 + leading_space_count(s.drop_first())
    } else {
        0
    }
}

/// Index of the first whitespace character (or the length).
pub open spec fn word_end(s: Seq<char>) -> nat
    decreases s.len(),
{
    if s.len() == 0 || text::is_ws(s[0]) {
        0
    } else {
        1 + word_end(s.drop_first())
    }
}

/// A word ends within the text, and a text that starts with a non-space
/// character has a nonempty first word.
pub proof fn lemma_word_end_bounds(s: Seq<char>)
    ensures
        word_end(s) <= s.len(),
        s.len() > 0 && !text::is_ws(s[0]) ==> word_end(s) >= 1,
    decreases s.len(),
{
    if s.len() > 0 && !text::is_ws(s[0]) {
        lemma_word_end_bounds(s.drop_first());
    }
}

/// `trim_start` leaves a suffix that starts with a non-space character.
pub proof fn lemma_trim_start_shape(s: Seq<char>)
    ensures
        text::trim_start(s).len() <= s.len(),
        text::trim_start(s).len() > 0 ==> !text::is_ws(text::trim_start(s)[0]),
    decreases s.len(),
{
    if s.len() > 0 && text::is_ws(s[0]) {
        lemma_trim_start_shape(s.drop_first());
    }
}

/// `str::split_whitespace`: the maximal runs of non-whitespace characters.
pub open spec fn split_ws(s: Seq<char>) -> Seq<Seq<char>>
    decreases s.len(),
{
    let t = text::trim_start(s);
    proof {
        lemma_trim_start_shape(s);
        lemma_word_end_bounds(t);
    }
    if t.len() == 0 {
        Seq::empty()
    } else {
        let k = word_end(t) as int;
        seq![t.subrange(0, k)] + split_ws(t.subrange(k, t.len() as int))
    }
}

/// The state of wrapping a line's words: lines finished so far, the line
/// being filled, and its width.
pub struct WrapState {
    pub done: Seq<Seq<char>>,
    pub current: Seq<char>,
    pub width: int,
}

/// Places one word: on the line being filled while it is still empty (only
/// its indentation) or while the word fits after a space; otherwise the line
/// is finished and the word starts a new line with the same indentation.
pub open spec fn wrap_step(st: WrapState, word: Seq<char>, lead: Seq<char>, max: int) -> WrapState {
    let ww = unicode::str_width(word) as int;
    if st.width == lead.len() {
        WrapState { done: st.done, current: st.current + word, width: st.width + ww }
    } else if st.width + 1 + ww <= max {
        WrapState { done: st.done, current: st.current + seq![' '] + word, width: st.width + 1 + ww }
    } else {
        WrapState { done: st.done.push(st.current), current: lead + word, width: lead.len() + ww }
    }
}

/// The words placed one after the other, starting from an empty line
/// holding only the indentation.
pub open spec fn wrap_words(words: Seq<Seq<char>>, lead: Seq<char>, max: int) -> WrapState
    decreases words.len(),
{
    if words.len() == 0 {
        WrapState { done: Seq::empty(), current: lead, width: lead.len() as int }
    } else {
        wrap_step(wrap_words(words.drop_last(), lead, max), words.last(), lead, max)
    }
}

/// One line of text wrapped to `max` columns: a blank line stays one empty
/// line, a line that fits stays as it is (without trailing whitespace), and
/// a longer one is broken between words, keeping its indentation.
pub open spec fn wrap_line(line: Seq<char>, max: int) -> Seq<Seq<char>> {
    let trimmed = text::trim_end(line);
    if trimmed.len() == 0 {
        seq![Seq::empty()]
    } else if unicode::str_width(trimmed) <= max {
        seq![trimmed]
    } else {
        let lead = line.subrange(0, leading_space_count(line) as int);
        let st = wrap_words(split_ws(text::trim_start(trimmed)), lead, max);
        if text::is_blank(st.current) {
            st.done
        } else {
            st.done.push(st.current)
        }
    }
}

/// Each line wrapped, one after the other.
pub open spec fn wrap_lines(lines: Seq<Seq<char>>, max: int) -> Seq<Seq<char>>
    decreases lines.len(),
{
    if lines.len() == 0 {
        Seq::empty()
    } else {
        wrap_lines(lines.drop_last(), max) + wrap_line(lines.last(), max)
    }
}

/// The lines of a text wrapped to `max` columns.
pub open spec fn wrap_text_spec(t: Seq<char>, max: int) -> Seq<Seq<char>> {
    wrap_lines(text::lines_of(t), max)
}

proof fn lemma_word_end_at(s: Seq<char>, k: int)
    requires
        0 <= k <= s.len(),
        forall|i: int| 0 <= i < k ==> !text::is_ws(#[trigger] s[i]),
        k == s.len() || text::is_ws(s[k]),
    ensures
        word_end(s) == k,
    decreases k,
{
    if k > 0 {
        let t = s.drop_first();
        assert forall|i: int| 0 <= i < k - 1 implies !text::is_ws(#[trigger] t[i]) by {
            assert(t[i] == s[i + 1]);
        }
        if k - 1 < t.len() {
            assert(t[k - 1] == s[k]);
        }
        assert(!text::is_ws(s[0]));
        lemma_word_end_at(t, k - 1);
    }
}

proof fn lemma_leading_space_count_at(s: Seq<char>, k: int)
    requires
        0 <= k <= s.len(),
        forall|i: int| 0 <= i < k ==> #[trigger] s[i] == ' ',
        k == s.len() || s[k] != ' ',
    ensures
        leading_space_count(s) == k,
    decreases k,
{
    if k > 0 {
        let t = s.drop_first();
        assert forall|i: int| 0 <= i < k - 1 implies #[trigger] t[i] == ' ' by {
            assert(t[i] == s[i + 1]);
        }
        if k - 1 < t.len() {
            assert(t[k - 1] == s[k]);
        }
        assert(s[0] == ' ');
        lemma_leading_space_count_at(t, k - 1);
    }
}

proof fn lemma_all_ws_trim_start(s: Seq<char>)
    requires
        forall|i: int| 0 <= i < s.len() ==> text::is_ws(#[trigger] s[i]),
    ensures
        text::trim_start(s).len() == 0,
    decreases s.len(),
{
    if s.len() > 0 {
        let t = s.drop_first();
        assert forall|i: int| 0 <= i < t.len() implies text::is_ws(#[trigger] t[i]) by {
            assert(t[i] == s[i + 1]);
        }
        lemma_all_ws_trim_start(t);
    }
}

proof fn lemma_trim_start_concat(a: Seq<char>, b: Seq<char>)
    ensures
        text::trim_start(a + b) == (if text::trim_start(a).len() > 0 {
            text::trim_start(a) + b
        } else {
            text::trim_start(b)
        }),
    decreases a.len(),
{
    if a.len() == 0 {
        assert(a + b =~= b);
    } else if text::is_ws(a[0]) {
        assert((a + b)[0] == a[0]);
        assert((a + b).drop_first() =~= a.drop_first() + b);
        lemma_trim_start_concat(a.drop_first(), b);
    } else {
        assert((a + b)[0] == a[0]);
    }
}

proof fn lemma_trim_start_suffix(s: Seq<char>)
    ensures
        text::trim_start(s).len() <= s.len(),
        text::trim_start(s) == s.subrange(s.len() - text::trim_start(s).len(), s.len() as int),
    decreases s.len(),
{
    if s.len() > 0 && text::is_ws(s[0]) {
        let t = s.drop_first();
        lemma_trim_start_suffix(t);
        assert(t.subrange(t.len() - text::trim_start(t).len(), t.len() as int) =~= s.subrange(
            s.len() - text::trim_start(t).len(),
            s.len() as int,
        ));
    } else {
        assert(s.subrange(0, s.len() as int) =~= s);
    }
}

proof fn lemma_word_end_concat(t: Seq<char>, b: Seq<char>)
    ensures
        word_end(t + b) == (if word_end(t) < t.len() {
            word_end(t)
        } else {
            t.len() + word_end(b)
        }),
    decreases t.len(),
{
    lemma_word_end_bounds(t);
    if t.len() == 0 {
        assert(t + b =~= b);
    } else {
        assert((t + b)[0] == t[0]);
        if !text::is_ws(t[0]) {
            assert((t + b).drop_first() =~= t.drop_first() + b);
            lemma_word_end_concat(t.drop_first(), b);
        }
    }
}

proof fn lemma_word_end_chars(t: Seq<char>)
    ensures
        forall|i: int| 0 <= i < word_end(t) ==> !text::is_ws(#[trigger] t[i]),
    decreases t.len(),
{
    if t.len() > 0 && !text::is_ws(t[0]) {
        let u = t.drop_first();
        lemma_word_end_chars(u);
        lemma_word_end_bounds(u);
        assert forall|i: int| 0 <= i < word_end(t) implies !text::is_ws(#[trigger] t[i]) by {
            if i > 0 {
                assert(t[i] == u[i - 1]);
            }
        }
    }
}

/// Splitting at whitespace distributes over a concatenation that has
/// whitespace (or nothing) at the seam.
proof fn lemma_split_ws_concat(a: Seq<char>, b: Seq<char>)
    requires
        a.len() == 0 || text::is_ws(a.last()) || b.len() == 0 || text::is_ws(b[0]),
    ensures
        split_ws(a + b) == split_ws(a) + split_ws(b),
    decreases a.len(),
{
    let ta = text::trim_start(a);
    lemma_trim_start_concat(a, b);
    lemma_trim_start_suffix(a);
    if ta.len() == 0 {
        assert(split_ws(a) =~= Seq::<Seq<char>>::empty());
        assert(split_ws(a + b) == split_ws(b));
        assert(split_ws(a) + split_ws(b) =~= split_ws(b));
    } else {
        let k = word_end(ta) as int;
        lemma_trim_start_shape(a);
        lemma_word_end_bounds(ta);
        lemma_word_end_concat(ta, b);
        lemma_word_end_chars(ta);
        let t = ta + b;
        assert(ta.last() == a.last());
        if k < ta.len() {
            let rest = ta.subrange(k, ta.len() as int);
            assert(t.subrange(0, k) =~= ta.subrange(0, k));
            assert(t.subrange(k, t.len() as int) =~= rest + b);
            assert(rest.last() == a.last());
            lemma_split_ws_concat(rest, b);
            assert(split_ws(a + b) == seq![ta.subrange(0, k)] + split_ws(rest + b));
            assert(split_ws(a) == seq![ta.subrange(0, k)] + split_ws(rest));
            assert(split_ws(a + b) =~= split_ws(a) + split_ws(b));
        } else {
            assert(!text::is_ws(ta[k - 1]));
            assert(word_end(b) == 0);
            assert(t.subrange(0, k) =~= ta);
            assert(t.subrange(k, t.len() as int) =~= b);
            assert(ta.subrange(0, k) =~= ta);
            let e = ta.subrange(k, ta.len() as int);
            assert(e =~= Seq::<char>::empty());
            assert(split_ws(e) =~= Seq::<Seq<char>>::empty());
            assert(split_ws(a) =~= seq![ta]);
            assert(split_ws(a + b) =~= split_ws(a) + split_ws(b));
        }
    }
}

proof fn lemma_split_ws_all_ws(s: Seq<char>)
    requires
        forall|i: int| 0 <= i < s.len() ==> text::is_ws(#[trigger] s[i]),
    ensures
        split_ws(s) == Seq::<Seq<char>>::empty(),
{
    lemma_all_ws_trim_start(s);
}

/// A word: nonempty, without whitespace.
pub open spec fn is_word(w: Seq<char>) -> bool {
    w.len() > 0 && forall|j: int| 0 <= j < w.len() ==> !text::is_ws(#[trigger] w[j])
}

proof fn lemma_split_ws_word(w: Seq<char>)
    requires
        is_word(w),
    ensures
        split_ws(w) == seq![w],
{
    lemma_word_end_at(w, w.len() as int);
    assert(w.subrange(0, w.len() as int) =~= w);
    let e = w.subrange(w.len() as int, w.len() as int);
    assert(e =~= Seq::<char>::empty());
    assert(split_ws(e) =~= Seq::<Seq<char>>::empty());
    assert(split_ws(w) =~= seq![w]);
}

proof fn lemma_split_ws_trim_end(s: Seq<char>)
    ensures
        split_ws(text::trim_end(s)) == split_ws(s),
    decreases s.len(),
{
    if s.len() > 0 && text::is_ws(s.last()) {
        let d = s.drop_last();
        let l = seq![s.last()];
        assert(d + l =~= s);
        lemma_split_ws_concat(d, l);
        lemma_split_ws_all_ws(l);
        assert(split_ws(d) + split_ws(l) =~= split_ws(d));
        lemma_split_ws_trim_end(d);
    }
}

proof fn lemma_split_ws_trim_start(s: Seq<char>)
    ensures
        split_ws(text::trim_start(s)) == split_ws(s),
{
    lemma_trim_start_shape(s);
    let t = text::trim_start(s);
    assert(text::trim_start(t) == t);
}

proof fn lemma_split_ws_blank(s: Seq<char>)
    requires
        text::is_blank(s),
    ensures
        split_ws(s) == Seq::<Seq<char>>::empty(),
{
    lemma_split_ws_trim_start(s);
    lemma_split_ws_trim_end(text::trim_start(s));
    let e = text::trim(s);
    assert(e =~= Seq::<char>::empty());
}

proof fn lemma_split_ws_words(s: Seq<char>)
    ensures
        forall|i: int| 0 <= i < split_ws(s).len() ==> is_word(#[trigger] split_ws(s)[i]),
    decreases s.len(),
{
    let t = text::trim_start(s);
    lemma_trim_start_shape(s);
    lemma_word_end_bounds(t);
    if t.len() > 0 {
        let k = word_end(t) as int;
        let rest = t.subrange(k, t.len() as int);
        lemma_word_end_chars(t);
        lemma_split_ws_words(rest);
        let w = t.subrange(0, k);
        assert(is_word(w)) by {
            assert forall|j: int| 0 <= j < w.len() implies !text::is_ws(#[trigger] w[j]) by {
                assert(w[j] == t[j]);
            }
        }
        assert forall|i: int| 0 <= i < split_ws(s).len() implies is_word(#[trigger] split_ws(s)[i]) by {
            if i > 0 {
                assert(split_ws(s)[i] == split_ws(rest)[i - 1]);
            }
        }
    }
}

proof fn lemma_leading_spaces(s: Seq<char>)
    ensures
        leading_space_count(s) <= s.len(),
        forall|i: int| 0 <= i < leading_space_count(s) ==> #[trigger] s[i] == ' ',
    decreases s.len(),
{
    if s.len() > 0 && s[0] == ' ' {
        let t = s.drop_first();
        lemma_leading_spaces(t);
        assert forall|i: int| 0 <= i < leading_space_count(s) implies #[trigger] s[i] == ' ' by {
            if i > 0 {
                assert(s[i] == t[i - 1]);
            }
        }
    }
}

/// The words of each line, one line after the other.
pub open spec fn words_of_lines(lines: Seq<Seq<char>>) -> Seq<Seq<char>>
    decreases lines.len(),
{
    if lines.len() == 0 {
        Seq::empty()
    } else {
        words_of_lines(lines.drop_last()) + split_ws(lines.last())
    }
}

proof fn lemma_words_of_lines_concat(a: Seq<Seq<char>>, b: Seq<Seq<char>>)
    ensures
        words_of_lines(a + b) == words_of_lines(a) + words_of_lines(b),
    decreases b.len(),
{
    if b.len() == 0 {
        assert(a + b =~= a);
        assert(words_of_lines(a) + words_of_lines(b) =~= words_of_lines(a));
    } else {
        assert((a + b).drop_last() =~= a + b.drop_last());
        assert((a + b).last() == b.last());
        lemma_words_of_lines_concat(a, b.drop_last());
        assert(words_of_lines(a + b) =~= words_of_lines(a) + words_of_lines(b));
    }
}

proof fn lemma_wrap_words_keeps(words: Seq<Seq<char>>, lead: Seq<char>, max: int)
    requires
        forall|i: int| 0 <= i < lead.len() ==> #[trigger] lead[i] == ' ',
        forall|i: int| 0 <= i < words.len() ==> is_word(#[trigger] words[i]),
        forall|i: int| 0 <= i < words.len() ==> unicode::str_width(#[trigger] words[i]) > 0,
    ensures
        wrap_words(words, lead, max).width >= lead.len(),
        wrap_words(words, lead, max).width == lead.len() ==> wrap_words(words, lead, max).current == lead,
        words_of_lines(wrap_words(words, lead, max).done) + split_ws(wrap_words(words, lead, max).current)
            == words,
    decreases words.len(),
{
    assert forall|i: int| 0 <= i < lead.len() implies text::is_ws(#[trigger] lead[i]) by {
        assert(lead[i] == ' ');
    }
    if words.len() == 0 {
        lemma_split_ws_all_ws(lead);
        assert(words_of_lines(Seq::<Seq<char>>::empty()) + split_ws(lead) =~= words);
    } else {
        let ws0 = words.drop_last();
        assert forall|i: int| 0 <= i < ws0.len() implies is_word(#[trigger] ws0[i])
            && unicode::str_width(ws0[i]) > 0 by {
            assert(ws0[i] == words[i]);
        }
        lemma_wrap_words_keeps(ws0, lead, max);
        let st = wrap_words(ws0, lead, max);
        let word = words.last();
        assert(is_word(word) && unicode::str_width(word) > 0) by {
            assert(word == words[words.len() - 1]);
        }
        lemma_split_ws_word(word);
        assert(words =~= ws0.push(word));
        let ww = unicode::str_width(word) as int;
        if st.width == lead.len() {
            lemma_split_ws_all_ws(lead);
            lemma_split_ws_concat(lead, word);
            assert(words_of_lines(st.done) =~= ws0);
            assert(words_of_lines(st.done) + split_ws(lead + word) =~= words);
        } else if st.width + 1 + ww <= max {
            let sp = seq![' '];
            lemma_split_ws_all_ws(sp);
            lemma_split_ws_concat(st.current, sp);
            lemma_split_ws_concat(st.current + sp, word);
            assert(split_ws(st.current + sp) =~= split_ws(st.current));
            assert(words_of_lines(st.done) + split_ws(st.current + sp + word) =~= words);
        } else {
            let d = st.done.push(st.current);
            assert(d.drop_last() =~= st.done);
            assert(words_of_lines(d) == words_of_lines(st.done) + split_ws(st.current));
            lemma_split_ws_all_ws(lead);
            lemma_split_ws_concat(lead, word);
            assert(split_ws(lead + word) =~= seq![word]);
            assert(words_of_lines(d) + split_ws(lead + word) =~= words);
        }
    }
}

proof fn lemma_words_of_one(l: Seq<char>)
    ensures
        words_of_lines(seq![l]) == split_ws(l),
{
    let one = seq![l];
    let d = one.drop_last();
    assert(d =~= Seq::<Seq<char>>::empty());
    assert(words_of_lines(d) == Seq::<Seq<char>>::empty());
    assert(one.last() == l);
    assert(words_of_lines(one) == words_of_lines(d) + split_ws(l));
    assert(words_of_lines(one) =~= split_ws(l));
}

proof fn lemma_wrap_line_keeps(line: Seq<char>, max: int)
    requires
        forall|i: int| 0 <= i < split_ws(line).len() ==> unicode::str_width(#[trigger] split_ws(line)[i]) > 0,
    ensures
        words_of_lines(wrap_line(line, max)) == split_ws(line),
{
    let trimmed = text::trim_end(line);
    lemma_split_ws_trim_end(line);
    let e = Seq::<char>::empty();
    assert(split_ws(e) =~= Seq::<Seq<char>>::empty());
    lemma_words_of_one(e);
    lemma_words_of_one(trimmed);
    if trimmed.len() == 0 {
        assert(trimmed =~= e);
    } else if unicode::str_width(trimmed) <= max {
    } else {
        let lead = line.subrange(0, leading_space_count(line) as int);
        lemma_leading_spaces(line);
        assert forall|i: int| 0 <= i < lead.len() implies #[trigger] lead[i] == ' ' by {
            assert(lead[i] == line[i]);
        }
        let words = split_ws(text::trim_start(trimmed));
        lemma_split_ws_trim_start(trimmed);
        assert(words == split_ws(line));
        lemma_split_ws_words(line);
        lemma_wrap_words_keeps(words, lead, max);
        let st = wrap_words(words, lead, max);
        if text::is_blank(st.current) {
            lemma_split_ws_blank(st.current);
            assert(words_of_lines(st.done) + Seq::<Seq<char>>::empty() =~= words_of_lines(st.done));
        } else {
            assert(st.done.push(st.current).drop_last() =~= st.done);
        }
    }
}

proof fn lemma_split_ws_blank_iff(s: Seq<char>)
    ensures
        split_ws(s).len() == 0 ==> text::is_blank(s),
{
    let t = text::trim_start(s);
    if t.len() == 0 {
        assert(text::trim_end(t).len() == 0);
    }
}

/// The columns words take on one line: their display widths plus one
/// space between each two.
pub open spec fn words_width(ws: Seq<Seq<char>>) -> int
    decreases ws.len(),
{
    if ws.len() == 0 {
        0
    } else if ws.len() == 1 {
        unicode::str_width(ws[0]) as int
    } else {
        words_width(ws.drop_last()) + 1 + unicode::str_width(ws.last()) as int
    }
}

/// The columns a wrapped piece takes: its indentation, then its words one
/// space apart.
pub open spec fn piece_width(piece: Seq<char>, lead: Seq<char>) -> int {
    lead.len() + words_width(split_ws(piece))
}

/// Each piece keeps the indentation and fits in `max` columns unless it is
/// a single word; and each piece but the last is full: the next piece's
/// first word would not have fitted after it.
pub open spec fn pieces_fit(pieces: Seq<Seq<char>>, lead: Seq<char>, max: int) -> bool {
    &&& forall|i: int|
        0 <= i < pieces.len() ==> {
            &&& text::has_prefix(#[trigger] pieces[i], lead)
            &&& split_ws(pieces[i]).len() > 0
            &&& (piece_width(pieces[i], lead) <= max || split_ws(pieces[i]).len() == 1)
        }
    &&& forall|i: int|
        0 <= i < pieces.len() - 1 ==> piece_width(#[trigger] pieces[i], lead) + 1 + unicode::str_width(
            split_ws(pieces[i + 1])[0],
        ) > max
}

spec fn wrap_state_fits(st: WrapState, lead: Seq<char>, max: int) -> bool {
    &&& st.width == piece_width(st.current, lead)
    &&& text::has_prefix(st.current, lead)
    &&& (st.width <= max || split_ws(st.current).len() <= 1)
    &&& pieces_fit(st.done, lead, max)
    &&& st.done.len() > 0 ==> split_ws(st.current).len() > 0
    &&& st.done.len() > 0 ==> piece_width(st.done.last(), lead) + 1 + unicode::str_width(
        split_ws(st.current)[0],
    ) > max
}

proof fn lemma_wrap_words_widths(words: Seq<Seq<char>>, lead: Seq<char>, max: int)
    requires
        forall|i: int| 0 <= i < lead.len() ==> #[trigger] lead[i] == ' ',
        forall|i: int| 0 <= i < words.len() ==> is_word(#[trigger] words[i]),
        forall|i: int| 0 <= i < words.len() ==> unicode::str_width(#[trigger] words[i]) > 0,
    ensures
        wrap_state_fits(wrap_words(words, lead, max), lead, max),
    decreases words.len(),
{
    assert forall|i: int| 0 <= i < lead.len() implies text::is_ws(#[trigger] lead[i]) by {
        assert(lead[i] == ' ');
    }
    lemma_split_ws_all_ws(lead);
    assert(lead.subrange(0, lead.len() as int) =~= lead);
    if words.len() > 0 {
        let ws0 = words.drop_last();
        assert forall|i: int| 0 <= i < ws0.len() implies is_word(#[trigger] ws0[i])
            && unicode::str_width(ws0[i]) > 0 by {
            assert(ws0[i] == words[i]);
        }
        lemma_wrap_words_widths(ws0, lead, max);
        lemma_wrap_words_keeps(ws0, lead, max);
        let st = wrap_words(ws0, lead, max);
        let word = words.last();
        assert(is_word(word) && unicode::str_width(word) > 0) by {
            assert(word == words[words.len() - 1]);
        }
        lemma_split_ws_word(word);
        let ww = unicode::str_width(word) as int;
        let nw = lead + word;
        lemma_split_ws_concat(lead, word);
        assert(split_ws(nw) =~= seq![word]);
        assert(nw.subrange(0, lead.len() as int) =~= lead);
        assert(words_width(seq![word]) == ww);
        if st.width == lead.len() {
            assert(st.current == lead);
            assert(st.done.len() == 0);
        } else if st.width + 1 + ww <= max {
            let sp = seq![' '];
            lemma_split_ws_all_ws(sp);
            lemma_split_ws_concat(st.current, sp);
            lemma_split_ws_concat(st.current + sp, word);
            let cur = st.current + sp + word;
            let old_ws = split_ws(st.current);
            assert(split_ws(cur) =~= old_ws.push(word));
            assert(old_ws.len() > 0);
            assert(old_ws.push(word).drop_last() =~= old_ws);
            assert(words_width(split_ws(cur)) == words_width(old_ws) + 1 + ww);
            assert(cur.subrange(0, lead.len() as int) =~= st.current.subrange(0, lead.len() as int));
            assert(split_ws(cur)[0] == old_ws[0]);
        } else {
            let d = st.done.push(st.current);
            assert(split_ws(st.current).len() > 0);
            assert forall|i: int| 0 <= i < d.len() implies {
                &&& text::has_prefix(#[trigger] d[i], lead)
                &&& split_ws(d[i]).len() > 0
                &&& (piece_width(d[i], lead) <= max || split_ws(d[i]).len() == 1)
            } by {
                if i < st.done.len() {
                    assert(d[i] == st.done[i]);
                }
            }
            assert forall|i: int| 0 <= i < d.len() - 1 implies piece_width(#[trigger] d[i], lead) + 1
                + unicode::str_width(split_ws(d[i + 1])[0]) > max by {
                if i < st.done.len() - 1 {
                    assert(d[i] == st.done[i] && d[i + 1] == st.done[i + 1]);
                } else {
                    assert(d[i] == st.done.last() && d[i + 1] == st.current);
                }
            }
            assert(d.last() == st.current);
        }
    }
}

/// A line that fits in `max` columns is kept whole, without its trailing
/// whitespace (a blank line becomes one empty line). A longer line is
/// broken between words into pieces that keep the line's indentation and
/// fit: indentation, word widths and one column between words add up to at
/// most `max`, unless the piece is a single word. Each piece but the last
/// is full: the next piece's first word would not have fitted after it.
/// Widths are display widths, and words are taken to have nonzero width.
pub proof fn lemma_wrap_line_fits(line: Seq<char>, max: int)
    requires
        forall|i: int| 0 <= i < split_ws(line).len() ==> unicode::str_width(#[trigger] split_ws(line)[i]) > 0,
    ensures
        text::trim_end(line).len() == 0 ==> wrap_line(line, max) == seq![Seq::<char>::empty()],
        text::trim_end(line).len() > 0 && unicode::str_width(text::trim_end(line)) <= max ==> wrap_line(
            line,
            max,
        ) == seq![text::trim_end(line)],
        text::trim_end(line).len() > 0 && unicode::str_width(text::trim_end(line)) > max ==> pieces_fit(
            wrap_line(line, max),
            line.subrange(0, leading_space_count(line) as int),
            max,
        ),
{
    let trimmed = text::trim_end(line);
    if trimmed.len() > 0 && unicode::str_width(trimmed) > max {
        let lead = line.subrange(0, leading_space_count(line) as int);
        lemma_leading_spaces(line);
        assert forall|i: int| 0 <= i < lead.len() implies #[trigger] lead[i] == ' ' by {
            assert(lead[i] == line[i]);
        }
        let words = split_ws(text::trim_start(trimmed));
        lemma_split_ws_trim_end(line);
        lemma_split_ws_trim_start(trimmed);
        lemma_split_ws_words(line);
        lemma_wrap_words_widths(words, lead, max);
        let st = wrap_words(words, lead, max);
        if text::is_blank(st.current) {
            lemma_split_ws_blank(st.current);
            assert(st.done.len() == 0);
            assert(wrap_line(line, max) == st.done);
        } else {
            let d = st.done.push(st.current);
            assert(wrap_line(line, max) == d);
            lemma_split_ws_blank_iff(st.current);
            assert forall|i: int| 0 <= i < d.len() implies {
                &&& text::has_prefix(#[trigger] d[i], lead)
                &&& split_ws(d[i]).len() > 0
                &&& (piece_width(d[i], lead) <= max || split_ws(d[i]).len() == 1)
            } by {
                if i < st.done.len() {
                    assert(d[i] == st.done[i]);
                }
            }
            assert forall|i: int| 0 <= i < d.len() - 1 implies piece_width(#[trigger] d[i], lead) + 1
                + unicode::str_width(split_ws(d[i + 1])[0]) > max by {
                if i < st.done.len() - 1 {
                    assert(d[i] == st.done[i] && d[i + 1] == st.done[i + 1]);
                } else {
                    assert(d[i] == st.done.last() && d[i + 1] == st.current);
                }
            }
        }
    }
}

/// Whether every word of every line has a nonzero display width.
pub open spec fn all_words_visible(lines: Seq<Seq<char>>) -> bool {
    forall|i: int, j: int|
        0 <= i < lines.len() && 0 <= j < split_ws(lines[i]).len() ==> unicode::str_width(
            #[trigger] split_ws(lines[i])[j],
        ) > 0
}

proof fn lemma_wrap_lines_keeps(lines: Seq<Seq<char>>, max: int)
    requires
        all_words_visible(lines),
    ensures
        words_of_lines(wrap_lines(lines, max)) == words_of_lines(lines),
    decreases lines.len(),
{
    if lines.len() > 0 {
        let d = lines.drop_last();
        let l = lines.last();
        assert(all_words_visible(d)) by {
            assert forall|i: int, j: int| 0 <= i < d.len() && 0 <= j < split_ws(d[i]).len() implies unicode::str_width(
                #[trigger] split_ws(d[i])[j],
            ) > 0 by {
                assert(d[i] == lines[i]);
            }
        }
        assert forall|j: int| 0 <= j < split_ws(l).len() implies unicode::str_width(#[trigger] split_ws(l)[j])
            > 0 by {
            assert(l == lines[lines.len() - 1]);
        }
        lemma_wrap_lines_keeps(d, max);
        lemma_wrap_line_keeps(l, max);
        lemma_words_of_lines_concat(wrap_lines(d, max), wrap_line(l, max));
    }
}

/// Wrapping breaks lines only between words: when no word has a display
/// width of zero, the wrapped lines hold the words of the text, in order,
/// none split, merged or dropped; only the whitespace around them changes.
pub proof fn lemma_wrap_text_keeps_words(t: Seq<char>, max: int)
    requires
        all_words_visible(text::lines_of(t)),
    ensures
        words_of_lines(wrap_text_spec(t, max)) == words_of_lines(text::lines_of(t)),
{
    lemma_wrap_lines_keeps(text::lines_of(t), max);
}

/// The next word of `v[pos..end]`: its bounds, or `None` when only
/// whitespace is left.
fn next_word(v: &Vec<char>, pos: usize, end: usize) -> (res: Option<(usize, usize)>)
    requires
        pos <= end <= v@.len(),
    ensures
        match res {
            Some((ws, we)) => {
                &&& pos <= ws < we <= end
                &&& split_ws(v@.subrange(pos as int, end as int)) == seq![
                    v@.subrange(ws as int, we as int),
                ] + split_ws(v@.subrange(we as int, end as int))
            },
            None => split_ws(v@.subrange(pos as int, end as int)) == Seq::<Seq<char>>::empty(),
        },
{
    let ws = skip_ws_forward(v, pos, end);
    let ghost s = v@.subrange(pos as int, end as int);
    let ghost t = v@.subrange(ws as int, end as int);
    proof {
        lemma_trim_start_shape(s);
        lemma_word_end_bounds(t);
    }
    if ws == end {
        return None;
    }
    let mut we = ws;
    while we < end && !is_whitespace(v[we])
        invariant
            ws <= we <= end <= v@.len(),
            forall|j: int| ws <= j < we ==> !text::is_ws(#[trigger] v@[j]),
        decreases end - we,
    {
        we = we + 1;
    }
    proof {
        assert forall|j: int| 0 <= j < we - ws implies !text::is_ws(#[trigger] t[j]) by {
            assert(t[j] == v@[ws + j]);
        }
        if we < end {
            assert(t[we - ws] == v@[we as int]);
        }
        lemma_word_end_at(t, we - ws);
        assert(t.subrange(0, we - ws) =~= v@.subrange(ws as int, we as int));
        assert(t.subrange(we - ws, t.len() as int) =~= v@.subrange(we as int, end as int));
    }
    Some((ws, we))
}

/// Wraps the line `v[from..to]` to `max_width` columns and appends its lines
/// to `out`.
fn wrap_line_into(v: &Vec<char>, from: usize, to: usize, max_width: usize, out: &mut Vec<String>)
    requires
        from <= to <= v@.len(),
    ensures
        string_views(final(out)@) == string_views(old(out)@) + wrap_line(
            v@.subrange(from as int, to as int),
            max_width as int,
        ),
{
    let ghost line = v@.subrange(from as int, to as int);
    let ghost out0 = string_views(out@);
    let te = skip_ws_backward(v, from, to);
    let ghost trimmed = v@.subrange(from as int, te as int);
    if te == from {
        out.push(String::new());
        proof {
            assert(string_views(out@) =~= out0 + seq![Seq::<char>::empty()]);
        }
        return;
    }
    let trimmed_str = string_of(v, from, te);
    if display_width(trimmed_str.as_str()) <= max_width {
        out.push(trimmed_str);
        proof {
            assert(string_views(out@) =~= out0 + seq![trimmed]);
        }
        return;
    }
    // Preserve leading whitespace for indented lines (like code)
    let mut nl = from;
    while nl < to && v[nl] == ' '
        invariant
            from <= nl <= to <= v@.len(),
            forall|j: int| from <= j < nl ==> #[trigger] v@[j] == ' ',
        decreases to - nl,
    {
        nl = nl + 1;
    }
    let ghost lead = v@.subrange(from as int, nl as int);
    proof {
        assert forall|j: int| 0 <= j < nl - from implies #[trigger] line[j] == ' ' by {
            assert(line[j] == v@[from + j]);
        }
        if nl < to {
            assert(line[nl - from] == v@[nl as int]);
        }
        lemma_leading_space_count_at(line, nl - from);
        assert(line.subrange(0, nl - from) =~= lead);
    }
    let lead_width = nl - from;
    let cs = skip_ws_forward(v, from, te);
    let ghost content = v@.subrange(cs as int, te as int);
    let mut current = subvec(v, from, nl);
    let mut current_width: u128 = lead_width as u128;
    let mut pos = cs;
    let ghost mut words: Seq<Seq<char>> = Seq::empty();
    proof {
        assert(words + split_ws(content) =~= split_ws(content));
        assert(string_views(out@) =~= out0 + wrap_words(words, lead, max_width as int).done);
    }
    loop
        invariant
            from <= nl <= to,
            from <= cs <= pos <= te <= to <= v@.len(),
            lead == v@.subrange(from as int, nl as int),
            lead.len() == lead_width,
            lead_width == nl - from,
            content == v@.subrange(cs as int, te as int),
            split_ws(content) == words + split_ws(v@.subrange(pos as int, te as int)),
            wrap_words(words, lead, max_width as int).current == current@,
            wrap_words(words, lead, max_width as int).width == current_width as int,
            string_views(out@) == out0 + wrap_words(words, lead, max_width as int).done,
            current_width <= usize::MAX as u128 + usize::MAX as u128,
        ensures
            lead == v@.subrange(from as int, nl as int),
            content == v@.subrange(cs as int, te as int),
            split_ws(content) == words,
            wrap_words(words, lead, max_width as int).current == current@,
            string_views(out@) == out0 + wrap_words(words, lead, max_width as int).done,
        decreases te - pos,
    {
        let next = next_word(v, pos, te);
        match next {
            None => {
                proof {
                    assert(words + Seq::<Seq<char>>::empty() =~= words);
                }
                break ;
            },
            Some((ws, we)) => {
                let ghost word = v@.subrange(ws as int, we as int);
                let ghost st = wrap_words(words, lead, max_width as int);
                let ww = display_width(string_of(v, ws, we).as_str()) as u128;
                proof {
                    assert(words.push(word).drop_last() =~= words);
                    assert(words + (seq![word] + split_ws(v@.subrange(we as int, te as int)))
                        =~= words.push(word) + split_ws(v@.subrange(we as int, te as int)));
                }
                let wv = subvec(v, ws, we);
                let ghost out_before = out@;
                if current_width == lead_width as u128 {
                    // First word on line
                    push_all(&mut current, &wv);
                    current_width = current_width + ww;
                } else if current_width + 1 + ww <= max_width as u128 {
                    // Word fits on current line
                    current.push(' ');
                    push_all(&mut current, &wv);
                    current_width = current_width + 1 + ww;
                } else {
                    // Start new line with same indentation
                    out.push(string_of_all(&current));
                    proof {
                        assert(string_views(out@) =~= string_views(out_before).push(st.current));
                    }
                    current = subvec(v, from, nl);
                    push_all(&mut current, &wv);
                    current_width = lead_width as u128 + ww;
                }
                proof {
                    let new_words = words.push(word);
                    assert(new_words.drop_last() =~= words);
                    assert(new_words.last() == word);
                    assert(wrap_words(new_words, lead, max_width as int) == wrap_step(
                        st,
                        word,
                        lead,
                        max_width as int,
                    ));
                    words = new_words;
                    assert(string_views(out@) =~= out0 + wrap_words(
                        words,
                        lead,
                        max_width as int,
                    ).done);
                }
                pos = we;
            },
        }
    }
    proof {
        assert(split_ws(content) == words);
    }
    let ghost out_before = out@;
    if !is_blank_chars(&current) {
        out.push(string_of_all(&current));
        proof {
            assert(string_views(out@) =~= string_views(out_before).push(current@));
        }
        proof {
            assert(string_views(out@) =~= out0 + wrap_words(
                words,
                lead,
                max_width as int,
            ).done.push(current@));
        }
    }
}

/// Wrap text to fit within max_width, breaking at word boundaries.
pub fn wrap_text(t: &str, max_width: usize) -> (res: Vec<String>)
    ensures
        string_views(res@) == wrap_text_spec(t@, max_width as int),
{
    let v = chars_of(t);
    let mut res: Vec<String> = Vec::new();
    let ghost mut done: Seq<Seq<char>> = Seq::empty();
    let mut pos: usize = 0;
    proof {
        assert(v@.subrange(0, v@.len() as int) =~= v@);
        assert(done + text::lines_of(v@) =~= text::lines_of(v@));
        assert(string_views(res@) =~= wrap_lines(done, max_width as int));
    }
    while pos < v.len()
        invariant
            pos <= v@.len(),
            v@ == t@,
            text::lines_of(v@) == done + text::lines_of(v@.subrange(pos as int, v@.len() as int)),
            string_views(res@) == wrap_lines(done, max_width as int),
        decreases v@.len() - pos,
    {
        let (end, next) = next_line(&v, pos);
        let ghost line = v@.subrange(pos as int, end as int);
        proof {
            let rest = text::lines_of(v@.subrange(next as int, v@.len() as int));
            assert(done + (seq![line] + rest) =~= done.push(line) + rest);
            assert(done.push(line).drop_last() =~= done);
        }
        wrap_line_into(&v, pos, end, max_width, &mut res);
        proof {
            done = done.push(line);
        }
        pos = next;
    }
    proof {
        assert(v@.subrange(pos as int, v@.len() as int) =~= Seq::<char>::empty());
        assert(done + Seq::<Seq<char>>::empty() =~= done);
    }
    res
}

// ---------------------------------------------------------------------------
// Popup state
// ---------------------------------------------------------------------------

/// Basic markdown line cleanup: the line without trailing whitespace.
pub fn clean_markdown_line(line: &str) -> (res: String)
    ensures
        res@ == text::trim_end(line@),
{
    let v = chars_of(line);
    let end = skip_ws_backward(&v, 0, v.len());
    proof {
        assert(v@.subrange(0, v@.len() as int) =~= v@);
    }
    string_of(&v, 0, end)
}

/// The lines a popup shows for hover contents: the raw text wrapped to
/// [`WRAP_WIDTH`] columns with trailing whitespace removed; nothing when
/// there is no text or every line is blank.
pub open spec fn extract_lines_spec(contents: HoverContents) -> Option<Seq<Seq<char>>> {
    match raw_text(contents) {
        None => None,
        Some(raw) => {
            let lines = wrap_text_spec(raw, WRAP_WIDTH as int).map_values(
                |l: Seq<char>| text::trim_end(l),
            );
            if lines.len() == 0 || (forall|i: int| 0 <= i < lines.len() ==> text::is_blank(#[trigger] lines[i])) {
                None
            } else {
                Some(lines)
            }
        },
    }
}

/// Extract lines from hover contents with word wrapping.
pub fn extract_lines(contents: &HoverContents) -> (res: Option<Vec<String>>)
    ensures
        match res {
            Some(v) => extract_lines_spec(*contents) == Some(string_views(v@)),
            None => extract_lines_spec(*contents) is None,
        },
{
    let raw_text = match contents {
        HoverContents::Scalar(marked) => marked_string_to_text(marked),
        HoverContents::Markup(markup) => Some(markup.value.clone()),
        HoverContents::Array(arr) => {
            let mut texts: Vec<String> = Vec::new();
            let mut i: usize = 0;
            while i < arr.len()
                invariant
                    i <= arr@.len(),
                    string_views(texts@) == marked_texts(arr@.take(i as int)),
                decreases arr@.len() - i,
            {
                let t = marked_string_to_text(&arr[i]);
                let ghost old_texts = texts@;
                proof {
                    assert(arr@.take(i + 1).drop_last() =~= arr@.take(i as int));
                    assert(arr@.take(i + 1).last() == arr@[i as int]);
                }
                match t {
                    Some(t) => {
                        texts.push(t);
                        proof {
                            assert(string_views(texts@) =~= string_views(old_texts).push(t@));
                        }
                    },
                    None => {},
                }
                i = i + 1;
            }
            proof {
                assert(arr@.take(arr@.len() as int) =~= arr@);
            }
            if texts.len() == 0 {
                None
            } else {
                Some(join_strings(&texts, "\n\n"))
            }
        },
    };
    let raw_text = match raw_text {
        Some(t) => t,
        None => return None,
    };
    // Apply word wrap to fit within popup width (minus padding)
    let wrapped = wrap_text(raw_text.as_str(), WRAP_WIDTH);
    let ghost wv = string_views(wrapped@);
    let mut lines: Vec<String> = Vec::new();
    let mut all_blank = true;
    let mut i: usize = 0;
    while i < wrapped.len()
        invariant
            i <= wrapped@.len(),
            wv == string_views(wrapped@),
            string_views(lines@) == wv.take(i as int).map_values(|l: Seq<char>| text::trim_end(l)),
            all_blank == (forall|j: int| 0 <= j < i ==> text::is_blank(#[trigger] string_views(lines@)[j])),
        decreases wrapped@.len() - i,
    {
        let line = clean_markdown_line(wrapped[i].as_str());
        let blank = is_blank_chars(&chars_of(line.as_str()));
        let ghost old_lines = lines@;
        lines.push(line);
        proof {
            assert(string_views(lines@) =~= string_views(old_lines).push(line@));
            assert(wv.take(i + 1).map_values(|l: Seq<char>| text::trim_end(l)) =~= wv.take(
                i as int,
            ).map_values(|l: Seq<char>| text::trim_end(l)).push(text::trim_end(wv[i as int])));
            assert forall|j: int| 0 <= j < i implies string_views(lines@)[j] == string_views(
                old_lines,
            )[j] by {}
        }
        let ghost old_all = all_blank;
        all_blank = all_blank && blank;
        proof {
            let cl = string_views(lines@);
            assert(cl[i as int] == line@);
            if all_blank {
                assert forall|j: int| 0 <= j < i + 1 implies text::is_blank(#[trigger] cl[j]) by {
                    if j < i {
                        assert(cl[j] == string_views(old_lines)[j]);
                    }
                }
            } else if !old_all {
                let j = choose|j: int| 0 <= j < i && !text::is_blank(#[trigger] string_views(old_lines)[j]);
                assert(cl[j] == string_views(old_lines)[j]);
            }
        }
        i = i + 1;
    }
    proof {
        assert(wv.take(wrapped@.len() as int) =~= wv);
    }
    if lines.len() == 0 || all_blank {
        None
    } else {
        Some(lines)
    }
}

/// The largest scroll offset for a popup of `n` lines.
pub open spec fn max_scroll(n: nat) -> nat {
    if n > MAX_POPUP_HEIGHT {
        (n - MAX_POPUP_HEIGHT) as nat
    } else {
        0
    }
}

/// The scroll offset after scrolling up by `amount`: it stops at the top.
pub open spec fn scrolled_up(offset: nat, amount: nat) -> nat {
    if offset >= amount {
        (offset - amount) as nat
    } else {
        0
    }
}

/// The scroll offset after scrolling down by `amount` through `n` lines: it
/// stops at the last page.
pub open spec fn scrolled_down(offset: nat, amount: nat, n: nat) -> nat {
    if offset + amount <= max_scroll(n) {
        offset + amount
    } else {
        max_scroll(n)
    }
}

/// Scrolling down and then up by the same amount comes back to where it
/// started, unless the last page stopped it; scrolling up and then down
/// does the same unless the top stopped it.
pub proof fn lemma_scroll_round_trip(offset: nat, amount: nat, n: nat)
    requires
        offset <= max_scroll(n),
    ensures
        offset + amount <= max_scroll(n) ==> scrolled_up(scrolled_down(offset, amount, n), amount)
            == offset,
        amount <= offset ==> scrolled_down(scrolled_up(offset, amount), amount, n) == offset,
        scrolled_down(offset, amount, n) <= max_scroll(n),
        scrolled_up(offset, amount) <= max_scroll(n),
{
}

/// Hover popup state and rendering.
pub struct HoverPopup {
    /// Parsed hover content lines.
    lines: Vec<String>,
    /// Scroll offset for long content.
    scroll_offset: usize,
}

/// The state of a hover popup: its lines and how far it is scrolled.
pub struct HoverPopupView {
    pub lines: Seq<Seq<char>>,
    pub scroll_offset: usize,
}

impl View for HoverPopup {
    type V = HoverPopupView;

    closed spec fn view(&self) -> HoverPopupView {
        HoverPopupView { lines: string_views(self.lines@), scroll_offset: self.scroll_offset }
    }
}

impl HoverPopup {
    /// The scroll offset never goes past the last page of lines.
    #[verifier::type_invariant]
    closed spec fn scroll_in_range(self) -> bool {
        self.scroll_offset <= max_scroll(self.lines@.len())
    }

    /// Create a new hover popup from LSP hover response.
    ///
    /// Returns None if hover contents are empty.
    pub fn from_hover(hover: Hover) -> (res: Option<Self>)
        ensures
            match res {
                Some(p) => {
                    &&& extract_lines_spec(hover.contents) == Some(p@.lines)
                    &&& p@.lines.len() > 0
                    &&& p@.scroll_offset == 0
                },
                None => extract_lines_spec(hover.contents) is None,
            },
    {
        let lines = match extract_lines(&hover.contents) {
            Some(l) => l,
            None => return None,
        };
        if lines.len() == 0 {
            return None;
        }
        let p = HoverPopup { lines, scroll_offset: 0 };
        proof {
            assert(p@.lines == string_views(lines@));
        }
        Some(p)
    }

    /// The popup's lines.
    pub fn lines(&self) -> (res: &Vec<String>)
        ensures
            string_views(res@) == self@.lines,
    {
        &self.lines
    }

    /// How many lines the popup is scrolled down.
    pub fn scroll_offset(&self) -> (res: usize)
        ensures
            res == self@.scroll_offset,
            res <= max_scroll(self@.lines.len()),
    {
        proof {
            use_type_invariant(self);
        }
        self.scroll_offset
    }

    /// Check if popup is empty.
    pub fn is_empty(&self) -> (res: bool)
        ensures
            res == (self@.lines.len() == 0),
    {
        self.lines.len() == 0
    }

    /// Scroll up by given amount.
    pub fn scroll_up(&mut self, amount: usize)
        ensures
            final(self)@.lines == old(self)@.lines,
            final(self)@.scroll_offset == scrolled_up(old(self)@.scroll_offset as nat, amount as nat),
    {
        proof {
            use_type_invariant(&*self);
        }
        self.scroll_offset = self.scroll_offset.saturating_sub(amount);
    }

    /// Scroll down by given amount, stopping at the last page of lines.
    pub fn scroll_down(&mut self, amount: usize)
        requires
            old(self)@.scroll_offset + amount <= usize::MAX,
        ensures
            final(self)@.lines == old(self)@.lines,
            final(self)@.scroll_offset == scrolled_down(
                old(self)@.scroll_offset as nat,
                amount as nat,
                old(self)@.lines.len(),
            ),
    {
        proof {
            use_type_invariant(&*self);
        }
        let max_offset = self.lines.len().saturating_sub(MAX_POPUP_HEIGHT as usize);
        let target = self.scroll_offset + amount;
        self.scroll_offset = if target <= max_offset {
            target
        } else {
            max_offset
        };
    }
}

// ---------------------------------------------------------------------------
// Layout: where the popup goes and the cells it writes
// ---------------------------------------------------------------------------

/// How a cell of the hover popup is styled: the popup background (also used
/// for ordinary text and the scroll indicators), or a code line.
#[derive(Debug, Clone, Copy, PartialEq, Eq, Structural)]
pub enum HoverStyle {
    Background,
    Code,
}

/// One cell write: the character and style put at `(x, y)` of the buffer.
#[derive(Debug, Clone, Copy, PartialEq, Eq, Structural)]
pub struct HoverCell {
    pub x: u16,
    pub y: u16,
    pub ch: char,
    pub style: HoverStyle,
}

/// A rendered popup: its rectangle (for mouse hit testing) and the cell
/// writes, to be applied in order.
pub struct HoverLayout {
    pub rect: Rect,
    pub cells: Vec<HoverCell>,
}

/// The widest line's display width ([`MIN_POPUP_WIDTH`] for no lines).
pub open spec fn lines_max_width(lines: Seq<Seq<char>>) -> usize
    decreases lines.len(),
{
    if lines.len() == 0 {
        MIN_POPUP_WIDTH as usize
    } else if lines.len() == 1 {
        unicode::str_width(lines[0])
    } else {
        let a = lines_max_width(lines.drop_last());
        let b = unicode::str_width(lines.last());
        if a >= b {
            a
        } else {
            b
        }
    }
}

/// Popup width: content width plus padding, kept within the popup limits
/// and the available width.
pub open spec fn popup_width_spec(content_width: usize, available_width: u16) -> u16 {
    let v = ((content_width as u16) + 2) as u16;
    let c = if v < MIN_POPUP_WIDTH {
        MIN_POPUP_WIDTH
    } else if v > MAX_POPUP_WIDTH {
        MAX_POPUP_WIDTH
    } else {
        v
    };
    min16(c, available_width)
}

/// Number of lines the popup shows at once.
pub open spec fn visible_count(n: nat) -> nat {
    if n < MAX_POPUP_HEIGHT {
        n
    } else {
        MAX_POPUP_HEIGHT as nat
    }
}

/// Below and to the right of the click, moved left to stay clear of the
/// right edge, flipped above the click when there is no room below, and kept
/// one cell inside the top-left edges.
pub open spec fn calc_position_spec(area: Rect, click_x: u16, click_y: u16, width: u16, height: u16) -> (u16, u16) {
    let safe_right = sat_sub(area.right_spec(), 1);
    let safe_bottom = sat_sub(area.bottom_spec(), 1);
    let y0 = (click_y + 1) as u16;
    let x = if click_x + width > safe_right {
        sat_sub(safe_right, width)
    } else {
        click_x
    };
    let y = if y0 + height > safe_bottom {
        if click_y >= height + 1 {
            sat_sub(click_y, height)
        } else {
            sat_sub(safe_bottom, height)
        }
    } else {
        y0
    };
    (max16(x, (area.x + 1) as u16), max16(y, (area.y + 1) as u16))
}

/// The position computation involves no `u16` overflow.
pub open spec fn position_ok(area: Rect, click_x: u16, click_y: u16, width: u16, height: u16) -> bool {
    &&& click_y < u16::MAX
    &&& click_x + width <= u16::MAX
    &&& click_y + 1 + height <= u16::MAX
    &&& area.x < u16::MAX
    &&& area.y < u16::MAX
}

/// The popup's size: (width, height).
pub open spec fn popup_size(n: nat, content_width: usize, area: Rect) -> (u16, u16) {
    let aw = sat_sub(area.width, 2);
    let ah = sat_sub(area.height, 2);
    (popup_width_spec(content_width, aw), min16(visible_count(n) as u16, ah))
}

/// Whether there is room for a popup in `area`.
pub open spec fn has_room(area: Rect) -> bool {
    sat_sub(area.width, 2) >= MIN_POPUP_WIDTH && sat_sub(area.height, 2) >= 2
}

/// The popup's rectangle, kept one cell inside `area`.
pub open spec fn popup_rect_spec(n: nat, content_width: usize, area: Rect, click_x: u16, click_y: u16) -> Rect {
    let (w, h) = popup_size(n, content_width, area);
    let (px, py) = calc_position_spec(area, click_x, click_y, w, h);
    let fx = min16(max16(px, (area.x + 1) as u16), sat_sub(area.right_spec(), (w + 1) as u16));
    let fy = min16(max16(py, (area.y + 1) as u16), sat_sub(area.bottom_spec(), (h + 1) as u16));
    Rect {
        x: fx,
        y: fy,
        width: (sat_add(fx, w) - fx) as u16,
        height: (sat_add(fy, h) - fy) as u16,
    }
}

/// Number of lines drawn: the visible count, or fewer near the end.
pub open spec fn drawn_count(n: nat, scroll: nat) -> nat {
    let rest = if scroll <= n {
        (n - scroll) as nat
    } else {
        0
    };
    if visible_count(n) <= rest {
        visible_count(n)
    } else {
        rest
    }
}

/// Rendering involves no `u16` overflow: the content width plus padding,
/// the position, and the rows of the drawn lines all fit.
pub open spec fn render_ok(p: HoverPopupView, content_width: usize, area: Rect, click_x: u16, click_y: u16) -> bool {
    let n = p.lines.len();
    let (w, h) = popup_size(n, content_width, area);
    let r = popup_rect_spec(n, content_width, area, click_x, click_y);
    n == 0 || !has_room(area) || {
        &&& (content_width as u16) < u16::MAX - 1
        &&& position_ok(area, click_x, click_y, w, h)
        &&& r.y + drawn_count(n, p.scroll_offset as nat) <= u16::MAX + 1
    }
}

/// A background cell at `(x, y)` when the buffer holds it.
pub open spec fn bg_cell(x: int, y: int, buf: Rect) -> Seq<HoverCell> {
    if buf.contains_spec(x, y) {
        seq![HoverCell { x: x as u16, y: y as u16, ch: ' ', style: HoverStyle::Background }]
    } else {
        Seq::empty()
    }
}

/// The background cells of row `y` from column `x` to `x_end`.
pub open spec fn bg_row(x: int, x_end: int, y: int, buf: Rect) -> Seq<HoverCell>
    decreases x_end - x,
{
    if x >= x_end {
        Seq::empty()
    } else {
        bg_cell(x, y, buf) + bg_row(x + 1, x_end, y, buf)
    }
}

/// The background cells of rows `y` to `y_end` of `rect`.
pub open spec fn bg_rows(y: int, y_end: int, rect: Rect, buf: Rect) -> Seq<HoverCell>
    decreases y_end - y,
{
    if y >= y_end {
        Seq::empty()
    } else {
        bg_row(rect.x as int, rect.right_spec() as int, y, buf) + bg_rows(y + 1, y_end, rect, buf)
    }
}

/// Columns a character advances: its display width (1 for control
/// characters), as a `u16`.
pub open spec fn char_advance(c: char) -> int {
    (match unicode::char_width(c) {
        Some(w) => w,
        None => 1usize,
    }) as u16 as int
}

/// The style of a content line: code fences and indented lines are code.
pub open spec fn line_style(line: Seq<char>) -> HoverStyle {
    if text::has_prefix(line, "```"@) || text::has_prefix(line, "   "@) {
        HoverStyle::Code
    } else {
        HoverStyle::Background
    }
}

/// A text cell at `(x, y)` when the buffer's size holds it.
pub open spec fn text_cell(x: int, y: int, c: char, buf: Rect, style: HoverStyle) -> Seq<HoverCell> {
    if x < buf.width && y < buf.height {
        seq![HoverCell { x: x as u16, y: y as u16, ch: c, style }]
    } else {
        Seq::empty()
    }
}

proof fn lemma_line_cells_step(
    before: Seq<HoverCell>,
    after: Seq<HoverCell>,
    rest: Seq<char>,
    c: char,
    x: int,
    right: int,
    y: int,
    buf: Rect,
    style: HoverStyle,
)
    requires
        rest.len() > 0,
        rest[0] == c,
        0 <= x < right,
        0 <= y,
        after == (if x < buf.width && y < buf.height {
            before.push(HoverCell { x: x as u16, y: y as u16, ch: c, style })
        } else {
            before
        }),
    ensures
        before + line_cells(rest, x, right, y, buf, style) == after + line_cells(
            rest.drop_first(),
            x + char_advance(c),
            right,
            y,
            buf,
            style,
        ),
{
    assert(after =~= before + text_cell(x, y, c, buf, style));
}

/// The cells of a line's characters from column `x` on, up to the column
/// `right`; cells outside the buffer's size are skipped.
pub open spec fn line_cells(chars: Seq<char>, x: int, right: int, y: int, buf: Rect, style: HoverStyle) -> Seq<HoverCell>
    decreases chars.len(),
{
    if chars.len() == 0 || x >= right {
        Seq::empty()
    } else {
        text_cell(x, y, chars[0], buf, style) + line_cells(chars.drop_first(), x + char_advance(chars[0]), right, y, buf, style)
    }
}

/// The cells of drawn lines `idx` to `count`, line `scroll + i` on row
/// `rect.y + i`, one column in from the left edge.
pub open spec fn content_rows(lines: Seq<Seq<char>>, scroll: int, idx: int, count: int, rect: Rect, buf: Rect) -> Seq<HoverCell>
    decreases count - idx,
{
    if idx >= count {
        Seq::empty()
    } else {
        let line = lines[scroll + idx];
        line_cells(line, rect.x + 1, rect.right_spec() as int, rect.y + idx, buf, line_style(line))
            + content_rows(lines, scroll, idx + 1, count, rect, buf)
    }
}

/// A scroll indicator at `(x, y)` when the buffer's size holds it.
pub open spec fn indicator(x: u16, y: u16, ch: char, buf: Rect) -> Seq<HoverCell> {
    if x < buf.width && y < buf.height {
        seq![HoverCell { x, y, ch, style: HoverStyle::Background }]
    } else {
        Seq::empty()
    }
}

/// The cell writes of a popup in `rect`: background, content lines, then
/// the scroll indicators (▲ when scrolled, ▼ when more lines follow).
pub open spec fn popup_cells(p: HoverPopupView, rect: Rect, buf: Rect) -> Seq<HoverCell> {
    let n = p.lines.len();
    let scroll = p.scroll_offset as int;
    let up = if scroll > 0 {
        indicator(sat_sub(rect.right_spec(), 1), rect.y, '▲', buf)
    } else {
        Seq::empty()
    };
    let down = if scroll + visible_count(n) < n {
        indicator(sat_sub(rect.right_spec(), 1), sat_sub(rect.bottom_spec(), 1), '▼', buf)
    } else {
        Seq::empty()
    };
    bg_rows(rect.y as int, rect.bottom_spec() as int, rect, buf) + content_rows(
        p.lines,
        scroll,
        0,
        drawn_count(n, p.scroll_offset as nat) as int,
        rect,
        buf,
    ) + up + down
}

/// The popup rendered at a click, given the width of its widest line.
pub open spec fn layout_spec(p: HoverPopupView, content_width: usize, area: Rect, buf: Rect, click_x: u16, click_y: u16) -> Option<(Rect, Seq<HoverCell>)> {
    if p.lines.len() == 0 || !has_room(area) {
        None
    } else {
        let rect = popup_rect_spec(p.lines.len(), content_width, area, click_x, click_y);
        Some((rect, popup_cells(p, rect, buf)))
    }
}

/// The views of a layout.
pub open spec fn layout_view(l: Option<HoverLayout>) -> Option<(Rect, Seq<HoverCell>)> {
    match l {
        Some(l) => Some((l.rect, l.cells@)),
        None => None,
    }
}

/// Whether `r` lies inside `area` with a free cell on each side.
pub open spec fn inside_with_margin(r: Rect, area: Rect) -> bool {
    &&& area.x + 1 <= r.x
    &&& r.x + r.width + 1 <= area.x + area.width
    &&& area.y + 1 <= r.y
    &&& r.y + r.height + 1 <= area.y + area.height
}

/// Wherever the click is, a rendered popup stays inside the area, one cell
/// in from each edge; it is at least [`MIN_POPUP_WIDTH`] and at most
/// [`MAX_POPUP_WIDTH`] wide, and one to [`MAX_POPUP_HEIGHT`] rows high.
pub proof fn lemma_popup_inside_area(n: nat, content_width: usize, area: Rect, click_x: u16, click_y: u16)
    requires
        n > 0,
        has_room(area),
        area.x + area.width <= u16::MAX,
        area.y + area.height <= u16::MAX,
    ensures
        inside_with_margin(popup_rect_spec(n, content_width, area, click_x, click_y), area),
        popup_rect_spec(n, content_width, area, click_x, click_y).width == popup_size(n, content_width, area).0,
        popup_rect_spec(n, content_width, area, click_x, click_y).height == popup_size(n, content_width, area).1,
        MIN_POPUP_WIDTH <= popup_size(n, content_width, area).0 <= MAX_POPUP_WIDTH,
        1 <= popup_size(n, content_width, area).1 <= MAX_POPUP_HEIGHT,
{
}

/// The column where character `k` of a line drawn from column `x` lands:
/// `x` plus the advances of the characters before it.
pub open spec fn column_of(line: Seq<char>, x: int, k: int) -> int
    decreases k,
{
    if k <= 0 || line.len() == 0 {
        x
    } else {
        column_of(line.drop_first(), x + char_advance(line[0]), k - 1)
    }
}

/// Whether some cell writes `ch` in `style` at `(x, y)`.
pub open spec fn has_cell(cells: Seq<HoverCell>, x: int, y: int, ch: char, style: HoverStyle) -> bool {
    exists|j: int|
        0 <= j < cells.len() && #[trigger] cells[j].x == x && cells[j].y == y && cells[j].ch == ch
            && cells[j].style == style
}

proof fn lemma_has_cell_left(a: Seq<HoverCell>, b: Seq<HoverCell>, x: int, y: int, ch: char, style: HoverStyle)
    requires
        has_cell(a, x, y, ch, style),
    ensures
        has_cell(a + b, x, y, ch, style),
{
    let j = choose|j: int|
        0 <= j < a.len() && #[trigger] a[j].x == x && a[j].y == y && a[j].ch == ch && a[j].style == style;
    assert((a + b)[j] == a[j]);
}

proof fn lemma_has_cell_right(a: Seq<HoverCell>, b: Seq<HoverCell>, x: int, y: int, ch: char, style: HoverStyle)
    requires
        has_cell(b, x, y, ch, style),
    ensures
        has_cell(a + b, x, y, ch, style),
{
    let j = choose|j: int|
        0 <= j < b.len() && #[trigger] b[j].x == x && b[j].y == y && b[j].ch == ch && b[j].style == style;
    assert((a + b)[a.len() + j] == b[j]);
}

proof fn lemma_column_of_ge(line: Seq<char>, x: int, k: int)
    ensures
        column_of(line, x, k) >= x,
    decreases k,
{
    if k > 0 && line.len() > 0 {
        lemma_column_of_ge(line.drop_first(), x + char_advance(line[0]), k - 1);
    }
}

proof fn lemma_text_cell_has(x: int, y: int, c: char, buf: Rect, style: HoverStyle)
    requires
        0 <= x < buf.width,
        0 <= y < buf.height,
    ensures
        has_cell(text_cell(x, y, c, buf, style), x, y, c, style),
{
    let tc = text_cell(x, y, c, buf, style);
    assert(tc[0].x == x && tc[0].y == y && tc[0].ch == c && tc[0].style == style);
}

proof fn lemma_line_cells_has(chars: Seq<char>, x: int, right: int, y: int, buf: Rect, style: HoverStyle, k: int)
    requires
        0 <= k < chars.len(),
        0 <= x,
        0 <= y < buf.height,
        column_of(chars, x, k) < right,
        column_of(chars, x, k) < buf.width,
    ensures
        has_cell(line_cells(chars, x, right, y, buf, style), column_of(chars, x, k), y, chars[k], style),
    decreases k,
{
    lemma_column_of_ge(chars, x, k);
    let tc = text_cell(x, y, chars[0], buf, style);
    let rest = line_cells(chars.drop_first(), x + char_advance(chars[0]), right, y, buf, style);
    assert(line_cells(chars, x, right, y, buf, style) == tc + rest);
    if k == 0 {
        assert(column_of(chars, x, 0) == x);
        lemma_text_cell_has(x, y, chars[0], buf, style);
        lemma_has_cell_left(tc, rest, x, y, chars[0], style);
    } else {
        let d = chars.drop_first();
        assert(d[k - 1] == chars[k]);
        lemma_line_cells_has(d, x + char_advance(chars[0]), right, y, buf, style, k - 1);
        lemma_has_cell_right(tc, rest, column_of(chars, x, k), y, chars[k], style);
    }
}

proof fn lemma_content_rows_has(
    lines: Seq<Seq<char>>,
    scroll: int,
    idx: int,
    count: int,
    rect: Rect,
    buf: Rect,
    i: int,
    k: int,
)
    requires
        0 <= idx <= i < count,
        0 <= k < lines[scroll + i].len(),
        rect.y + i < buf.height,
        column_of(lines[scroll + i], rect.x + 1, k) < rect.right_spec(),
        column_of(lines[scroll + i], rect.x + 1, k) < buf.width,
    ensures
        has_cell(
            content_rows(lines, scroll, idx, count, rect, buf),
            column_of(lines[scroll + i], rect.x + 1, k),
            rect.y + i,
            lines[scroll + i][k],
            line_style(lines[scroll + i]),
        ),
    decreases i - idx,
{
    let line = lines[scroll + idx];
    let here = line_cells(line, rect.x + 1, rect.right_spec() as int, rect.y + idx, buf, line_style(line));
    let later = content_rows(lines, scroll, idx + 1, count, rect, buf);
    assert(content_rows(lines, scroll, idx, count, rect, buf) == here + later);
    let l = lines[scroll + i];
    if idx == i {
        lemma_line_cells_has(l, rect.x + 1, rect.right_spec() as int, rect.y + i, buf, line_style(l), k);
        lemma_has_cell_left(here, later, column_of(l, rect.x + 1, k), rect.y + i, l[k], line_style(l));
    } else {
        lemma_content_rows_has(lines, scroll, idx + 1, count, rect, buf, i, k);
        lemma_has_cell_right(here, later, column_of(l, rect.x + 1, k), rect.y + i, l[k], line_style(l));
    }
}

/// The drawn window starts at the scroll offset: row `i` of a rendered
/// popup shows line `scroll_offset + i`. Each character `k` of that line
/// whose column (one in from the popup's left edge, plus the advances of
/// the characters before it) lies within the popup and the buffer is
/// written there, on row `rect.y + i`, in the line's style.
pub proof fn lemma_drawn_rows_follow_scroll(
    p: HoverPopupView,
    content_width: usize,
    area: Rect,
    buf: Rect,
    click_x: u16,
    click_y: u16,
    i: int,
    k: int,
)
    requires
        p.lines.len() > 0,
        has_room(area),
        0 <= i < drawn_count(p.lines.len(), p.scroll_offset as nat),
        0 <= k < p.lines[p.scroll_offset + i].len(),
        popup_rect_spec(p.lines.len(), content_width, area, click_x, click_y).y + i < buf.height,
        column_of(
            p.lines[p.scroll_offset + i],
            popup_rect_spec(p.lines.len(), content_width, area, click_x, click_y).x + 1,
            k,
        ) < popup_rect_spec(p.lines.len(), content_width, area, click_x, click_y).right_spec(),
        column_of(
            p.lines[p.scroll_offset + i],
            popup_rect_spec(p.lines.len(), content_width, area, click_x, click_y).x + 1,
            k,
        ) < buf.width,
    ensures
        layout_spec(p, content_width, area, buf, click_x, click_y) matches Some((rect, cells)) && rect
            == popup_rect_spec(p.lines.len(), content_width, area, click_x, click_y) && has_cell(
            cells,
            column_of(p.lines[p.scroll_offset + i], rect.x + 1, k),
            rect.y + i,
            p.lines[p.scroll_offset + i][k],
            line_style(p.lines[p.scroll_offset + i]),
        ),
{
    let n = p.lines.len();
    let rect = popup_rect_spec(n, content_width, area, click_x, click_y);
    let scroll = p.scroll_offset as int;
    let l = p.lines[scroll + i];
    let col = column_of(l, rect.x + 1, k);
    let count = drawn_count(n, p.scroll_offset as nat) as int;
    let bg = bg_rows(rect.y as int, rect.bottom_spec() as int, rect, buf);
    let rows = content_rows(p.lines, scroll, 0, count, rect, buf);
    let up = if scroll > 0 {
        indicator(sat_sub(rect.right_spec(), 1), rect.y, '▲', buf)
    } else {
        Seq::empty()
    };
    let down = if scroll + visible_count(n) < n {
        indicator(sat_sub(rect.right_spec(), 1), sat_sub(rect.bottom_spec(), 1), '▼', buf)
    } else {
        Seq::empty()
    };
    assert(popup_cells(p, rect, buf) == bg + rows + up + down);
    lemma_content_rows_has(p.lines, scroll, 0, count, rect, buf, i, k);
    lemma_has_cell_right(bg, rows, col, rect.y + i, l[k], line_style(l));
    lemma_has_cell_left(bg + rows, up, col, rect.y + i, l[k], line_style(l));
    lemma_has_cell_left(bg + rows + up, down, col, rect.y + i, l[k], line_style(l));
}

/// Whether each cell lies inside `rect` and before the right and bottom
/// edges of the buffer.
pub open spec fn cells_inside(cells: Seq<HoverCell>, rect: Rect, buf: Rect) -> bool {
    forall|i: int|
        0 <= i < cells.len() ==> {
            &&& rect.contains_spec(#[trigger] cells[i].x as int, cells[i].y as int)
            &&& cells[i].x < buf.right_spec()
            &&& cells[i].y < buf.bottom_spec()
        }
}

proof fn lemma_cells_inside_concat(a: Seq<HoverCell>, b: Seq<HoverCell>, rect: Rect, buf: Rect)
    requires
        cells_inside(a, rect, buf),
        cells_inside(b, rect, buf),
    ensures
        cells_inside(a + b, rect, buf),
{
    assert forall|i: int| 0 <= i < (a + b).len() implies {
        &&& rect.contains_spec(#[trigger] (a + b)[i].x as int, (a + b)[i].y as int)
        &&& (a + b)[i].x < buf.right_spec()
        &&& (a + b)[i].y < buf.bottom_spec()
    } by {
        if i < a.len() {
            assert((a + b)[i] == a[i]);
        } else {
            assert((a + b)[i] == b[i - a.len()]);
        }
    }
}

proof fn lemma_bg_row_inside(x: int, x_end: int, y: int, rect: Rect, buf: Rect)
    requires
        rect.x <= x,
        x_end <= rect.right_spec(),
        rect.y <= y < rect.bottom_spec(),
    ensures
        cells_inside(bg_row(x, x_end, y, buf), rect, buf),
    decreases x_end - x,
{
    if x < x_end {
        lemma_bg_row_inside(x + 1, x_end, y, rect, buf);
        lemma_cells_inside_concat(bg_cell(x, y, buf), bg_row(x + 1, x_end, y, buf), rect, buf);
    }
}

proof fn lemma_bg_rows_inside(y: int, y_end: int, rect: Rect, buf: Rect)
    requires
        rect.y <= y,
        y_end <= rect.bottom_spec(),
    ensures
        cells_inside(bg_rows(y, y_end, rect, buf), rect, buf),
    decreases y_end - y,
{
    if y < y_end {
        lemma_bg_row_inside(rect.x as int, rect.right_spec() as int, y, rect, buf);
        lemma_bg_rows_inside(y + 1, y_end, rect, buf);
        lemma_cells_inside_concat(
            bg_row(rect.x as int, rect.right_spec() as int, y, buf),
            bg_rows(y + 1, y_end, rect, buf),
            rect,
            buf,
        );
    }
}

proof fn lemma_text_cell_inside(x: int, y: int, c: char, style: HoverStyle, rect: Rect, buf: Rect)
    requires
        rect.contains_spec(x, y),
    ensures
        cells_inside(text_cell(x, y, c, buf, style), rect, buf),
{
}

proof fn lemma_line_cells_inside(chars: Seq<char>, x: int, right: int, y: int, style: HoverStyle, rect: Rect, buf: Rect)
    requires
        rect.x <= x,
        right <= rect.right_spec(),
        rect.y <= y < rect.bottom_spec(),
    ensures
        cells_inside(line_cells(chars, x, right, y, buf, style), rect, buf),
    decreases chars.len(),
{
    if chars.len() > 0 && x < right {
        lemma_line_cells_inside(chars.drop_first(), x + char_advance(chars[0]), right, y, style, rect, buf);
        lemma_text_cell_inside(x, y, chars[0], style, rect, buf);
        lemma_cells_inside_concat(
            text_cell(x, y, chars[0], buf, style),
            line_cells(chars.drop_first(), x + char_advance(chars[0]), right, y, buf, style),
            rect,
            buf,
        );
    }
}

proof fn lemma_content_rows_inside(lines: Seq<Seq<char>>, scroll: int, idx: int, count: int, rect: Rect, buf: Rect)
    requires
        0 <= idx,
        rect.y + count <= rect.bottom_spec(),
    ensures
        cells_inside(content_rows(lines, scroll, idx, count, rect, buf), rect, buf),
    decreases count - idx,
{
    if idx < count {
        let line = lines[scroll + idx];
        lemma_line_cells_inside(line, rect.x + 1, rect.right_spec() as int, rect.y + idx, line_style(line), rect, buf);
        lemma_content_rows_inside(lines, scroll, idx + 1, count, rect, buf);
        lemma_cells_inside_concat(
            line_cells(line, rect.x + 1, rect.right_spec() as int, rect.y + idx, buf, line_style(line)),
            content_rows(lines, scroll, idx + 1, count, rect, buf),
            rect,
            buf,
        );
    }
}

/// Every cell a rendered popup writes lies inside the popup's rectangle
/// (the one returned for hit testing) and before the buffer's right and
/// bottom edges, provided the area is tall enough to show a full page of
/// lines: on a shorter area the popup is cut down but the lines drawn are
/// not.
pub proof fn lemma_popup_cells_inside(p: HoverPopupView, content_width: usize, area: Rect, buf: Rect, click_x: u16, click_y: u16)
    requires
        visible_count(p.lines.len()) <= sat_sub(area.height, 2),
    ensures
        match layout_spec(p, content_width, area, buf, click_x, click_y) {
            Some((rect, cells)) => cells_inside(cells, rect, buf),
            None => true,
        },
{
    let n = p.lines.len();
    if n == 0 || !has_room(area) {
        return;
    }
    let rect = popup_rect_spec(n, content_width, area, click_x, click_y);
    let (w, h) = popup_size(n, content_width, area);
    assert(rect.width == w && rect.height == h);
    let scroll = p.scroll_offset as int;
    let bg = bg_rows(rect.y as int, rect.bottom_spec() as int, rect, buf);
    let rows = content_rows(p.lines, scroll, 0, drawn_count(n, p.scroll_offset as nat) as int, rect, buf);
    lemma_bg_rows_inside(rect.y as int, rect.bottom_spec() as int, rect, buf);
    lemma_content_rows_inside(p.lines, scroll, 0, drawn_count(n, p.scroll_offset as nat) as int, rect, buf);
    lemma_cells_inside_concat(bg, rows, rect, buf);
    let up = if scroll > 0 {
        indicator(sat_sub(rect.right_spec(), 1), rect.y, '▲', buf)
    } else {
        Seq::empty()
    };
    let down = if scroll + visible_count(n) < n {
        indicator(sat_sub(rect.right_spec(), 1), sat_sub(rect.bottom_spec(), 1), '▼', buf)
    } else {
        Seq::empty()
    };
    lemma_cells_inside_concat(bg + rows, up, rect, buf);
    lemma_cells_inside_concat(bg + rows + up, down, rect, buf);
    assert(popup_cells(p, rect, buf) == bg + rows + up + down);
}

/// Calculate popup position ensuring it stays within area bounds.
fn calculate_position(area: Rect, click_x: u16, click_y: u16, width: u16, height: u16) -> (res: (u16, u16))
    requires
        position_ok(area, click_x, click_y, width, height),
    ensures
        res == calc_position_spec(area, click_x, click_y, width, height),
{
    // Leave 1 char margin from edges to avoid overlapping borders
    let margin = 1u16;
    let safe_right = area.right().saturating_sub(margin);
    let safe_bottom = area.bottom().saturating_sub(margin);
    // Try to position below and to the right of click
    let mut x = click_x;
    let mut y = click_y + 1;
    // Adjust x if popup would go off right edge (with margin)
    if x + width > safe_right {
        x = safe_right.saturating_sub(width);
    }
    // Flip above click if not enough space below
    if y + height > safe_bottom {
        if click_y >= height + margin {
            y = click_y.saturating_sub(height);
        } else {
            y = safe_bottom.saturating_sub(height);
        }
    }
    // Ensure within bounds
    let lx = area.left() + margin;
    let ty = area.top() + margin;
    let final_x = if x >= lx {
        x
    } else {
        lx
    };
    let final_y = if y >= ty {
        y
    } else {
        ty
    };
    (final_x, final_y)
}

fn push_bg_rows(out: &mut Vec<HoverCell>, rect: Rect, buf: Rect)
    ensures
        final(out)@ == old(out)@ + bg_rows(rect.y as int, rect.bottom_spec() as int, rect, buf),
{
    let bottom = rect.bottom();
    let right = rect.right();
    let mut y = rect.top();
    proof {
        assert(old(out)@ + bg_rows(rect.y as int, bottom as int, rect, buf) == out@ + bg_rows(
            y as int,
            bottom as int,
            rect,
            buf,
        ));
    }
    while y < bottom
        invariant
            rect.y <= y,
            right == rect.right_spec(),
            bottom == rect.bottom_spec(),
            old(out)@ + bg_rows(rect.y as int, bottom as int, rect, buf) == out@ + bg_rows(
                y as int,
                bottom as int,
                rect,
                buf,
            ),
        decreases bottom - y,
    {
        let ghost row_start = out@;
        let mut x = rect.left();
        while x < right
            invariant
                rect.x <= x,
                y < bottom,
                right == rect.right_spec(),
                row_start + bg_row(rect.x as int, right as int, y as int, buf) == out@ + bg_row(
                    x as int,
                    right as int,
                    y as int,
                    buf,
                ),
            decreases right - x,
        {
            let ghost before = out@;
            if x >= buf.left() && x < buf.right() && y >= buf.top() && y < buf.bottom() {
                out.push(HoverCell { x, y, ch: ' ', style: HoverStyle::Background });
            }
            proof {
                assert(before + bg_row(x as int, right as int, y as int, buf) =~= out@ + bg_row(
                    x + 1,
                    right as int,
                    y as int,
                    buf,
                ));
            }
            x = x + 1;
        }
        proof {
            assert(out@ + bg_row(x as int, right as int, y as int, buf) =~= out@);
            assert(row_start + bg_rows(y as int, bottom as int, rect, buf) =~= out@ + bg_rows(
                y + 1,
                bottom as int,
                rect,
                buf,
            ));
        }
        y = y + 1;
    }
    proof {
        assert(out@ + bg_rows(y as int, bottom as int, rect, buf) =~= out@);
    }
}

fn push_line_cells(out: &mut Vec<HoverCell>, line: &Vec<char>, x0: u16, right: u16, y: u16, buf: Rect, style: HoverStyle)
    ensures
        final(out)@ == old(out)@ + line_cells(line@, x0 as int, right as int, y as int, buf, style),
{
    let mut x: u128 = x0 as u128;
    let mut i: usize = 0;
    proof {
        assert(line@.subrange(0, line@.len() as int) =~= line@);
    }
    while i < line.len() && x < right as u128
        invariant
            i <= line@.len(),
            old(out)@ + line_cells(line@, x0 as int, right as int, y as int, buf, style) == out@
                + line_cells(line@.subrange(i as int, line@.len() as int), x as int, right as int, y as int, buf, style),
            x <= u16::MAX as u128 + usize::MAX as u128,
        decreases line@.len() - i,
    {
        let c = line[i];
        let ghost before = out@;
        let ghost rest = line@.subrange(i as int, line@.len() as int);
        if x < buf.width as u128 && y < buf.height {
            out.push(HoverCell { x: x as u16, y, ch: c, style });
        }
        let w = match char_display_width(c) {
            Some(w) => w,
            None => 1,
        };
        let adv = (w as u16) as u128;
        proof {
            assert(rest[0] == c);
            assert(rest.drop_first() =~= line@.subrange(i + 1, line@.len() as int));
            assert(adv as int == char_advance(c));
            lemma_line_cells_step(before, out@, rest, c, x as int, right as int, y as int, buf, style);
            assert(before + line_cells(rest, x as int, right as int, y as int, buf, style) =~= out@
                + line_cells(rest.drop_first(), x + adv, right as int, y as int, buf, style));
        }
        x = x + adv;
        i = i + 1;
    }
    proof {
        assert(out@ + line_cells(line@.subrange(i as int, line@.len() as int), x as int, right as int, y as int, buf, style) =~= out@);
    }
}

impl HoverPopup {
    /// The display width of the widest line.
    pub fn content_width(&self) -> (res: usize)
        ensures
            res == lines_max_width(self@.lines),
    {
        let mut best: usize = MIN_POPUP_WIDTH as usize;
        let mut i: usize = 0;
        while i < self.lines.len()
            invariant
                i <= self.lines@.len(),
                best == lines_max_width(string_views(self.lines@).take(i as int)),
            decreases self.lines@.len() - i,
        {
            let w = display_width(self.lines[i].as_str());
            let ghost views = string_views(self.lines@);
            proof {
                assert(views.take(i + 1).drop_last() =~= views.take(i as int));
                assert(views.take(i + 1).last() == self.lines@[i as int]@);
                if i == 0 {
                    assert(views.take(1)[0] == self.lines@[0]@);
                }
            }
            best = if i == 0 || w > best {
                w
            } else {
                best
            };
            i = i + 1;
        }
        proof {
            assert(string_views(self.lines@).take(self.lines@.len() as int) =~= string_views(
                self.lines@,
            ));
        }
        best
    }

    /// Lays the popup out for a click at `(click_x, click_y)` in `area`,
    /// given the width of its widest line; `buf_area` is the buffer's area.
    ///
    /// Returns the popup rect for mouse hit testing and the cell writes, or
    /// None if nothing is rendered (no lines, or not enough space).
    #[verifier::rlimit(50)]
    pub fn layout(&self, content_width: usize, area: Rect, buf_area: Rect, click_x: u16, click_y: u16) -> (res: Option<HoverLayout>)
        requires
            render_ok(self@, content_width, area, click_x, click_y),
        ensures
            layout_view(res) == layout_spec(self@, content_width, area, buf_area, click_x, click_y),
    {
        proof {
            use_type_invariant(self);
        }
        if self.lines.len() == 0 {
            return None;
        }
        // Calculate available space in the area (with margin for borders)
        let margin = 1u16;
        let available_width = area.width.saturating_sub(margin * 2);
        let available_height = area.height.saturating_sub(margin * 2);
        if available_width < MIN_POPUP_WIDTH || available_height < 2 {
            return None;
        }
        // Calculate popup dimensions constrained to available space
        let v = content_width as u16 + 2;
        let clamped = if v < MIN_POPUP_WIDTH {
            MIN_POPUP_WIDTH
        } else if v > MAX_POPUP_WIDTH {
            MAX_POPUP_WIDTH
        } else {
            v
        };
        let popup_width = if clamped <= available_width {
            clamped
        } else {
            available_width
        };
        let n = self.lines.len();
        let visible_lines = if n < MAX_POPUP_HEIGHT as usize {
            n
        } else {
            MAX_POPUP_HEIGHT as usize
        };
        let vh = visible_lines as u16;
        let popup_height = if vh <= available_height {
            vh
        } else {
            available_height
        };
        // Calculate popup position (stay within area bounds)
        let (popup_x, popup_y) = calculate_position(area, click_x, click_y, popup_width, popup_height);
        // Ensure popup stays within area
        let lx = area.x + margin;
        let ty = area.y + margin;
        let mx = if popup_x >= lx {
            popup_x
        } else {
            lx
        };
        let my = if popup_y >= ty {
            popup_y
        } else {
            ty
        };
        let rx = area.right().saturating_sub(popup_width + margin);
        let by = area.bottom().saturating_sub(popup_height + margin);
        let final_x = if mx <= rx {
            mx
        } else {
            rx
        };
        let final_y = if my <= by {
            my
        } else {
            by
        };
        let popup_rect = Rect::new(final_x, final_y, popup_width, popup_height);
        proof {
            assert(popup_rect == popup_rect_spec(n as nat, content_width, area, click_x, click_y));
        }
        let mut cells: Vec<HoverCell> = Vec::new();
        // Render background
        push_bg_rows(&mut cells, popup_rect, buf_area);
        // Render content lines
        let scroll = self.scroll_offset;
        let count = if visible_lines <= n - scroll {
            visible_lines
        } else {
            n - scroll
        };
        let ghost lines = self@.lines;
        let ghost before_content = cells@;
        let right = popup_rect.right();
        let mut idx: usize = 0;
        proof {
            assert(count == drawn_count(n as nat, scroll as nat));
        }
        while idx < count
            invariant
                idx <= count,
                count == drawn_count(n as nat, scroll as nat),
                scroll + count <= n,
                n == self.lines@.len(),
                lines == self@.lines,
                lines == string_views(self.lines@),
                right == popup_rect.right_spec(),
                popup_rect.y + count <= u16::MAX + 1,
                popup_rect.x + 1 <= u16::MAX,
                before_content + content_rows(lines, scroll as int, 0, count as int, popup_rect, buf_area)
                    == cells@ + content_rows(lines, scroll as int, idx as int, count as int, popup_rect, buf_area),
            decreases count - idx,
        {
            let line = chars_of(self.lines[scroll + idx].as_str());
            let prefix_code = chars_of("```");
            let prefix_indent = chars_of("   ");
            let style = if crate::text::starts_with(&line, &prefix_code) || crate::text::starts_with(&line, &prefix_indent) {
                HoverStyle::Code
            } else {
                HoverStyle::Background
            };
            let ghost before = cells@;
            let y = popup_rect.y + idx as u16;
            proof {
                assert(line@ == lines[scroll + idx]);
            }
            push_line_cells(&mut cells, &line, popup_rect.x + 1, right, y, buf_area, style);
            proof {
                assert(before + content_rows(lines, scroll as int, idx as int, count as int, popup_rect, buf_area) =~= cells@
                    + content_rows(lines, scroll as int, idx + 1, count as int, popup_rect, buf_area));
            }
            idx = idx + 1;
        }
        proof {
            assert(cells@ + content_rows(lines, scroll as int, idx as int, count as int, popup_rect, buf_area) =~= cells@);
        }
        // Render scroll indicators
        if scroll > 0 {
            let x = right.saturating_sub(1);
            let y = popup_rect.y;
            if x < buf_area.width && y < buf_area.height {
                cells.push(HoverCell { x, y, ch: '▲', style: HoverStyle::Background });
            }
        }
        let ghost after_up = cells@;
        if scroll + visible_lines < n {
            let x = right.saturating_sub(1);
            let y = popup_rect.bottom().saturating_sub(1);
            if x < buf_area.width && y < buf_area.height {
                cells.push(HoverCell { x, y, ch: '▼', style: HoverStyle::Background });
            }
        }
        proof {
            assert(cells@ =~= popup_cells(self@, popup_rect, buf_area));
        }
        Some(HoverLayout { rect: popup_rect, cells })
    }

    /// Render the hover popup at the given position.
    ///
    /// Returns the popup rect for mouse hit testing and the cell writes, or
    /// None if nothing is rendered (no lines, not enough space, or sizes that
    /// would overflow `u16`).
    pub fn render(&self, area: Rect, buf_area: Rect, click_x: u16, click_y: u16) -> (res: Option<HoverLayout>)
        ensures
            layout_view(res) == (if render_ok(self@, lines_max_width(self@.lines), area, click_x, click_y) {
                layout_spec(self@, lines_max_width(self@.lines), area, buf_area, click_x, click_y)
            } else {
                None
            }),
    {
        let content_width = self.content_width();
        if !self.check_render(content_width, area, click_x, click_y) {
            return None;
        }
        self.layout(content_width, area, buf_area, click_x, click_y)
    }

    /// Whether rendering with this content width stays within `u16`.
    fn check_render(&self, content_width: usize, area: Rect, click_x: u16, click_y: u16) -> (res: bool)
        ensures
            res == render_ok(self@, content_width, area, click_x, click_y),
    {
        proof {
            use_type_invariant(self);
        }
        let n = self.lines.len();
        if n == 0 {
            return true;
        }
        let available_width = area.width.saturating_sub(2);
        let available_height = area.height.saturating_sub(2);
        if available_width < MIN_POPUP_WIDTH || available_height < 2 {
            return true;
        }
        if content_width as u16 >= u16::MAX - 1 {
            return false;
        }
        let v = content_width as u16 + 2;
        let clamped = if v < MIN_POPUP_WIDTH {
            MIN_POPUP_WIDTH
        } else if v > MAX_POPUP_WIDTH {
            MAX_POPUP_WIDTH
        } else {
            v
        };
        let w = if clamped <= available_width {
            clamped
        } else {
            available_width
        };
        let visible_lines = if n < MAX_POPUP_HEIGHT as usize {
            n
        } else {
            MAX_POPUP_HEIGHT as usize
        };
        let vh = visible_lines as u16;
        let h = if vh <= available_height {
            vh
        } else {
            available_height
        };
        if !(click_y < u16::MAX && (click_x as u32) + (w as u32) <= u16::MAX as u32 && (click_y as u32) + 1
            + (h as u32) <= u16::MAX as u32 && area.x < u16::MAX && area.y < u16::MAX) {
            return false;
        }
        let (px, py) = calculate_position(area, click_x, click_y, w, h);
        let ty = area.y + 1;
        let my = if py >= ty {
            py
        } else {
            ty
        };
        let by = area.bottom().saturating_sub(h + 1);
        let fy = if my <= by {
            my
        } else {
            by
        };
        let rect = Rect::new(0, fy, w, h);
        let scroll = self.scroll_offset;
        let count = if visible_lines <= n - scroll {
            visible_lines
        } else {
            n - scroll
        };
        proof {
            assert(rect.y == popup_rect_spec(n as nat, content_width, area, click_x, click_y).y);
            assert(count == drawn_count(n as nat, scroll as nat));
        }
        (rect.y as usize) + count <= u16::MAX as usize + 1
    }
}

} // verus!
