//! Filter operator helpers: the type-aware operator menu and the mapping
//! between display labels and [`FilterOp`], plus value coercion.

use vstd::prelude::*;
use crate::text;
use crate::text::chars_of;

verus! {

/// The kind of a column's type, which decides the filters it offers.
#[derive(Debug, Clone, Copy, PartialEq, Eq, Structural)]
pub enum TypeCategory {
    Number,
    Text,
    Bool,
    Date,
    Bytes,
    Other,
}

/// A filter operator.
#[derive(Debug, Clone, Copy, PartialEq, Eq, Structural)]
pub enum FilterOp {
    Contains,
    StartsWith,
    EndsWith,
    Eq,
    Ne,
    Gt,
    Ge,
    Lt,
    Le,
    IsNull,
    IsNotNull,
}

/// A value read from or bound to a database.
pub enum DbValue {
    Null,
    Bool(bool),
    Int(i64),
    /// A floating-point value, held as the text of its `Display`.
    Float(String),
    Text(String),
    /// A binary value, held as its display text.
    Bytes(String),
}

/// The label a menu shows for an operator.
pub open spec fn label_spec(op: FilterOp) -> Seq<char> {
    match op {
        FilterOp::Contains => "contains"@,
        FilterOp::StartsWith => "starts with"@,
        FilterOp::EndsWith => "ends with"@,
        FilterOp::Eq => "="@,
        FilterOp::Ne => "≠"@,
        FilterOp::Gt => ">"@,
        FilterOp::Ge => "≥"@,
        FilterOp::Lt => "<"@,
        FilterOp::Le => "≤"@,
        FilterOp::IsNull => "is null"@,
        FilterOp::IsNotNull => "is not null"@,
    }
}

/// The operators offered for a column category, in menu order.
pub open spec fn operators_spec(cat: TypeCategory) -> Seq<FilterOp> {
    match cat {
        TypeCategory::Number | TypeCategory::Date => seq![
            FilterOp::Eq,
            FilterOp::Ne,
            FilterOp::Gt,
            FilterOp::Ge,
            FilterOp::Lt,
            FilterOp::Le,
            FilterOp::IsNull,
            FilterOp::IsNotNull,
        ],
        TypeCategory::Text | TypeCategory::Other => seq![
            FilterOp::Contains,
            FilterOp::StartsWith,
            FilterOp::EndsWith,
            FilterOp::Eq,
            FilterOp::Ne,
            FilterOp::IsNull,
            FilterOp::IsNotNull,
        ],
        TypeCategory::Bool => seq![
            FilterOp::Eq,
            FilterOp::Ne,
            FilterOp::IsNull,
            FilterOp::IsNotNull,
        ],
        TypeCategory::Bytes => seq![FilterOp::IsNull, FilterOp::IsNotNull],
    }
}

/// The labels of the operators offered for a category.
pub open spec fn operator_labels_spec(cat: TypeCategory) -> Seq<Seq<char>> {
    operators_spec(cat).map_values(|op: FilterOp| label_spec(op))
}

/// The operator a label names, if any.
pub open spec fn op_from_label_spec(label: Seq<char>) -> Option<FilterOp> {
    if label == "contains"@ {
        Some(FilterOp::Contains)
    } else if label == "starts with"@ {
        Some(FilterOp::StartsWith)
    } else if label == "ends with"@ {
        Some(FilterOp::EndsWith)
    } else if label == "="@ {
        Some(FilterOp::Eq)
    } else if label == "≠"@ {
        Some(FilterOp::Ne)
    } else if label == ">"@ {
        Some(FilterOp::Gt)
    } else if label == "≥"@ {
        Some(FilterOp::Ge)
    } else if label == "<"@ {
        Some(FilterOp::Lt)
    } else if label == "≤"@ {
        Some(FilterOp::Le)
    } else if label == "is null"@ {
        Some(FilterOp::IsNull)
    } else if label == "is not null"@ {
        Some(FilterOp::IsNotNull)
    } else {
        None
    }
}

/// Whether two character vectors are equal.
fn chars_eq(a: &Vec<char>, b: &Vec<char>) -> (res: bool)
    ensures
        res == (a@ == b@),
{
    if a.len() != b.len() {
        return false;
    }
    let mut i: usize = 0;
    while i < a.len()
        invariant
            i <= a@.len(),
            a@.len() == b@.len(),
            forall|j: int| 0 <= j < i ==> a@[j] == b@[j],
        decreases a@.len() - i,
    {
        if a[i] != b[i] {
            return false;
        }
        i = i + 1;
    }
    proof {
        assert(a@ =~= b@);
    }
    true
}

/// Whether `s` is the literal `lit`.
fn is_label(s: &Vec<char>, lit: &str) -> (res: bool)
    ensures
        res == (s@ == lit@),
{
    chars_eq(s, &chars_of(lit))
}

/// Operator label for an operator.
pub fn label_for(op: FilterOp) -> (res: &'static str)
    ensures
        res@ == label_spec(op),
{
    match op {
        FilterOp::Contains => "contains",
        FilterOp::StartsWith => "starts with",
        FilterOp::EndsWith => "ends with",
        FilterOp::Eq => "=",
        FilterOp::Ne => "≠",
        FilterOp::Gt => ">",
        FilterOp::Ge => "≥",
        FilterOp::Lt => "<",
        FilterOp::Le => "≤",
        FilterOp::IsNull => "is null",
        FilterOp::IsNotNull => "is not null",
    }
}

/// Operator labels offered for a column category (type-aware).
pub fn operators_for(cat: TypeCategory) -> (res: Vec<&'static str>)
    ensures
        res@.map_values(|s: &str| s@) == operator_labels_spec(cat),
{
    let ops: Vec<FilterOp> = match cat {
        TypeCategory::Number | TypeCategory::Date => vec![
            FilterOp::Eq,
            FilterOp::Ne,
            FilterOp::Gt,
            FilterOp::Ge,
            FilterOp::Lt,
            FilterOp::Le,
            FilterOp::IsNull,
            FilterOp::IsNotNull,
        ],
        TypeCategory::Text | TypeCategory::Other => vec![
            FilterOp::Contains,
            FilterOp::StartsWith,
            FilterOp::EndsWith,
            FilterOp::Eq,
            FilterOp::Ne,
            FilterOp::IsNull,
            FilterOp::IsNotNull,
        ],
        TypeCategory::Bool => vec![FilterOp::Eq, FilterOp::Ne, FilterOp::IsNull, FilterOp::IsNotNull],
        TypeCategory::Bytes => vec![FilterOp::IsNull, FilterOp::IsNotNull],
    };
    proof {
        assert(ops@ =~= operators_spec(cat));
    }
    let mut res: Vec<&'static str> = Vec::new();
    let mut i: usize = 0;
    while i < ops.len()
        invariant
            i <= ops@.len(),
            ops@ == operators_spec(cat),
            res@.map_values(|s: &str| s@) == ops@.take(i as int).map_values(
                |op: FilterOp| label_spec(op),
            ),
        decreases ops@.len() - i,
    {
        let l = label_for(ops[i]);
        let ghost old_res = res@;
        res.push(l);
        proof {
            assert(res@.map_values(|s: &str| s@) =~= old_res.map_values(|s: &str| s@).push(l@));
            assert(ops@.take(i + 1).map_values(|op: FilterOp| label_spec(op)) =~= ops@.take(
                i as int,
            ).map_values(|op: FilterOp| label_spec(op)).push(label_spec(ops@[i as int])));
        }
        i = i + 1;
    }
    proof {
        assert(ops@.take(ops@.len() as int) =~= ops@);
    }
    res
}

/// The operator a display label names.
pub fn op_from_label(label: &str) -> (res: Option<FilterOp>)
    ensures
        res == op_from_label_spec(label@),
{
    let l = chars_of(label);
    if is_label(&l, "contains") {
        Some(FilterOp::Contains)
    } else if is_label(&l, "starts with") {
        Some(FilterOp::StartsWith)
    } else if is_label(&l, "ends with") {
        Some(FilterOp::EndsWith)
    } else if is_label(&l, "=") {
        Some(FilterOp::Eq)
    } else if is_label(&l, "≠") {
        Some(FilterOp::Ne)
    } else if is_label(&l, ">") {
        Some(FilterOp::Gt)
    } else if is_label(&l, "≥") {
        Some(FilterOp::Ge)
    } else if is_label(&l, "<") {
        Some(FilterOp::Lt)
    } else if is_label(&l, "≤") {
        Some(FilterOp::Le)
    } else if is_label(&l, "is null") {
        Some(FilterOp::IsNull)
    } else if is_label(&l, "is not null") {
        Some(FilterOp::IsNotNull)
    } else {
        None
    }
}

/// An operator's label names that operator again: the menu's labels and
/// the operators they stand for are one-to-one.
pub proof fn lemma_label_roundtrip(op: FilterOp)
    ensures
        op_from_label_spec(label_spec(op)) == Some(op),
{
    reveal_strlit("contains");
    reveal_strlit("starts with");
    reveal_strlit("ends with");
    reveal_strlit("=");
    reveal_strlit("≠");
    reveal_strlit(">");
    reveal_strlit("≥");
    reveal_strlit("<");
    reveal_strlit("≤");
    reveal_strlit("is null");
    reveal_strlit("is not null");
    let l = label_spec(op);
    assert(l.len() > 0);
    match op {
        FilterOp::Contains => {},
        FilterOp::StartsWith => {
            assert(l != "contains"@) by {
                assert(l[0] != "contains"@[0]);
            }
        },
        FilterOp::EndsWith => {
            assert(l[0] != "contains"@[0]);
            assert(l[0] != "starts with"@[0]);
        },
        FilterOp::Eq => {
            assert(l.len() != "contains"@.len());
            assert(l.len() != "starts with"@.len());
            assert(l.len() != "ends with"@.len());
        },
        FilterOp::Ne => {
            assert(l.len() != "contains"@.len());
            assert(l.len() != "starts with"@.len());
            assert(l.len() != "ends with"@.len());
            assert(l[0] != "="@[0]);
        },
        FilterOp::Gt => {
            assert(l.len() != "contains"@.len());
            assert(l.len() != "starts with"@.len());
            assert(l.len() != "ends with"@.len());
            assert(l[0] != "="@[0]);
            assert(l[0] != "≠"@[0]);
        },
        FilterOp::Ge => {
            assert(l.len() != "contains"@.len());
            assert(l.len() != "starts with"@.len());
            assert(l.len() != "ends with"@.len());
            assert(l[0] != "="@[0]);
            assert(l[0] != "≠"@[0]);
            assert(l[0] != ">"@[0]);
        },
        FilterOp::Lt => {
            assert(l.len() != "contains"@.len());
            assert(l.len() != "starts with"@.len());
            assert(l.len() != "ends with"@.len());
            assert(l[0] != "="@[0]);
            assert(l[0] != "≠"@[0]);
            assert(l[0] != ">"@[0]);
            assert(l[0] != "≥"@[0]);
        },
        FilterOp::Le => {
            assert(l.len() != "contains"@.len());
            assert(l.len() != "starts with"@.len());
            assert(l.len() != "ends with"@.len());
            assert(l[0] != "="@[0]);
            assert(l[0] != "≠"@[0]);
            assert(l[0] != ">"@[0]);
            assert(l[0] != "≥"@[0]);
            assert(l[0] != "<"@[0]);
        },
        FilterOp::IsNull => {
            assert(l.len() != "contains"@.len());
            assert(l.len() != "starts with"@.len());
            assert(l.len() != "ends with"@.len());
            assert(l.len() != "="@.len());
            assert(l.len() != "≠"@.len());
            assert(l.len() != ">"@.len());
            assert(l.len() != "≥"@.len());
            assert(l.len() != "<"@.len());
            assert(l.len() != "≤"@.len());
        },
        FilterOp::IsNotNull => {
            assert(l.len() != "contains"@.len());
            assert(l[0] != "starts with"@[0]);
            assert(l.len() != "ends with"@.len());
            assert(l.len() != "="@.len());
            assert(l.len() != "≠"@.len());
            assert(l.len() != ">"@.len());
            assert(l.len() != "≥"@.len());
            assert(l.len() != "<"@.len());
            assert(l.len() != "≤"@.len());
            assert(l.len() != "is null"@.len());
        },
    }
}

/// Every label that the menu offers for a category names an operator, the
/// one it was made from.
pub proof fn lemma_offered_labels_parse(cat: TypeCategory, i: int)
    requires
        0 <= i < operators_spec(cat).len(),
    ensures
        op_from_label_spec(operator_labels_spec(cat)[i]) == Some(operators_spec(cat)[i]),
{
    lemma_label_roundtrip(operators_spec(cat)[i]);
}

// ---------------------------------------------------------------------------
// Value coercion
// ---------------------------------------------------------------------------

/// `str::parse::<i64>`: an optional sign, one or more ASCII digits, and a
/// value within `i64`.
pub open spec fn parse_i64(s: Seq<char>) -> Option<i64> {
    let neg = s.len() > 0 && s[0] == '-';
    let d = if s.len() > 0 && (s[0] == '+' || s[0] == '-') {
        s.drop_first()
    } else {
        s
    };
    let v = text::decimal_value(d) as int;
    if d.len() == 0 || !text::all_digits(d) {
        None
    } else if neg {
        if -v >= i64::MIN {
            Some((-v) as i64)
        } else {
            None
        }
    } else if v <= i64::MAX {
        Some(v as i64)
    } else {
        None
    }
}

/// ASCII lowercase of a character (`char::to_ascii_lowercase`).
pub open spec fn ascii_lower(c: char) -> char {
    if 'A' <= c && c <= 'Z' {
        ((c as u32) + 32) as char
    } else {
        c
    }
}

/// `str::to_ascii_lowercase`.
pub open spec fn ascii_lowercase(s: Seq<char>) -> Seq<char> {
    s.map_values(|c: char| ascii_lower(c))
}

/// The words that read as `true` for a boolean column.
pub open spec fn is_true_word(s: Seq<char>) -> bool {
    s == "true"@ || s == "1"@ || s == "t"@ || s == "yes"@ || s == "y"@
}

/// The words that read as `false` for a boolean column.
pub open spec fn is_false_word(s: Seq<char>) -> bool {
    s == "false"@ || s == "0"@ || s == "f"@ || s == "no"@ || s == "n"@
}

/// The value that user text is bound as in a column of the category:
/// numbers as integers, else as floats (`float_text` is the `Display` of
/// the text's `f64` parse, when it parses), else as text; booleans from
/// their words in any ASCII case; anything else as text.
pub open spec fn parse_value_spec(cat: TypeCategory, t: Seq<char>, float_text: Option<Seq<char>>) -> DbValueView {
    match cat {
        TypeCategory::Number => match parse_i64(t) {
            Some(i) => DbValueView::Int(i),
            None => match float_text {
                Some(f) => DbValueView::Float(f),
                None => DbValueView::Text(t),
            },
        },
        TypeCategory::Bool => {
            let l = ascii_lowercase(t);
            if is_true_word(l) {
                DbValueView::Bool(true)
            } else if is_false_word(l) {
                DbValueView::Bool(false)
            } else {
                DbValueView::Text(t)
            }
        },
        _ => DbValueView::Text(t),
    }
}

/// A database value with its text taken as characters.
pub enum DbValueView {
    Null,
    Bool(bool),
    Int(i64),
    Float(Seq<char>),
    Text(Seq<char>),
    Bytes(Seq<char>),
}

impl View for DbValue {
    type V = DbValueView;

    open spec fn view(&self) -> DbValueView {
        match self {
            DbValue::Null => DbValueView::Null,
            DbValue::Bool(b) => DbValueView::Bool(*b),
            DbValue::Int(i) => DbValueView::Int(*i),
            DbValue::Float(s) => DbValueView::Float(s@),
            DbValue::Text(s) => DbValueView::Text(s@),
            DbValue::Bytes(s) => DbValueView::Bytes(s@),
        }
    }
}

/// Parses `v` as `str::parse::<i64>` does.
pub fn parse_i64_chars(v: &Vec<char>) -> (res: Option<i64>)
    ensures
        res == parse_i64(v@),
{
    let n = v.len();
    let neg = n > 0 && v[0] == '-';
    let start: usize = if n > 0 && (v[0] == '+' || v[0] == '-') {
        1
    } else {
        0
    };
    let ghost d = v@.subrange(start as int, n as int);
    proof {
        if start == 1 {
            assert(d =~= v@.drop_first());
        } else {
            assert(d =~= v@);
        }
    }
    if start == n {
        return None;
    }
    // Accumulate the magnitude, which may reach 2^63 for i64::MIN.
    let limit: u64 = if neg {
        0x8000_0000_0000_0000
    } else {
        0x7fff_ffff_ffff_ffff
    };
    let mut acc: u64 = 0;
    let mut i = start;
    while i < n
        invariant
            start <= i <= n,
            start < n,
            n == v@.len(),
            d == v@.subrange(start as int, n as int),
            d == (if v@.len() > 0 && (v@[0] == '+' || v@[0] == '-') {
                v@.drop_first()
            } else {
                v@
            }),
            neg == (v@.len() > 0 && v@[0] == '-'),
            limit == (if neg {
                0x8000_0000_0000_0000u64
            } else {
                0x7fff_ffff_ffff_ffffu64
            }),
            text::all_digits(v@.subrange(start as int, i as int)),
            acc == text::decimal_value(v@.subrange(start as int, i as int)),
            acc <= limit,
        decreases n - i,
    {
        let c = v[i];
        let ghost pre = v@.subrange(start as int, i as int);
        let ghost next = v@.subrange(start as int, i + 1);
        proof {
            assert(next.drop_last() =~= pre);
            assert(next.last() == c);
        }
        if c < '0' || c > '9' {
            proof {
                assert(d[i - start] == c);
                assert(!text::is_digit(d[i - start]));
            }
            return None;
        }
        let dv = (c as u32 - '0' as u32) as u64;
        if acc > (limit - dv) / 10 {
            proof {
                assert(text::digit_value(c) == dv);
                assert(acc * 10 + dv > limit) by (nonlinear_arith)
                    requires
                        acc > (limit - dv) / 10,
                        dv <= 9,
                        limit >= 9,
                ;
                text::lemma_decimal_value_prefix_le(d, i + 1 - start);
                assert(next =~= d.subrange(0, i + 1 - start));
            }
            return None;
        }
        proof {
            assert(acc * 10 + dv <= limit) by (nonlinear_arith)
                requires
                    acc <= (limit - dv) / 10,
                    dv <= 9,
                    limit >= 9,
            ;
            assert(text::digit_value(c) == dv);
        }
        acc = acc * 10 + dv;
        i = i + 1;
        proof {
            assert forall|j: int| 0 <= j < next.len() implies text::is_digit(#[trigger] next[j]) by {
                if j < pre.len() {
                    assert(next[j] == pre[j]);
                }
            }
        }
    }
    proof {
        assert(v@.subrange(start as int, n as int) == d);
    }
    if neg {
        if acc == 0x8000_0000_0000_0000 {
            Some(i64::MIN)
        } else {
            Some(-(acc as i64))
        }
    } else {
        Some(acc as i64)
    }
}

fn ascii_lowercase_chars(v: &Vec<char>) -> (res: Vec<char>)
    ensures
        res@ == ascii_lowercase(v@),
{
    let mut res: Vec<char> = Vec::new();
    let mut i: usize = 0;
    while i < v.len()
        invariant
            i <= v@.len(),
            res@ == v@.take(i as int).map_values(|c: char| ascii_lower(c)),
        decreases v@.len() - i,
    {
        let c = v[i];
        let l = if 'A' <= c && c <= 'Z' {
            ((c as u32) + 32) as u8 as char
        } else {
            c
        };
        proof {
            assert(l == ascii_lower(c));
        }
        res.push(l);
        proof {
            assert(res@ =~= v@.take(i + 1).map_values(|c: char| ascii_lower(c)));
        }
        i = i + 1;
    }
    proof {
        assert(v@.take(v@.len() as int) =~= v@);
    }
    res
}

/// Coerce the user's text into a typed [`DbValue`] for binding, by category.
///
/// `float_text` is what the caller's `f64` parse of the text gives (its
/// `Display`), or `None` when the text is no float.
pub fn parse_value(cat: TypeCategory, t: &str, float_text: Option<String>) -> (res: DbValue)
    ensures
        res@ == parse_value_spec(
            cat,
            t@,
            match float_text {
                Some(f) => Some(f@),
                None => None,
            },
        ),
{
    let v = chars_of(t);
    match cat {
        TypeCategory::Number => {
            match parse_i64_chars(&v) {
                Some(i) => DbValue::Int(i),
                None => match float_text {
                    Some(f) => DbValue::Float(f),
                    None => DbValue::Text(String::from_str(t)),
                },
            }
        },
        TypeCategory::Bool => {
            let l = ascii_lowercase_chars(&v);
            if is_label(&l, "true") || is_label(&l, "1") || is_label(&l, "t") || is_label(&l, "yes")
                || is_label(&l, "y") {
                DbValue::Bool(true)
            } else if is_label(&l, "false") || is_label(&l, "0") || is_label(&l, "f") || is_label(
                &l,
                "no",
            ) || is_label(&l, "n") {
                DbValue::Bool(false)
            } else {
                DbValue::Text(String::from_str(t))
            }
        },
        _ => DbValue::Text(String::from_str(t)),
    }
}

/// The operator menus: text columns (and columns of other types) offer the
/// same operators in the same order; the text operators (contains, starts
/// with, ends with) are offered exactly to them, the ordering comparisons
/// exactly to number and date columns, equality to every column but bytes,
/// and null tests to every column; no operator is offered twice.
pub proof fn lemma_operator_menus(cat: TypeCategory, op: FilterOp)
    ensures
        operators_spec(TypeCategory::Text) == operators_spec(TypeCategory::Other),
        (op == FilterOp::Contains || op == FilterOp::StartsWith || op == FilterOp::EndsWith) ==> (
        operators_spec(cat).contains(op) <==> (cat == TypeCategory::Text || cat == TypeCategory::Other)),
        (op == FilterOp::Gt || op == FilterOp::Ge || op == FilterOp::Lt || op == FilterOp::Le) ==> (
        operators_spec(cat).contains(op) <==> (cat == TypeCategory::Number || cat == TypeCategory::Date)),
        (op == FilterOp::Eq || op == FilterOp::Ne) ==> (operators_spec(cat).contains(op) <==> cat
            != TypeCategory::Bytes),
        (op == FilterOp::IsNull || op == FilterOp::IsNotNull) ==> operators_spec(cat).contains(op),
        forall|i: int, j: int|
            0 <= i < j < operators_spec(cat).len() ==> operators_spec(cat)[i] != operators_spec(cat)[j],
{
    let ops = operators_spec(cat);
    if ops.contains(op) {
        let k = choose|k: int| 0 <= k < ops.len() && ops[k] == op;
        assert(ops[k] == op);
    } else {
        assert forall|k: int| 0 <= k < ops.len() implies ops[k] != op by {
            assert(!(ops[k] == op));
        }
    }
    match cat {
        TypeCategory::Number | TypeCategory::Date => {
            assert(ops[0] == FilterOp::Eq && ops[1] == FilterOp::Ne && ops[2] == FilterOp::Gt);
            assert(ops[3] == FilterOp::Ge && ops[4] == FilterOp::Lt && ops[5] == FilterOp::Le);
            assert(ops[6] == FilterOp::IsNull && ops[7] == FilterOp::IsNotNull);
        },
        TypeCategory::Text | TypeCategory::Other => {
            assert(ops[0] == FilterOp::Contains && ops[1] == FilterOp::StartsWith && ops[2]
                == FilterOp::EndsWith);
            assert(ops[3] == FilterOp::Eq && ops[4] == FilterOp::Ne);
            assert(ops[5] == FilterOp::IsNull && ops[6] == FilterOp::IsNotNull);
        },
        TypeCategory::Bool => {
            assert(ops[0] == FilterOp::Eq && ops[1] == FilterOp::Ne);
            assert(ops[2] == FilterOp::IsNull && ops[3] == FilterOp::IsNotNull);
        },
        TypeCategory::Bytes => {
            assert(ops[0] == FilterOp::IsNull && ops[1] == FilterOp::IsNotNull);
        },
    }
}

/// Whether `t` spells the lowercase word `w` in some mix of ASCII cases.
pub open spec fn same_ignoring_ascii_case(t: Seq<char>, w: Seq<char>) -> bool {
    &&& t.len() == w.len()
    &&& forall|i: int|
        0 <= i < t.len() ==> (#[trigger] t[i] == w[i] || ('a' <= w[i] <= 'z' && t[i] as u32 + 32
            == w[i] as u32))
}

/// The letters of the boolean words.
spec fn is_word_letter(c: char) -> bool {
    c == 'a' || c == 'e' || c == 'f' || c == 'l' || c == 'n' || c == 'o' || c == 'r' || c == 's' || c
        == 't' || c == 'u' || c == 'y'
}

proof fn lemma_char_from_code(c: char, d: char)
    requires
        c as u32 == d as u32,
    ensures
        c == d,
{
}

proof fn lemma_lowercase_word(t: Seq<char>, w: Seq<char>)
    requires
        same_ignoring_ascii_case(t, w),
        forall|i: int| 0 <= i < w.len() ==> is_word_letter(#[trigger] w[i]) || w[i] == '0' || w[i] == '1',
    ensures
        ascii_lowercase(t) == w,
{
    assert forall|i: int| 0 <= i < t.len() implies #[trigger] ascii_lowercase(t)[i] == w[i] by {
        if t[i] == w[i] {
        } else if w[i] == 'a' {
            assert('a' as u32 == 97 && 'A' as u32 == 65);
            lemma_char_from_code(t[i], 'A');
        } else if w[i] == 'e' {
            assert('e' as u32 == 101 && 'E' as u32 == 69);
            lemma_char_from_code(t[i], 'E');
        } else if w[i] == 'f' {
            assert('f' as u32 == 102 && 'F' as u32 == 70);
            lemma_char_from_code(t[i], 'F');
        } else if w[i] == 'l' {
            assert('l' as u32 == 108 && 'L' as u32 == 76);
            lemma_char_from_code(t[i], 'L');
        } else if w[i] == 'n' {
            assert('n' as u32 == 110 && 'N' as u32 == 78);
            lemma_char_from_code(t[i], 'N');
        } else if w[i] == 'o' {
            assert('o' as u32 == 111 && 'O' as u32 == 79);
            lemma_char_from_code(t[i], 'O');
        } else if w[i] == 'r' {
            assert('r' as u32 == 114 && 'R' as u32 == 82);
            lemma_char_from_code(t[i], 'R');
        } else if w[i] == 's' {
            assert('s' as u32 == 115 && 'S' as u32 == 83);
            lemma_char_from_code(t[i], 'S');
        } else if w[i] == 't' {
            assert('t' as u32 == 116 && 'T' as u32 == 84);
            lemma_char_from_code(t[i], 'T');
        } else if w[i] == 'u' {
            assert('u' as u32 == 117 && 'U' as u32 == 85);
            lemma_char_from_code(t[i], 'U');
        } else if w[i] == 'y' {
            assert('y' as u32 == 121 && 'Y' as u32 == 89);
            lemma_char_from_code(t[i], 'Y');
        }
    }
    assert(ascii_lowercase(t) =~= w);
}

/// In a boolean column every word of the `false` set (`false`, `0`, `f`,
/// `no`, `n`), in any ASCII case, is bound as `false`, and every word of the
/// `true` set (`true`, `1`, `t`, `yes`, `y`) as `true`, whatever the float
/// reading of the text.
pub proof fn lemma_bool_words(t: Seq<char>, w: Seq<char>, float_text: Option<Seq<char>>)
    requires
        same_ignoring_ascii_case(t, w),
    ensures
        (w == "false"@ || w == "0"@ || w == "f"@ || w == "no"@ || w == "n"@) ==> parse_value_spec(
            TypeCategory::Bool,
            t,
            float_text,
        ) == DbValueView::Bool(false),
        (w == "true"@ || w == "1"@ || w == "t"@ || w == "yes"@ || w == "y"@) ==> parse_value_spec(
            TypeCategory::Bool,
            t,
            float_text,
        ) == DbValueView::Bool(true),
{
    reveal_strlit("false");
    reveal_strlit("0");
    reveal_strlit("f");
    reveal_strlit("no");
    reveal_strlit("n");
    reveal_strlit("true");
    reveal_strlit("1");
    reveal_strlit("t");
    reveal_strlit("yes");
    reveal_strlit("y");
    if w == "false"@ || w == "0"@ || w == "f"@ || w == "no"@ || w == "n"@ || w == "true"@ || w
        == "1"@ || w == "t"@ || w == "yes"@ || w == "y"@ {
        assert forall|i: int| 0 <= i < w.len() implies is_word_letter(#[trigger] w[i]) || w[i] == '0'
            || w[i] == '1' by {}
        lemma_lowercase_word(t, w);
    }
}

/// The `Display` text of a boolean, in a boolean column, is bound as that
/// boolean.
pub proof fn lemma_bool_display_coerces_back(b: bool, float_text: Option<Seq<char>>)
    ensures
        parse_value_spec(TypeCategory::Bool, crate::format::bool_text(b), float_text)
            == DbValueView::Bool(b),
{
    let t = crate::format::bool_text(b);
    assert(same_ignoring_ascii_case(t, t));
    lemma_bool_words(t, t, float_text);
}

} // verus!
