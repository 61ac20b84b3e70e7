//! Row export helpers: render a row as JSON, an `INSERT` statement, or TSV.

use vstd::prelude::*;
use crate::filter::{DbValue, DbValueView};
use crate::text;
use crate::text::{chars_of, push_all, push_decimal, string_of_all};

verus! {

// ---------------------------------------------------------------------------
// Numbers and quoting
// ---------------------------------------------------------------------------

/// `i64`'s `Display`: a minus sign for negative numbers, then the digits.
pub open spec fn i64_text(i: i64) -> Seq<char> {
    if i < 0 {
        seq!['-'] + text::decimal_digits((-i) as nat)
    } else {
        text::decimal_digits(i as nat)
    }
}

/// `bool`'s `Display`.
pub open spec fn bool_text(b: bool) -> Seq<char> {
    if b {
        "true"@
    } else {
        "false"@
    }
}

/// A lowercase hex digit.
pub open spec fn hex_digit(d: nat) -> char {
    if d < 10 {
        ((('0' as u32) + d) as u32) as char
    } else {
        ((('a' as u32) + d - 10) as u32) as char
    }
}

/// `format!("{:04x}", u)` for `u < 0x10000`.
pub open spec fn hex4(u: nat) -> Seq<char> {
    seq![hex_digit((u / 4096) % 16), hex_digit((u / 256) % 16), hex_digit((u / 16) % 16), hex_digit(u % 16)]
}

/// How a character is written inside a JSON string.
pub open spec fn json_escape(c: char) -> Seq<char> {
    if c == '"' {
        seq!['\\', '"']
    } else if c == '\\' {
        seq!['\\', '\\']
    } else if c == '\n' {
        seq!['\\', 'n']
    } else if c == '\r' {
        seq!['\\', 'r']
    } else if c == '\t' {
        seq!['\\', 't']
    } else if (c as u32) < 0x20 {
        seq!['\\', 'u'] + hex4(c as u32 as nat)
    } else {
        seq![c]
    }
}

/// The characters of a text, each escaped for JSON.
pub open spec fn json_escaped(s: Seq<char>) -> Seq<char>
    decreases s.len(),
{
    if s.len() == 0 {
        Seq::empty()
    } else {
        json_escaped(s.drop_last()) + json_escape(s.last())
    }
}

/// A JSON string literal of a text.
pub open spec fn json_string_spec(s: Seq<char>) -> Seq<char> {
    seq!['"'] + json_escaped(s) + seq!['"']
}

/// The text with each `q` doubled.
pub open spec fn doubled(s: Seq<char>, q: char) -> Seq<char>
    decreases s.len(),
{
    if s.len() == 0 {
        Seq::empty()
    } else {
        doubled(s.drop_last(), q) + (if s.last() == q {
            seq![q, q]
        } else {
            seq![s.last()]
        })
    }
}

/// The cell of a row at `i`, if the row has one.
pub open spec fn cell_at(row: Seq<DbValueView>, i: int) -> Option<DbValueView> {
    if 0 <= i < row.len() {
        Some(row[i])
    } else {
        None
    }
}

/// A value as JSON; a missing cell is `null`.
pub open spec fn json_value_spec(v: Option<DbValueView>) -> Seq<char> {
    match v {
        None => "null"@,
        Some(DbValueView::Null) => "null"@,
        Some(DbValueView::Bool(b)) => bool_text(b),
        Some(DbValueView::Int(i)) => i64_text(i),
        Some(DbValueView::Float(f)) => f,
        Some(DbValueView::Text(s)) => json_string_spec(s),
        Some(DbValueView::Bytes(d)) => json_string_spec(d),
    }
}

/// A value as an SQL literal; a missing cell is `NULL`, text is quoted with
/// its single quotes doubled.
pub open spec fn sql_literal_spec(v: Option<DbValueView>) -> Seq<char> {
    match v {
        None => "NULL"@,
        Some(DbValueView::Null) => "NULL"@,
        Some(DbValueView::Bool(b)) => if b {
            "TRUE"@
        } else {
            "FALSE"@
        },
        Some(DbValueView::Int(i)) => i64_text(i),
        Some(DbValueView::Float(f)) => f,
        Some(DbValueView::Text(s)) => seq!['\''] + doubled(s, '\'') + seq!['\''],
        Some(DbValueView::Bytes(d)) => seq!['\''] + doubled(d, '\'') + seq!['\''],
    }
}

/// The `"name": value` fields of the first `k` columns, comma separated.
pub open spec fn json_fields(names: Seq<Seq<char>>, row: Seq<DbValueView>, k: int) -> Seq<char>
    decreases k,
{
    if k <= 0 {
        Seq::empty()
    } else {
        json_fields(names, row, k - 1) + (if k - 1 > 0 {
            seq![',', ' ']
        } else {
            Seq::empty()
        }) + json_string_spec(names[k - 1]) + seq![':', ' '] + json_value_spec(cell_at(row, k - 1))
    }
}

/// A row as a JSON object `{"col": value, …}`, one field per name.
pub open spec fn row_json_spec(names: Seq<Seq<char>>, row: Seq<DbValueView>) -> Seq<char> {
    seq!['{'] + json_fields(names, row, names.len() as int) + seq!['}']
}

/// A column name as a quoted SQL identifier.
pub open spec fn sql_ident(n: Seq<char>) -> Seq<char> {
    seq!['"'] + doubled(n, '"') + seq!['"']
}

/// An `INSERT` statement of a row into a table.
pub open spec fn row_insert_spec(table: Seq<char>, names: Seq<Seq<char>>, row: Seq<DbValueView>) -> Seq<char> {
    let cols = text::join_with(names.map_values(|n: Seq<char>| sql_ident(n)), ", "@);
    let vals = text::join_with(
        Seq::new(names.len(), |i: int| sql_literal_spec(cell_at(row, i))),
        ", "@,
    );
    "INSERT INTO \""@ + doubled(table, '"') + "\" ("@ + cols + ") VALUES ("@ + vals + ");"@
}

/// A text with tabs and line breaks turned into spaces.
pub open spec fn tsv_spec(s: Seq<char>) -> Seq<char> {
    s.map_values(|c: char| if c == '\t' || c == '\n' || c == '\r' { ' ' } else { c })
}

/// The views of a row's cells.
pub open spec fn row_views(row: Seq<DbValue>) -> Seq<DbValueView> {
    row.map_values(|v: DbValue| v@)
}

/// The views of names.
pub open spec fn name_views(names: Seq<String>) -> Seq<Seq<char>> {
    names.map_values(|n: String| n@)
}

// ---------------------------------------------------------------------------
// Builders
// ---------------------------------------------------------------------------

fn push_i64(out: &mut Vec<char>, i: i64)
    ensures
        final(out)@ == old(out)@ + i64_text(i),
{
    if i < 0 {
        out.push('-');
        let m: u64 = if i == i64::MIN {
            0x8000_0000_0000_0000
        } else {
            (-i) as u64
        };
        push_decimal(out, m);
        proof {
            assert(final(out)@ =~= old(out)@ + i64_text(i));
        }
    } else {
        push_decimal(out, i as u64);
    }
}

fn hex_digit_of(d: u32) -> (res: char)
    requires
        d < 16,
    ensures
        res == hex_digit(d as nat),
{
    if d < 10 {
        ((48 + d) as u8) as char
    } else {
        ((97 + d - 10) as u8) as char
    }
}

fn push_json_escape(out: &mut Vec<char>, c: char)
    ensures
        final(out)@ == old(out)@ + json_escape(c),
{
    let u = c as u32;
    if c == '"' {
        out.push('\\');
        out.push('"');
    } else if c == '\\' {
        out.push('\\');
        out.push('\\');
    } else if c == '\n' {
        out.push('\\');
        out.push('n');
    } else if c == '\r' {
        out.push('\\');
        out.push('r');
    } else if c == '\t' {
        out.push('\\');
        out.push('t');
    } else if u < 0x20 {
        out.push('\\');
        out.push('u');
        out.push(hex_digit_of((u / 4096) % 16));
        out.push(hex_digit_of((u / 256) % 16));
        out.push(hex_digit_of((u / 16) % 16));
        out.push(hex_digit_of(u % 16));
    } else {
        out.push(c);
    }
    proof {
        assert(final(out)@ =~= old(out)@ + json_escape(c));
    }
}

fn push_json_string(out: &mut Vec<char>, s: &Vec<char>)
    ensures
        final(out)@ == old(out)@ + json_string_spec(s@),
{
    let ghost start = out@;
    out.push('"');
    let mut i: usize = 0;
    while i < s.len()
        invariant
            i <= s@.len(),
            out@ == start + seq!['"'] + json_escaped(s@.take(i as int)),
        decreases s@.len() - i,
    {
        push_json_escape(out, s[i]);
        proof {
            assert(s@.take(i + 1).drop_last() =~= s@.take(i as int));
            assert(s@.take(i + 1).last() == s@[i as int]);
            assert(out@ =~= start + seq!['"'] + json_escaped(s@.take(i + 1)));
        }
        i = i + 1;
    }
    out.push('"');
    proof {
        assert(s@.take(s@.len() as int) =~= s@);
        assert(out@ =~= start + json_string_spec(s@));
    }
}

fn push_doubled(out: &mut Vec<char>, s: &Vec<char>, q: char)
    ensures
        final(out)@ == old(out)@ + doubled(s@, q),
{
    let ghost start = out@;
    let mut i: usize = 0;
    proof {
        assert(out@ =~= start + doubled(s@.take(0), q));
    }
    while i < s.len()
        invariant
            i <= s@.len(),
            out@ == start + doubled(s@.take(i as int), q),
        decreases s@.len() - i,
    {
        let c = s[i];
        if c == q {
            out.push(q);
            out.push(q);
        } else {
            out.push(c);
        }
        proof {
            assert(s@.take(i + 1).drop_last() =~= s@.take(i as int));
            assert(s@.take(i + 1).last() == c);
            assert(out@ =~= start + doubled(s@.take(i + 1), q));
        }
        i = i + 1;
    }
    proof {
        assert(s@.take(s@.len() as int) =~= s@);
    }
}

/// Escape a text as a JSON string literal.
pub fn json_string(s: &str) -> (res: String)
    ensures
        res@ == json_string_spec(s@),
{
    let mut out: Vec<char> = Vec::new();
    push_json_string(&mut out, &chars_of(s));
    proof {
        assert(out@ =~= json_string_spec(s@));
    }
    string_of_all(&out)
}

fn push_json_value(out: &mut Vec<char>, v: Option<&DbValue>)
    ensures
        final(out)@ == old(out)@ + json_value_spec(
            match v {
                Some(x) => Some(x@),
                None => None,
            },
        ),
{
    match v {
        None | Some(DbValue::Null) => push_all(out, &chars_of("null")),
        Some(DbValue::Bool(b)) => if *b {
            push_all(out, &chars_of("true"))
        } else {
            push_all(out, &chars_of("false"))
        },
        Some(DbValue::Int(i)) => push_i64(out, *i),
        Some(DbValue::Float(f)) => push_all(out, &chars_of(f.as_str())),
        Some(DbValue::Text(s)) => push_json_string(out, &chars_of(s.as_str())),
        Some(DbValue::Bytes(d)) => push_json_string(out, &chars_of(d.as_str())),
    }
}

/// A value as JSON; a missing cell is `null`.
pub fn json_value(v: Option<&DbValue>) -> (res: String)
    ensures
        res@ == json_value_spec(
            match v {
                Some(x) => Some(x@),
                None => None,
            },
        ),
{
    let mut out: Vec<char> = Vec::new();
    push_json_value(&mut out, v);
    proof {
        assert(out@ =~= json_value_spec(
            match v {
                Some(x) => Some(x@),
                None => None,
            },
        ));
    }
    string_of_all(&out)
}

/// JSON-encode a row as `{"col": value, …}`.
pub fn row_to_json(names: &[String], row: &[DbValue]) -> (res: String)
    ensures
        res@ == row_json_spec(name_views(names@), row_views(row@)),
{
    let ghost nv = name_views(names@);
    let ghost rv = row_views(row@);
    let mut out: Vec<char> = Vec::new();
    out.push('{');
    let mut i: usize = 0;
    while i < names.len()
        invariant
            i <= names@.len(),
            nv == name_views(names@),
            rv == row_views(row@),
            out@ == seq!['{'] + json_fields(nv, rv, i as int),
        decreases names@.len() - i,
    {
        let ghost before = out@;
        if i > 0 {
            out.push(',');
            out.push(' ');
        }
        push_json_string(&mut out, &chars_of(names[i].as_str()));
        out.push(':');
        out.push(' ');
        let cell = if i < row.len() {
            Some(&row[i])
        } else {
            None
        };
        push_json_value(&mut out, cell);
        proof {
            assert(nv[i as int] == names@[i as int]@);
            assert(cell_at(rv, i as int) == (match cell {
                Some(x) => Some(x@),
                None => None,
            }));
            assert(out@ =~= seq!['{'] + json_fields(nv, rv, i + 1));
        }
        i = i + 1;
    }
    out.push('}');
    proof {
        assert(out@ =~= row_json_spec(nv, rv));
    }
    string_of_all(&out)
}

fn push_sql_literal(out: &mut Vec<char>, v: Option<&DbValue>)
    ensures
        final(out)@ == old(out)@ + sql_literal_spec(
            match v {
                Some(x) => Some(x@),
                None => None,
            },
        ),
{
    let ghost start = out@;
    match v {
        None | Some(DbValue::Null) => push_all(out, &chars_of("NULL")),
        Some(DbValue::Bool(b)) => if *b {
            push_all(out, &chars_of("TRUE"))
        } else {
            push_all(out, &chars_of("FALSE"))
        },
        Some(DbValue::Int(i)) => push_i64(out, *i),
        Some(DbValue::Float(f)) => push_all(out, &chars_of(f.as_str())),
        Some(DbValue::Text(s)) => {
            out.push('\'');
            push_doubled(out, &chars_of(s.as_str()), '\'');
            out.push('\'');
            proof {
                assert(out@ =~= start + (seq!['\''] + doubled(s@, '\'') + seq!['\'']));
            }
        },
        Some(DbValue::Bytes(d)) => {
            out.push('\'');
            push_doubled(out, &chars_of(d.as_str()), '\'');
            out.push('\'');
            proof {
                assert(out@ =~= start + (seq!['\''] + doubled(d@, '\'') + seq!['\'']));
            }
        },
    }
}

/// A value as an SQL literal; a missing cell is `NULL`.
pub fn sql_literal(v: Option<&DbValue>) -> (res: String)
    ensures
        res@ == sql_literal_spec(
            match v {
                Some(x) => Some(x@),
                None => None,
            },
        ),
{
    let mut out: Vec<char> = Vec::new();
    push_sql_literal(&mut out, v);
    proof {
        assert(out@ =~= sql_literal_spec(
            match v {
                Some(x) => Some(x@),
                None => None,
            },
        ));
    }
    string_of_all(&out)
}

/// Build an `INSERT INTO "table" (...) VALUES (...);` statement. Identifiers
/// are double-quoted (portable for SQLite/Postgres); adapt for MySQL backticks.
pub fn row_to_insert(table: &str, names: &[String], row: &[DbValue]) -> (res: String)
    ensures
        res@ == row_insert_spec(table@, name_views(names@), row_views(row@)),
{
    let ghost nv = name_views(names@);
    let ghost rv = row_views(row@);
    let ghost idents = nv.map_values(|n: Seq<char>| sql_ident(n));
    let ghost lits = Seq::new(nv.len(), |i: int| sql_literal_spec(cell_at(rv, i)));
    let sep = chars_of(", ");
    // Columns
    let mut cols: Vec<char> = Vec::new();
    let mut i: usize = 0;
    while i < names.len()
        invariant
            i <= names@.len(),
            nv == name_views(names@),
            idents == nv.map_values(|n: Seq<char>| sql_ident(n)),
            sep@ == ", "@,
            cols@ == text::join_with(idents.take(i as int), ", "@),
        decreases names@.len() - i,
    {
        if i > 0 {
            push_all(&mut cols, &sep);
        }
        let ghost mid = cols@;
        cols.push('"');
        push_doubled(&mut cols, &chars_of(names[i].as_str()), '"');
        cols.push('"');
        proof {
            assert(cols@ =~= mid + sql_ident(nv[i as int]));
            assert(idents.take(i + 1).drop_last() =~= idents.take(i as int));
            assert(idents.take(i + 1).last() == sql_ident(nv[i as int]));
            if i == 0 {
                assert(cols@ =~= text::join_with(idents.take(1), ", "@));
            }
        }
        i = i + 1;
    }
    proof {
        assert(idents.take(names@.len() as int) =~= idents);
    }
    // Values
    let mut vals: Vec<char> = Vec::new();
    let mut j: usize = 0;
    while j < names.len()
        invariant
            j <= names@.len(),
            nv == name_views(names@),
            rv == row_views(row@),
            lits == Seq::new(nv.len(), |i: int| sql_literal_spec(cell_at(rv, i))),
            sep@ == ", "@,
            vals@ == text::join_with(lits.take(j as int), ", "@),
        decreases names@.len() - j,
    {
        if j > 0 {
            push_all(&mut vals, &sep);
        }
        let cell = if j < row.len() {
            Some(&row[j])
        } else {
            None
        };
        push_sql_literal(&mut vals, cell);
        proof {
            assert(cell_at(rv, j as int) == (match cell {
                Some(x) => Some(x@),
                None => None,
            }));
            assert(lits.take(j + 1).drop_last() =~= lits.take(j as int));
            assert(lits.take(j + 1).last() == sql_literal_spec(cell_at(rv, j as int)));
            if j == 0 {
                assert(vals@ =~= text::join_with(lits.take(1), ", "@));
            }
        }
        j = j + 1;
    }
    proof {
        assert(lits.take(names@.len() as int) =~= lits);
    }
    let mut out = chars_of("INSERT INTO \"");
    push_doubled(&mut out, &chars_of(table), '"');
    push_all(&mut out, &chars_of("\" ("));
    push_all(&mut out, &cols);
    push_all(&mut out, &chars_of(") VALUES ("));
    push_all(&mut out, &vals);
    push_all(&mut out, &chars_of(");"));
    proof {
        assert(out@ =~= row_insert_spec(table@, nv, rv));
    }
    string_of_all(&out)
}

/// Flatten tabs/newlines so a TSV row stays one line per record.
pub fn tsv_escape(s: &str) -> (res: String)
    ensures
        res@ == tsv_spec(s@),
{
    let v = chars_of(s);
    let mut out: Vec<char> = Vec::new();
    let mut i: usize = 0;
    while i < v.len()
        invariant
            i <= v@.len(),
            out@ == tsv_spec(v@.take(i as int)),
        decreases v@.len() - i,
    {
        let c = v[i];
        if c == '\t' || c == '\n' || c == '\r' {
            out.push(' ');
        } else {
            out.push(c);
        }
        proof {
            assert(out@ =~= tsv_spec(v@.take(i + 1)));
        }
        i = i + 1;
    }
    proof {
        assert(v@.take(v@.len() as int) =~= v@);
    }
    string_of_all(&out)
}

/// A TSV field holds no tab or line break, and keeps every other character
/// in place.
pub proof fn lemma_tsv_single_line(s: Seq<char>)
    ensures
        tsv_spec(s).len() == s.len(),
        forall|i: int| 0 <= i < s.len() ==> {
            let c = #[trigger] tsv_spec(s)[i];
            &&& c != '\t'
            &&& c != '\n'
            &&& c != '\r'
            &&& (s[i] != '\t' && s[i] != '\n' && s[i] != '\r' ==> c == s[i])
        },
{
}

proof fn lemma_json_escaped_no_control(s: Seq<char>)
    ensures
        forall|i: int| 0 <= i < json_escaped(s).len() ==> (#[trigger] json_escaped(s)[i] as u32)
            >= 0x20,
    decreases s.len(),
{
    if s.len() > 0 {
        lemma_json_escaped_no_control(s.drop_last());
        let a = json_escaped(s.drop_last());
        let b = json_escape(s.last());
        assert forall|i: int| 0 <= i < b.len() implies (#[trigger] b[i] as u32) >= 0x20 by {
            let c = s.last();
            if (c as u32) < 0x20 && c != '\n' && c != '\r' && c != '\t' {
                let u = c as u32 as nat;
                assert((u / 4096) % 16 < 16 && (u / 256) % 16 < 16 && (u / 16) % 16 < 16 && u % 16 < 16);
            }
        }
        assert forall|i: int| 0 <= i < json_escaped(s).len() implies (#[trigger] json_escaped(s)[i] as u32)
            >= 0x20 by {
            if i < a.len() {
                assert(json_escaped(s)[i] == a[i]);
            } else {
                assert(json_escaped(s)[i] == b[i - a.len()]);
            }
        }
    }
}

/// A JSON string literal holds no control character: every character
/// below U+0020 is written as an escape.
pub proof fn lemma_json_string_no_control(s: Seq<char>)
    ensures
        forall|i: int| 0 <= i < json_string_spec(s).len() ==> (#[trigger] json_string_spec(s)[i] as u32)
            >= 0x20,
{
    lemma_json_escaped_no_control(s);
    let e = json_escaped(s);
    assert forall|i: int| 0 <= i < json_string_spec(s).len() implies (#[trigger] json_string_spec(s)[i] as u32)
        >= 0x20 by {
        if 1 <= i < 1 + e.len() {
            assert(json_string_spec(s)[i] == e[i - 1]);
        }
    }
}

/// A quoted body read back, left to right: each doubled `q` gives one `q`,
/// any other character stands for itself.
pub open spec fn undoubled(t: Seq<char>, q: char) -> Seq<char>
    decreases t.len(),
{
    if t.len() == 0 {
        Seq::empty()
    } else if t.len() >= 2 && t[0] == q && t[1] == q {
        seq![q] + undoubled(t.subrange(2, t.len() as int), q)
    } else {
        seq![t[0]] + undoubled(t.drop_first(), q)
    }
}

proof fn lemma_doubled_front(s: Seq<char>, q: char)
    requires
        s.len() > 0,
    ensures
        doubled(s, q) == (if s[0] == q {
            seq![q, q]
        } else {
            seq![s[0]]
        }) + doubled(s.drop_first(), q),
    decreases s.len(),
{
    let piece = if s[0] == q {
        seq![q, q]
    } else {
        seq![s[0]]
    };
    if s.len() == 1 {
        assert(s.drop_last() =~= Seq::<char>::empty());
        assert(s.drop_first() =~= Seq::<char>::empty());
        assert(doubled(s, q) =~= piece + doubled(s.drop_first(), q));
    } else {
        let d = s.drop_last();
        lemma_doubled_front(d, q);
        assert(d[0] == s[0]);
        assert(d.drop_first() =~= s.drop_first().drop_last());
        assert(s.drop_first().last() == s.last());
        assert(doubled(s, q) =~= piece + doubled(s.drop_first(), q));
    }
}

/// Quoting by doubling can be undone: reading the quoted body back, left to
/// right, gives the original text, so a name or value holding the quote
/// character survives an `INSERT` statement unchanged.
pub proof fn lemma_doubled_reads_back(s: Seq<char>, q: char)
    ensures
        undoubled(doubled(s, q), q) == s,
    decreases s.len(),
{
    if s.len() == 0 {
        assert(doubled(s, q) =~= Seq::<char>::empty());
    } else {
        lemma_doubled_front(s, q);
        lemma_doubled_reads_back(s.drop_first(), q);
        let rest = doubled(s.drop_first(), q);
        let t = doubled(s, q);
        if s[0] == q {
            assert(t.subrange(2, t.len() as int) =~= rest);
        } else {
            assert(t.drop_first() =~= rest);
        }
        assert(undoubled(t, q) =~= s);
    }
}

/// The value of a hex digit, either case.
pub open spec fn hex_digit_value(c: char) -> int {
    if '0' <= c && c <= '9' {
        c as u32 - '0' as u32
    } else if 'a' <= c && c <= 'f' {
        c as u32 - 'a' as u32 + 10
    } else if 'A' <= c && c <= 'F' {
        c as u32 - 'A' as u32 + 10
    } else {
        0
    }
}

/// Whether a character is a hex digit, either case.
pub open spec fn is_hex_digit(c: char) -> bool {
    ('0' <= c && c <= '9') || ('a' <= c && c <= 'f') || ('A' <= c && c <= 'F')
}

/// The number that four hex digits spell.
pub open spec fn hex4_value(d: Seq<char>) -> int {
    4096 * hex_digit_value(d[0]) + 256 * hex_digit_value(d[1]) + 16 * hex_digit_value(d[2])
        + hex_digit_value(d[3])
}

/// How many characters the escape at the start of `t` (a backslash) spans,
/// as JSON reads it: 6 for `\uXXXX`, 2 for the one-letter escapes, 0 when it
/// is no valid escape.
pub open spec fn json_escape_len(t: Seq<char>) -> int {
    if t.len() >= 2 && t[0] == '\\' {
        let e = t[1];
        if e == '"' || e == '\\' || e == '/' || e == 'b' || e == 'f' || e == 'n' || e == 'r' || e
            == 't' {
            2
        } else if e == 'u' && t.len() >= 6 && is_hex_digit(t[2]) && is_hex_digit(t[3])
            && is_hex_digit(t[4]) && is_hex_digit(t[5]) {
            6
        } else {
            0
        }
    } else {
        0
    }
}

/// The character a valid escape at the start of `t` stands for.
pub open spec fn json_escape_char(t: Seq<char>) -> char {
    let e = t[1];
    if e == 'b' {
        '\x08'
    } else if e == 'f' {
        '\x0c'
    } else if e == 'n' {
        '\n'
    } else if e == 'r' {
        '\r'
    } else if e == 't' {
        '\t'
    } else if e == 'u' {
        (hex4_value(t.subrange(2, 6)) as u32) as char
    } else {
        e
    }
}

/// Whether `t` is the body of a JSON string literal (RFC 8259): no bare
/// `"` or backslash, no control character, and only valid escapes. Escapes
/// of UTF-16 surrogates are not considered.
pub open spec fn json_body_ok(t: Seq<char>) -> bool
    decreases t.len(),
{
    if t.len() == 0 {
        true
    } else if t[0] == '\\' {
        let k = json_escape_len(t);
        k > 0 && json_body_ok(t.subrange(k, t.len() as int))
    } else {
        t[0] != '"' && (t[0] as u32) >= 0x20 && json_body_ok(t.drop_first())
    }
}

/// The text a JSON string body denotes: each escape read as the character it
/// stands for.
pub open spec fn json_unescape(t: Seq<char>) -> Seq<char>
    decreases t.len(),
{
    if t.len() == 0 {
        Seq::empty()
    } else if t[0] == '\\' && json_escape_len(t) > 0 {
        seq![json_escape_char(t)] + json_unescape(t.subrange(json_escape_len(t), t.len() as int))
    } else {
        seq![t[0]] + json_unescape(t.drop_first())
    }
}

proof fn lemma_json_escaped_front(s: Seq<char>)
    requires
        s.len() > 0,
    ensures
        json_escaped(s) == json_escape(s[0]) + json_escaped(s.drop_first()),
    decreases s.len(),
{
    if s.len() == 1 {
        assert(s.drop_last() =~= Seq::<char>::empty());
        assert(s.drop_first() =~= Seq::<char>::empty());
        assert(json_escaped(s) =~= json_escape(s[0]) + json_escaped(s.drop_first()));
    } else {
        let d = s.drop_last();
        lemma_json_escaped_front(d);
        assert(d[0] == s[0]);
        assert(d.drop_first() =~= s.drop_first().drop_last());
        assert(s.drop_first().last() == s.last());
        assert(json_escaped(s) =~= json_escape(s[0]) + json_escaped(s.drop_first()));
    }
}

proof fn lemma_hex_digit_back(d: nat)
    requires
        d < 16,
    ensures
        is_hex_digit(hex_digit(d)),
        hex_digit_value(hex_digit(d)) == d,
{
}

proof fn lemma_json_escape_reads_back(c: char, rest: Seq<char>)
    ensures
        json_body_ok(json_escape(c) + rest) == json_body_ok(rest),
        json_unescape(json_escape(c) + rest) == seq![c] + json_unescape(rest),
{
    let e = json_escape(c);
    let t = e + rest;
    if c == '"' || c == '\\' || c == '\n' || c == '\r' || c == '\t' {
        assert(t[0] == '\\' && t[1] == e[1]);
        assert(json_escape_len(t) == 2);
        assert(t.subrange(2, t.len() as int) =~= rest);
    } else if (c as u32) < 0x20 {
        let u = c as u32 as nat;
        assert(u / 4096 == 0 && u / 256 == 0 && (u / 4096) % 16 == 0 && (u / 256) % 16 == 0);
        assert((u / 16) % 16 == u / 16 && u / 16 < 2);
        lemma_hex_digit_back(0);
        lemma_hex_digit_back(u / 16);
        lemma_hex_digit_back(u % 16);
        assert(t[0] == '\\' && t[1] == 'u');
        assert(t[2] == hex_digit(0) && t[3] == hex_digit(0));
        assert(t[4] == hex_digit(u / 16) && t[5] == hex_digit(u % 16));
        assert(json_escape_len(t) == 6);
        let h = t.subrange(2, 6);
        assert(h[0] == t[2] && h[1] == t[3] && h[2] == t[4] && h[3] == t[5]);
        assert(u == 16 * (u / 16) + u % 16);
        assert(hex4_value(h) == u);
        assert(json_escape_char(t) == c);
        assert(t.subrange(6, t.len() as int) =~= rest);
    } else {
        assert(t[0] == c);
        assert(t.drop_first() =~= rest);
    }
}

/// A JSON string literal is valid JSON and reads back as the text it was
/// made from: it starts and ends with `"`, its body holds only valid
/// escapes and no bare quote, backslash or control character, and reading
/// the escapes gives the text.
pub proof fn lemma_json_string_reads_back(s: Seq<char>)
    ensures
        json_string_spec(s).len() >= 2,
        json_string_spec(s)[0] == '"',
        json_string_spec(s).last() == '"',
        json_body_ok(json_string_spec(s).subrange(1, json_string_spec(s).len() - 1)),
        json_unescape(json_string_spec(s).subrange(1, json_string_spec(s).len() - 1)) == s,
{
    let j = json_string_spec(s);
    assert(j.subrange(1, j.len() - 1) =~= json_escaped(s));
    lemma_json_escaped_reads_back(s);
}

proof fn lemma_json_escaped_reads_back(s: Seq<char>)
    ensures
        json_body_ok(json_escaped(s)),
        json_unescape(json_escaped(s)) == s,
    decreases s.len(),
{
    if s.len() == 0 {
        assert(json_escaped(s) =~= Seq::<char>::empty());
    } else {
        lemma_json_escaped_front(s);
        lemma_json_escaped_reads_back(s.drop_first());
        lemma_json_escape_reads_back(s[0], json_escaped(s.drop_first()));
        assert(seq![s[0]] + s.drop_first() =~= s);
    }
}

/// The SQL literal of a boolean reads back as that boolean: it is `TRUE`
/// exactly for `true` and `FALSE` exactly for `false`, so different
/// booleans give different literals.
pub proof fn lemma_sql_bool_literal(b: bool)
    ensures
        (sql_literal_spec(Some(DbValueView::Bool(b))) == "TRUE"@) <==> b,
        (sql_literal_spec(Some(DbValueView::Bool(b))) == "FALSE"@) <==> !b,
        sql_literal_spec(Some(DbValueView::Bool(true))) != sql_literal_spec(
            Some(DbValueView::Bool(false)),
        ),
{
    reveal_strlit("TRUE");
    reveal_strlit("FALSE");
    assert("TRUE"@ != "FALSE"@) by {
        assert("TRUE"@.len() != "FALSE"@.len());
    }
}

} // verus!
