use termide_logic::filter::{label_for, op_from_label, operators_for, parse_value, DbValue, FilterOp, TypeCategory};
use termide_logic::format::{json_string, json_value, row_to_insert, row_to_json, sql_literal, tsv_escape};

#[test]
fn menus_and_labels() {
    assert_eq!(operators_for(TypeCategory::Bytes), vec!["is null", "is not null"]);
    assert_eq!(operators_for(TypeCategory::Bool), vec!["=", "≠", "is null", "is not null"]);
    assert_eq!(operators_for(TypeCategory::Date).len(), 8);
    assert_eq!(operators_for(TypeCategory::Other)[0], "contains");
    for cat in [TypeCategory::Number, TypeCategory::Text, TypeCategory::Bool, TypeCategory::Date, TypeCategory::Bytes] {
        for label in operators_for(cat) {
            let op = op_from_label(label).unwrap();
            assert_eq!(label_for(op), label);
        }
    }
    assert_eq!(op_from_label("≥"), Some(FilterOp::Ge));
    assert_eq!(op_from_label("like"), None);
}

fn show(v: &DbValue) -> String {
    match v {
        DbValue::Null => "null".into(),
        DbValue::Bool(b) => format!("bool {}", b),
        DbValue::Int(i) => format!("int {}", i),
        DbValue::Float(f) => format!("float {}", f),
        DbValue::Text(t) => format!("text {}", t),
        DbValue::Bytes(b) => format!("bytes {}", b),
    }
}

#[test]
fn coercion() {
    assert_eq!(show(&parse_value(TypeCategory::Number, "-42", None)), "int -42");
    assert_eq!(show(&parse_value(TypeCategory::Number, "-9223372036854775808", None)), "int -9223372036854775808");
    assert_eq!(show(&parse_value(TypeCategory::Number, "9223372036854775808", Some("9223372036854776000".into()))), "float 9223372036854776000");
    assert_eq!(show(&parse_value(TypeCategory::Number, "1.5", Some("1.5".into()))), "float 1.5");
    assert_eq!(show(&parse_value(TypeCategory::Number, "abc", None)), "text abc");
    assert_eq!(show(&parse_value(TypeCategory::Bool, "YES", None)), "bool true");
    assert_eq!(show(&parse_value(TypeCategory::Bool, "n", None)), "bool false");
    assert_eq!(show(&parse_value(TypeCategory::Bool, "maybe", None)), "text maybe");
    assert_eq!(show(&parse_value(TypeCategory::Text, "12", None)), "text 12");
}

#[test]
fn json_export() {
    assert_eq!(json_string("a\"b\\c\nd\u{1}"), "\"a\\\"b\\\\c\\nd\\u0001\"");
    assert_eq!(json_value(None), "null");
    assert_eq!(json_value(Some(&DbValue::Int(-7))), "-7");
    assert_eq!(json_value(Some(&DbValue::Bool(false))), "false");
    let names = vec!["id".to_string(), "name".to_string(), "extra".to_string()];
    let row = vec![DbValue::Int(1), DbValue::Text("x".into())];
    assert_eq!(row_to_json(&names, &row), "{\"id\": 1, \"name\": \"x\", \"extra\": null}");
}

#[test]
fn sql_export() {
    assert_eq!(sql_literal(Some(&DbValue::Text("it's".into()))), "'it''s'");
    assert_eq!(sql_literal(Some(&DbValue::Bool(true))), "TRUE");
    assert_eq!(sql_literal(Some(&DbValue::Float("2.5".into()))), "2.5");
    assert_eq!(sql_literal(None), "NULL");
    let names = vec!["a\"b".to_string(), "c".to_string()];
    let row = vec![DbValue::Null];
    assert_eq!(row_to_insert("t\"x", &names, &row), "INSERT INTO \"t\"\"x\" (\"a\"\"b\", \"c\") VALUES (NULL, NULL);");
}

#[test]
fn tsv() {
    assert_eq!(tsv_escape("a\tb\r\nc"), "a b  c");
}

#[test]
fn sql_quoting_reads_back() {
    fn read_back(body: &str, q: char) -> String {
        let chars: Vec<char> = body.chars().collect();
        let mut out = String::new();
        let mut i = 0;
        while i < chars.len() {
            if i + 1 < chars.len() && chars[i] == q && chars[i + 1] == q {
                out.push(q);
                i += 2;
            } else {
                out.push(chars[i]);
                i += 1;
            }
        }
        out
    }
    for text in ["it's", "''", "a'''b", "plain", ""] {
        let lit = sql_literal(Some(&DbValue::Text(text.to_string())));
        assert!(lit.starts_with('\'') && lit.ends_with('\''));
        assert_eq!(read_back(&lit[1..lit.len() - 1], '\''), text);
    }
}

#[test]
fn json_string_has_no_control_characters() {
    let s: String = (0u32..0x30).filter_map(char::from_u32).collect();
    let out = json_string(&s);
    assert!(out.chars().all(|c| (c as u32) >= 0x20));
    assert!(out.contains("\\u001f"));
}

#[test]
fn json_string_reads_back_through_a_json_parser() {
    let all_low: String = (0u32..0x80).filter_map(char::from_u32).collect();
    for s in ["", "plain", "quote \" and \\ backslash", "tab\tnew\nline\r", "é漢\u{1F600}", all_low.as_str()] {
        let lit = json_string(s);
        let back: String = serde_json::from_str(&lit).unwrap();
        assert_eq!(back, s);
    }
}
