use termide_logic::stash::{parse_stash_line, stash_apply, stash_drop, stash_list, stash_pop, stash_push};

#[test]
fn test_parse_wip_on() {
    let line = "stash@{0}: WIP on main: abc1234 fix something";
    let entry = parse_stash_line(line).unwrap();
    assert_eq!(entry.index, 0);
    assert_eq!(entry.ref_str, "stash@{0}");
    assert_eq!(entry.branch, "main");
    assert_eq!(entry.message, "abc1234 fix something");
}

#[test]
fn test_parse_on() {
    let line = "stash@{1}: On feature/foo: my custom message";
    let entry = parse_stash_line(line).unwrap();
    assert_eq!(entry.index, 1);
    assert_eq!(entry.branch, "feature/foo");
    assert_eq!(entry.message, "my custom message");
}

#[test]
fn test_parse_invalid() {
    assert!(parse_stash_line("not a stash line").is_none());
}

#[test]
fn parse_without_branch_colon() {
    let entry = parse_stash_line("stash@{3}: WIP on detached").unwrap();
    assert_eq!(entry.index, 3);
    assert_eq!(entry.branch, "detached");
    assert_eq!(entry.message, "");
}

#[test]
fn parse_other_message() {
    let entry = parse_stash_line("stash@{2}: autostash").unwrap();
    assert_eq!(entry.index, 2);
    assert_eq!(entry.branch, "");
    assert_eq!(entry.message, "autostash");
}

#[test]
fn parse_rejects_bad_refs() {
    assert!(parse_stash_line("stash@{x}: On main: m").is_none());
    assert!(parse_stash_line("stash@{}: On main: m").is_none());
    assert!(parse_stash_line("stash@{1: On main: m").is_none());
    assert!(parse_stash_line("refs@{1}: On main: m").is_none());
    assert!(parse_stash_line("stash@{99999999999999999999999}: On main: m").is_none());
    // a leading '+' is accepted by usize parsing
    assert_eq!(parse_stash_line("stash@{+4}: On main: m").unwrap().index, 4);
}

#[test]
fn list_parses_lines_in_order() {
    let out = "stash@{0}: WIP on main: abc fix\r\ngarbage\nstash@{1}: On dev: msg\n";
    let entries = stash_list(Some(out));
    assert_eq!(entries.len(), 2);
    assert_eq!(entries[0].index, 0);
    assert_eq!(entries[0].message, "abc fix");
    assert_eq!(entries[1].index, 1);
    assert_eq!(entries[1].branch, "dev");
}

#[test]
fn list_empty_outputs() {
    assert!(stash_list(None).is_empty());
    assert!(stash_list(Some("  \n\t")).is_empty());
    assert!(stash_list(Some("")).is_empty());
}

#[test]
fn invocations() {
    let push = stash_push("");
    assert_eq!(push.args, vec!["stash".to_string(), "push".to_string()]);
    assert_eq!(push.error_context, "Failed to create stash");
    let push = stash_push("wip");
    assert_eq!(push.args, vec!["stash", "push", "-m", "wip"]);
    let pop = stash_pop(12);
    assert_eq!(pop.args, vec!["stash", "pop", "stash@{12}"]);
    assert_eq!(pop.error_context, "Failed to pop stash");
    let apply = stash_apply(0);
    assert_eq!(apply.args, vec!["stash", "apply", "stash@{0}"]);
    assert_eq!(apply.error_context, "Failed to apply stash");
    let drop = stash_drop(7);
    assert_eq!(drop.args, vec!["stash", "drop", "stash@{7}"]);
    assert_eq!(drop.error_context, "Failed to drop stash");
}

#[test]
fn popped_ref_reads_back() {
    for n in [0usize, 9, 10, 123, usize::MAX] {
        let pop = stash_pop(n);
        let line = format!("{}: On main: x", pop.args[2]);
        assert_eq!(parse_stash_line(&line).unwrap().index, n);
    }
}

#[test]
fn written_lines_parse_back() {
    for (n, wip, branch, message) in [
        (0usize, true, "main", "abc1234 fix: a: b"),
        (5, false, "feature/x:y", ""),
        (42, false, "", "only a message"),
        (7, true, "dev", ": leading"),
    ] {
        let prefix = if wip { "WIP on " } else { "On " };
        let line = format!("stash@{{{}}}: {}{}: {}", n, prefix, branch, message);
        let e = parse_stash_line(&line).unwrap();
        assert_eq!(e.index, n);
        assert_eq!(e.branch, branch);
        assert_eq!(e.message, message);
        assert_eq!(e.ref_str, format!("stash@{{{}}}", n));
    }
}

#[test]
fn lines_without_message_parse_back() {
    for (n, kw, branch) in [(0usize, "WIP on ", "main"), (8, "On ", "feature/x:y"), (3, "On ", "")] {
        let e = parse_stash_line(&format!("stash@{{{}}}: {}{}", n, kw, branch)).unwrap();
        assert_eq!(e.index, n);
        assert_eq!(e.branch, branch);
        assert_eq!(e.message, "");
    }
}
