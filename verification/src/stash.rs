//! Git stash operations: parsing `git stash list` and the git invocations
//! that push, pop, apply and drop a stash.
//!
//! Running git is left to the caller: [`stash_list`] takes the command's
//! standard output, and the other operations return the [`GitInvocation`]
//! to run.

use vstd::prelude::*;
use crate::text;
use crate::text::{
    chars_of, find_chars, is_blank_chars, next_line, parse_usize_chars, push_decimal, starts_with,
    string_of, string_of_all, subvec,
};

verus! {

/// A single stash entry from `git stash list`.
#[derive(Debug, Clone)]
pub struct StashEntry {
    /// Stash index (0 = most recent)
    pub index: usize,
    /// Branch where stash was created
    pub branch: String,
    /// Human-readable message (the commit summary after the branch)
    pub message: String,
    /// Full ref string, e.g. `stash@{0}` — use this for git commands
    pub ref_str: String,
}

/// A stash entry with its text fields taken as character sequences.
pub struct StashEntryView {
    pub index: usize,
    pub branch: Seq<char>,
    pub message: Seq<char>,
    pub ref_str: Seq<char>,
}

impl View for StashEntry {
    type V = StashEntryView;

    open spec fn view(&self) -> StashEntryView {
        StashEntryView {
            index: self.index,
            branch: self.branch@,
            message: self.message@,
            ref_str: self.ref_str@,
        }
    }
}

/// The index named by a ref of the form `stash@{N}`.
pub open spec fn stash_index(ref_str: Seq<char>) -> Option<usize> {
    match text::strip_prefix(ref_str, "stash@{"@) {
        Some(inner) => if inner.len() > 0 && inner.last() == '}' {
            text::parse_usize(inner.drop_last())
        } else {
            None
        },
        None => None,
    }
}

/// Splits `branch: message`; without a `": "` all of it is the branch.
pub open spec fn split_branch(after: Seq<char>) -> (Seq<char>, Seq<char>) {
    match text::find(after, ": "@) {
        Some(c) => (after.subrange(0, c), after.subrange(c + 2, after.len() as int)),
        None => (after, Seq::empty()),
    }
}

/// Branch and message of the text after the ref: `WIP on branch: ...` or
/// `On branch: ...`; any other text is all message.
pub open spec fn branch_and_message(rest: Seq<char>) -> (Seq<char>, Seq<char>) {
    match text::strip_prefix(rest, "WIP on "@) {
        Some(after) => split_branch(after),
        None => match text::strip_prefix(rest, "On "@) {
            Some(after) => split_branch(after),
            None => (Seq::empty(), rest),
        },
    }
}

/// The entry that a line of `git stash list` describes, if it is one.
pub open spec fn parse_stash_spec(line: Seq<char>) -> Option<StashEntryView> {
    match text::find(line, ": "@) {
        None => None,
        Some(c) => {
            let ref_str = line.subrange(0, c);
            match stash_index(ref_str) {
                None => None,
                Some(index) => {
                    let (branch, message) = branch_and_message(
                        line.subrange(c + 2, line.len() as int),
                    );
                    Some(StashEntryView { index, branch, message, ref_str })
                },
            }
        },
    }
}

/// The entries of the lines of `git stash list` output that parse, in order.
pub open spec fn parse_stash_lines(lines: Seq<Seq<char>>) -> Seq<StashEntryView> {
    lines.filter_map(|l: Seq<char>| parse_stash_spec(l))
}

/// What `stash_list` makes of the output of `git stash list`.
pub open spec fn stash_list_spec(output: Option<Seq<char>>) -> Seq<StashEntryView> {
    match output {
        None => Seq::empty(),
        Some(s) => if text::is_blank(s) {
            Seq::empty()
        } else {
            parse_stash_lines(text::lines_of(s))
        },
    }
}

/// The views of a list of entries.
pub open spec fn entry_views(entries: Seq<StashEntry>) -> Seq<StashEntryView> {
    entries.map_values(|e: StashEntry| e@)
}

fn split_branch_chars(after: &Vec<char>) -> (res: (String, String))
    ensures
        (res.0@, res.1@) == split_branch(after@),
{
    let sep = chars_of(": ");
    match find_chars(after, &sep) {
        Some(c) => {
            proof {
                text::lemma_find_from_occurs(after@, sep@, 0);
                reveal_strlit(": ");
            }
            let n = after.len();
            (string_of(after, 0, c), string_of(after, c + 2, n))
        },
        None => (string_of_all(after), String::new()),
    }
}

/// Parses the characters of one line of `git stash list`.
fn parse_stash_chars(line: &Vec<char>) -> (res: Option<StashEntry>)
    ensures
        match res {
            Some(e) => parse_stash_spec(line@) == Some(e@),
            None => parse_stash_spec(line@) is None,
        },
{
    let sep = chars_of(": ");
    let colon_pos = match find_chars(line, &sep) {
        Some(c) => c,
        None => return None,
    };
    proof {
        text::lemma_find_from_occurs(line@, sep@, 0);
        reveal_strlit(": ");
    }
    let ref_chars = subvec(line, 0, colon_pos);
    let prefix = chars_of("stash@{");
    if !starts_with(&ref_chars, &prefix) {
        return None;
    }
    let n = ref_chars.len();
    if n == prefix.len() || ref_chars[n - 1] != '}' {
        proof {
            let inner = ref_chars@.subrange(prefix@.len() as int, n as int);
            if n > prefix@.len() {
                assert(inner.last() == ref_chars@[n - 1]);
            }
        }
        return None;
    }
    let index = match parse_usize_chars(&ref_chars, prefix.len(), n - 1) {
        Some(i) => i,
        None => {
            proof {
                let inner = ref_chars@.subrange(prefix@.len() as int, n as int);
                assert(inner.drop_last() =~= ref_chars@.subrange(
                    prefix@.len() as int,
                    n - 1,
                ));
            }
            return None;
        },
    };
    proof {
        let inner = ref_chars@.subrange(prefix@.len() as int, n as int);
        assert(inner.drop_last() =~= ref_chars@.subrange(prefix@.len() as int, n - 1));
        assert(stash_index(ref_chars@) == Some(index));
    }
    let line_len = line.len();
    let rest = subvec(line, colon_pos + 2, line_len);
    let wip = chars_of("WIP on ");
    let on = chars_of("On ");
    let (branch, message) = if starts_with(&rest, &wip) {
        let after = subvec(&rest, wip.len(), rest.len());
        let r = split_branch_chars(&after);
        proof {
            assert(text::strip_prefix(rest@, wip@) == Some(after@));
        }
        r
    } else if starts_with(&rest, &on) {
        let after = subvec(&rest, on.len(), rest.len());
        let r = split_branch_chars(&after);
        proof {
            assert(text::strip_prefix(rest@, on@) == Some(after@));
        }
        r
    } else {
        let r = (String::new(), string_of_all(&rest));
        proof {
            assert(r.0@ =~= Seq::<char>::empty());
        }
        r
    };
    let ref_str = string_of_all(&ref_chars);
    let entry = StashEntry { index, branch, message, ref_str };
    proof {
        assert((entry.branch@, entry.message@) == branch_and_message(rest@));
        assert(entry@ == StashEntryView {
            index,
            branch: entry.branch@,
            message: entry.message@,
            ref_str: ref_chars@,
        });
    }
    Some(entry)
}

/// Parse a single line from `git stash list`.
///
/// Format: `stash@{N}: WIP on branch: hash message`
///         `stash@{N}: On branch: custom message`
pub fn parse_stash_line(line: &str) -> (res: Option<StashEntry>)
    ensures
        match res {
            Some(e) => parse_stash_spec(line@) == Some(e@),
            None => parse_stash_spec(line@) is None,
        },
{
    let v = chars_of(line);
    parse_stash_chars(&v)
}

/// List the stash entries that the output of `git stash list` describes;
/// `None` (git failed) and blank output give no entries.
///
/// Returns entries ordered by index (0 = most recent), as git lists them.
pub fn stash_list(output: Option<&str>) -> (res: Vec<StashEntry>)
    ensures
        entry_views(res@) == stash_list_spec(
            match output {
                Some(s) => Some(s@),
                None => None,
            },
        ),
{
    let mut res: Vec<StashEntry> = Vec::new();
    let s = match output {
        Some(s) => s,
        None => {
            proof {
                assert(entry_views(res@) =~= Seq::<StashEntryView>::empty());
            }
            return res;
        },
    };
    let v = chars_of(s);
    if is_blank_chars(&v) {
        proof {
            assert(entry_views(res@) =~= Seq::<StashEntryView>::empty());
        }
        return res;
    }
    let ghost mut done: Seq<Seq<char>> = Seq::empty();
    let mut pos: usize = 0;
    proof {
        assert(v@.subrange(0, v@.len() as int) =~= v@);
        assert(done + text::lines_of(v@) =~= text::lines_of(v@));
        assert(entry_views(res@) =~= parse_stash_lines(done));
    }
    while pos < v.len()
        invariant
            pos <= v@.len(),
            text::lines_of(v@) == done + text::lines_of(v@.subrange(pos as int, v@.len() as int)),
            entry_views(res@) == parse_stash_lines(done),
        decreases v@.len() - pos,
    {
        let (end, next) = next_line(&v, pos);
        let line = subvec(&v, pos, end);
        let parsed = parse_stash_chars(&line);
        let ghost old_res = res@;
        proof {
            let rest = text::lines_of(v@.subrange(next as int, v@.len() as int));
            assert(done + (seq![line@] + rest) =~= done.push(line@) + rest);
            assert(done.push(line@).drop_last() =~= done);
        }
        match parsed {
            Some(e) => {
                res.push(e);
                proof {
                    assert(entry_views(res@) =~= entry_views(old_res).push(e@));
                }
            },
            None => {},
        }
        proof {
            done = done.push(line@);
        }
        pos = next;
    }
    proof {
        assert(v@.subrange(pos as int, v@.len() as int) =~= Seq::<char>::empty());
        assert(done + Seq::<Seq<char>>::empty() =~= done);
    }
    res
}

/// A git command to run in the repository: its arguments after `git`, and
/// the context of the error reported when it fails.
pub struct GitInvocation {
    pub args: Vec<String>,
    pub error_context: String,
}

/// The arguments of an invocation, as character sequences.
pub open spec fn arg_views(args: Seq<String>) -> Seq<Seq<char>> {
    args.map_values(|a: String| a@)
}

/// The ref that names the stash at `index`: `stash@{index}`.
pub open spec fn stash_ref_spec(index: usize) -> Seq<char> {
    "stash@{"@ + text::decimal_digits(index as nat) + seq!['}']
}

/// `format!("stash@{{{}}}", index)`.
pub fn stash_ref(index: usize) -> (res: String)
    ensures
        res@ == stash_ref_spec(index),
{
    let mut v = chars_of("stash@{");
    push_decimal(&mut v, index as u64);
    v.push('}');
    string_of_all(&v)
}

/// Create a new stash with an optional message: the invocation to run.
pub fn stash_push(message: &str) -> (res: GitInvocation)
    ensures
        arg_views(res.args@) == (if message@.len() == 0 {
            seq!["stash"@, "push"@]
        } else {
            seq!["stash"@, "push"@, "-m"@, message@]
        }),
        res.error_context@ == "Failed to create stash"@,
{
    let mut args: Vec<String> = Vec::new();
    args.push(String::from_str("stash"));
    args.push(String::from_str("push"));
    if !message.is_empty() {
        args.push(String::from_str("-m"));
        args.push(String::from_str(message));
    }
    proof {
        assert(arg_views(args@) =~= (if message@.len() == 0 {
            seq!["stash"@, "push"@]
        } else {
            seq!["stash"@, "push"@, "-m"@, message@]
        }));
    }
    GitInvocation { args, error_context: String::from_str("Failed to create stash") }
}

fn stash_ref_invocation(action: &str, index: usize, context: &str) -> (res: GitInvocation)
    ensures
        arg_views(res.args@) == seq!["stash"@, action@, stash_ref_spec(index)],
        res.error_context@ == context@,
{
    let mut args: Vec<String> = Vec::new();
    args.push(String::from_str("stash"));
    args.push(String::from_str(action));
    args.push(stash_ref(index));
    proof {
        assert(arg_views(args@) =~= seq!["stash"@, action@, stash_ref_spec(index)]);
    }
    GitInvocation { args, error_context: String::from_str(context) }
}

/// Pop (apply + drop) the stash at the given index: the invocation to run.
pub fn stash_pop(index: usize) -> (res: GitInvocation)
    ensures
        arg_views(res.args@) == seq!["stash"@, "pop"@, stash_ref_spec(index)],
        res.error_context@ == "Failed to pop stash"@,
{
    stash_ref_invocation("pop", index, "Failed to pop stash")
}

/// Apply the stash at the given index (keep it in the stash list): the
/// invocation to run.
pub fn stash_apply(index: usize) -> (res: GitInvocation)
    ensures
        arg_views(res.args@) == seq!["stash"@, "apply"@, stash_ref_spec(index)],
        res.error_context@ == "Failed to apply stash"@,
{
    stash_ref_invocation("apply", index, "Failed to apply stash")
}

/// Drop (delete) the stash at the given index: the invocation to run.
pub fn stash_drop(index: usize) -> (res: GitInvocation)
    ensures
        arg_views(res.args@) == seq!["stash"@, "drop"@, stash_ref_spec(index)],
        res.error_context@ == "Failed to drop stash"@,
{
    stash_ref_invocation("drop", index, "Failed to drop stash")
}

/// The ref that pop, apply and drop pass to git names the index they were
/// given, read back as `stash_list` reads the refs it lists.
pub proof fn lemma_stash_ref_names_index(index: usize)
    ensures
        stash_index(stash_ref_spec(index)) == Some(index),
{
    let p = "stash@{"@;
    let d = text::decimal_digits(index as nat);
    let r = stash_ref_spec(index);
    assert(r.subrange(0, p.len() as int) =~= p);
    let inner = r.subrange(p.len() as int, r.len() as int);
    assert(inner =~= d + seq!['}']);
    assert(inner.drop_last() =~= d);
    text::lemma_parse_usize_decimal_digits(index);
}

/// The line `git stash list` writes for a stash: `stash@{N}: WIP on B: M`
/// for a work-in-progress stash, `stash@{N}: On B: M` for one made with a
/// message.
pub open spec fn stash_line_spec(index: usize, wip: bool, branch: Seq<char>, message: Seq<char>) -> Seq<char> {
    stash_ref_spec(index) + ": "@ + stash_kind_prefix(wip) + branch + ": "@ + message
}

proof fn lemma_split_branch_at(branch: Seq<char>, message: Seq<char>)
    requires
        text::find(branch, ": "@) is None,
    ensures
        split_branch(branch + ": "@ + message) == (branch, message),
{
    reveal_strlit(": ");
    let sep = ": "@;
    let after = branch + sep + message;
    let b = branch.len() as int;
    assert forall|j: int| 0 <= j < b implies !text::occurs_at(after, sep, j) by {
        if text::occurs_at(after, sep, j) {
            if j + 2 <= b {
                assert(after.subrange(j, j + 2) =~= branch.subrange(j, j + 2));
                text::lemma_find_from_reaches(branch, sep, 0, j);
            } else {
                assert(after.subrange(j, j + 2)[1] == after[j + 1]);
                assert(after[j + 1] == ':');
            }
        }
    }
    assert(after.subrange(b, b + 2) =~= sep);
    text::lemma_find_from_first(after, sep, 0, b);
    assert(after.subrange(0, b) =~= branch);
    assert(after.subrange(b + 2, after.len() as int) =~= message);
}

/// The prefix `git stash list` writes before the branch.
pub open spec fn stash_kind_prefix(wip: bool) -> Seq<char> {
    if wip {
        "WIP on "@
    } else {
        "On "@
    }
}

proof fn lemma_stash_line_after(index: usize, wip: bool, after: Seq<char>)
    ensures
        parse_stash_spec(stash_ref_spec(index) + ": "@ + stash_kind_prefix(wip) + after) == Some(
            StashEntryView {
                index,
                branch: split_branch(after).0,
                message: split_branch(after).1,
                ref_str: stash_ref_spec(index),
            },
        ),
{
    reveal_strlit(": ");
    reveal_strlit("WIP on ");
    reveal_strlit("On ");
    reveal_strlit("stash@{");
    let sep = ": "@;
    let p = if wip {
        "WIP on "@
    } else {
        "On "@
    };
    let r = stash_ref_spec(index);
    let d = text::decimal_digits(index as nat);
    text::lemma_decimal_digits_value(index as nat);
    let line = stash_ref_spec(index) + ": "@ + stash_kind_prefix(wip) + after;
    let n = r.len() as int;
    assert(line =~= r + (sep + p + after));
    assert forall|j: int| 0 <= j < n implies r[j] != ':' by {
        let pre = "stash@{"@;
        if j < pre.len() {
            assert(r[j] == pre[j]);
        } else if j < pre.len() + d.len() {
            assert(r[j] == d[j - pre.len()]);
            assert(text::is_digit(d[j - pre.len()]));
        } else {
            assert(r[j] == '}');
        }
    }
    assert forall|j: int| 0 <= j < n implies !text::occurs_at(line, sep, j) by {
        if text::occurs_at(line, sep, j) {
            assert(line.subrange(j, j + 2)[0] == line[j]);
            assert(line[j] == r[j]);
        }
    }
    assert(line.subrange(n, n + 2) =~= sep);
    text::lemma_find_from_first(line, sep, 0, n);
    assert(line.subrange(0, n) =~= r);
    lemma_stash_ref_names_index(index);
    let rest = line.subrange(n + 2, line.len() as int);
    assert(rest =~= p + after);
    if wip {
        assert(rest.subrange(0, 7) =~= "WIP on "@);
        assert(rest.subrange(7, rest.len() as int) =~= after);
    } else {
        assert(rest[0] == 'O');
        assert(!text::has_prefix(rest, "WIP on "@)) by {
            if rest.len() >= 7 {
                assert(rest.subrange(0, 7)[0] == 'O');
            }
        }
        assert(rest.subrange(0, 3) =~= "On "@);
        assert(rest.subrange(3, rest.len() as int) =~= after);
    }
}

/// A line in the format `git stash list` writes parses back into the
/// stash's index, branch and message, provided the branch name holds no
/// `": "` (the message may hold anything).
pub proof fn lemma_stash_line_parses_back(index: usize, wip: bool, branch: Seq<char>, message: Seq<char>)
    requires
        text::find(branch, ": "@) is None,
    ensures
        parse_stash_spec(stash_line_spec(index, wip, branch, message)) == Some(
            StashEntryView { index, branch, message, ref_str: stash_ref_spec(index) },
        ),
{
    let after = branch + ": "@ + message;
    lemma_stash_line_after(index, wip, after);
    lemma_split_branch_at(branch, message);
    assert(stash_line_spec(index, wip, branch, message) =~= stash_ref_spec(index) + ": "@
        + stash_kind_prefix(wip) + after);
}

/// A line without a message, `stash@{N}: WIP on B` or `stash@{N}: On B`,
/// parses back into the stash's index and branch with an empty message,
/// provided the branch name holds no `": "`.
pub proof fn lemma_stash_line_without_message_parses_back(index: usize, wip: bool, branch: Seq<char>)
    requires
        text::find(branch, ": "@) is None,
    ensures
        parse_stash_spec(stash_ref_spec(index) + ": "@ + stash_kind_prefix(wip) + branch) == Some(
            StashEntryView { index, branch, message: Seq::empty(), ref_str: stash_ref_spec(index) },
        ),
{
    lemma_stash_line_after(index, wip, branch);
}

} // verus!
