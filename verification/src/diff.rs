//! Reading `git` output for the workspace diff view.
use vstd::prelude::*;

use crate::text::{
    chars_eq_str, chars_of, is_whitespace, is_ws, join_lines, lines, lines_of, push_line,
    skip_from, slice_range, string_of, trim, trim_start, trim_start_len, trimmed, views,
};

verus! {

/// One changed file of the workspace.
#[derive(Debug)]
pub struct DiffFile {
    pub path: String,
    pub status: String,
    pub patch: String,
}

/// Whether `git rev-parse --is-inside-work-tree` said `true` (`None` when
/// git failed).
pub fn is_work_tree(output: Option<String>) -> (b: bool)
    ensures
        b == match output {
            Some(o) => trim(o@) == "true"@,
            None => false,
        },
{
    match output {
        Some(o) => chars_eq_str(&trimmed(&chars_of(o.as_str())), "true"),
        None => false,
    }
}

/// Index of the first whitespace character of `s`, or its length.
pub open spec fn first_ws(s: Seq<char>) -> nat
    decreases s.len(),
{
    if s.len() == 0 {
        0
    } else if is_ws(s[0]) {
        0
    } else {
        1 + first_ws(s.drop_first())
    }
}

pub proof fn lemma_first_ws(s: Seq<char>, k: int)
    requires
        0 <= k <= s.len(),
        forall|j: int| 0 <= j < k ==> !is_ws(s[j]),
        k == s.len() || is_ws(s[k]),
    ensures
        first_ws(s) == k,
    decreases k,
{
    if k > 0 {
        lemma_first_ws(s.drop_first(), k - 1);
    }
}

/// The first whitespace-separated token of `s` and what follows it
/// (`str::split_whitespace`, one step).
pub open spec fn next_token(s: Seq<char>) -> Option<(Seq<char>, Seq<char>)> {
    let t = trim_start(s);
    if t.len() == 0 {
        None
    } else {
        let k = first_ws(t);
        Some((t.take(k as int), t.skip(k as int)))
    }
}

/// A line of `git diff --name-status`: its first two tokens, the status and
/// the path; lines with fewer tokens are skipped.
pub open spec fn name_status_entry(line: Seq<char>) -> Option<(Seq<char>, Seq<char>)> {
    match next_token(line) {
        Some((status, rest)) => match next_token(rest) {
            Some((path, _)) => Some((status, path)),
            None => None,
        },
        None => None,
    }
}

fn token(v: &Vec<char>) -> (r: Option<(Vec<char>, Vec<char>)>)
    ensures
        match r {
            Some((a, b)) => next_token(v@) == Some((a@, b@)),
            None => next_token(v@) is None,
        },
{
    let s = trim_start_len(v);
    if s == v.len() {
        return None;
    }
    let mut i = s;
    while i < v.len() && !is_whitespace(v[i])
        invariant
            s <= i <= v@.len(),
            forall|j: int| s <= j < i ==> !is_ws(v@[j]),
        decreases v@.len() - i,
    {
        i = i + 1;
    }
    let ghost t = v@.skip(s as int);
    proof {
        lemma_first_ws(t, i - s);
        assert(t.take(i - s) == v@.subrange(s as int, i as int));
        assert(t.skip(i - s) == v@.skip(i as int));
    }
    Some((slice_range(v, s, i), skip_from(v, i)))
}

/// Reads a `git diff --name-status` line: `(status, path)`.
pub fn parse_name_status(line: &str) -> (r: Option<(String, String)>)
    ensures
        match r {
            Some((s, p)) => name_status_entry(line@) == Some((s@, p@)),
            None => name_status_entry(line@) is None,
        },
{
    let v = chars_of(line);
    match token(&v) {
        Some((status, rest)) => match token(&rest) {
            Some((path, _)) => Some((string_of(&status), string_of(&path))),
            None => None,
        },
        None => None,
    }
}

/// How many lines of an untracked file the diff shows.
pub const UNTRACKED_LINES: usize = 500;

/// Each line prefixed with `+` and ended with `'\n'`.
pub open spec fn plus_lines(ls: Seq<Seq<char>>) -> Seq<char>
    decreases ls.len(),
{
    if ls.len() == 0 {
        seq![]
    } else {
        plus_lines(ls.drop_last()) + seq!['+'] + ls.last() + seq!['\n']
    }
}

/// An untracked file shown as an addition: a `@@ new file @@` header and
/// its first 500 lines, each prefixed with `+`.
pub open spec fn untracked_patch_of(content: Seq<char>) -> Seq<char> {
    let ls = lines_of(content);
    let n = if ls.len() < UNTRACKED_LINES { ls.len() as int } else { UNTRACKED_LINES as int };
    "@@ new file @@\n"@ + plus_lines(ls.take(n))
}

/// Renders an untracked file as an addition.
pub fn untracked_patch(content: &str) -> (r: String)
    ensures
        r@ == untracked_patch_of(content@),
{
    let v = chars_of(content);
    let ls = lines(&v);
    let n = if ls.len() < UNTRACKED_LINES {
        ls.len()
    } else {
        UNTRACKED_LINES
    };
    let mut r = String::from_str("@@ new file @@\n");
    let ghost head = r@;
    let ghost all = views(ls@);
    let mut i: usize = 0;
    while i < n
        invariant
            i <= n <= ls@.len(),
            all == views(ls@),
            r@ == head + plus_lines(all.take(i as int)),
        decreases n - i,
    {
        let ghost before = r@;
        crate::text::push_char(&mut r, '+');
        crate::text::push_line(&mut r, &ls[i]);
        proof {
            let t = all.take(i + 1);
            assert(t.drop_last() == all.take(i as int));
            assert(t.last() == ls@[i as int]@);
            assert(before + seq!['+'] + ls@[i as int]@ + seq!['\n'] == head + plus_lines(t));
        }
        i = i + 1;
    }
    r
}

/// The untracked files `git ls-files --others` listed: its non-empty lines.
pub open spec fn nonempty_lines(ls: Seq<Seq<char>>) -> Seq<Seq<char>>
    decreases ls.len(),
{
    if ls.len() == 0 {
        seq![]
    } else if ls.last().len() == 0 {
        nonempty_lines(ls.drop_last())
    } else {
        nonempty_lines(ls.drop_last()).push(ls.last())
    }
}

pub open spec fn strings_view(v: Seq<String>) -> Seq<Seq<char>> {
    v.map_values(|s: String| s@)
}

/// Reads the list of untracked files.
pub fn untracked_paths(list: &str) -> (r: Vec<String>)
    ensures
        strings_view(r@) == nonempty_lines(lines_of(list@)),
{
    let v = chars_of(list);
    let ls = lines(&v);
    let ghost all = views(ls@);
    let mut r: Vec<String> = Vec::new();
    let mut i: usize = 0;
    while i < ls.len()
        invariant
            i <= ls@.len(),
            all == views(ls@),
            strings_view(r@) == nonempty_lines(all.take(i as int)),
        decreases ls@.len() - i,
    {
        let ghost before = r@;
        proof {
            let t = all.take(i + 1);
            assert(t.drop_last() == all.take(i as int));
            assert(t.last() == ls@[i as int]@);
        }
        if ls[i].len() > 0 {
            r.push(string_of(&ls[i]));
            assert(strings_view(r@) == strings_view(before).push(ls@[i as int]@));
        }
        i = i + 1;
    }
    assert(all.take(ls@.len() as int) == all);
    r
}

/// The diff entry of an untracked file: status `A` and its contents as an
/// addition.
pub fn untracked_entry(path: String, content: &str) -> (d: DiffFile)
    ensures
        d.path@ == path@,
        d.status@ == "A"@,
        d.patch@ == untracked_patch_of(content@),
{
    DiffFile { path, status: String::from_str("A"), patch: untracked_patch(content) }
}

/// The changed files `git diff --name-status` lists, in its order: the
/// `(status, path)` of each line that has both.
pub open spec fn name_status_entries(ls: Seq<Seq<char>>) -> Seq<(Seq<char>, Seq<char>)>
    decreases ls.len(),
{
    if ls.len() == 0 {
        seq![]
    } else {
        let before = name_status_entries(ls.drop_last());
        match name_status_entry(ls.last()) {
            Some(e) => before.push(e),
            None => before,
        }
    }
}

pub open spec fn pairs_view(v: Seq<(String, String)>) -> Seq<(Seq<char>, Seq<char>)> {
    v.map_values(|p: (String, String)| (p.0@, p.1@))
}

/// Reads the output of `git diff --name-status`.
pub fn tracked_changes(names: &str) -> (r: Vec<(String, String)>)
    ensures
        pairs_view(r@) == name_status_entries(lines_of(names@)),
{
    let v = chars_of(names);
    let ls = lines(&v);
    let ghost all = views(ls@);
    let mut r: Vec<(String, String)> = Vec::new();
    let mut i: usize = 0;
    while i < ls.len()
        invariant
            i <= ls@.len(),
            all == views(ls@),
            all == lines_of(names@),
            pairs_view(r@) == name_status_entries(all.take(i as int)),
        decreases ls@.len() - i,
    {
        let ghost before = r@;
        proof {
            let t = all.take(i + 1);
            assert(t.drop_last() == all.take(i as int));
            assert(t.last() == ls@[i as int]@);
        }
        let line = string_of(&ls[i]);
        match parse_name_status(line.as_str()) {
            Some(e) => {
                r.push(e);
                assert(pairs_view(r@) == pairs_view(before).push((e.0@, e.1@)));
            },
            None => {},
        }
        i = i + 1;
    }
    assert(all.take(ls@.len() as int) == all);
    r
}

/// A diff entry as text: path, status and patch.
pub open spec fn file_view(d: DiffFile) -> (Seq<char>, Seq<char>, Seq<char>) {
    (d.path@, d.status@, d.patch@)
}

/// The diff view's list: the tracked changes in the order given, then each
/// untracked file (`(path, contents)`) as an addition, in the order given.
pub fn workspace_files(changed: Vec<DiffFile>, untracked: &Vec<(String, String)>) -> (r: Vec<DiffFile>)
    ensures
        r@.len() == changed@.len() + untracked@.len(),
        forall|i: int| 0 <= i < changed@.len() ==> #[trigger] file_view(r@[i]) == file_view(changed@[i]),
        forall|j: int|
            0 <= j < untracked@.len() ==> #[trigger] file_view(r@[changed@.len() + j]) == (
                untracked@[j].0@,
                "A"@,
                untracked_patch_of(untracked@[j].1@),
            ),
{
    let ghost t = changed@;
    let mut r = changed;
    let mut j: usize = 0;
    while j < untracked.len()
        invariant
            j <= untracked@.len(),
            r@.len() == t.len() + j,
            forall|i: int| 0 <= i < t.len() ==> #[trigger] file_view(r@[i]) == file_view(t[i]),
            forall|k: int|
                0 <= k < j ==> #[trigger] file_view(r@[t.len() + k]) == (
                    untracked@[k].0@,
                    "A"@,
                    untracked_patch_of(untracked@[k].1@),
                ),
        decreases untracked@.len() - j,
    {
        let e = untracked_entry(untracked[j].0.clone(), untracked[j].1.as_str());
        r.push(e);
        assert(file_view(r@[t.len() + j]) == file_view(e));
        j = j + 1;
    }
    r
}

} // verus!
