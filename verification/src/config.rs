//! The line-based reading and rewriting of Hermes' `config.yaml` and `.env`.
//!
//! These files are not parsed as YAML: like the desktop host, the functions
//! here look at lines, their indentation and their prefixes. A top-level line
//! is one that does not start with a space; a top-level line holding `':'`
//! opens a section.
use vstd::prelude::*;

use crate::text::{
    first_of, lemma_first_of_bound,
    lemma_lines_append, lemma_lines_have_no_newline, lemma_lines_single, lemma_starts_with_strip_cr,
    lemma_trim_end_append, lemma_trim_of_trim_end, lemma_trim_start_plain, lemma_trim_ws_cons,
    lemma_trim_ws_prefix, lemma_trim_ws_snoc, strip_cr, trim_end, lemma_lines_snoc_newline,
    lemma_trim_strip_cr, lemma_trim_plain_prefix, lemma_trim_start_snoc, lemma_trim_start_split,
    lemma_lines_unlines, lemma_has_char_concat, lemma_has_char_take,
    chars_of, has_char, has_char_exec, has_infix_str, has_prefix, has_prefix_str, is_ws,
    join_lines, lines, lines_of, push_all, push_char, skip_from, starts_with, string_of,
    contains, trim, trim_start, trimmed, trimmed_start, unlines, views,
};

verus! {

/// The line starts with a space.
pub open spec fn space_indented(l: Seq<char>) -> bool {
    l.len() > 0 && l[0] == ' '
}

/// Whether the section is `header` after reading `line`: a top-level line
/// holding `':'` opens a section, any other line leaves it unchanged.
pub open spec fn header_update(in_sec: bool, line: Seq<char>, header: Seq<char>) -> bool {
    if !space_indented(line) && has_char(line, ':') {
        starts_with(trim_start(line), header)
    } else {
        in_sec
    }
}

/// The leading whitespace of a line.
pub open spec fn indent_of(l: Seq<char>) -> Seq<char> {
    l.take(l.len() - trim_start(l).len())
}

/// `s` followed by `':'`.
pub open spec fn colon(s: Seq<char>) -> Seq<char> {
    s + seq![':']
}

// ---------------------------------------------------------------------------
// Reading a field

/// The first line, while inside the section opened by `header`, whose
/// unindented text starts with `key`: the rest of it, trimmed.
pub open spec fn read_field_lines(
    lines: Seq<Seq<char>>,
    in_sec: bool,
    header: Seq<char>,
    key: Seq<char>,
) -> Option<Seq<char>>
    decreases lines.len(),
{
    if lines.len() == 0 {
        None
    } else {
        let l = lines[0];
        let s = header_update(in_sec, l, header);
        if s && starts_with(trim_start(l), key) {
            Some(trim(trim_start(l).skip(key.len() as int)))
        } else {
            read_field_lines(lines.drop_first(), s, header, key)
        }
    }
}

/// The value of `field:` under the top-level `section:` of `txt`.
pub open spec fn yaml_field(txt: Seq<char>, section: Seq<char>, field: Seq<char>) -> Option<
    Seq<char>,
> {
    read_field_lines(lines_of(txt), false, colon(section), colon(field))
}

/// `s` followed by `':'`, as a vector.
fn with_colon(s: &str) -> (v: Vec<char>)
    ensures
        v@ == colon(s@),
{
    let mut v = chars_of(s);
    v.push(':');
    v
}

/// The section flag after reading `line` (see [`header_update`]).
fn next_section(in_sec: bool, line: &Vec<char>, header: &Vec<char>) -> (r: bool)
    ensures
        r == header_update(in_sec, line@, header@),
{
    let indented = line.len() > 0 && line[0] == ' ';
    if !indented && has_char_exec(line, ':') {
        let t = trimmed_start(line);
        has_prefix(&t, header)
    } else {
        in_sec
    }
}

/// Reads `field:` under the top-level `section:` of the config text
/// (`None` when there is no such line).
pub fn read_yaml_field(txt: &str, section: &str, field: &str) -> (r: Option<String>)
    ensures
        opt_chars(r) == yaml_field(txt@, section@, field@),
{
    let t = chars_of(txt);
    let ls = lines(&t);
    let header = with_colon(section);
    let key = with_colon(field);
    let ghost all = views(ls@);
    let mut in_sec = false;
    let mut i: usize = 0;
    assert(all.skip(0) == all);
    while i < ls.len()
        invariant
            i <= ls@.len(),
            all == views(ls@),
            all == lines_of(txt@),
            header@ == colon(section@),
            key@ == colon(field@),
            read_field_lines(all, false, header@, key@) == read_field_lines(
                all.skip(i as int),
                in_sec,
                header@,
                key@,
            ),
        decreases ls@.len() - i,
    {
        let l = &ls[i];
        proof {
            assert(all.skip(i as int)[0] == l@);
            assert(all.skip(i as int).drop_first() == all.skip(i + 1));
        }
        let s = next_section(in_sec, l, &header);
        let lt = trimmed_start(l);
        if s && has_prefix(&lt, &key) {
            let rest = skip_from(&lt, key.len());
            let r = string_of(&trimmed(&rest));
            assert(read_field_lines(all.skip(i as int), in_sec, header@, key@) == Some(r@));
            return Some(r);
        }
        in_sec = s;
        i = i + 1;
    }
    None
}

pub open spec fn opt_chars(o: Option<String>) -> Option<Seq<char>> {
    match o {
        Some(s) => Some(s@),
        None => None,
    }
}

// ---------------------------------------------------------------------------
// Writing a field

/// Whether `line` is a line that `field:` writing replaces: under a section,
/// an indented line inside it; at top level, a top-level line.
pub open spec fn is_field_target(
    section: Option<Seq<char>>,
    in_sec: bool,
    line: Seq<char>,
    key: Seq<char>,
) -> bool {
    match section {
        None => !space_indented(line) && starts_with(trim_start(line), key),
        Some(_) => in_sec && space_indented(line) && starts_with(trim_start(line), key),
    }
}

pub open spec fn next_in_sec(section: Option<Seq<char>>, in_sec: bool, line: Seq<char>) -> bool {
    match section {
        None => in_sec,
        Some(s) => header_update(in_sec, line, colon(s)),
    }
}

pub open spec fn shift(o: Option<int>, by: int) -> Option<int> {
    match o {
        Some(t) => Some(t + by),
        None => None,
    }
}

/// Index of the first line that writing `key` replaces.
pub open spec fn first_target(
    lines: Seq<Seq<char>>,
    section: Option<Seq<char>>,
    in_sec: bool,
    key: Seq<char>,
) -> Option<int>
    decreases lines.len(),
{
    if lines.len() == 0 {
        None
    } else {
        let s = next_in_sec(section, in_sec, lines[0]);
        if is_field_target(section, s, lines[0], key) {
            Some(0)
        } else {
            shift(first_target(lines.drop_first(), section, s, key), 1)
        }
    }
}

/// The text after writing `field: value` at top level (`section` is `None`)
/// or under `section:`: the first line that names the field gets the value,
/// with its indentation kept; every line ends with `'\n'`. `None` when no
/// line names the field, and then nothing is written.
pub open spec fn yaml_set(
    txt: Seq<char>,
    section: Option<Seq<char>>,
    field: Seq<char>,
    value: Seq<char>,
) -> Option<Seq<char>> {
    let ls = lines_of(txt);
    match first_target(ls, section, section is None, colon(field)) {
        Some(t) => Some(unlines(ls.update(t, indent_of(ls[t]) + field + ": "@ + value))),
        None => None,
    }
}

pub open spec fn opt_str_view(o: Option<&str>) -> Option<Seq<char>> {
    match o {
        Some(s) => Some(s@),
        None => None,
    }
}

pub proof fn lemma_first_target_bound(
    lines: Seq<Seq<char>>,
    section: Option<Seq<char>>,
    in_sec: bool,
    key: Seq<char>,
)
    ensures
        first_target(lines, section, in_sec, key) matches Some(t) ==> 0 <= t < lines.len(),
    decreases lines.len(),
{
    if lines.len() > 0 {
        let s = next_in_sec(section, in_sec, lines[0]);
        lemma_first_target_bound(lines.drop_first(), section, s, key);
    }
}

/// Finds the line that writing `key` replaces.
fn find_target(ls: &Vec<Vec<char>>, section: Option<&Vec<char>>, key: &Vec<char>) -> (r: Option<
    usize,
>)
    ensures
        shift_usize(r) == first_target(
            views(ls@),
            opt_header(section),
            section is None,
            key@,
        ),
{
    let ghost all = views(ls@);
    let ghost sec = opt_header(section);
    let mut in_sec = section.is_none();
    let mut i: usize = 0;
    assert(all.skip(0) == all);
    assert(shift(first_target(all, sec, in_sec, key@), 0) == first_target(all, sec, in_sec, key@));
    while i < ls.len()
        invariant
            i <= ls@.len(),
            all == views(ls@),
            sec == opt_header(section),
            first_target(all, sec, section is None, key@) == shift(
                first_target(all.skip(i as int), sec, in_sec, key@),
                i as int,
            ),
        decreases ls@.len() - i,
    {
        let l = &ls[i];
        proof {
            assert(all.skip(i as int)[0] == l@);
            assert(all.skip(i as int).drop_first() == all.skip(i + 1));
        }
        let s = match section {
            None => in_sec,
            Some(h) => {
                let mut hc = h.clone();
                hc.push(':');
                proof {
                    assert(hc@ == colon(h@));
                }
                next_section(in_sec, l, &hc)
            },
        };
        let indented = l.len() > 0 && l[0] == ' ';
        let lt = trimmed_start(l);
        let named = has_prefix(&lt, key);
        let target = match section {
            None => !indented && named,
            Some(_) => s && indented && named,
        };
        if target {
            return Some(i);
        }
        proof {
            let o = first_target(all.skip(i + 1), sec, s, key@);
            assert(shift(shift(o, 1), i as int) == shift(o, i + 1));
        }
        in_sec = s;
        i = i + 1;
    }
    None
}

pub open spec fn opt_header(o: Option<&Vec<char>>) -> Option<Seq<char>> {
    match o {
        Some(v) => Some(v@),
        None => None,
    }
}

pub open spec fn shift_usize(o: Option<usize>) -> Option<int> {
    match o {
        Some(t) => Some(t as int),
        None => None,
    }
}

/// Writes `field: value` into the config text, at top level when `section`
/// is `None`, else under the top-level `section:`. Returns the new text, or
/// `None` when no line names the field (the file is then left as it is).
pub fn write_yaml_field(txt: &str, section: Option<&str>, field: &str, value: &str) -> (r: Option<
    String,
>)
    ensures
        opt_chars(r) == yaml_set(txt@, opt_str_view(section), field@, value@),
{
    let t = chars_of(txt);
    let mut ls = lines(&t);
    let key = with_colon(field);
    let sec: Option<Vec<char>> = match section {
        Some(s) => Some(chars_of(s)),
        None => None,
    };
    let found = match &sec {
        Some(h) => find_target(&ls, Some(h), &key),
        None => find_target(&ls, None, &key),
    };
    proof {
        assert(opt_header(match &sec {
            Some(h) => Some(h),
            None => None,
        }) == opt_str_view(section));
    }
    match found {
        None => None,
        Some(ti) => {
            proof {
                lemma_first_target_bound(views(ls@), opt_str_view(section), section is None, key@);
            }
            let line = &ls[ti];
            let ws = trim_start_count(line);
            let mut nl = slice_prefix(line, ws);
            let fc = chars_of(field);
            push_all_vec(&mut nl, &fc);
            let sep = chars_of(": ");
            push_all_vec(&mut nl, &sep);
            let vc = chars_of(value);
            push_all_vec(&mut nl, &vc);
            let ghost before = views(ls@);
            proof {
                assert(nl@ == indent_of(before[ti as int]) + field@ + ": "@ + value@);
            }
            ls.set(ti, nl);
            proof {
                assert(views(ls@) == before.update(ti as int, nl@));
            }
            Some(join_lines(&ls))
        },
    }
}

/// Number of leading whitespace characters of `l`.
fn trim_start_count(l: &Vec<char>) -> (k: usize)
    ensures
        k <= l@.len(),
        l@.take(k as int) == indent_of(l@),
        trim_start(l@) == l@.skip(k as int),
{
    let k = crate::text::trim_start_len(l);
    assert(trim_start(l@).len() == l@.len() - k);
    k
}

/// The first `k` characters of `l`.
fn slice_prefix(l: &Vec<char>, k: usize) -> (v: Vec<char>)
    requires
        k <= l@.len(),
    ensures
        v@ == l@.take(k as int),
{
    let v = crate::text::slice_range(l, 0, k);
    assert(l@.subrange(0, k as int) == l@.take(k as int));
    v
}

/// Appends `w` to `v`.
fn push_all_vec(v: &mut Vec<char>, w: &Vec<char>)
    ensures
        final(v)@ == old(v)@ + w@,
{
    let mut i: usize = 0;
    while i < w.len()
        invariant
            i <= w@.len(),
            v@ == old(v)@ + w@.take(i as int),
        decreases w@.len() - i,
    {
        v.push(w[i]);
        i = i + 1;
        assert(v@ == old(v)@ + w@.take(i as int));
    }
    assert(w@.take(w@.len() as int) == w@);
}

/// `key` split at its first `'.'` into section and field (`str::split_once`);
/// a key without `'.'` is a top-level field.
pub open spec fn split_key_spec(k: Seq<char>) -> (Option<Seq<char>>, Seq<char>) {
    if has_char(k, '.') {
        let i = choose|i: int| 0 <= i < k.len() && k[i] == '.' && forall|j: int| 0 <= j < i ==> k[j] != '.';
        (Some(k.take(i)), k.skip(i + 1))
    } else {
        (None, k)
    }
}

/// Splits a `set_config` key: `"section.field"` or `"field"`.
pub fn split_config_key(k: &str) -> (r: (Option<String>, String))
    ensures
        (opt_chars(r.0), r.1@) == split_key_spec(k@),
{
    let v = chars_of(k);
    let mut i: usize = 0;
    while i < v.len()
        invariant
            i <= v@.len(),
            v@ == k@,
            forall|j: int| 0 <= j < i ==> v@[j] != '.',
        decreases v@.len() - i,
    {
        if v[i] == '.' {
            let ghost ii = i as int;
            proof {
                let c = choose|c: int| 0 <= c < k@.len() && k@[c] == '.' && forall|j: int|
                    0 <= j < c ==> k@[j] != '.';
                if c < ii {
                } else if c > ii {
                }
                assert(c == ii);
            }
            let sec = crate::text::string_of_range(&v, 0, i);
            let field = crate::text::string_of_range(&v, i + 1, v.len());
            assert(v@.subrange(0, i as int) == k@.take(i as int));
            assert(v@.subrange(i + 1, v@.len() as int) == k@.skip(i + 1));
            return (Some(sec), field);
        }
        i = i + 1;
    }
    (None, string_of(&v))
}

/// The config text after each update in turn (`yaml_set` of each key);
/// an update that names no line leaves the text as it is.
pub open spec fn apply_updates(txt: Seq<char>, updates: Seq<(Seq<char>, Seq<char>)>) -> Seq<char>
    decreases updates.len(),
{
    if updates.len() == 0 {
        txt
    } else {
        let prev = apply_updates(txt, updates.drop_last());
        let (k, v) = updates.last();
        let (sec, field) = split_key_spec(k);
        match yaml_set(prev, sec, field, v) {
            Some(next) => next,
            None => prev,
        }
    }
}

/// Whether any update of the list names a line.
pub open spec fn any_update_applies(txt: Seq<char>, updates: Seq<(Seq<char>, Seq<char>)>) -> bool
    decreases updates.len(),
{
    if updates.len() == 0 {
        false
    } else {
        let prev = apply_updates(txt, updates.drop_last());
        let (k, v) = updates.last();
        let (sec, field) = split_key_spec(k);
        any_update_applies(txt, updates.drop_last()) || yaml_set(prev, sec, field, v) is Some
    }
}

pub open spec fn pair_views(u: Seq<(String, String)>) -> Seq<(Seq<char>, Seq<char>)> {
    u.map_values(|p: (String, String)| (p.0@, p.1@))
}

/// Applies `set_config` updates (`"field"` or `"section.field"` keys) to the
/// config text in the given order. Returns the new text, or `None` when no
/// update named a line (the file is then not written).
pub fn apply_config_updates(txt: &str, updates: &Vec<(String, String)>) -> (r: Option<String>)
    ensures
        match r {
            Some(s) => any_update_applies(txt@, pair_views(updates@)) && s@ == apply_updates(
                txt@,
                pair_views(updates@),
            ),
            None => !any_update_applies(txt@, pair_views(updates@)),
        },
{
    let mut cur = string_of(&chars_of(txt));
    let mut changed = false;
    let mut i: usize = 0;
    let ghost all = pair_views(updates@);
    while i < updates.len()
        invariant
            i <= updates@.len(),
            all == pair_views(updates@),
            cur@ == apply_updates(txt@, all.take(i as int)),
            changed == any_update_applies(txt@, all.take(i as int)),
        decreases updates@.len() - i,
    {
        let (k, v) = (&updates[i].0, &updates[i].1);
        proof {
            assert(all.take(i + 1).drop_last() == all.take(i as int));
            assert(all.take(i + 1).last() == (k@, v@));
        }
        let (sec, field) = split_config_key(k.as_str());
        let secref: Option<&str> = match &sec {
            Some(s) => Some(s.as_str()),
            None => None,
        };
        assert(opt_str_view(secref) == opt_chars(sec));
        let next = write_yaml_field(cur.as_str(), secref, field.as_str(), v.as_str());
        match next {
            Some(n) => {
                cur = n;
                changed = true;
            },
            None => {},
        }
        i = i + 1;
    }
    assert(all.take(updates@.len() as int) == all);
    if changed {
        Some(cur)
    } else {
        None
    }
}

/// Writing a field replaces one line and keeps every other. When a line
/// names the field (the first such line, `t`), the text written is the
/// lines before it, then `field: value` after that line's indentation, then
/// the lines after it, each line ended by `'\n'`: at top level as well as
/// under a section. Read back, with no line break in the field or the
/// value, the new text has as many lines as the old one, line `t` reads
/// `field: value` with its old indentation, and every other line reads as
/// it did. Nothing is written when no line names the field.
pub proof fn law_write_field_keeps_other_lines(
    txt: Seq<char>,
    section: Option<Seq<char>>,
    field: Seq<char>,
    value: Seq<char>,
)
    ensures
        ({
            let ls = lines_of(txt);
            let t = first_target(ls, section, section is None, colon(field));
            match yaml_set(txt, section, field, value) {
                Some(out) => {
                    &&& t is Some
                    &&& 0 <= t->0 < ls.len()
                    &&& out == unlines(ls.take(t->0)) + indent_of(ls[t->0]) + field + ": "@ + value
                        + seq!['\n'] + unlines(ls.skip(t->0 + 1))
                    &&& !has_char(field, '\n') && !has_char(value, '\n') ==> {
                        &&& lines_of(out).len() == ls.len()
                        &&& lines_of(out)[t->0] == strip_cr(indent_of(ls[t->0]) + field + ": "@ + value)
                        &&& forall|i: int|
                            0 <= i < ls.len() && i != t->0 ==> #[trigger] lines_of(out)[i] == strip_cr(
                                ls[i],
                            )
                    }
                },
                None => t is None,
            }
        }),
{
    reveal_strlit(": ");
    let ls = lines_of(txt);
    let t = first_target(ls, section, section is None, colon(field));
    lemma_first_target_bound(ls, section, section is None, colon(field));
    if t is Some {
        let k = t->0;
        let nl = indent_of(ls[k]) + field + ": "@ + value;
        let upd = ls.update(k, nl);
        assert(upd == ls.take(k) + seq![nl] + ls.skip(k + 1));
        lemma_unlines_concat(ls.take(k) + seq![nl], ls.skip(k + 1));
        lemma_unlines_concat(ls.take(k), seq![nl]);
        lemma_unlines_one(nl);
        assert(unlines(upd) == unlines(ls.take(k)) + nl + seq!['\n'] + unlines(ls.skip(k + 1)));
        if !has_char(field, '\n') && !has_char(value, '\n') {
            lemma_lines_have_no_newline(txt);
            assert(!has_char(nl, '\n')) by {
                let ind = indent_of(ls[k]);
                lemma_trim_start_split(ls[k]);
                assert(!has_char(ls[k], '\n'));
                lemma_has_char_take(ls[k], ls[k].len() - trim_start(ls[k]).len(), '\n');
                assert(!has_char(": "@, '\n')) by {
                    if has_char(": "@, '\n') {
                        let j = choose|j: int| 0 <= j < 2 && ": "@[j] == '\n';
                    }
                }
                lemma_has_char_concat(ind, field, '\n');
                lemma_has_char_concat(ind + field, ": "@, '\n');
                lemma_has_char_concat(ind + field + ": "@, value, '\n');
            }
            assert forall|i: int| 0 <= i < upd.len() implies !has_char(#[trigger] upd[i], '\n') by {
                if i != k {
                    assert(upd[i] == ls[i]);
                }
            }
            lemma_lines_unlines(upd);
        }
    }
}

/// Applying a list of updates is applying its first part, then the rest to
/// the text that gives: how a list is cut does not matter.
pub proof fn law_updates_compose(
    txt: Seq<char>,
    a: Seq<(Seq<char>, Seq<char>)>,
    b: Seq<(Seq<char>, Seq<char>)>,
)
    ensures
        apply_updates(txt, a + b) == apply_updates(apply_updates(txt, a), b),
        any_update_applies(txt, a + b) == (any_update_applies(txt, a) || any_update_applies(
            apply_updates(txt, a),
            b,
        )),
    decreases b.len(),
{
    if b.len() == 0 {
        assert(a + b == a);
    } else {
        assert((a + b).drop_last() == a + b.drop_last());
        assert((a + b).last() == b.last());
        law_updates_compose(txt, a, b.drop_last());
    }
}

/// No update leaves the text as it is; one update is writing its field:
/// `"section.field"` under `section:`, `"field"` at top level. It is applied
/// exactly when a line names the field, and then the text is what writing
/// the field gives. Each update of a longer list is so applied in turn, the
/// last one to what the others wrote.
pub proof fn law_each_update_is_written(
    txt: Seq<char>,
    updates: Seq<(Seq<char>, Seq<char>)>,
    k: Seq<char>,
    v: Seq<char>,
)
    ensures
        apply_updates(txt, seq![]) == txt,
        !any_update_applies(txt, seq![]),
        ({
            let (sec, field) = split_key_spec(k);
            &&& any_update_applies(txt, seq![(k, v)]) == yaml_set(txt, sec, field, v) is Some
            &&& apply_updates(txt, seq![(k, v)]) == match yaml_set(txt, sec, field, v) {
                Some(out) => out,
                None => txt,
            }
        }),
        apply_updates(txt, updates.push((k, v))) == apply_updates(
            apply_updates(txt, updates),
            seq![(k, v)],
        ),
        any_update_applies(txt, updates.push((k, v))) == (any_update_applies(txt, updates)
            || any_update_applies(apply_updates(txt, updates), seq![(k, v)])),
{
    let one = seq![(k, v)];
    assert(one.drop_last() == Seq::<(Seq<char>, Seq<char>)>::empty());
    assert(one.last() == (k, v));
    assert(updates.push((k, v)) == updates + one);
    law_updates_compose(txt, updates, one);
}

// ---------------------------------------------------------------------------
// The agent working directory (`terminal.cwd`)

/// The lines after every `cwd:` line inside the top-level `terminal:` section
/// is set to `dir` (indentation kept).
pub open spec fn cwd_rewrite(lines: Seq<Seq<char>>, in_t: bool, dir: Seq<char>) -> Seq<Seq<char>>
    decreases lines.len(),
{
    if lines.len() == 0 {
        seq![]
    } else {
        let l = lines[0];
        let t = header_update(in_t, l, "terminal:"@);
        let nl = if t && starts_with(trim_start(l), "cwd:"@) {
            indent_of(l) + "cwd: "@ + dir
        } else {
            l
        };
        seq![nl] + cwd_rewrite(lines.drop_first(), t, dir)
    }
}

/// Whether some `cwd:` line lies inside the `terminal:` section.
pub open spec fn cwd_found(lines: Seq<Seq<char>>, in_t: bool) -> bool
    decreases lines.len(),
{
    if lines.len() == 0 {
        false
    } else {
        let l = lines[0];
        let t = header_update(in_t, l, "terminal:"@);
        (t && starts_with(trim_start(l), "cwd:"@)) || cwd_found(lines.drop_first(), t)
    }
}

/// The config text with the agent's `terminal.cwd` set to `dir`, or `None`
/// when the config has no such line (the file is then left as it is).
pub open spec fn terminal_cwd_set(txt: Seq<char>, dir: Seq<char>) -> Option<Seq<char>> {
    let ls = lines_of(txt);
    if cwd_found(ls, false) {
        Some(unlines(cwd_rewrite(ls, false, dir)))
    } else {
        None
    }
}

/// Sets every `cwd:` line of the `terminal:` section to `dir`: the text that
/// persisting the agent working directory writes, or `None` when there is
/// no such line.
pub fn set_terminal_cwd(txt: &str, dir: &str) -> (r: Option<String>)
    ensures
        opt_chars(r) == terminal_cwd_set(txt@, dir@),
{
    let t = chars_of(txt);
    let ls = lines(&t);
    let header = chars_of("terminal:");
    let key = chars_of("cwd:");
    let dc = chars_of(dir);
    let ghost all = views(ls@);
    let mut out: Vec<Vec<char>> = Vec::new();
    let mut replaced = false;
    let mut in_t = false;
    let mut i: usize = 0;
    assert(all.skip(0) == all);
    assert(views(out@) + cwd_rewrite(all, false, dir@) == cwd_rewrite(all, false, dir@));
    while i < ls.len()
        invariant
            i <= ls@.len(),
            all == views(ls@),
            all == lines_of(txt@),
            header@ == "terminal:"@,
            key@ == "cwd:"@,
            dc@ == dir@,
            cwd_rewrite(all, false, dir@) == views(out@) + cwd_rewrite(all.skip(i as int), in_t, dir@),
            cwd_found(all, false) == (replaced || cwd_found(all.skip(i as int), in_t)),
        decreases ls@.len() - i,
    {
        let l = &ls[i];
        proof {
            assert(all.skip(i as int)[0] == l@);
            assert(all.skip(i as int).drop_first() == all.skip(i + 1));
        }
        let s = next_section(in_t, l, &header);
        let lt = trimmed_start(l);
        let hit = s && has_prefix(&lt, &key);
        let nl = if hit {
            let ws = trim_start_count(l);
            let mut nl = slice_prefix(l, ws);
            let sep = chars_of("cwd: ");
            push_all_vec(&mut nl, &sep);
            push_all_vec(&mut nl, &dc);
            nl
        } else {
            l.clone()
        };
        let ghost before = out@;
        out.push(nl);
        proof {
            assert(views(out@) == views(before).push(nl@));
            let rest = cwd_rewrite(all.skip(i + 1), s, dir@);
            assert(views(before) + (seq![nl@] + rest) == views(out@) + rest);
        }
        if hit {
            replaced = true;
        }
        in_t = s;
        i = i + 1;
    }
    proof {
        assert(all.skip(i as int).len() == 0);
        assert(views(out@) + Seq::<Seq<char>>::empty() == views(out@));
    }
    if replaced {
        Some(join_lines(&out))
    } else {
        None
    }
}

// ---------------------------------------------------------------------------
// The hub key in the `model:` block

/// The `model:` block that points Hermes at the NeuralDeep hub with `key`.
pub open spec fn model_block(key: Seq<char>) -> Seq<char> {
    "model:\n  default: qwen3.6-35b-a3b\n  provider: custom\n  base_url: https://api.neuraldeep.ru/v1\n  api_key: "@
        + key + "\n"@
}

/// A line that belongs to the body of a top-level block: empty, indented by
/// a space or a tab, or a comment.
pub open spec fn is_block_body(l: Seq<char>) -> bool {
    l.len() == 0 || l[0] == ' ' || l[0] == '\t' || l[0] == '#'
}

/// How many leading lines of `lines` belong to a block body.
pub open spec fn body_len(lines: Seq<Seq<char>>) -> nat
    decreases lines.len(),
{
    if lines.len() > 0 && is_block_body(lines[0]) {
        1 + body_len(lines.drop_first())
    } else {
        0
    }
}

pub proof fn lemma_body_len_bound(lines: Seq<Seq<char>>)
    ensures
        body_len(lines) <= lines.len(),
    decreases lines.len(),
{
    if lines.len() > 0 && is_block_body(lines[0]) {
        lemma_body_len_bound(lines.drop_first());
    }
}

/// The lines with every top-level `model:` line and its body replaced by
/// `block`; whether any was replaced.
pub open spec fn model_rewrite(lines: Seq<Seq<char>>, block: Seq<char>) -> (Seq<char>, bool)
    decreases lines.len(),
{
    if lines.len() == 0 {
        (seq![], false)
    } else if starts_with(lines[0], "model:"@) {
        let rest = lines.drop_first();
        proof {
            lemma_body_len_bound(rest);
        }
        (block + model_rewrite(rest.skip(body_len(rest) as int), block).0, true)
    } else {
        let r = model_rewrite(lines.drop_first(), block);
        (lines[0] + seq!['\n'] + r.0, r.1)
    }
}

/// The config text with its `model:` block pointing at the hub with `key`;
/// the block is put first when the config has none.
pub open spec fn with_model_block(txt: Seq<char>, key: Seq<char>) -> Seq<char> {
    let (out, replaced) = model_rewrite(lines_of(txt), model_block(key));
    if replaced {
        out
    } else {
        model_block(key) + out
    }
}

/// Rewrites the top-level `model:` block of the config text to point at the
/// hub with `hub_key` (the text `set_model_block` writes).
pub fn set_model_block(txt: &str, hub_key: &str) -> (r: String)
    ensures
        r@ == with_model_block(txt@, hub_key@),
{
    let mut block = String::from_str(
        "model:\n  default: qwen3.6-35b-a3b\n  provider: custom\n  base_url: https://api.neuraldeep.ru/v1\n  api_key: ",
    );
    block.append(hub_key);
    block.append("\n");
    let t = chars_of(txt);
    let ls = lines(&t);
    let ghost all = views(ls@);
    let mut out = String::new();
    let mut replaced = false;
    let mut i: usize = 0;
    assert(all.skip(0) == all);
    assert(out@ + model_rewrite(all, block@).0 == model_rewrite(all, block@).0);
    while i < ls.len()
        invariant
            i <= ls@.len(),
            all == views(ls@),
            all == lines_of(txt@),
            block@ == model_block(hub_key@),
            model_rewrite(all, block@).0 == out@ + model_rewrite(all.skip(i as int), block@).0,
            model_rewrite(all, block@).1 == (replaced || model_rewrite(all.skip(i as int), block@).1),
        decreases ls@.len() - i,
    {
        let ghost here = all.skip(i as int);
        proof {
            assert(here[0] == ls@[i as int]@);
            assert(here.drop_first() == all.skip(i + 1));
        }
        if has_prefix_str(&ls[i], "model:") {
            let ghost o = out@;
            out.append(block.as_str());
            i = i + 1;
            let ghost i0 = i;
            proof {
                assert(all.skip(i0 as int).skip(0) == all.skip(i0 as int));
            }
            while i < ls.len() && is_body_line(&ls[i])
                invariant
                    i0 <= i <= ls@.len(),
                    all == views(ls@),
                    body_len(all.skip(i0 as int)) == (i - i0) + body_len(all.skip(i as int)),
                decreases ls@.len() - i,
            {
                proof {
                    assert(all.skip(i as int)[0] == ls@[i as int]@);
                    assert(all.skip(i as int).drop_first() == all.skip(i + 1));
                }
                i = i + 1;
            }
            proof {
                if i < ls@.len() {
                    assert(all.skip(i as int)[0] == ls@[i as int]@);
                }
                assert(body_len(all.skip(i as int)) == 0);
                let rest = here.drop_first();
                assert(rest == all.skip(i0 as int));
                lemma_body_len_bound(rest);
                assert(rest.skip(body_len(rest) as int) == all.skip(i as int));
                assert(o + (block@ + model_rewrite(all.skip(i as int), block@).0) == out@
                    + model_rewrite(all.skip(i as int), block@).0);
            }
            replaced = true;
        } else {
            let ghost o = out@;
            push_all(&mut out, &ls[i]);
            push_char(&mut out, '\n');
            proof {
                let r = model_rewrite(all.skip(i + 1), block@);
                assert(o + (ls@[i as int]@ + seq!['\n'] + r.0) == out@ + r.0);
            }
            i = i + 1;
        }
    }
    proof {
        assert(all.skip(i as int).len() == 0);
        assert(out@ + Seq::<char>::empty() == out@);
    }
    if replaced {
        out
    } else {
        let mut r = block;
        r.append(out.as_str());
        r
    }
}

/// Whether `l` is a block body line (see [`is_block_body`]).
fn is_body_line(l: &Vec<char>) -> (b: bool)
    ensures
        b == is_block_body(l@),
{
    l.len() == 0 || l[0] == ' ' || l[0] == '\t' || l[0] == '#'
}

/// The hub key of the `model:` block: the first `api_key:` line inside a
/// top-level `model:` block, its value trimmed; empty when there is none.
pub open spec fn model_key_lines(lines: Seq<Seq<char>>, in_model: bool) -> Seq<char>
    decreases lines.len(),
{
    if lines.len() == 0 {
        seq![]
    } else {
        let l = lines[0];
        let m = if starts_with(l, "model:"@) {
            true
        } else if in_model && l.len() > 0 && !(l[0] == ' ' || l[0] == '\t') {
            false
        } else {
            in_model
        };
        if m && starts_with(trim(l), "api_key:"@) {
            trim(trim(l).skip("api_key:"@.len() as int))
        } else {
            model_key_lines(lines.drop_first(), m)
        }
    }
}

pub open spec fn model_hub_key(txt: Seq<char>) -> Seq<char> {
    model_key_lines(lines_of(txt), false)
}

/// The hub key of the config's `model:` block (empty until the user signs in).
pub fn current_hub_key(txt: &str) -> (r: String)
    ensures
        r@ == model_hub_key(txt@),
{
    proof {
        reveal_strlit("api_key:");
    }
    let t = chars_of(txt);
    let ls = lines(&t);
    let ghost all = views(ls@);
    let mut in_model = false;
    let mut i: usize = 0;
    assert(all.skip(0) == all);
    while i < ls.len()
        invariant
            i <= ls@.len(),
            all == views(ls@),
            all == lines_of(txt@),
            model_key_lines(all, false) == model_key_lines(all.skip(i as int), in_model),
        decreases ls@.len() - i,
    {
        let l = &ls[i];
        proof {
            reveal_strlit("api_key:");
            assert(all.skip(i as int)[0] == l@);
            assert(all.skip(i as int).drop_first() == all.skip(i + 1));
        }
        let m = if has_prefix_str(l, "model:") {
            true
        } else if in_model && l.len() > 0 && !(l[0] == ' ' || l[0] == '\t') {
            false
        } else {
            in_model
        };
        let lt = trimmed(l);
        if m && has_prefix_str(&lt, "api_key:") {
            let rest = skip_from(&lt, 8);
            return string_of(&trimmed(&rest));
        }
        in_model = m;
        i = i + 1;
    }
    String::new()
}

/// Value of the first line whose trimmed text starts with `prefix`, trimmed.
fn first_prefixed_value(ls: &Vec<Vec<char>>, prefix: &Vec<char>) -> (r: Option<Vec<char>>)
    ensures
        opt_vec(r) == first_prefixed(views(ls@), prefix@),
{
    let ghost all = views(ls@);
    let mut i: usize = 0;
    assert(all.skip(0) == all);
    while i < ls.len()
        invariant
            i <= ls@.len(),
            all == views(ls@),
            first_prefixed(all, prefix@) == first_prefixed(all.skip(i as int), prefix@),
        decreases ls@.len() - i,
    {
        proof {
            assert(all.skip(i as int)[0] == ls@[i as int]@);
            assert(all.skip(i as int).drop_first() == all.skip(i + 1));
        }
        let lt = trimmed(&ls[i]);
        if has_prefix(&lt, prefix) {
            let rest = skip_from(&lt, prefix.len());
            return Some(trimmed(&rest));
        }
        i = i + 1;
    }
    None
}

/// The first line whose trimmed text starts with `prefix`: the rest, trimmed.
pub open spec fn first_prefixed(lines: Seq<Seq<char>>, prefix: Seq<char>) -> Option<Seq<char>>
    decreases lines.len(),
{
    if lines.len() == 0 {
        None
    } else if starts_with(trim(lines[0]), prefix) {
        Some(trim(trim(lines[0]).skip(prefix.len() as int)))
    } else {
        first_prefixed(lines.drop_first(), prefix)
    }
}

pub open spec fn opt_vec(o: Option<Vec<char>>) -> Option<Seq<char>> {
    match o {
        Some(v) => Some(v@),
        None => None,
    }
}

/// The value of `name` for the host: the environment's value when it is set
/// and not empty, else the first `name=` line of the env file, trimmed, else
/// empty.
pub open spec fn env_key_choice(env: Option<Seq<char>>, file: Option<Seq<char>>, name: Seq<char>) -> Seq<char> {
    if env is Some && env->0.len() > 0 {
        env->0
    } else {
        match file {
            Some(txt) => match first_prefixed(lines_of(txt), name + seq!['=']) {
                Some(v) => v,
                None => seq![],
            },
            None => seq![],
        }
    }
}

/// Resolves `name` from the process environment value `env` and the text of
/// `.env` (`None` when the file cannot be read).
pub fn resolve_env_key(env: Option<String>, file: Option<String>, name: &str) -> (r: String)
    ensures
        r@ == env_key_choice(opt_chars(env), opt_chars(file), name@),
{
    match env {
        Some(v) => {
            if !v.as_str().is_empty() {
                return v;
            }
        },
        None => {},
    }
    match file {
        Some(txt) => {
            let t = chars_of(txt.as_str());
            let ls = lines(&t);
            let mut prefix = chars_of(name);
            prefix.push('=');
            assert(prefix@ == name@ + seq!['=']);
            match first_prefixed_value(&ls, &prefix) {
                Some(v) => string_of(&v),
                None => String::new(),
            }
        },
        None => String::new(),
    }
}

/// The hub key for the host: `NEURALDEEP_API_KEY` as resolved from the
/// environment and `.env` when not empty, else the first `api_key:` line of
/// the config, trimmed, else empty.
pub open spec fn hub_key_choice(env_key: Seq<char>, config: Option<Seq<char>>) -> Seq<char> {
    if env_key.len() > 0 {
        env_key
    } else {
        match config {
            Some(txt) => match first_prefixed(lines_of(txt), "api_key:"@) {
                Some(v) => v,
                None => seq![],
            },
            None => seq![],
        }
    }
}

/// Resolves the hub key from the resolved `NEURALDEEP_API_KEY` and the
/// config text (`None` when it cannot be read).
pub fn resolve_hub_key(env_key: String, config: Option<String>) -> (r: String)
    ensures
        r@ == hub_key_choice(env_key@, opt_chars(config)),
{
    if !env_key.as_str().is_empty() {
        return env_key;
    }
    match config {
        Some(txt) => {
            let t = chars_of(txt.as_str());
            let ls = lines(&t);
            let prefix = chars_of("api_key:");
            match first_prefixed_value(&ls, &prefix) {
                Some(v) => string_of(&v),
                None => String::new(),
            }
        },
        None => String::new(),
    }
}

/// The env file after appending `API_SERVER_KEY=<key>` on a line of its own.
pub open spec fn env_with_server_key(env: Seq<char>, key: Seq<char>) -> Seq<char> {
    let base = if env.len() > 0 && env.last() != '\n' {
        env.push('\n')
    } else {
        env
    };
    base + "API_SERVER_KEY="@ + key + "\n"@
}

/// Appends the loopback `API_SERVER_KEY` line to the env file text.
pub fn append_server_key(env: &str, key: &str) -> (r: String)
    ensures
        r@ == env_with_server_key(env@, key@),
{
    let v = chars_of(env);
    let mut out = string_of(&v);
    if v.len() > 0 && v[v.len() - 1] != '\n' {
        push_char(&mut out, '\n');
    }
    out.append("API_SERVER_KEY=");
    out.append(key);
    out.append("\n");
    out
}

/// Whether the config turns on hook auto-accept: some line whose unindented
/// text starts with `hooks_auto_accept:` holds `true`.
pub open spec fn auto_accept_on(txt: Seq<char>) -> bool {
    exists|i: int|
        0 <= i < lines_of(txt).len() && starts_with(trim_start(#[trigger] lines_of(txt)[i]), "hooks_auto_accept:"@)
            && contains(lines_of(txt)[i], "true"@)
}

/// Reads the hook auto-accept setting from the config text.
pub fn auto_accept(txt: &str) -> (b: bool)
    ensures
        b == auto_accept_on(txt@),
{
    let t = chars_of(txt);
    let ls = lines(&t);
    let ghost all = views(ls@);
    let mut i: usize = 0;
    while i < ls.len()
        invariant
            i <= ls@.len(),
            all == views(ls@),
            all == lines_of(txt@),
            forall|j: int| 0 <= j < i ==> !(starts_with(trim_start(#[trigger] all[j]), "hooks_auto_accept:"@)
                && contains(all[j], "true"@)),
        decreases ls@.len() - i,
    {
        let lt = trimmed_start(&ls[i]);
        if has_prefix_str(&lt, "hooks_auto_accept:") && has_infix_str(&ls[i], "true") {
            assert(all[i as int] == ls@[i as int]@);
            return true;
        }
        i = i + 1;
    }
    false
}

// ---------------------------------------------------------------------------
// Laws of the hub key

pub proof fn lemma_plain_line_not_key(l: Seq<char>, w: Seq<char>, y: Seq<char>)
    requires
        l == w + y,
        forall|i: int| 0 <= i < w.len() ==> is_ws(w[i]),
        y.len() > 0,
        !is_ws(y[0]),
        !is_ws(y.last()),
        y[0] != 'a',
    ensures
        !starts_with(trim(l), "api_key:"@),
{
    reveal_strlit("api_key:");
    lemma_trim_ws_prefix(w, y);
    lemma_trim_start_plain(y);
    assert(trim_end(y) == y);
    assert(trim(l) == y);
    let p = "api_key:"@;
    if starts_with(y, p) {
        assert(y.take(p.len() as int)[0] == p[0]);
    }
}

/// The `api_key:` line of the block gives the key back, trimmed.
pub proof fn lemma_key_line(key: Seq<char>)
    ensures
        ({
            let l = strip_cr("  api_key: "@ + key);
            &&& starts_with(trim(l), "api_key:"@)
            &&& trim(trim(l).skip("api_key:"@.len() as int)) == trim(key)
            &&& l.len() > 0 && l[0] == ' '
            &&& !starts_with(l, "model:"@)
        }),
{
    reveal_strlit("api_key:");
    reveal_strlit("  api_key: ");
    reveal_strlit("model:");
    let raw = "  api_key: "@ + key;
    let l = strip_cr(raw);
    let p = "api_key:"@;
    let z = seq![' '] + key;
    assert(raw == seq![' ', ' '] + (p + z));
    assert(forall|i: int| 0 <= i < 2 ==> is_ws(seq![' ', ' '][i]));
    lemma_trim_ws_prefix(seq![' ', ' '], p + z);
    if raw.len() > 0 && raw.last() == '\r' {
        assert(raw == raw.drop_last().push('\r'));
        lemma_trim_ws_snoc(raw.drop_last(), '\r');
        assert(l == raw.drop_last());
    }
    assert(trim(l) == trim(p + z));
    lemma_trim_start_plain(p + z);
    lemma_trim_end_append(p, z);
    assert(trim(l) == p + trim_end(z));
    assert((p + trim_end(z)).take(p.len() as int) == p);
    assert((p + trim_end(z)).skip(p.len() as int) == trim_end(z));
    lemma_trim_of_trim_end(z);
    lemma_trim_ws_cons(' ', key);
    assert(trim(trim(l).skip(p.len() as int)) == trim(key));
    assert(starts_with(trim(l), p));
    assert(l[0] == ' ');
    let m = "model:"@;
    if starts_with(l, m) {
        assert(l.take(m.len() as int)[0] == m[0]);
    }
}

/// The lines of the `model:` block followed by anything give its key.
pub proof fn lemma_block_key_plain(key: Seq<char>, rest: Seq<char>)
    requires
        !has_char(key, '\n'),
    ensures
        model_key_lines(lines_of(model_block(key) + rest), false) == trim(key),
{
    reveal_strlit("model:\n  default: qwen3.6-35b-a3b\n  provider: custom\n  base_url: https://api.neuraldeep.ru/v1\n  api_key: ");
    reveal_strlit("\n");
    reveal_strlit("model:");
    reveal_strlit("  default: qwen3.6-35b-a3b");
    reveal_strlit("  provider: custom");
    reveal_strlit("  base_url: https://api.neuraldeep.ru/v1");
    reveal_strlit("  api_key: ");
    reveal_strlit("api_key:");
    let nl = seq!['\n'];
    let l0 = "model:"@;
    let l1 = "  default: qwen3.6-35b-a3b"@;
    let l2 = "  provider: custom"@;
    let l3 = "  base_url: https://api.neuraldeep.ru/v1"@;
    let l4 = "  api_key: "@ + key;
    let a0 = l0 + nl;
    let a1 = l1 + nl;
    let a2 = l2 + nl;
    let a3 = l3 + nl;
    let a4 = l4 + nl;
    assert(model_block(key) == a0 + (a1 + (a2 + (a3 + a4))));
    assert(model_block(key) + rest == a0 + (a1 + (a2 + (a3 + (a4 + rest)))));
    assert(!has_char(l0, '\n'));
    assert(!has_char(l1, '\n'));
    assert(!has_char(l2, '\n'));
    assert(!has_char(l3, '\n'));
    assert(!has_char(l4, '\n')) by {
        if has_char(l4, '\n') {
            let j = choose|j: int| 0 <= j < l4.len() && l4[j] == '\n';
            assert(key[j - 11] == '\n');
        }
    }
    lemma_lines_append(a0, a1 + (a2 + (a3 + (a4 + rest))));
    lemma_lines_append(a1, a2 + (a3 + (a4 + rest)));
    lemma_lines_append(a2, a3 + (a4 + rest));
    lemma_lines_append(a3, a4 + rest);
    lemma_lines_append(a4, rest);
    lemma_lines_single(l0);
    lemma_lines_single(l1);
    lemma_lines_single(l2);
    lemma_lines_single(l3);
    lemma_lines_single(l4);
    assert(strip_cr(l0) == l0);
    assert(strip_cr(l1) == l1);
    assert(strip_cr(l2) == l2);
    assert(strip_cr(l3) == l3);
    let m4 = strip_cr(l4);
    let ys = lines_of(rest);
    let all = lines_of(model_block(key) + rest);
    assert(all == seq![l0] + (seq![l1] + (seq![l2] + (seq![l3] + (seq![m4] + ys)))));
    lemma_key_line(key);
    assert(trim(l0) == l0);
    assert(l1 == seq![' ', ' '] + l1.skip(2));
    lemma_plain_line_not_key(l1, seq![' ', ' '], l1.skip(2));
    assert(l2 == seq![' ', ' '] + l2.skip(2));
    lemma_plain_line_not_key(l2, seq![' ', ' '], l2.skip(2));
    assert(l3 == seq![' ', ' '] + l3.skip(2));
    lemma_plain_line_not_key(l3, seq![' ', ' '], l3.skip(2));
    let s1 = seq![l1] + (seq![l2] + (seq![l3] + (seq![m4] + ys)));
    let s2 = seq![l2] + (seq![l3] + (seq![m4] + ys));
    let s3 = seq![l3] + (seq![m4] + ys);
    let s4 = seq![m4] + ys;
    assert(all.drop_first() == s1);
    assert(s1.drop_first() == s2);
    assert(s2.drop_first() == s3);
    assert(s3.drop_first() == s4);
    assert(model_key_lines(s4, true) == trim(key));
    assert(model_key_lines(s3, true) == trim(key));
    assert(model_key_lines(s2, true) == trim(key));
    assert(model_key_lines(s1, true) == trim(key));
    assert(l0.take(l0.len() as int) == l0);
    assert(starts_with(l0, "model:"@));
    assert(!starts_with(trim(l0), "api_key:"@));
    assert(all[0] == l0);
    assert(model_key_lines(all, false) == model_key_lines(s1, true));
}

/// The key read back from a block: the key up to its first line break,
/// trimmed.
pub open spec fn key_read_back(key: Seq<char>) -> Seq<char> {
    trim(key.take(first_of(key, '\n') as int))
}

/// The lines of the `model:` block followed by anything give its key, up
/// to the key's first line break.
pub proof fn lemma_block_key(key: Seq<char>, rest: Seq<char>)
    ensures
        model_key_lines(lines_of(model_block(key) + rest), false) == key_read_back(key),
{
    lemma_first_of_bound(key, '\n');
    let j = first_of(key, '\n') as int;
    let k0 = key.take(j);
    assert(!has_char(k0, '\n')) by {
        if has_char(k0, '\n') {
            let i = choose|i: int| 0 <= i < k0.len() && k0[i] == '\n';
            assert(key[i] == '\n');
        }
    }
    if j < key.len() {
        let rest2 = key.skip(j + 1) + "\n"@ + rest;
        reveal_strlit("\n");
        assert(key == k0 + seq!['\n'] + key.skip(j + 1));
        assert(model_block(key) + rest == model_block(k0) + rest2);
        lemma_block_key_plain(k0, rest2);
    } else {
        assert(k0 == key);
        lemma_block_key_plain(key, rest);
    }
}

/// Rewriting a config that has a `model:` line puts the block's key first.
pub proof fn lemma_rewrite_key(ls: Seq<Seq<char>>, key: Seq<char>)
    requires
        forall|i: int| 0 <= i < ls.len() ==> !has_char(#[trigger] ls[i], '\n'),
        model_rewrite(ls, model_block(key)).1,
    ensures
        model_key_lines(lines_of(model_rewrite(ls, model_block(key)).0), false) == key_read_back(key),
    decreases ls.len(),
{
    reveal_strlit("model:");
    let b = model_block(key);
    if starts_with(ls[0], "model:"@) {
        lemma_block_key(key, model_rewrite(ls.drop_first().skip(body_len(ls.drop_first()) as int), b).0);
    } else {
        let tail = ls.drop_first();
        assert forall|i: int| 0 <= i < tail.len() implies !has_char(#[trigger] tail[i], '\n') by {
            assert(tail[i] == ls[i + 1]);
        }
        lemma_rewrite_key(tail, key);
        let x = model_rewrite(tail, b).0;
        assert(!has_char(ls[0], '\n'));
        assert(ls[0] + seq!['\n'] + x == (ls[0] + seq!['\n']) + x);
        lemma_lines_append(ls[0] + seq!['\n'], x);
        lemma_lines_single(ls[0]);
        lemma_starts_with_strip_cr(ls[0], "model:"@);
        let all = lines_of(model_rewrite(ls, b).0);
        assert(all == seq![strip_cr(ls[0])] + lines_of(x));
        assert(all.drop_first() == lines_of(x));
        let l = strip_cr(ls[0]);
        if starts_with(trim(l), "api_key:"@) {
        }
    }
}

/// Writing the `model:` block with a hub key, then reading the hub key of
/// the config, gives the key back: trimmed, and up to its first line break
/// when it has one (all of it, trimmed, when it has none).
pub proof fn law_model_block_key_round_trip(txt: Seq<char>, key: Seq<char>)
    ensures
        model_hub_key(with_model_block(txt, key)) == key_read_back(key),
        !has_char(key, '\n') ==> model_hub_key(with_model_block(txt, key)) == trim(key),
{
    lemma_first_of_bound(key, '\n');
    if !has_char(key, '\n') {
        if first_of(key, '\n') < key.len() {
            assert(key[first_of(key, '\n') as int] == '\n');
        }
        assert(key.take(key.len() as int) == key);
    }
    let ls = lines_of(txt);
    lemma_lines_have_no_newline(txt);
    let (out, replaced) = model_rewrite(ls, model_block(key));
    if replaced {
        lemma_rewrite_key(ls, key);
    } else {
        lemma_block_key(key, out);
    }
}

// ---------------------------------------------------------------------------
// Law of writing the `model:` block twice

/// The lines of the `model:` block for `key`.
pub open spec fn block_lines(key: Seq<char>) -> Seq<Seq<char>> {
    seq![
        "model:"@,
        "  default: qwen3.6-35b-a3b"@,
        "  provider: custom"@,
        "  base_url: https://api.neuraldeep.ru/v1"@,
        "  api_key: "@ + key,
    ]
}

/// The lines that [`model_rewrite`] writes, with the block given by its lines.
pub open spec fn rewrite_lines(lines: Seq<Seq<char>>, bl: Seq<Seq<char>>) -> (Seq<Seq<char>>, bool)
    decreases lines.len(),
{
    if lines.len() == 0 {
        (seq![], false)
    } else if starts_with(lines[0], "model:"@) {
        let rest = lines.drop_first();
        proof {
            lemma_body_len_bound(rest);
        }
        (bl + rewrite_lines(rest.skip(body_len(rest) as int), bl).0, true)
    } else {
        let r = rewrite_lines(lines.drop_first(), bl);
        (seq![lines[0]] + r.0, r.1)
    }
}

proof fn lemma_unlines_concat(a: Seq<Seq<char>>, b: Seq<Seq<char>>)
    ensures
        unlines(a + b) == unlines(a) + unlines(b),
    decreases b.len(),
{
    if b.len() == 0 {
        assert(a + b == a);
        assert(unlines(a) + Seq::<char>::empty() == unlines(a));
    } else {
        assert((a + b).drop_last() == a + b.drop_last());
        assert((a + b).last() == b.last());
        lemma_unlines_concat(a, b.drop_last());
        assert(unlines(a) + unlines(b.drop_last()) + b.last() + seq!['\n'] == unlines(a) + (unlines(
            b.drop_last(),
        ) + b.last() + seq!['\n']));
    }
}

proof fn lemma_unlines_one(l: Seq<char>)
    ensures
        unlines(seq![l]) == l + seq!['\n'],
{
    assert(seq![l].drop_last() == Seq::<Seq<char>>::empty());
    assert(seq![l].last() == l);
    assert(unlines(Seq::<Seq<char>>::empty()) == Seq::<char>::empty());
    assert(Seq::<char>::empty() + l + seq!['\n'] == l + seq!['\n']);
}

proof fn lemma_block_text(key: Seq<char>)
    ensures
        model_block(key) == unlines(block_lines(key)),
{
    reveal_strlit("model:");
    reveal_strlit("  default: qwen3.6-35b-a3b");
    reveal_strlit("  provider: custom");
    reveal_strlit("  base_url: https://api.neuraldeep.ru/v1");
    reveal_strlit("  api_key: ");
    reveal_strlit("\n");
    reveal_strlit(
        "model:\n  default: qwen3.6-35b-a3b\n  provider: custom\n  base_url: https://api.neuraldeep.ru/v1\n  api_key: ",
    );
    let bl = block_lines(key);
    let nl = seq!['\n'];
    lemma_unlines_concat(seq![bl[0]], seq![bl[1], bl[2], bl[3], bl[4]]);
    lemma_unlines_concat(seq![bl[1]], seq![bl[2], bl[3], bl[4]]);
    lemma_unlines_concat(seq![bl[2]], seq![bl[3], bl[4]]);
    lemma_unlines_concat(seq![bl[3]], seq![bl[4]]);
    assert(bl == seq![bl[0]] + seq![bl[1], bl[2], bl[3], bl[4]]);
    assert(seq![bl[1], bl[2], bl[3], bl[4]] == seq![bl[1]] + seq![bl[2], bl[3], bl[4]]);
    assert(seq![bl[2], bl[3], bl[4]] == seq![bl[2]] + seq![bl[3], bl[4]]);
    assert(seq![bl[3], bl[4]] == seq![bl[3]] + seq![bl[4]]);
    lemma_unlines_one(bl[0]);
    lemma_unlines_one(bl[1]);
    lemma_unlines_one(bl[2]);
    lemma_unlines_one(bl[3]);
    lemma_unlines_one(bl[4]);
    assert(unlines(bl) == bl[0] + nl + (bl[1] + nl + (bl[2] + nl + (bl[3] + nl + (bl[4] + nl)))));
    assert(model_block(key) =~= bl[0] + nl + (bl[1] + nl + (bl[2] + nl + (bl[3] + nl + (bl[4] + nl)))));
}

/// The text [`model_rewrite`] writes is the text of the lines
/// [`rewrite_lines`] writes.
proof fn lemma_rewrite_text(lines: Seq<Seq<char>>, bl: Seq<Seq<char>>)
    ensures
        model_rewrite(lines, unlines(bl)) == (unlines(rewrite_lines(lines, bl).0), rewrite_lines(
            lines,
            bl,
        ).1),
    decreases lines.len(),
{
    if lines.len() > 0 {
        let rest = lines.drop_first();
        if starts_with(lines[0], "model:"@) {
            lemma_body_len_bound(rest);
            let r = rest.skip(body_len(rest) as int);
            lemma_rewrite_text(r, bl);
            lemma_unlines_concat(bl, rewrite_lines(r, bl).0);
        } else {
            lemma_rewrite_text(rest, bl);
            lemma_unlines_concat(seq![lines[0]], rewrite_lines(rest, bl).0);
            lemma_unlines_one(lines[0]);
        }
    }
}

proof fn lemma_body_len_concat(a: Seq<Seq<char>>, b: Seq<Seq<char>>)
    requires
        forall|i: int| 0 <= i < a.len() ==> is_block_body(#[trigger] a[i]),
    ensures
        body_len(a + b) == a.len() + body_len(b),
    decreases a.len(),
{
    if a.len() == 0 {
        assert(a + b == b);
    } else {
        assert((a + b)[0] == a[0]);
        assert((a + b).drop_first() == a.drop_first() + b);
        assert forall|i: int| 0 <= i < a.drop_first().len() implies is_block_body(
            #[trigger] a.drop_first()[i],
        ) by {
            assert(a.drop_first()[i] == a[i + 1]);
        }
        lemma_body_len_concat(a.drop_first(), b);
    }
}

proof fn lemma_body_len_stop(s: Seq<Seq<char>>)
    ensures
        body_len(s) < s.len() ==> !is_block_body(s[body_len(s) as int]),
    decreases s.len(),
{
    if s.len() > 0 && is_block_body(s[0]) {
        lemma_body_len_stop(s.drop_first());
    }
}

/// The block's lines: a `model:` line, then lines of its body.
pub open spec fn block_shaped(bl: Seq<Seq<char>>) -> bool {
    &&& bl.len() > 0
    &&& starts_with(bl[0], "model:"@)
    &&& !is_block_body(bl[0])
    &&& forall|i: int| 1 <= i < bl.len() ==> is_block_body(#[trigger] bl[i])
}

proof fn lemma_block_lines_shaped(key: Seq<char>)
    ensures
        block_shaped(block_lines(key)),
{
    reveal_strlit("model:");
    reveal_strlit("  default: qwen3.6-35b-a3b");
    reveal_strlit("  provider: custom");
    reveal_strlit("  base_url: https://api.neuraldeep.ru/v1");
    reveal_strlit("  api_key: ");
    let bl = block_lines(key);
    assert(bl[0][0] == 'm');
    assert(bl[1][0] == ' ');
    assert(bl[2][0] == ' ');
    assert(bl[3][0] == ' ');
    assert(bl[4][0] == ' ');
    assert(starts_with(bl[0], "model:"@)) by {
        assert(bl[0].take(bl[0].len() as int) == bl[0]);
    }
    assert forall|i: int| 1 <= i < bl.len() implies is_block_body(#[trigger] bl[i]) by {
        assert(bl[i][0] == ' ');
    }
}

/// Without a `model:` line the lines are kept as they are.
proof fn lemma_rewrite_keeps(lines: Seq<Seq<char>>, bl: Seq<Seq<char>>)
    ensures
        !rewrite_lines(lines, bl).1 ==> rewrite_lines(lines, bl).0 == lines,
        (exists|i: int| 0 <= i < lines.len() && starts_with(#[trigger] lines[i], "model:"@))
            ==> rewrite_lines(lines, bl).1,
    decreases lines.len(),
{
    if lines.len() > 0 && !starts_with(lines[0], "model:"@) {
        let rest = lines.drop_first();
        lemma_rewrite_keeps(rest, bl);
        if exists|i: int| 0 <= i < lines.len() && starts_with(#[trigger] lines[i], "model:"@) {
            let i = choose|i: int| 0 <= i < lines.len() && starts_with(#[trigger] lines[i], "model:"@);
            assert(i > 0);
            assert(starts_with(rest[i - 1], "model:"@));
        }
        assert(seq![lines[0]] + rest == lines);
    }
}

/// The rewritten lines start with a line that is not in a block body.
proof fn lemma_rewrite_head(lines: Seq<Seq<char>>, bl: Seq<Seq<char>>)
    requires
        block_shaped(bl),
        lines.len() == 0 || !is_block_body(lines[0]),
    ensures
        body_len(rewrite_lines(lines, bl).0) == 0,
{
    if lines.len() > 0 {
        if starts_with(lines[0], "model:"@) {
            let rest = lines.drop_first();
            lemma_body_len_bound(rest);
            assert((bl + rewrite_lines(rest.skip(body_len(rest) as int), bl).0)[0] == bl[0]);
        } else {
            assert((seq![lines[0]] + rewrite_lines(lines.drop_first(), bl).0)[0] == lines[0]);
        }
    }
}

/// Rewriting lines that start with a block: the new block, then the rest
/// rewritten.
proof fn lemma_rewrite_after_block(old: Seq<Seq<char>>, bl: Seq<Seq<char>>, x: Seq<Seq<char>>)
    requires
        block_shaped(old),
        body_len(x) == 0,
    ensures
        rewrite_lines(old + x, bl) == (bl + rewrite_lines(x, bl).0, true),
{
    let w = old + x;
    assert(w[0] == old[0]);
    let rest = w.drop_first();
    assert(rest == old.drop_first() + x);
    assert forall|i: int| 0 <= i < old.drop_first().len() implies is_block_body(
        #[trigger] old.drop_first()[i],
    ) by {
        assert(old.drop_first()[i] == old[i + 1]);
    }
    lemma_body_len_concat(old.drop_first(), x);
    assert(rest.skip(body_len(rest) as int) == x);
}

/// Rewriting lines that were rewritten with some block (`old`) writes the
/// same lines as rewriting the original lines once.
proof fn lemma_rewrite_idempotent(lines: Seq<Seq<char>>, old: Seq<Seq<char>>, bl: Seq<Seq<char>>)
    requires
        block_shaped(old),
    ensures
        rewrite_lines(rewrite_lines(lines, old).0, bl) == rewrite_lines(lines, bl),
    decreases lines.len(),
{
    if lines.len() > 0 {
        let rest = lines.drop_first();
        if starts_with(lines[0], "model:"@) {
            lemma_body_len_bound(rest);
            let r = rest.skip(body_len(rest) as int);
            lemma_body_len_stop(rest);
            if r.len() > 0 {
                assert(r[0] == rest[body_len(rest) as int]);
            }
            lemma_rewrite_idempotent(r, old, bl);
            lemma_rewrite_head(r, old);
            lemma_rewrite_after_block(old, bl, rewrite_lines(r, old).0);
        } else {
            lemma_rewrite_idempotent(rest, old, bl);
            let w = seq![lines[0]] + rewrite_lines(rest, old).0;
            assert(w[0] == lines[0]);
            assert(w.drop_first() == rewrite_lines(rest, old).0);
        }
    }
}

/// Every rewritten line is a line of the block or of the input, so a
/// property of all those lines holds of the rewritten ones.
proof fn lemma_rewrite_lines_have(lines: Seq<Seq<char>>, bl: Seq<Seq<char>>, p: spec_fn(Seq<char>) -> bool)
    requires
        forall|i: int| 0 <= i < lines.len() ==> p(#[trigger] lines[i]),
        forall|i: int| 0 <= i < bl.len() ==> p(#[trigger] bl[i]),
    ensures
        forall|i: int|
            0 <= i < rewrite_lines(lines, bl).0.len() ==> p(#[trigger] rewrite_lines(lines, bl).0[i]),
    decreases lines.len(),
{
    if lines.len() > 0 {
        let rest = lines.drop_first();
        assert forall|i: int| 0 <= i < rest.len() implies p(#[trigger] rest[i]) by {
            assert(rest[i] == lines[i + 1]);
        }
        if starts_with(lines[0], "model:"@) {
            lemma_body_len_bound(rest);
            let r = rest.skip(body_len(rest) as int);
            assert forall|i: int| 0 <= i < r.len() implies p(#[trigger] r[i]) by {
                assert(r[i] == rest[i + body_len(rest)]);
            }
            lemma_rewrite_lines_have(r, bl, p);
            let o = bl + rewrite_lines(r, bl).0;
            assert forall|i: int| 0 <= i < o.len() implies p(#[trigger] o[i]) by {
                if i >= bl.len() {
                    assert(o[i] == rewrite_lines(r, bl).0[i - bl.len()]);
                }
            }
        } else {
            lemma_rewrite_lines_have(rest, bl, p);
            let o = seq![lines[0]] + rewrite_lines(rest, bl).0;
            assert forall|i: int| 0 <= i < o.len() implies p(#[trigger] o[i]) by {
                if i >= 1 {
                    assert(o[i] == rewrite_lines(rest, bl).0[i - 1]);
                }
            }
        }
    }
}

/// Dropping a trailing `'\r'` from every rewritten line is rewriting with
/// the block's lines so trimmed, when the input lines have none.
proof fn lemma_rewrite_strip_cr(lines: Seq<Seq<char>>, bl: Seq<Seq<char>>)
    requires
        forall|i: int| 0 <= i < lines.len() ==> strip_cr(#[trigger] lines[i]) == lines[i],
    ensures
        rewrite_lines(lines, bl).0.map_values(|l: Seq<char>| strip_cr(l)) == rewrite_lines(
            lines,
            bl.map_values(|l: Seq<char>| strip_cr(l)),
        ).0,
    decreases lines.len(),
{
    let bc = bl.map_values(|l: Seq<char>| strip_cr(l));
    if lines.len() > 0 {
        let rest = lines.drop_first();
        assert forall|i: int| 0 <= i < rest.len() implies strip_cr(#[trigger] rest[i]) == rest[i] by {
            assert(rest[i] == lines[i + 1]);
        }
        if starts_with(lines[0], "model:"@) {
            lemma_body_len_bound(rest);
            let r = rest.skip(body_len(rest) as int);
            assert forall|i: int| 0 <= i < r.len() implies strip_cr(#[trigger] r[i]) == r[i] by {
                assert(r[i] == rest[i + body_len(rest)]);
            }
            lemma_rewrite_strip_cr(r, bl);
            let a = rewrite_lines(r, bl).0;
            assert((bl + a).map_values(|l: Seq<char>| strip_cr(l)) =~= bc + a.map_values(
                |l: Seq<char>| strip_cr(l),
            ));
        } else {
            lemma_rewrite_strip_cr(rest, bl);
            let a = rewrite_lines(rest, bl).0;
            assert(strip_cr(lines[0]) == lines[0]);
            assert((seq![lines[0]] + a).map_values(|l: Seq<char>| strip_cr(l)) =~= seq![lines[0]]
                + a.map_values(|l: Seq<char>| strip_cr(l)));
        }
    } else {
        assert(Seq::<Seq<char>>::empty().map_values(|l: Seq<char>| strip_cr(l)) =~= Seq::<
            Seq<char>,
        >::empty());
    }
}

/// The lines of a block read back without a trailing `'\r'`.
proof fn lemma_block_lines_strip_cr(key: Seq<char>)
    ensures
        block_lines(key).map_values(|l: Seq<char>| strip_cr(l)) == block_lines(strip_cr(key)),
{
    reveal_strlit("model:");
    reveal_strlit("  default: qwen3.6-35b-a3b");
    reveal_strlit("  provider: custom");
    reveal_strlit("  base_url: https://api.neuraldeep.ru/v1");
    reveal_strlit("  api_key: ");
    let p = "  api_key: "@;
    let m = block_lines(key).map_values(|l: Seq<char>| strip_cr(l));
    let b = block_lines(strip_cr(key));
    assert(p.last() == ' ');
    if key.len() > 0 && key.last() == '\r' {
        assert((p + key).drop_last() =~= p + key.drop_last());
    } else if key.len() > 0 {
        assert((p + key).last() == key.last());
    } else {
        assert(p + key =~= p);
    }
    assert(m[4] == b[4]);
    assert("model:"@.last() == ':');
    assert(m[0] == b[0]);
    assert(m[1] == b[1]);
    assert(m[2] == b[2]);
    assert(m[3] == b[3]);
    assert(m =~= b);
}

/// Writing the `model:` block twice with the same key leaves the config as
/// writing it once. This holds when the key has no line break, no line of
/// the config ends with a `'\r'` left after reading it, and the config has
/// a `model:` line, or is empty, or starts with a line that is not empty,
/// indented or a comment (else the second write takes such leading lines for
/// the body of the block the first one put in front).
pub proof fn law_model_block_idempotent(txt: Seq<char>, key: Seq<char>)
    requires
        !has_char(key, '\n'),
        forall|i: int| 0 <= i < lines_of(txt).len() ==> strip_cr(#[trigger] lines_of(txt)[i]) == lines_of(txt)[i],
        (exists|i: int| 0 <= i < lines_of(txt).len() && starts_with(#[trigger] lines_of(txt)[i], "model:"@))
            || lines_of(txt).len() == 0 || !is_block_body(lines_of(txt)[0]),
    ensures
        with_model_block(with_model_block(txt, key), key) == with_model_block(txt, key),
{
    reveal_strlit("model:");
    reveal_strlit("  default: qwen3.6-35b-a3b");
    reveal_strlit("  provider: custom");
    reveal_strlit("  base_url: https://api.neuraldeep.ru/v1");
    reveal_strlit("  api_key: ");
    let ls = lines_of(txt);
    let bl = block_lines(key);
    let bc = block_lines(strip_cr(key));
    let no_nl = |l: Seq<char>| !has_char(l, '\n');
    lemma_block_text(key);
    lemma_block_lines_shaped(key);
    lemma_block_lines_shaped(strip_cr(key));
    lemma_block_lines_strip_cr(key);
    lemma_lines_have_no_newline(txt);
    assert forall|i: int| 0 <= i < ls.len() implies no_nl(#[trigger] ls[i]) by {}
    assert forall|i: int| 0 <= i < bl.len() implies no_nl(#[trigger] bl[i]) by {
        if i == 4 {
            let p = "  api_key: "@;
            lemma_has_char_concat(p, key, '\n');
            assert(!has_char(p, '\n')) by {
                if has_char(p, '\n') {
                    let j = choose|j: int| 0 <= j < p.len() && p[j] == '\n';
                }
            }
        } else {
            if has_char(bl[i], '\n') {
                let j = choose|j: int| 0 <= j < bl[i].len() && bl[i][j] == '\n';
            }
        }
    }
    lemma_rewrite_text(ls, bl);
    lemma_rewrite_keeps(ls, bl);
    lemma_rewrite_lines_have(ls, bl, no_nl);
    let (w, replaced) = rewrite_lines(ls, bl);
    if replaced {
        assert(with_model_block(txt, key) == unlines(w));
        assert forall|i: int| 0 <= i < w.len() implies !has_char(#[trigger] w[i], '\n') by {
            assert(no_nl(w[i]));
        }
        lemma_lines_unlines(w);
        lemma_rewrite_strip_cr(ls, bl);
        let w2 = rewrite_lines(ls, bc).0;
        assert(lines_of(unlines(w)) == w2);
        lemma_rewrite_text(w2, bl);
        lemma_rewrite_idempotent(ls, bc, bl);
        lemma_rewrite_keeps(ls, bc);
        lemma_rewrite_keeps(w2, bl);
        assert(rewrite_lines(ls, bc).1 == rewrite_lines(ls, bl).1) by {
            lemma_rewrite_flag(ls, bc, bl);
        }
    } else {
        assert(w == ls);
        lemma_unlines_concat(bl, ls);
        let all = bl + ls;
        assert(with_model_block(txt, key) == unlines(all));
        assert forall|i: int| 0 <= i < all.len() implies !has_char(#[trigger] all[i], '\n') by {
            if i >= bl.len() {
                assert(all[i] == ls[i - bl.len()]);
            } else {
                assert(no_nl(bl[i]));
            }
        }
        lemma_lines_unlines(all);
        let am = all.map_values(|l: Seq<char>| strip_cr(l));
        assert(am =~= bc + ls) by {
            assert forall|i: int| 0 <= i < all.len() implies #[trigger] am[i] == (bc + ls)[i] by {
                if i < bl.len() {
                    assert(bl.map_values(|l: Seq<char>| strip_cr(l))[i] == strip_cr(bl[i]));
                } else {
                    assert(all[i] == ls[i - bl.len()]);
                }
            }
        }
        lemma_rewrite_text(bc + ls, bl);
        lemma_rewrite_head(ls, bl);
        lemma_rewrite_after_block(bc, bl, ls);
    }
}

/// Whether lines are rewritten does not depend on the block.
proof fn lemma_rewrite_flag(lines: Seq<Seq<char>>, a: Seq<Seq<char>>, b: Seq<Seq<char>>)
    ensures
        rewrite_lines(lines, a).1 == rewrite_lines(lines, b).1,
    decreases lines.len(),
{
    if lines.len() > 0 && !starts_with(lines[0], "model:"@) {
        lemma_rewrite_flag(lines.drop_first(), a, b);
    }
}

// ---------------------------------------------------------------------------
// Law of the loopback key

/// `first_prefixed` only looks at the trimmed lines.
pub proof fn lemma_first_prefixed_trim_congruent(a: Seq<Seq<char>>, b: Seq<Seq<char>>, p: Seq<char>)
    requires
        a.len() == b.len(),
        forall|i: int| 0 <= i < a.len() ==> trim(#[trigger] a[i]) == trim(b[i]),
    ensures
        first_prefixed(a, p) == first_prefixed(b, p),
    decreases a.len(),
{
    if a.len() > 0 {
        assert(trim(a[0]) == trim(b[0]));
        lemma_first_prefixed_trim_congruent(a.drop_first(), b.drop_first(), p);
        assert forall|i: int| 0 <= i < a.drop_first().len() implies trim(
            #[trigger] a.drop_first()[i],
        ) == trim(b.drop_first()[i]) by {
            assert(trim(a[i + 1]) == trim(b[i + 1]));
        }
    }
}

/// Lines without a match, followed by more lines.
pub proof fn lemma_first_prefixed_append(a: Seq<Seq<char>>, b: Seq<Seq<char>>, p: Seq<char>)
    requires
        first_prefixed(a, p) is None,
    ensures
        first_prefixed(a + b, p) == first_prefixed(b, p),
    decreases a.len(),
{
    if a.len() > 0 {
        assert((a + b)[0] == a[0]);
        assert((a + b).drop_first() == a.drop_first() + b);
        lemma_first_prefixed_append(a.drop_first(), b, p);
    } else {
        assert(a + b == b);
    }
}

/// The loopback key written at provisioning is the one read back: after
/// `API_SERVER_KEY=<key>` is appended to an env file that had no
/// `API_SERVER_KEY=` line, and with no such variable in the environment,
/// the host resolves `API_SERVER_KEY` to the key (trimmed; the key has no
/// line break).
pub proof fn law_server_key_round_trip(env: Seq<char>, key: Seq<char>)
    requires
        !has_char(key, '\n'),
        first_prefixed(lines_of(env), "API_SERVER_KEY="@) is None,
    ensures
        env_key_choice(None, Some(env_with_server_key(env, key)), "API_SERVER_KEY"@) == trim(key),
{
    reveal_strlit("API_SERVER_KEY=");
    reveal_strlit("API_SERVER_KEY");
    reveal_strlit("\n");
    let p = "API_SERVER_KEY="@;
    assert("API_SERVER_KEY"@ + seq!['='] == p);
    let base = if env.len() > 0 && env.last() != '\n' {
        env.push('\n')
    } else {
        env
    };
    if env.len() > 0 && env.last() != '\n' {
        lemma_lines_snoc_newline(env);
        let a = lines_of(env);
        let b = lines_of(base);
        assert forall|i: int| 0 <= i < b.len() implies trim(#[trigger] b[i]) == trim(a[i]) by {
            if i == b.len() - 1 {
                lemma_trim_strip_cr(a.last());
            }
        }
        lemma_first_prefixed_trim_congruent(b, a, p);
    }
    assert(first_prefixed(lines_of(base), p) is None);
    let line = p + key;
    assert(!has_char(line, '\n')) by {
        if has_char(line, '\n') {
            let j = choose|j: int| 0 <= j < line.len() && line[j] == '\n';
            assert(key[j - 15] == '\n');
        }
    }
    let txt = env_with_server_key(env, key);
    assert(txt == base + (line + seq!['\n']));
    lemma_lines_append(base, line + seq!['\n']);
    lemma_lines_single(line);
    lemma_first_prefixed_append(lines_of(base), seq![strip_cr(line)], p);
    lemma_trim_strip_cr(line);
    lemma_trim_plain_prefix(p, key);
    let l = strip_cr(line);
    assert(trim(l) == p + trim_end(key));
    assert((p + trim_end(key)).take(p.len() as int) == p);
    assert(seq![l].drop_first().len() == 0);
    assert(first_prefixed(seq![l].drop_first(), p) is None);
}

// ---------------------------------------------------------------------------
// Law of writing then reading a field

/// Index of the line that reading `key` under `header` selects.
pub open spec fn read_index(lines: Seq<Seq<char>>, in_sec: bool, header: Seq<char>, key: Seq<char>) -> Option<int>
    decreases lines.len(),
{
    if lines.len() == 0 {
        None
    } else {
        let l = lines[0];
        let s = header_update(in_sec, l, header);
        if s && starts_with(trim_start(l), key) {
            Some(0)
        } else {
            shift(read_index(lines.drop_first(), s, header, key), 1)
        }
    }
}

pub proof fn lemma_read_index_bound(lines: Seq<Seq<char>>, in_sec: bool, header: Seq<char>, key: Seq<char>)
    ensures
        read_index(lines, in_sec, header, key) matches Some(t) ==> 0 <= t < lines.len(),
    decreases lines.len(),
{
    if lines.len() > 0 {
        let s = header_update(in_sec, lines[0], header);
        lemma_read_index_bound(lines.drop_first(), s, header, key);
    }
}

/// What reading sees of a line does not change when a trailing `'\r'` is
/// dropped.
pub proof fn lemma_read_strip_cr(l: Seq<char>, in_sec: bool, header: Seq<char>, key: Seq<char>)
    requires
        header.len() > 0,
        header.last() == ':',
        key.len() > 0,
        key.last() == ':',
    ensures
        header_update(in_sec, strip_cr(l), header) == header_update(in_sec, l, header),
        starts_with(trim_start(strip_cr(l)), key) == starts_with(trim_start(l), key),
        starts_with(trim_start(l), key) ==> trim(trim_start(strip_cr(l)).skip(key.len() as int))
            == trim(trim_start(l).skip(key.len() as int)),
{
    if l.len() > 0 && l.last() == '\r' {
        let m = l.drop_last();
        assert(l == m.push('\r'));
        assert(has_char(m, ':') == has_char(l, ':')) by {
            if has_char(l, ':') {
                let j = choose|j: int| 0 <= j < l.len() && l[j] == ':';
                assert(m[j] == ':');
            }
            if has_char(m, ':') {
                let j = choose|j: int| 0 <= j < m.len() && m[j] == ':';
                assert(l[j] == ':');
            }
        }
        if m.len() > 0 {
            assert(m[0] == l[0]);
        }
        lemma_trim_start_snoc(m, '\r');
        let t = trim_start(m);
        if t.len() > 0 {
            lemma_starts_with_strip_cr(t.push('\r'), header);
            lemma_starts_with_strip_cr(t.push('\r'), key);
            assert(t.push('\r').drop_last() == t);
            if starts_with(t.push('\r'), key) {
                assert(t.push('\r').skip(key.len() as int) == t.skip(key.len() as int).push('\r'));
                lemma_trim_ws_snoc(t.skip(key.len() as int), '\r');
            }
        }
    }
}

/// The line that reading selects is the one that writing replaces, when it
/// is indented by a space.
pub proof fn lemma_read_is_target(ls: Seq<Seq<char>>, sec: Seq<char>, in_sec: bool, key: Seq<char>, r: int)
    requires
        read_index(ls, in_sec, colon(sec), key) == Some(r),
        0 <= r < ls.len(),
        space_indented(ls[r]),
    ensures
        first_target(ls, Some(sec), in_sec, key) == Some(r),
    decreases ls.len(),
{
    let s = header_update(in_sec, ls[0], colon(sec));
    lemma_read_index_bound(ls.drop_first(), s, colon(sec), key);
    if r > 0 {
        if s && starts_with(trim_start(ls[0]), key) {
            assert(read_index(ls, in_sec, colon(sec), key) == Some(0int));
        }
        let o = read_index(ls.drop_first(), s, colon(sec), key);
        assert(o == Some(r - 1));
        assert(ls.drop_first()[r - 1] == ls[r]);
        lemma_read_is_target(ls.drop_first(), sec, s, key, r - 1);
    }
}

/// Reading the rewritten lines finds the written value.
pub proof fn lemma_read_written(
    ls: Seq<Seq<char>>,
    ms: Seq<Seq<char>>,
    in_sec: bool,
    header: Seq<char>,
    key: Seq<char>,
    field: Seq<char>,
    value: Seq<char>,
    t: int,
)
    requires
        header.len() > 0,
        header.last() == ':',
        key == colon(field),
        ls.len() == ms.len(),
        0 <= t < ls.len(),
        read_index(ls, in_sec, header, key) == Some(t),
        space_indented(ls[t]),
        forall|i: int| 0 <= i < t ==> #[trigger] ms[i] == strip_cr(ls[i]),
        ms[t] == strip_cr(indent_of(ls[t]) + field + ": "@ + value),
    ensures
        read_field_lines(ms, in_sec, header, key) == Some(trim(value)),
    decreases ls.len(),
{
    reveal_strlit(": ");
    let l = ls[0];
    let s = header_update(in_sec, l, header);
    lemma_read_index_bound(ls.drop_first(), s, header, key);
    if t == 0 {
        let nl = indent_of(l) + field + ": "@ + value;
        lemma_trim_start_split(l);
        let ind = indent_of(l);
        assert(ind.len() > 0) by {
            assert(is_ws(l[0]));
            if trim_start(l).len() == l.len() {
                assert(trim_start(l) == l.skip(0));
            }
        }
        assert(nl[0] == ' ');
        assert(nl == ind + (field + ": "@ + value));
        assert forall|i: int| 0 <= i < ind.len() implies is_ws(ind[i]) by {
            assert(ind[i] == l[i]);
        }
        lemma_trim_ws_prefix(ind, field + ": "@ + value);
        let body = field + ": "@ + value;
        assert(s && starts_with(trim_start(l), key));
        assert(trim_start(l).take(key.len() as int)[0] == key[0]);
        assert(body[0] == key[0]);
        lemma_trim_start_plain(body);
        assert(trim_start(nl) == body);
        assert(body.take(key.len() as int) == key);
        assert(body.skip(key.len() as int) == seq![' '] + value);
        lemma_trim_ws_cons(' ', value);
        assert(header_update(in_sec, nl, header) == in_sec);
        assert(header_update(in_sec, l, header) == in_sec);
        assert(s && starts_with(trim_start(l), key));
        assert(starts_with(trim_start(nl), key));
        lemma_read_strip_cr(nl, in_sec, header, key);
        assert(ms[0] == strip_cr(nl));
        assert(trim(trim_start(nl).skip(key.len() as int)) == trim(value));
    } else {
        assert(ms[0] == strip_cr(l));
        lemma_read_strip_cr(l, in_sec, header, key);
        if s && starts_with(trim_start(l), key) {
            assert(read_index(ls, in_sec, header, key) == Some(0int));
        }
        assert(read_index(ls.drop_first(), s, header, key) == Some(t - 1));
        assert forall|i: int| 0 <= i < t - 1 implies #[trigger] ms.drop_first()[i]
            == strip_cr(ls.drop_first()[i]) by {
            assert(ms[i + 1] == strip_cr(ls[i + 1]));
        }
        lemma_read_written(ls.drop_first(), ms.drop_first(), s, header, key, field, value, t - 1);
    }
}

/// Writing then reading a field under a section gives the value back: when
/// the line that reading `section.field` selects is indented by a space (the
/// kind of line that writing replaces), writing `field: value` there and
/// reading `section.field` again gives `value`, trimmed. Neither the field
/// name (which may be empty) nor the value may hold a line break.
pub proof fn law_yaml_write_then_read(txt: Seq<char>, section: Seq<char>, field: Seq<char>, value: Seq<char>, r: int)
    requires
        !has_char(field, '\n'),
        !has_char(value, '\n'),
        read_index(lines_of(txt), false, colon(section), colon(field)) == Some(r),
        0 <= r < lines_of(txt).len(),
        space_indented(lines_of(txt)[r]),
    ensures
        yaml_set(txt, Some(section), field, value) matches Some(out) && yaml_field(out, section, field)
            == Some(trim(value)),
{
    reveal_strlit(": ");
    let ls = lines_of(txt);
    lemma_read_is_target(ls, section, false, colon(field), r);
    let nl = indent_of(ls[r]) + field + ": "@ + value;
    let upd = ls.update(r, nl);
    lemma_lines_have_no_newline(txt);
    assert(!has_char(nl, '\n')) by {
        let ind = indent_of(ls[r]);
        lemma_trim_start_split(ls[r]);
        assert(!has_char(ls[r], '\n'));
        lemma_has_char_take(ls[r], ls[r].len() - trim_start(ls[r]).len(), '\n');
        assert(!has_char(": "@, '\n'));
        lemma_has_char_concat(ind, field, '\n');
        lemma_has_char_concat(ind + field, ": "@, '\n');
        lemma_has_char_concat(ind + field + ": "@, value, '\n');
    }
    assert forall|i: int| 0 <= i < upd.len() implies !has_char(#[trigger] upd[i], '\n') by {
        if i != r {
            assert(upd[i] == ls[i]);
        }
    }
    lemma_lines_unlines(upd);
    let ms = lines_of(unlines(upd));
    assert forall|i: int| 0 <= i < ls.len() && i != r implies #[trigger] ms[i] == strip_cr(ls[i]) by {
        assert(upd[i] == ls[i]);
    }
    lemma_read_written(ls, ms, false, colon(section), colon(field), field, value, r);
}

// ---------------------------------------------------------------------------
// Law of persisting the working directory

/// A line that reading `terminal.cwd` selects is indented by a space.
pub proof fn lemma_cwd_line_indented(l: Seq<char>, in_t: bool)
    requires
        header_update(in_t, l, "terminal:"@),
        starts_with(trim_start(l), "cwd:"@),
    ensures
        space_indented(l),
{
    reveal_strlit("terminal:");
    reveal_strlit("cwd:");
    if !space_indented(l) {
        let t = trim_start(l);
        lemma_trim_start_split(l);
        assert(t.take(4)[3] == ':');
        assert(l[l.len() - t.len() + 3] == ':');
        assert(has_char(l, ':'));
        assert(starts_with(t, "terminal:"@));
        assert(t.take(9)[0] == 't');
        assert(t.take(4)[0] == 'c');
    }
}

/// Up to the first `cwd:` line of the section, rewriting changes nothing;
/// that line gets the directory.
pub proof fn lemma_cwd_rewrite_prefix(ls: Seq<Seq<char>>, in_t: bool, dir: Seq<char>, r: int)
    requires
        read_index(ls, in_t, "terminal:"@, "cwd:"@) == Some(r),
    ensures
        cwd_rewrite(ls, in_t, dir).len() == ls.len(),
        0 <= r < ls.len(),
        forall|i: int| 0 <= i < r ==> #[trigger] cwd_rewrite(ls, in_t, dir)[i] == ls[i],
        cwd_rewrite(ls, in_t, dir)[r] == indent_of(ls[r]) + "cwd: "@ + dir,
        cwd_found(ls, in_t),
        space_indented(ls[r]),
    decreases ls.len(),
{
    lemma_cwd_rewrite_len(ls, in_t, dir);
    let l = ls[0];
    let t = header_update(in_t, l, "terminal:"@);
    lemma_read_index_bound(ls.drop_first(), t, "terminal:"@, "cwd:"@);
    if t && starts_with(trim_start(l), "cwd:"@) {
        assert(r == 0);
        lemma_cwd_line_indented(l, in_t);
    } else {
        lemma_cwd_rewrite_prefix(ls.drop_first(), t, dir, r - 1);
        let rw = cwd_rewrite(ls, in_t, dir);
        let rt = cwd_rewrite(ls.drop_first(), t, dir);
        assert(rw == seq![l] + rt);
        assert forall|i: int| 0 <= i < r implies #[trigger] cwd_rewrite(ls, in_t, dir)[i] == ls[i] by {
            if i > 0 {
                assert(rw[i] == rt[i - 1]);
                assert(ls.drop_first()[i - 1] == ls[i]);
            }
        }
        assert(rw[r] == rt[r - 1]);
        assert(ls.drop_first()[r - 1] == ls[r]);
    }
}

pub proof fn lemma_cwd_rewrite_len(ls: Seq<Seq<char>>, in_t: bool, dir: Seq<char>)
    ensures
        cwd_rewrite(ls, in_t, dir).len() == ls.len(),
    decreases ls.len(),
{
    if ls.len() > 0 {
        lemma_cwd_rewrite_len(ls.drop_first(), header_update(in_t, ls[0], "terminal:"@), dir);
    }
}

/// Rewriting keeps lines free of `'\n'` when the directory has none.
pub proof fn lemma_cwd_rewrite_no_newline(ls: Seq<Seq<char>>, in_t: bool, dir: Seq<char>)
    requires
        !has_char(dir, '\n'),
        forall|i: int| 0 <= i < ls.len() ==> !has_char(#[trigger] ls[i], '\n'),
    ensures
        forall|i: int| 0 <= i < cwd_rewrite(ls, in_t, dir).len() ==> !has_char(
            #[trigger] cwd_rewrite(ls, in_t, dir)[i],
            '\n',
        ),
    decreases ls.len(),
{
    if ls.len() > 0 {
        reveal_strlit("cwd: ");
        let l = ls[0];
        let t = header_update(in_t, l, "terminal:"@);
        let tail = ls.drop_first();
        assert forall|i: int| 0 <= i < tail.len() implies !has_char(#[trigger] tail[i], '\n') by {
            assert(tail[i] == ls[i + 1]);
        }
        lemma_cwd_rewrite_no_newline(tail, t, dir);
        lemma_cwd_rewrite_len(tail, t, dir);
        let nl = indent_of(l) + "cwd: "@ + dir;
        assert(!has_char(nl, '\n')) by {
            lemma_trim_start_split(l);
            lemma_has_char_take(l, l.len() - trim_start(l).len(), '\n');
            assert(!has_char("cwd: "@, '\n'));
            lemma_has_char_concat(indent_of(l), "cwd: "@, '\n');
            lemma_has_char_concat(indent_of(l) + "cwd: "@, dir, '\n');
        }
        let rw = cwd_rewrite(ls, in_t, dir);
        assert forall|i: int| 0 <= i < rw.len() implies !has_char(#[trigger] rw[i], '\n') by {
            if i > 0 {
                assert(rw[i] == cwd_rewrite(tail, t, dir)[i - 1]);
            }
        }
    }
}

/// Persisting the agent working directory is seen by the next read: when
/// the config's `terminal:` section has a `cwd:` line, setting the directory
/// writes the config, and reading `terminal.cwd` back gives the directory,
/// trimmed (the directory has no line break).
pub proof fn law_terminal_cwd_round_trip(txt: Seq<char>, dir: Seq<char>)
    requires
        !has_char(dir, '\n'),
        read_index(lines_of(txt), false, "terminal:"@, "cwd:"@) is Some,
    ensures
        terminal_cwd_set(txt, dir) matches Some(out) && yaml_field(out, "terminal"@, "cwd"@) == Some(
            trim(dir),
        ),
{
    reveal_strlit("terminal:");
    reveal_strlit("terminal");
    reveal_strlit("cwd:");
    reveal_strlit("cwd");
    reveal_strlit("cwd: ");
    reveal_strlit(": ");
    let ls = lines_of(txt);
    let r = read_index(ls, false, "terminal:"@, "cwd:"@)->0;
    lemma_cwd_rewrite_prefix(ls, false, dir, r);
    lemma_lines_have_no_newline(txt);
    lemma_cwd_rewrite_no_newline(ls, false, dir);
    let rw = cwd_rewrite(ls, false, dir);
    lemma_lines_unlines(rw);
    let ms = lines_of(unlines(rw));
    assert(colon("terminal"@) == "terminal:"@);
    assert(colon("cwd"@) == "cwd:"@);
    assert("cwd"@ + ": "@ == "cwd: "@);
    assert(indent_of(ls[r]) + "cwd"@ + ": "@ + dir == indent_of(ls[r]) + "cwd: "@ + dir);
    assert forall|i: int| 0 <= i < r implies #[trigger] ms[i] == strip_cr(ls[i]) by {
        assert(rw[i] == ls[i]);
    }
    assert(ms[r] == strip_cr(rw[r]));
    lemma_read_written(ls, ms, false, "terminal:"@, "cwd:"@, "cwd"@, dir, r);
}

} // verus!
