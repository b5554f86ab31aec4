//! Character-level text model: whitespace, trimming, prefixes and lines.
//!
//! Text is handled as sequences of `char`, the view of `str` and `String`.
//! The spec functions here say what the std string methods of the same name
//! return; the executable functions compute them on `Vec<char>`.
use vstd::prelude::*;

verus! {

/// Appends one character to a `String` (std `String::push`).
/// Trusted: the new contents are the old contents followed by `c`.
#[verifier::external_body]
pub(crate) fn push_char(s: &mut String, c: char)
    ensures
        final(s)@ == old(s)@.push(c),
{
    s.push(c);
}

/// Unicode `White_Space`, the set that `char::is_whitespace` and `str::trim` use.
pub open spec fn is_ws(c: char) -> bool {
    let n = c as u32;
    ||| (0x09 <= n && n <= 0x0d)
    ||| n == 0x20
    ||| n == 0x85
    ||| n == 0xa0
    ||| n == 0x1680
    ||| (0x2000 <= n && n <= 0x200a)
    ||| n == 0x2028
    ||| n == 0x2029
    ||| n == 0x202f
    ||| n == 0x205f
    ||| n == 0x3000
}

/// `s` without its leading whitespace (`str::trim_start`).
pub open spec fn trim_start(s: Seq<char>) -> Seq<char>
    decreases s.len(),
{
    if s.len() > 0 && is_ws(s[0]) {
        trim_start(s.drop_first())
    } else {
        s
    }
}

/// `s` without its trailing whitespace (`str::trim_end`).
pub open spec fn trim_end(s: Seq<char>) -> Seq<char>
    decreases s.len(),
{
    if s.len() > 0 && is_ws(s.last()) {
        trim_end(s.drop_last())
    } else {
        s
    }
}

/// `s` without leading and trailing whitespace (`str::trim`).
pub open spec fn trim(s: Seq<char>) -> Seq<char> {
    trim_end(trim_start(s))
}

/// `s` begins with `p` (`str::starts_with`).
pub open spec fn starts_with(s: Seq<char>, p: Seq<char>) -> bool {
    p.len() <= s.len() && s.take(p.len() as int) == p
}

/// `p` occurs somewhere in `s` (`str::contains`).
pub open spec fn contains(s: Seq<char>, p: Seq<char>) -> bool {
    exists|i: int| 0 <= i && i + p.len() <= s.len() && #[trigger] s.subrange(i, i + p.len()) == p
}

/// `c` occurs in `s`.
pub open spec fn has_char(s: Seq<char>, c: char) -> bool {
    exists|i: int| 0 <= i < s.len() && s[i] == c
}

/// Index of the first `'\n'` in `s`, or its length when there is none.
pub open spec fn line_break(s: Seq<char>) -> nat
    decreases s.len(),
{
    if s.len() == 0 {
        0
    } else if s[0] == '\n' {
        0
    } else {
        1 + line_break(s.drop_first())
    }
}

/// Index of the first `c` in `s`, or its length when there is none.
pub open spec fn first_of(s: Seq<char>, c: char) -> nat
    decreases s.len(),
{
    if s.len() == 0 {
        0
    } else if s[0] == c {
        0
    } else {
        1 + first_of(s.drop_first(), c)
    }
}

pub proof fn lemma_first_of(s: Seq<char>, c: char, k: int)
    requires
        0 <= k <= s.len(),
        forall|j: int| 0 <= j < k ==> s[j] != c,
        k == s.len() || s[k] == c,
    ensures
        first_of(s, c) == k,
    decreases k,
{
    if k > 0 {
        lemma_first_of(s.drop_first(), c, k - 1);
    }
}

pub proof fn lemma_first_of_bound(s: Seq<char>, c: char)
    ensures
        first_of(s, c) <= s.len(),
        first_of(s, c) < s.len() ==> s[first_of(s, c) as int] == c,
        forall|j: int| 0 <= j < first_of(s, c) ==> s[j] != c,
    decreases s.len(),
{
    if s.len() > 0 && s[0] != c {
        lemma_first_of_bound(s.drop_first(), c);
        assert forall|j: int| 0 <= j < first_of(s, c) implies s[j] != c by {
            if j > 0 {
                assert(s[j] == s.drop_first()[j - 1]);
            }
        }
    }
}

/// Index of the first `c` in `v`, or its length.
pub fn find_char(v: &Vec<char>, c: char) -> (k: usize)
    ensures
        k == first_of(v@, c),
        k <= v@.len(),
        has_char(v@, c) <==> k < v@.len(),
{
    let mut i: usize = 0;
    while i < v.len()
        invariant
            i <= v@.len(),
            forall|j: int| 0 <= j < i ==> v@[j] != c,
        decreases v@.len() - i,
    {
        if v[i] == c {
            proof {
                lemma_first_of(v@, c, i as int);
            }
            return i;
        }
        i = i + 1;
    }
    proof {
        lemma_first_of(v@, c, i as int);
    }
    i
}

/// A line that was ended by `'\n'` loses one trailing `'\r'`.
pub open spec fn strip_cr(line: Seq<char>) -> Seq<char> {
    if line.len() > 0 && line.last() == '\r' {
        line.drop_last()
    } else {
        line
    }
}

/// The lines of `s` as `str::lines` yields them: split at `'\n'`, a `'\r'`
/// before the `'\n'` dropped, and no empty line after a final `'\n'`.
pub open spec fn lines_of(s: Seq<char>) -> Seq<Seq<char>>
    decreases s.len(),
{
    if s.len() == 0 {
        seq![]
    } else {
        let k = line_break(s);
        if k < s.len() {
            seq![strip_cr(s.take(k as int))] + lines_of(s.skip(k as int + 1))
        } else {
            seq![s]
        }
    }
}

/// The views of a sequence of character vectors.
pub open spec fn views(v: Seq<Vec<char>>) -> Seq<Seq<char>> {
    v.map_values(|l: Vec<char>| l@)
}

/// The text that `lines` joined with `'\n'` after each line makes.
pub open spec fn unlines(lines: Seq<Seq<char>>) -> Seq<char>
    decreases lines.len(),
{
    if lines.len() == 0 {
        seq![]
    } else {
        unlines(lines.drop_last()) + lines.last() + seq!['\n']
    }
}

pub proof fn lemma_line_break(s: Seq<char>, k: int)
    requires
        0 <= k <= s.len(),
        forall|j: int| 0 <= j < k ==> s[j] != '\n',
        k == s.len() || s[k] == '\n',
    ensures
        line_break(s) == k,
    decreases k,
{
    if k > 0 {
        lemma_line_break(s.drop_first(), k - 1);
    }
}

pub proof fn lemma_line_break_bound(s: Seq<char>)
    ensures
        line_break(s) <= s.len(),
        line_break(s) < s.len() ==> s[line_break(s) as int] == '\n',
        forall|j: int| 0 <= j < line_break(s) ==> s[j] != '\n',
    decreases s.len(),
{
    if s.len() > 0 && s[0] != '\n' {
        lemma_line_break_bound(s.drop_first());
        assert forall|j: int| 0 <= j < line_break(s) implies s[j] != '\n' by {
            if j > 0 {
                assert(s[j] == s.drop_first()[j - 1]);
            }
        }
    }
}

/// Adding a line adds it and its `'\n'` to the text.
pub proof fn lemma_unlines_push(lines: Seq<Seq<char>>, l: Seq<char>)
    ensures
        unlines(lines.push(l)) == unlines(lines) + l + seq!['\n'],
{
    assert(lines.push(l).drop_last() == lines);
}

/// No line of `lines_of(s)` holds a `'\n'`.
pub proof fn lemma_lines_have_no_newline(s: Seq<char>)
    ensures
        forall|i: int| 0 <= i < lines_of(s).len() ==> !has_char(#[trigger] lines_of(s)[i], '\n'),
    decreases s.len(),
{
    if s.len() > 0 {
        lemma_line_break_bound(s);
        let k = line_break(s);
        if k < s.len() {
            lemma_lines_have_no_newline(s.skip(k as int + 1));
            let first = strip_cr(s.take(k as int));
            assert(!has_char(first, '\n')) by {
                if has_char(first, '\n') {
                    let j = choose|j: int| 0 <= j < first.len() && first[j] == '\n';
                    assert(s[j] == '\n');
                }
            }
            assert forall|i: int| 0 <= i < lines_of(s).len() implies !has_char(
                #[trigger] lines_of(s)[i],
                '\n',
            ) by {
                if i > 0 {
                    assert(lines_of(s)[i] == lines_of(s.skip(k as int + 1))[i - 1]);
                }
            }
        } else {
            assert forall|i: int| 0 <= i < lines_of(s).len() implies !has_char(
                #[trigger] lines_of(s)[i],
                '\n',
            ) by {
                if has_char(s, '\n') {
                    let j = choose|j: int| 0 <= j < s.len() && s[j] == '\n';
                    assert(s[j] != '\n');
                }
            }
        }
    }
}

/// Lines of a text that ends with `'\n'`, followed by more text.
pub proof fn lemma_lines_append(a: Seq<char>, b: Seq<char>)
    requires
        a.len() == 0 || a.last() == '\n',
    ensures
        lines_of(a + b) == lines_of(a) + lines_of(b),
    decreases a.len(),
{
    if a.len() == 0 {
        assert(a + b == b);
        assert(Seq::<Seq<char>>::empty() + lines_of(b) == lines_of(b));
    } else {
        lemma_line_break_bound(a);
        let k = line_break(a);
        if k == a.len() {
            assert(a[a.len() - 1] != '\n');
        }
        assert(k < a.len());
        assert forall|j: int| 0 <= j < k implies (a + b)[j] != '\n' by {
            assert((a + b)[j] == a[j]);
        }
        lemma_line_break(a + b, k as int);
        assert((a + b).take(k as int) == a.take(k as int));
        assert((a + b).skip(k as int + 1) == a.skip(k as int + 1) + b);
        let a2 = a.skip(k as int + 1);
        if a2.len() > 0 {
            assert(a2.last() == a.last());
        }
        lemma_lines_append(a2, b);
        let first = seq![strip_cr(a.take(k as int))];
        assert(first + (lines_of(a2) + lines_of(b)) == (first + lines_of(a2)) + lines_of(b));
    }
}

/// A single line followed by `'\n'`.
pub proof fn lemma_lines_single(l: Seq<char>)
    requires
        !has_char(l, '\n'),
    ensures
        lines_of(l + seq!['\n']) == seq![strip_cr(l)],
{
    let s = l + seq!['\n'];
    assert forall|j: int| 0 <= j < l.len() implies s[j] != '\n' by {
        assert(s[j] == l[j]);
        if l[j] == '\n' {
            assert(has_char(l, '\n'));
        }
    }
    lemma_line_break(s, l.len() as int);
    assert(s.take(l.len() as int) == l);
    assert(s.skip(l.len() as int + 1).len() == 0);
    assert(lines_of(s.skip(l.len() as int + 1)) == Seq::<Seq<char>>::empty());
    assert(seq![strip_cr(l)] + Seq::<Seq<char>>::empty() == seq![strip_cr(l)]);
}

/// Reading back lines that were joined with `'\n'` gives them without one
/// trailing `'\r'` each.
pub proof fn lemma_lines_unlines(ls: Seq<Seq<char>>)
    requires
        forall|i: int| 0 <= i < ls.len() ==> !has_char(#[trigger] ls[i], '\n'),
    ensures
        lines_of(unlines(ls)) == ls.map_values(|l: Seq<char>| strip_cr(l)),
    decreases ls.len(),
{
    if ls.len() > 0 {
        let init = ls.drop_last();
        assert forall|i: int| 0 <= i < init.len() implies !has_char(#[trigger] init[i], '\n') by {
            assert(init[i] == ls[i]);
        }
        lemma_lines_unlines(init);
        let u = unlines(init);
        lemma_unlines_shape(init);
        assert(!has_char(ls.last(), '\n'));
        assert(u + ls.last() + seq!['\n'] == u + (ls.last() + seq!['\n']));
        lemma_lines_append(u, ls.last() + seq!['\n']);
        lemma_lines_single(ls.last());
        assert(ls.map_values(|l: Seq<char>| strip_cr(l)) == init.map_values(
            |l: Seq<char>| strip_cr(l),
        ) + seq![strip_cr(ls.last())]);
    }
}

pub proof fn lemma_unlines_shape(ls: Seq<Seq<char>>)
    ensures
        unlines(ls).len() == 0 || unlines(ls).last() == '\n',
    decreases ls.len(),
{
    if ls.len() > 0 {
        lemma_unlines_shape(ls.drop_last());
    }
}

/// Dropping a trailing `'\r'` keeps a prefix that ends with a character
/// other than `'\r'`.
pub proof fn lemma_starts_with_strip_cr(l: Seq<char>, p: Seq<char>)
    requires
        p.len() > 0,
        p.last() != '\r',
    ensures
        starts_with(strip_cr(l), p) == starts_with(l, p),
{
    if l.len() > 0 && l.last() == '\r' {
        if starts_with(l, p) {
            if p.len() == l.len() {
                assert(l.take(p.len() as int)[p.len() - 1] == l.last());
            }
            assert(l.drop_last().take(p.len() as int) == l.take(p.len() as int));
        }
        if starts_with(l.drop_last(), p) {
            assert(l.drop_last().take(p.len() as int) == l.take(p.len() as int));
        }
    }
}

/// `trim_end` of a sequence with one more character in front.
pub proof fn lemma_trim_end_cons(c: char, y: Seq<char>)
    ensures
        trim_end(seq![c] + y) == (if trim_end(y).len() == 0 && is_ws(c) {
            Seq::<char>::empty()
        } else {
            seq![c] + trim_end(y)
        }),
    decreases y.len(),
{
    let x = seq![c] + y;
    if y.len() == 0 {
        assert(x == seq![c]);
        assert(trim_end(y) == y);
        assert(seq![c] + y == seq![c]);
        if is_ws(c) {
            assert(x.drop_last().len() == 0);
            assert(trim_end(x) == trim_end(x.drop_last()));
        }
    } else if is_ws(y.last()) {
        assert(x.last() == y.last());
        assert(x.drop_last() == seq![c] + y.drop_last());
        assert(trim_end(x) == trim_end(x.drop_last()));
        assert(trim_end(y) == trim_end(y.drop_last()));
        lemma_trim_end_cons(c, y.drop_last());
    } else {
        assert(x.last() == y.last());
        assert(trim_end(x) == x);
        assert(trim_end(y) == y);
    }
}

/// `trim_start` and `trim_end` can be applied in either order.
pub proof fn lemma_trim_commute(x: Seq<char>)
    ensures
        trim_start(trim_end(x)) == trim_end(trim_start(x)),
    decreases x.len(),
{
    if x.len() > 0 {
        let c = x[0];
        let y = x.drop_first();
        assert(x == seq![c] + y);
        lemma_trim_end_cons(c, y);
        lemma_trim_commute(y);
        if is_ws(c) {
            if trim_end(y).len() == 0 {
                assert(trim_start(trim_end(y)) == trim_end(y));
            } else {
                assert((seq![c] + trim_end(y)).drop_first() == trim_end(y));
            }
        } else {
            assert((seq![c] + trim_end(y))[0] == c);
        }
    }
}

/// `trim_end` of a text whose last character is not whitespace, followed by
/// more text.
pub proof fn lemma_trim_end_append(p: Seq<char>, q: Seq<char>)
    requires
        p.len() > 0,
        !is_ws(p.last()),
    ensures
        trim_end(p + q) == p + trim_end(q),
    decreases q.len(),
{
    if q.len() == 0 {
        assert(p + q == p);
        assert(p + Seq::<char>::empty() == p);
    } else if is_ws(q.last()) {
        assert((p + q).last() == q.last());
        assert((p + q).drop_last() == p + q.drop_last());
        lemma_trim_end_append(p, q.drop_last());
    } else {
        assert((p + q).last() == q.last());
    }
}

/// `trim_start` of a text whose first character is not whitespace.
pub proof fn lemma_trim_start_plain(p: Seq<char>)
    requires
        p.len() > 0,
        !is_ws(p[0]),
    ensures
        trim_start(p) == p,
{
}

/// `trim` of a text that starts with whitespace.
pub proof fn lemma_trim_ws_cons(c: char, y: Seq<char>)
    requires
        is_ws(c),
    ensures
        trim(seq![c] + y) == trim(y),
{
    assert((seq![c] + y).drop_first() == y);
}

/// `trim` ignores a trailing whitespace character.
pub proof fn lemma_trim_ws_snoc(y: Seq<char>, c: char)
    requires
        is_ws(c),
    ensures
        trim(y.push(c)) == trim(y),
{
    lemma_trim_commute(y.push(c));
    lemma_trim_commute(y);
    assert(y.push(c).drop_last() == y);
}

/// `trim` of whitespace followed by more text.
pub proof fn lemma_trim_ws_prefix(w: Seq<char>, y: Seq<char>)
    requires
        forall|i: int| 0 <= i < w.len() ==> is_ws(w[i]),
    ensures
        trim(w + y) == trim(y),
        trim_start(w + y) == trim_start(y),
    decreases w.len(),
{
    if w.len() > 0 {
        assert((w + y).drop_first() == w.drop_first() + y);
        lemma_trim_ws_prefix(w.drop_first(), y);
    } else {
        assert(w + y == y);
    }
}

/// `trim_end` leaves nothing more to trim.
pub proof fn lemma_trim_end_idem(x: Seq<char>)
    ensures
        trim_end(trim_end(x)) == trim_end(x),
        trim_end(x).len() == 0 || !is_ws(trim_end(x).last()),
    decreases x.len(),
{
    if x.len() > 0 && is_ws(x.last()) {
        lemma_trim_end_idem(x.drop_last());
    }
}

/// `trim` of `trim_end` is `trim`.
pub proof fn lemma_trim_of_trim_end(x: Seq<char>)
    ensures
        trim(trim_end(x)) == trim(x),
{
    lemma_trim_commute(trim_end(x));
    lemma_trim_commute(x);
    lemma_trim_end_idem(trim_start(x));
    lemma_trim_end_idem(x);
    lemma_trim_commute(trim_end(x));
    assert(trim_start(trim_end(trim_end(x))) == trim_start(trim_end(x)));
}

/// Ending an unterminated text with `'\n'` only drops a `'\r'` from its last line.
pub proof fn lemma_lines_snoc_newline(s: Seq<char>)
    requires
        s.len() > 0,
        s.last() != '\n',
    ensures
        lines_of(s.push('\n')).len() == lines_of(s).len(),
        lines_of(s).len() > 0,
        forall|i: int| 0 <= i < lines_of(s).len() - 1 ==> lines_of(s.push('\n'))[i] == lines_of(s)[i],
        lines_of(s.push('\n')).last() == strip_cr(lines_of(s).last()),
    decreases s.len(),
{
    let t = s.push('\n');
    lemma_line_break_bound(s);
    let k = line_break(s);
    assert forall|j: int| 0 <= j < k implies t[j] != '\n' by {
        assert(t[j] == s[j]);
    }
    if k < s.len() {
        lemma_line_break(t, k as int);
        assert(t.take(k as int) == s.take(k as int));
        let r = s.skip(k as int + 1);
        assert(t.skip(k as int + 1) == r.push('\n'));
        if r.len() == 0 {
            assert(s[s.len() - 1] == '\n');
        }
        assert(r.last() == s.last());
        lemma_lines_snoc_newline(r);
        assert forall|i: int| 0 <= i < lines_of(s).len() - 1 implies lines_of(t)[i] == lines_of(s)[i] by {
            if i > 0 {
                assert(lines_of(t)[i] == lines_of(r.push('\n'))[i - 1]);
                assert(lines_of(s)[i] == lines_of(r)[i - 1]);
            }
        }
    } else {
        lemma_line_break(t, s.len() as int);
        assert(t.take(s.len() as int) == s);
        assert(t.skip(s.len() as int + 1).len() == 0);
        assert(lines_of(t.skip(s.len() as int + 1)) == Seq::<Seq<char>>::empty());
    }
}

/// `trim` ignores a dropped `'\r'`.
pub proof fn lemma_trim_strip_cr(l: Seq<char>)
    ensures
        trim(strip_cr(l)) == trim(l),
{
    if l.len() > 0 && l.last() == '\r' {
        assert(l == l.drop_last().push('\r'));
        lemma_trim_ws_snoc(l.drop_last(), '\r');
    }
}

/// `trim` of a text whose first and last characters of `p` are not
/// whitespace, followed by more: `p` then the rest with its end trimmed.
pub proof fn lemma_trim_plain_prefix(p: Seq<char>, q: Seq<char>)
    requires
        p.len() > 0,
        !is_ws(p[0]),
        !is_ws(p.last()),
    ensures
        trim(p + q) == p + trim_end(q),
        trim(trim(p + q).skip(p.len() as int)) == trim(q),
{
    assert((p + q)[0] == p[0]);
    lemma_trim_start_plain(p + q);
    lemma_trim_end_append(p, q);
    assert((p + trim_end(q)).skip(p.len() as int) == trim_end(q));
    lemma_trim_of_trim_end(q);
}

/// `trim_start` of a text with one more character at the end.
pub proof fn lemma_trim_start_snoc(m: Seq<char>, c: char)
    ensures
        trim_start(m.push(c)) == (if trim_start(m).len() == 0 && is_ws(c) {
            Seq::<char>::empty()
        } else {
            trim_start(m).push(c)
        }),
    decreases m.len(),
{
    let x = m.push(c);
    if m.len() == 0 {
        assert(x == seq![c]);
        assert(trim_start(m) == m);
        assert(m.push(c) == seq![c]);
        if is_ws(c) {
            assert(x.drop_first().len() == 0);
            assert(trim_start(x) == trim_start(x.drop_first()));
        } else {
            assert(trim_start(x) == x);
        }
    } else if is_ws(m[0]) {
        assert(x[0] == m[0]);
        assert(x.drop_first() == m.drop_first().push(c));
        assert(trim_start(x) == trim_start(x.drop_first()));
        assert(trim_start(m) == trim_start(m.drop_first()));
        lemma_trim_start_snoc(m.drop_first(), c);
    } else {
        assert(x[0] == m[0]);
        assert(trim_start(x) == x);
        assert(trim_start(m) == m);
    }
}

/// A line is its leading whitespace followed by the rest.
pub proof fn lemma_trim_start_split(l: Seq<char>)
    ensures
        trim_start(l).len() <= l.len(),
        l == l.take(l.len() - trim_start(l).len()) + trim_start(l),
        forall|i: int| 0 <= i < l.len() - trim_start(l).len() ==> is_ws(l[i]),
        trim_start(l).len() == 0 || !is_ws(trim_start(l)[0]),
    decreases l.len(),
{
    if l.len() > 0 && is_ws(l[0]) {
        let r = l.drop_first();
        lemma_trim_start_split(r);
        assert forall|i: int| 0 <= i < l.len() - trim_start(l).len() implies is_ws(l[i]) by {
            if i > 0 {
                assert(l[i] == r[i - 1]);
            }
        }
        let k = r.len() - trim_start(r).len();
        assert(trim_start(l) == trim_start(r));
        assert(l.take(l.len() - trim_start(l).len()) == seq![l[0]] + r.take(k));
        assert(seq![l[0]] + r == l);
        assert((seq![l[0]] + r.take(k)) + trim_start(r) == seq![l[0]] + (r.take(k) + trim_start(r)));
    } else {
        assert(trim_start(l) == l);
        assert(l.take(0) + l == l);
    }
}

/// A character missing from two texts is missing from their concatenation.
pub proof fn lemma_has_char_concat(a: Seq<char>, b: Seq<char>, c: char)
    ensures
        has_char(a + b, c) == (has_char(a, c) || has_char(b, c)),
{
    if has_char(a + b, c) {
        let j = choose|j: int| 0 <= j < (a + b).len() && (a + b)[j] == c;
        if j < a.len() {
            assert(a[j] == c);
        } else {
            assert(b[j - a.len()] == c);
        }
    }
    if has_char(a, c) {
        let j = choose|j: int| 0 <= j < a.len() && a[j] == c;
        assert((a + b)[j] == c);
    }
    if has_char(b, c) {
        let j = choose|j: int| 0 <= j < b.len() && b[j] == c;
        assert((a + b)[a.len() + j] == c);
    }
}

/// A character missing from a text is missing from its prefixes.
pub proof fn lemma_has_char_take(a: Seq<char>, n: int, c: char)
    requires
        0 <= n <= a.len(),
        !has_char(a, c),
    ensures
        !has_char(a.take(n), c),
{
    if has_char(a.take(n), c) {
        let j = choose|j: int| 0 <= j < a.take(n).len() && a.take(n)[j] == c;
        assert(a[j] == c);
    }
}

/// Whether `c` is Unicode whitespace (`char::is_whitespace`).
pub fn is_whitespace(c: char) -> (b: bool)
    ensures
        b == is_ws(c),
{
    let n = c as u32;
    (0x09 <= n && n <= 0x0d) || n == 0x20 || n == 0x85 || n == 0xa0 || n == 0x1680 || (0x2000
        <= n && n <= 0x200a) || n == 0x2028 || n == 0x2029 || n == 0x202f || n == 0x205f || n
        == 0x3000
}

/// The characters of `s`, in order.
pub fn chars_of(s: &str) -> (v: Vec<char>)
    ensures
        v@ == s@,
{
    let mut v: Vec<char> = Vec::new();
    for c in it: s.chars()
        invariant
            v@ == it.seq().take(it.index() as int),
            it.seq() == s@,
    {
        v.push(c);
    }
    v
}

/// A `String` holding `v[from..to]`.
pub fn string_of_range(v: &Vec<char>, from: usize, to: usize) -> (s: String)
    requires
        from <= to <= v@.len(),
    ensures
        s@ == v@.subrange(from as int, to as int),
{
    let mut s = String::new();
    let mut i = from;
    while i < to
        invariant
            from <= i <= to <= v@.len(),
            s@ == v@.subrange(from as int, i as int),
        decreases to - i,
    {
        push_char(&mut s, v[i]);
        i = i + 1;
        assert(s@ == v@.subrange(from as int, i as int));
    }
    s
}

/// A `String` holding `v`.
pub fn string_of(v: &Vec<char>) -> (s: String)
    ensures
        s@ == v@,
{
    let s = string_of_range(v, 0, v.len());
    assert(v@.subrange(0, v@.len() as int) == v@);
    s
}

/// Appends `v[from..to]` to `out`.
pub fn push_range(out: &mut String, v: &Vec<char>, from: usize, to: usize)
    requires
        from <= to <= v@.len(),
    ensures
        final(out)@ == old(out)@ + v@.subrange(from as int, to as int),
{
    let ghost start = out@;
    let mut i = from;
    while i < to
        invariant
            from <= i <= to <= v@.len(),
            out@ == start + v@.subrange(from as int, i as int),
        decreases to - i,
    {
        push_char(out, v[i]);
        i = i + 1;
        assert(out@ == start + v@.subrange(from as int, i as int));
    }
}

/// Appends all of `v` to `out`.
pub fn push_all(out: &mut String, v: &Vec<char>)
    ensures
        final(out)@ == old(out)@ + v@,
{
    push_range(out, v, 0, v.len());
    assert(v@.subrange(0, v@.len() as int) == v@);
}

/// Number of leading whitespace characters of `v`.
pub fn trim_start_len(v: &Vec<char>) -> (k: usize)
    ensures
        k <= v@.len(),
        trim_start(v@) == v@.skip(k as int),
{
    let mut i: usize = 0;
    assert(v@.skip(0) == v@);
    while i < v.len() && is_whitespace(v[i])
        invariant
            i <= v@.len(),
            trim_start(v@) == trim_start(v@.skip(i as int)),
        decreases v@.len() - i,
    {
        assert(v@.skip(i as int).drop_first() == v@.skip(i + 1));
        i = i + 1;
    }
    i
}

/// Length of `v[from..]` once its trailing whitespace is dropped, counted from 0.
pub fn trim_end_index(v: &Vec<char>, from: usize) -> (k: usize)
    requires
        from <= v@.len(),
    ensures
        from <= k <= v@.len(),
        trim_end(v@.skip(from as int)) == v@.subrange(from as int, k as int),
{
    let mut j: usize = v.len();
    assert(v@.skip(from as int) == v@.subrange(from as int, j as int));
    while j > from && is_whitespace(v[j - 1])
        invariant
            from <= j <= v@.len(),
            trim_end(v@.skip(from as int)) == trim_end(v@.subrange(from as int, j as int)),
        decreases j,
    {
        assert(v@.subrange(from as int, j as int).drop_last() == v@.subrange(
            from as int,
            j - 1,
        ));
        j = j - 1;
    }
    j
}

/// `trim(v)` as a `[start, end)` range of `v`.
pub fn trim_range(v: &Vec<char>) -> (r: (usize, usize))
    ensures
        r.0 <= r.1 <= v@.len(),
        trim(v@) == v@.subrange(r.0 as int, r.1 as int),
{
    let a = trim_start_len(v);
    let b = trim_end_index(v, a);
    (a, b)
}

/// `trim(v)` as a new vector.
pub fn trimmed(v: &Vec<char>) -> (t: Vec<char>)
    ensures
        t@ == trim(v@),
{
    let (a, b) = trim_range(v);
    slice_range(v, a, b)
}

/// `trim_start(v)` as a new vector.
pub fn trimmed_start(v: &Vec<char>) -> (t: Vec<char>)
    ensures
        t@ == trim_start(v@),
{
    let a = trim_start_len(v);
    let t = slice_range(v, a, v.len());
    assert(v@.skip(a as int) == v@.subrange(a as int, v@.len() as int));
    t
}

/// `trim_end(v)` as a new vector.
pub fn trimmed_end(v: &Vec<char>) -> (t: Vec<char>)
    ensures
        t@ == trim_end(v@),
{
    let b = trim_end_index(v, 0);
    assert(v@.skip(0) == v@);
    slice_range(v, 0, b)
}

/// `v[from..to]` as a new vector.
pub fn slice_range(v: &Vec<char>, from: usize, to: usize) -> (t: Vec<char>)
    requires
        from <= to <= v@.len(),
    ensures
        t@ == v@.subrange(from as int, to as int),
{
    let mut t: Vec<char> = Vec::new();
    let mut i = from;
    while i < to
        invariant
            from <= i <= to <= v@.len(),
            t@ == v@.subrange(from as int, i as int),
        decreases to - i,
    {
        t.push(v[i]);
        i = i + 1;
        assert(t@ == v@.subrange(from as int, i as int));
    }
    t
}

/// `v[from..]` as a new vector.
pub fn skip_from(v: &Vec<char>, from: usize) -> (t: Vec<char>)
    requires
        from <= v@.len(),
    ensures
        t@ == v@.skip(from as int),
{
    let t = slice_range(v, from, v.len());
    assert(v@.skip(from as int) == v@.subrange(from as int, v@.len() as int));
    t
}

/// Whether `v` begins with `p`.
pub fn has_prefix(v: &Vec<char>, p: &Vec<char>) -> (b: bool)
    ensures
        b == starts_with(v@, p@),
{
    if p.len() > v.len() {
        return false;
    }
    let mut i: usize = 0;
    while i < p.len()
        invariant
            i <= p@.len() <= v@.len(),
            forall|j: int| 0 <= j < i ==> v@[j] == p@[j],
        decreases p@.len() - i,
    {
        if v[i] != p[i] {
            assert(v@.take(p@.len() as int)[i as int] != p@[i as int]);
            return false;
        }
        i = i + 1;
    }
    assert(v@.take(p@.len() as int) == p@);
    true
}

/// Whether `v` begins with the characters of the literal `p`.
pub fn has_prefix_str(v: &Vec<char>, p: &str) -> (b: bool)
    ensures
        b == starts_with(v@, p@),
{
    let pv = chars_of(p);
    has_prefix(v, &pv)
}


/// Whether `p` occurs in `v`.
pub fn has_infix(v: &Vec<char>, p: &Vec<char>) -> (b: bool)
    ensures
        b == contains(v@, p@),
{
    if p.len() > v.len() {
        assert forall|i: int| 0 <= i && i + p@.len() <= v@.len() implies #[trigger] v@.subrange(
            i,
            i + p@.len(),
        ) != p@ by {}
        return false;
    }
    if p.len() == 0 {
        assert(v@.subrange(0, 0 + p@.len() as int) == p@);
        return true;
    }
    let last = v.len() - p.len();
    let mut i: usize = 0;
    while i <= last
        invariant
            0 < p@.len() <= v@.len() <= usize::MAX,
            last + p@.len() == v@.len(),
            i <= last + 1,
            forall|k: int| 0 <= k < i ==> #[trigger] v@.subrange(k, k + p@.len()) != p@,
        decreases last + 1 - i,
    {
        let mut j: usize = 0;
        let mut ok = true;
        while j < p.len()
            invariant
                i + p@.len() <= v@.len() <= usize::MAX,
                j <= p@.len(),
                ok == (forall|m: int| 0 <= m < j ==> v@[i + m] == p@[m]),
            decreases p@.len() - j,
        {
            if v[i + j] != p[j] {
                ok = false;
            }
            j = j + 1;
        }
        if ok {
            assert(v@.subrange(i as int, i + p@.len()) == p@);
            return true;
        } else {
            assert(v@.subrange(i as int, i + p@.len()) != p@) by {
                let m = choose|m: int| 0 <= m < p@.len() && v@[i + m] != p@[m];
                assert(v@.subrange(i as int, i + p@.len())[m] != p@[m]);
            }
        }
        i = i + 1;
    }
    false
}

/// Whether the literal `p` occurs in `v`.
pub fn has_infix_str(v: &Vec<char>, p: &str) -> (b: bool)
    ensures
        b == contains(v@, p@),
{
    let pv = chars_of(p);
    has_infix(v, &pv)
}

/// Whether `c` occurs in `v`.
pub fn has_char_exec(v: &Vec<char>, c: char) -> (b: bool)
    ensures
        b == has_char(v@, c),
{
    let mut i: usize = 0;
    while i < v.len()
        invariant
            i <= v@.len(),
            forall|j: int| 0 <= j < i ==> v@[j] != c,
        decreases v@.len() - i,
    {
        if v[i] == c {
            return true;
        }
        i = i + 1;
    }
    false
}

/// Whether two character vectors are equal.
pub fn chars_eq(a: &Vec<char>, b: &Vec<char>) -> (r: bool)
    ensures
        r == (a@ == b@),
{
    if a.len() != b.len() {
        return false;
    }
    let mut i: usize = 0;
    while i < a.len()
        invariant
            i <= a@.len() == b@.len(),
            forall|j: int| 0 <= j < i ==> a@[j] == b@[j],
        decreases a@.len() - i,
    {
        if a[i] != b[i] {
            return false;
        }
        i = i + 1;
    }
    assert(a@ == b@);
    true
}

/// Whether `a` holds exactly the characters of the literal `s`.
pub fn chars_eq_str(a: &Vec<char>, s: &str) -> (r: bool)
    ensures
        r == (a@ == s@),
{
    let b = chars_of(s);
    chars_eq(a, &b)
}

/// Appends `l` and a `'\n'` to `out`.
pub fn push_line(out: &mut String, l: &Vec<char>)
    ensures
        final(out)@ == old(out)@ + l@ + seq!['\n'],
{
    push_all(out, l);
    push_char(out, '\n');
}

/// The lines of `ls`, each followed by `'\n'`.
pub fn join_lines(ls: &Vec<Vec<char>>) -> (s: String)
    ensures
        s@ == unlines(views(ls@)),
{
    let mut s = String::new();
    let mut i: usize = 0;
    while i < ls.len()
        invariant
            i <= ls@.len(),
            s@ == unlines(views(ls@).take(i as int)),
        decreases ls@.len() - i,
    {
        proof {
            lemma_unlines_push(views(ls@).take(i as int), ls@[i as int]@);
            assert(views(ls@).take(i as int).push(ls@[i as int]@) == views(ls@).take(i + 1));
        }
        push_line(&mut s, &ls[i]);
        i = i + 1;
    }
    assert(views(ls@).take(ls@.len() as int) == views(ls@));
    s
}

/// The lines of `s`, as `str::lines` yields them.
pub fn lines(s: &Vec<char>) -> (ls: Vec<Vec<char>>)
    ensures
        views(ls@) == lines_of(s@),
{
    let mut ls: Vec<Vec<char>> = Vec::new();
    let mut cur: Vec<char> = Vec::new();
    let mut start: usize = 0;
    let mut i: usize = 0;
    assert(s@.skip(0) == s@);
    assert(views(ls@) + lines_of(s@) == lines_of(s@));
    while i < s.len()
        invariant
            start <= i <= s@.len(),
            cur@ == s@.subrange(start as int, i as int),
            forall|j: int| start <= j < i ==> s@[j] != '\n',
            lines_of(s@) == views(ls@) + lines_of(s@.skip(start as int)),
        decreases s@.len() - i,
    {
        let c = s[i];
        if c == '\n' {
            let ghost rest = s@.skip(start as int);
            proof {
                lemma_line_break(rest, i - start);
                assert(rest.take(i - start) == cur@);
                assert(rest.skip(i - start + 1) == s@.skip(i + 1));
            }
            let mut line = cur;
            if line.len() > 0 && line[line.len() - 1] == '\r' {
                line.pop();
            }
            proof {
                assert(line@ == strip_cr(rest.take(i - start)));
                assert(views(ls@.push(line)) == views(ls@).push(line@));
            }
            ls.push(line);
            cur = Vec::new();
            start = i + 1;
            assert(cur@ == s@.subrange(start as int, (i + 1) as int));
        } else {
            cur.push(c);
        }
        i = i + 1;
        assert(cur@ == s@.subrange(start as int, i as int));
    }
    if start < s.len() {
        let ghost rest = s@.skip(start as int);
        proof {
            lemma_line_break(rest, rest.len() as int);
            assert(rest == cur@);
            assert(views(ls@.push(cur)) == views(ls@).push(cur@));
        }
        ls.push(cur);
    } else {
        assert(s@.skip(start as int).len() == 0);
        assert(views(ls@) + Seq::<Seq<char>>::empty() == views(ls@));
    }
    ls
}

} // verus!
