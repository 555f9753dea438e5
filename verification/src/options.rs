//! Reading `@fastcopy-*` options from the output of `show-options -g`.

use crate::matching::pair_views;
use crate::text::{chars_of, is_white, is_whitespace, string_from_chars, sub_chars};
use vstd::prelude::*;

verus! {

/// The index of the first `c` in `s`.
pub open spec fn first_index_of(s: Seq<char>, c: char) -> Option<int>
    decreases s.len(),
{
    if s.len() == 0 {
        None
    } else if s[0] == c {
        Some(0)
    } else {
        match first_index_of(s.drop_first(), c) {
            Some(i) => Some(i + 1),
            None => None,
        }
    }
}

/// The first index of a character, when there is one, lies in the text and holds it.
pub proof fn lemma_first_index_in_bounds(s: Seq<char>, c: char)
    ensures
        first_index_of(s, c) matches Some(i) ==> 0 <= i < s.len() && s[i] == c,
    decreases s.len(),
{
    if s.len() > 0 {
        lemma_first_index_in_bounds(s.drop_first(), c);
    }
}

/// A line without the `'\r'` of a `"\r\n"` ending.
pub open spec fn strip_cr(line: Seq<char>) -> Seq<char> {
    if line.len() > 0 && line.last() == '\r' {
        line.drop_last()
    } else {
        line
    }
}

/// The lines of a text as `str::lines` gives them: split at `'\n'`, a `'\r'` before it removed,
/// no empty line after a final `'\n'`.
pub open spec fn lines_of(s: Seq<char>) -> Seq<Seq<char>>
    decreases s.len(),
{
    if s.len() == 0 {
        seq![]
    } else {
        proof {
            lemma_first_index_in_bounds(s, '\n');
        }
        match first_index_of(s, '\n') {
            None => seq![s],
            Some(i) => seq![strip_cr(s.take(i))] + lines_of(s.skip(i + 1)),
        }
    }
}

/// The text without leading whitespace.
pub open spec fn trim_start(s: Seq<char>) -> Seq<char>
    decreases s.len(),
{
    if s.len() > 0 && is_white(s[0]) {
        trim_start(s.drop_first())
    } else {
        s
    }
}

/// The text without trailing whitespace.
pub open spec fn trim_end(s: Seq<char>) -> Seq<char>
    decreases s.len(),
{
    if s.len() > 0 && is_white(s.last()) {
        trim_end(s.drop_last())
    } else {
        s
    }
}

/// The text without leading and trailing whitespace.
pub open spec fn trim(s: Seq<char>) -> Seq<char> {
    trim_end(trim_start(s))
}

/// Single and double quotes swapped.
pub open spec fn invert_char(c: char) -> char {
    if c == '\'' {
        '"'
    } else if c == '"' {
        '\''
    } else {
        c
    }
}

/// Single and double quotes swapped throughout.
pub open spec fn invert_quotes_spec(s: Seq<char>) -> Seq<char> {
    s.map_values(|c: char| invert_char(c))
}

/// What a backslash followed by `c` stands for: `\\`, `\"`, `\n`, `\t` and `\r` are undone,
/// any other escape is kept as written.
pub open spec fn unescaped_pair(c: char) -> Seq<char> {
    if c == '\\' {
        seq!['\\']
    } else if c == '"' {
        seq!['"']
    } else if c == 'n' {
        seq!['\n']
    } else if c == 't' {
        seq!['\t']
    } else if c == 'r' {
        seq!['\r']
    } else {
        seq!['\\', c]
    }
}

/// The body of a double-quoted literal with its escapes undone; a final lone backslash stays.
pub open spec fn unescape(s: Seq<char>) -> Seq<char>
    decreases s.len(),
{
    if s.len() == 0 {
        seq![]
    } else if s[0] != '\\' {
        seq![s[0]] + unescape(s.drop_first())
    } else if s.len() == 1 {
        seq!['\\']
    } else {
        unescaped_pair(s[1]) + unescape(s.skip(2))
    }
}

/// A double-quoted literal with the quotes removed and its escapes undone; anything else as is.
pub open spec fn unquote_double_spec(v: Seq<char>) -> Seq<char> {
    if v.len() >= 2 && v[0] == '"' && v.last() == '"' {
        unescape(v.subrange(1, v.len() - 1))
    } else {
        v
    }
}

/// A value as `show-options` prints it, unquoted: single-quoted values are read as
/// double-quoted ones with the quotes swapped; double-quoted values and values without any
/// double quote have their escapes undone; other values stay as printed.
pub open spec fn unquote_option_spec(v: Seq<char>) -> Seq<char> {
    if v.len() == 0 {
        seq![]
    } else if v[0] == '\'' && v.last() == '\'' {
        invert_quotes_spec(unquote_double_spec(invert_quotes_spec(v)))
    } else if v[0] == '"' && v.last() == '"' {
        unquote_double_spec(v)
    } else if !v.contains('"') {
        unquote_double_spec(seq!['"'] + v + seq!['"'])
    } else {
        v
    }
}

/// A line of `show-options` as a (name, value) pair: the name up to the first space, trimmed,
/// and the rest, less leading whitespace, unquoted; no pair for a line with an empty name.
pub open spec fn parse_option_line(line: Seq<char>) -> Option<(Seq<char>, Seq<char>)> {
    let (name, value) = match first_index_of(line, ' ') {
        Some(i) => (trim(line.take(i)), trim_start(line.skip(i + 1))),
        None => (trim(line), Seq::<char>::empty()),
    };
    if name.len() == 0 {
        None
    } else {
        Some((name, unquote_option_spec(value)))
    }
}

/// The pairs of all lines, in order.
pub open spec fn parse_option_lines(lines: Seq<Seq<char>>) -> Seq<(Seq<char>, Seq<char>)>
    decreases lines.len(),
{
    if lines.len() == 0 {
        seq![]
    } else {
        let rest = parse_option_lines(lines.drop_last());
        match parse_option_line(lines.last()) {
            Some(p) => rest.push(p),
            None => rest,
        }
    }
}


proof fn lemma_first_index_found(t: Seq<char>, c: char, j: int)
    requires
        0 <= j < t.len(),
        t[j] == c,
        forall|k: int| 0 <= k < j ==> t[k] != c,
    ensures
        first_index_of(t, c) == Some(j),
    decreases j,
{
    if j > 0 {
        lemma_first_index_found(t.drop_first(), c, j - 1);
    }
}

proof fn lemma_first_index_absent(t: Seq<char>, c: char)
    requires
        forall|k: int| 0 <= k < t.len() ==> t[k] != c,
    ensures
        first_index_of(t, c) is None,
    decreases t.len(),
{
    if t.len() > 0 {
        lemma_first_index_absent(t.drop_first(), c);
    }
}

/// The index of the first `c` in `v`.
pub(crate) fn find_char(v: &[char], c: char) -> (res: Option<usize>)
    ensures
        res matches Some(i) ==> first_index_of(v@, c) == Some(i as int),
        res is None ==> first_index_of(v@, c) is None,
{
    for i in 0..v.len()
        invariant
            forall|k: int| 0 <= k < i ==> v@[k] != c,
    {
        if v[i] == c {
            proof {
                lemma_first_index_found(v@, c, i as int);
            }
            return Some(i);
        }
    }
    proof {
        lemma_first_index_absent(v@, c);
    }
    None
}

proof fn lemma_trim_start_at(s: Seq<char>, k: int)
    requires
        0 <= k <= s.len(),
        forall|q: int| 0 <= q < k ==> is_white(#[trigger] s[q]),
        k < s.len() ==> !is_white(s[k]),
    ensures
        trim_start(s) == s.skip(k),
    decreases k,
{
    if k == 0 {
        assert(s.skip(0) =~= s);
    } else {
        let t = s.drop_first();
        assert forall|q: int| 0 <= q < k - 1 implies is_white(#[trigger] t[q]) by {
            assert(t[q] == s[q + 1]);
        }
        lemma_trim_start_at(t, k - 1);
        assert(t.skip(k - 1) =~= s.skip(k));
    }
}

proof fn lemma_trim_end_at(s: Seq<char>, k: int)
    requires
        0 <= k <= s.len(),
        forall|q: int| k <= q < s.len() ==> is_white(#[trigger] s[q]),
        k > 0 ==> !is_white(s[k - 1]),
    ensures
        trim_end(s) == s.take(k),
    decreases s.len() - k,
{
    if k == s.len() {
        assert(s.take(k) =~= s);
    } else {
        let t = s.drop_last();
        assert forall|q: int| k <= q < t.len() implies is_white(#[trigger] t[q]) by {
            assert(t[q] == s[q]);
        }
        lemma_trim_end_at(t, k);
        assert(t.take(k) =~= s.take(k));
    }
}

/// The characters without leading whitespace.
fn trim_start_chars(v: &[char]) -> (res: Vec<char>)
    ensures
        res@ == trim_start(v@),
{
    let mut k: usize = 0;
    while k < v.len() && is_whitespace(v[k])
        invariant
            k <= v.len(),
            forall|q: int| 0 <= q < k ==> is_white(#[trigger] v@[q]),
        decreases v.len() - k,
    {
        k = k + 1;
    }
    proof {
        lemma_trim_start_at(v@, k as int);
        assert(v@.skip(k as int) =~= v@.subrange(k as int, v.len() as int));
    }
    sub_chars(v, k, v.len())
}

/// The characters without leading and trailing whitespace.
fn trim_chars(v: &[char]) -> (res: Vec<char>)
    ensures
        res@ == trim(v@),
{
    let front = trim_start_chars(v);
    let mut k: usize = front.len();
    while k > 0 && is_whitespace(front[k - 1])
        invariant
            k <= front.len(),
            forall|q: int| k <= q < front.len() ==> is_white(#[trigger] front@[q]),
        decreases k,
    {
        k = k - 1;
    }
    proof {
        lemma_trim_end_at(front@, k as int);
        assert(front@.take(k as int) =~= front@.subrange(0, k as int));
    }
    sub_chars(front.as_slice(), 0, k)
}

/// Single and double quotes swapped.
pub fn invert_quotes(value: &[char]) -> (res: Vec<char>)
    ensures
        res@ == invert_quotes_spec(value@),
{
    let mut out: Vec<char> = Vec::new();
    for i in 0..value.len()
        invariant
            out@ == invert_quotes_spec(value@.take(i as int)),
    {
        let c = value[i];
        let d = if c == '\'' {
            '"'
        } else if c == '"' {
            '\''
        } else {
            c
        };
        out.push(d);
        assert(invert_quotes_spec(value@.take(i + 1)) =~= invert_quotes_spec(
            value@.take(i as int),
        ).push(invert_char(c)));
    }
    assert(value@.take(value.len() as int) =~= value@);
    out
}

proof fn lemma_unescape_step(t: Seq<char>, p: int)
    requires
        0 <= p < t.len(),
    ensures
        t[p] != '\\' ==> unescape(t.skip(p)) == seq![t[p]] + unescape(t.skip(p + 1)),
        t[p] == '\\' && p == t.len() - 1 ==> unescape(t.skip(p)) == seq!['\\'] && unescape(
            t.skip(p + 1),
        ) == Seq::<char>::empty(),
        t[p] == '\\' && p < t.len() - 1 ==> unescape(t.skip(p)) == unescaped_pair(t[p + 1])
            + unescape(t.skip(p + 2)),
{
    let u = t.skip(p);
    assert(u[0] == t[p]);
    assert(u.drop_first() =~= t.skip(p + 1));
    if p < t.len() - 1 {
        assert(u[1] == t[p + 1]);
        assert(u.skip(2) =~= t.skip(p + 2));
    } else {
        assert(t.skip(p + 1) =~= Seq::<char>::empty());
    }
}

/// A double-quoted literal with the quotes removed and its escapes undone; anything else as is.
pub fn unquote_double(value: &[char]) -> (res: Vec<char>)
    ensures
        res@ == unquote_double_spec(value@),
{
    let n = value.len();
    if !(n >= 2 && value[0] == '"' && value[n - 1] == '"') {
        return sub_chars(value, 0, n);
    }
    let ghost inner = value@.subrange(1, n - 1);
    let mut out: Vec<char> = Vec::new();
    let mut i: usize = 1;
    assert(inner.skip(0) =~= inner);
    while i < n - 1
        invariant
            n == value.len(),
            n >= 2,
            1 <= i <= n,
            inner == value@.subrange(1, n - 1),
            i <= n - 1 ==> unescape(inner) == out@ + unescape(inner.skip(i - 1)),
            i > n - 1 ==> unescape(inner) == out@,
        decreases n - i,
    {
        let c = value[i];
        proof {
            assert(inner[i - 1] == c);
            lemma_unescape_step(inner, i - 1);
        }
        if c != '\\' {
            out.push(c);
            i = i + 1;
        } else if i + 1 >= n - 1 {
            out.push('\\');
            i = i + 1;
            proof {
                assert(inner.skip(i - 1) =~= Seq::<char>::empty());
            }
        } else {
            let d = value[i + 1];
            assert(inner[i as int] == d);
            if d == '\\' {
                out.push('\\');
            } else if d == '"' {
                out.push('"');
            } else if d == 'n' {
                out.push('\n');
            } else if d == 't' {
                out.push('\t');
            } else if d == 'r' {
                out.push('\r');
            } else {
                out.push('\\');
                out.push(d);
            }
            i = i + 2;
        }
    }
    proof {
        if i == n - 1 {
            assert(inner.skip(i - 1) =~= Seq::<char>::empty());
        }
    }
    assert(out@ =~= unescape(inner));
    out
}

/// Whether `c` occurs in `v`.
fn contains_char(v: &[char], c: char) -> (res: bool)
    ensures
        res == v@.contains(c),
{
    for i in 0..v.len()
        invariant
            forall|k: int| 0 <= k < i ==> v@[k] != c,
    {
        if v[i] == c {
            assert(v@[i as int] == c);
            return true;
        }
    }
    false
}

/// Unquotes a single option value as `show-options -g` prints it.
fn unquote_option(value: &[char]) -> (res: Vec<char>)
    ensures
        res@ == unquote_option_spec(value@),
{
    let n = value.len();
    if n == 0 {
        return Vec::new();
    }
    if value[0] == '\'' && value[n - 1] == '\'' {
        let inverted = invert_quotes(value);
        let unquoted = unquote_double(inverted.as_slice());
        return invert_quotes(unquoted.as_slice());
    }
    if value[0] == '"' && value[n - 1] == '"' {
        unquote_double(value)
    } else if !contains_char(value, '"') {
        let mut quoted: Vec<char> = Vec::new();
        quoted.push('"');
        for i in 0..n
            invariant
                n == value.len(),
                quoted@ == seq!['"'] + value@.take(i as int),
        {
            quoted.push(value[i]);
            assert(seq!['"'] + value@.take(i + 1) =~= (seq!['"'] + value@.take(i as int)).push(
                value@[i as int],
            ));
        }
        quoted.push('"');
        assert(quoted@ =~= seq!['"'] + value@ + seq!['"']);
        unquote_double(quoted.as_slice())
    } else {
        sub_chars(value, 0, n)
    }
}

/// The (name, value) pair of one line, if its name is not empty.
fn parse_line(line: &[char]) -> (res: Option<(Vec<char>, Vec<char>)>)
    ensures
        res is Some <==> parse_option_line(line@) is Some,
        res matches Some(p) ==> parse_option_line(line@) == Some((p.0@, p.1@)),
{
    let (name, value) = match find_char(line, ' ') {
        Some(i) => {
            proof {
                lemma_first_index_in_bounds(line@, ' ');
                assert(first_index_of(line@, ' ') == Some(i as int));
            }
            assert(i < line.len());
            let before = sub_chars(line, 0, i);
            let after = sub_chars(line, i + 1, line.len());
            proof {
                assert(before@ =~= line@.take(i as int));
                assert(after@ =~= line@.skip(i + 1));
            }
            (trim_chars(before.as_slice()), trim_start_chars(after.as_slice()))
        },
        None => (trim_chars(line), Vec::new()),
    };
    if name.len() == 0 {
        None
    } else {
        let unquoted = unquote_option(value.as_slice());
        Some((name, unquoted))
    }
}

/// Adds the pair of a line, if it has one.
fn push_line_pair(out: &mut Vec<(String, String)>, line: &[char])
    ensures
        pair_views(final(out)@) == (match parse_option_line(line@) {
            Some(p) => pair_views(old(out)@).push(p),
            None => pair_views(old(out)@),
        }),
{
    match parse_line(line) {
        Some((name, value)) => {
            let pair = (string_from_chars(name.as_slice()), string_from_chars(value.as_slice()));
            let ghost pv = (pair.0@, pair.1@);
            let ghost before = out@;
            out.push(pair);
            proof {
                assert(pair_views(out@) =~= pair_views(before).push(pv));
            }
        },
        None => {},
    }
}

/// Parses the output of `show-options -g` into (name, value) pairs.
///
/// Each line gives a pair: its name up to the first space, trimmed, and the rest unquoted as
/// tmux-fastcopy reads `@fastcopy-*` options: a value printed double-quoted, or without any
/// double quote, has its escapes undone (`\\`, `\"`, `\n`, `\t`, `\r`; other escapes such
/// as `\d` are kept so regular expressions survive), and a single-quoted value is read the same
/// way with the quotes swapped. A line without a value gives an empty value; a line with an
/// empty name gives none.
pub fn parse_show_options(output: &str) -> (res: Vec<(String, String)>)
    ensures
        pair_views(res@) == parse_option_lines(lines_of(output@)),
{
    let chars = chars_of(output);
    let ghost s = chars@;
    let mut out: Vec<(String, String)> = Vec::new();
    let mut start: usize = 0;
    let ghost mut done: Seq<Seq<char>> = Seq::empty();
    assert(s.skip(0) =~= s);
    for i in 0..chars.len()
        invariant
            s == chars@,
            s == output@,
            start <= i,
            lines_of(s) == done + lines_of(s.skip(start as int)),
            pair_views(out@) == parse_option_lines(done),
            forall|k: int| start <= k < i ==> s[k] != '\n',
    {
        if chars[i] == '\n' {
            let ghost rest = s.skip(start as int);
            proof {
                assert forall|k: int| 0 <= k < i - start implies rest[k] != '\n' by {
                    assert(rest[k] == s[start + k]);
                }
                assert(rest[i - start] == s[i as int]);
                lemma_first_index_found(rest, '\n', i - start);
                assert(rest.take(i - start) =~= s.subrange(start as int, i as int));
                assert(rest.skip(i - start + 1) =~= s.skip(i + 1));
            }
            let mut end = i;
            if end > start && chars[end - 1] == '\r' {
                end = end - 1;
            }
            let line = sub_chars(chars.as_slice(), start, end);
            proof {
                assert(line@ =~= strip_cr(s.subrange(start as int, i as int)));
            }
            push_line_pair(&mut out, line.as_slice());
            proof {
                let l = strip_cr(s.subrange(start as int, i as int));
                assert(done.push(l).drop_last() =~= done);
                assert(done + lines_of(rest) =~= done.push(l) + lines_of(s.skip(i + 1)));
                done = done.push(l);
            }
            start = i + 1;
        }
    }
    if start < chars.len() {
        let ghost rest = s.skip(start as int);
        proof {
            assert forall|k: int| 0 <= k < rest.len() implies rest[k] != '\n' by {
                assert(rest[k] == s[start + k]);
            }
            lemma_first_index_absent(rest, '\n');
            assert(rest.skip(0) =~= rest);
        }
        let line = sub_chars(chars.as_slice(), start, chars.len());
        push_line_pair(&mut out, line.as_slice());
        proof {
            assert(line@ =~= rest);
            assert(done.push(rest).drop_last() =~= done);
            assert(done + lines_of(rest) =~= done.push(rest));
        }
    } else {
        proof {
            assert(s.skip(start as int) =~= Seq::<char>::empty());
            assert(done + Seq::<Seq<char>>::empty() =~= done);
        }
    }
    out
}

/// How tmux escapes a character inside a printed value: backslash, double quote, newline, tab
/// and carriage return get a backslash; any other character stands for itself.
pub open spec fn escape_char(c: char) -> Seq<char> {
    if c == '\\' {
        seq!['\\', '\\']
    } else if c == '"' {
        seq!['\\', '"']
    } else if c == '\n' {
        seq!['\\', 'n']
    } else if c == '\t' {
        seq!['\\', 't']
    } else if c == '\r' {
        seq!['\\', 'r']
    } else {
        seq![c]
    }
}

/// A value with every character escaped.
pub open spec fn escape(v: Seq<char>) -> Seq<char>
    decreases v.len(),
{
    if v.len() == 0 {
        seq![]
    } else {
        escape_char(v[0]) + escape(v.drop_first())
    }
}

/// Undoing escapes recovers what was escaped.
pub proof fn lemma_unescape_escape(v: Seq<char>)
    ensures
        unescape(escape(v)) == v,
    decreases v.len(),
{
    if v.len() > 0 {
        let c = v[0];
        let rest = escape(v.drop_first());
        let e = escape(v);
        lemma_unescape_escape(v.drop_first());
        assert(e == escape_char(c) + rest);
        if escape_char(c).len() == 1 {
            assert(e[0] == c);
            assert(e.drop_first() =~= rest);
        } else {
            assert(e.skip(2) =~= rest);
        }
        assert(v =~= seq![c] + v.drop_first());
    }
}

/// A value that `show-options` prints double-quoted is read back as it was stored.
pub proof fn lemma_unquote_double_quoted(v: Seq<char>)
    ensures
        unquote_option_spec(seq!['"'] + escape(v) + seq!['"']) == v,
{
    let q = seq!['"'] + escape(v) + seq!['"'];
    lemma_unescape_escape(v);
    assert(q[0] == '"');
    assert(q.last() == '"');
    assert(q.subrange(1, q.len() - 1) =~= escape(v));
}

proof fn lemma_escape_no_double_quote(v: Seq<char>)
    requires
        !v.contains('"'),
    ensures
        !escape(v).contains('"'),
        v.len() > 0 ==> escape(v).len() > 0,
    decreases v.len(),
{
    if v.len() > 0 {
        assert(!v.drop_first().contains('"')) by {
            if v.drop_first().contains('"') {
                let k = choose|k: int| 0 <= k < v.drop_first().len() && v.drop_first()[k] == '"';
                assert(v[k + 1] == '"');
            }
        }
        lemma_escape_no_double_quote(v.drop_first());
        assert(v[0] != '"');
        let e = escape(v);
        let a = escape_char(v[0]);
        let b = escape(v.drop_first());
        assert(e == a + b);
        assert forall|k: int| 0 <= k < e.len() implies e[k] != '"' by {
            if k < a.len() {
                assert(e[k] == a[k]);
            } else {
                assert(e[k] == b[k - a.len()]);
            }
        }
    }
}

/// A value without double quotes that `show-options` prints unquoted, escapes and all, is
/// read back as it was stored, unless it reads as a single-quoted value.
pub proof fn lemma_unquote_bare(v: Seq<char>)
    requires
        v.len() > 0,
        !v.contains('"'),
        !(escape(v)[0] == '\'' && escape(v).last() == '\''),
    ensures
        unquote_option_spec(escape(v)) == v,
{
    lemma_escape_no_double_quote(v);
    lemma_unescape_escape(v);
    let e = escape(v);
    assert(e[0] != '"');
    let q = seq!['"'] + e + seq!['"'];
    assert(q.subrange(1, q.len() - 1) =~= e);
}

/// Swapping quotes twice gives the value back.
pub proof fn lemma_invert_quotes_involution(v: Seq<char>)
    ensures
        invert_quotes_spec(invert_quotes_spec(v)) == v,
{
    assert(invert_quotes_spec(invert_quotes_spec(v)) =~= v);
}

proof fn lemma_escape_no_line_feed(v: Seq<char>)
    ensures
        forall|k: int| 0 <= k < escape(v).len() ==> #[trigger] escape(v)[k] != '\n',
    decreases v.len(),
{
    if v.len() > 0 {
        lemma_escape_no_line_feed(v.drop_first());
        let e = escape(v);
        let head = escape_char(v[0]);
        let rest = escape(v.drop_first());
        assert(e == head + rest);
        assert forall|k: int| 0 <= k < e.len() implies #[trigger] e[k] != '\n' by {
            if k >= head.len() {
                assert(e[k] == rest[k - head.len()]);
            }
        }
    }
}

/// A line of `show-options` output for an option: its name, a space, the value in double
/// quotes with its escapes, and a line feed.
pub open spec fn quoted_option_line(name: Seq<char>, value: Seq<char>) -> Seq<char> {
    name + seq![' ', '"'] + escape(value) + seq!['"', '\n']
}

/// An option printed double-quoted is read back exactly: for a non-empty name without white
/// space, its line gives the one pair of that name and value.
pub proof fn lemma_show_options_round_trip(name: Seq<char>, value: Seq<char>)
    requires
        name.len() > 0,
        forall|k: int| 0 <= k < name.len() ==> !is_white(#[trigger] name[k]),
    ensures
        parse_option_lines(lines_of(quoted_option_line(name, value))) == seq![(name, value)],
{
    let e = escape(value);
    let q = seq!['"'] + e + seq!['"'];
    let line = name + seq![' '] + q;
    let text = quoted_option_line(name, value);
    lemma_escape_no_line_feed(value);
    assert(text =~= line.push('\n'));
    assert forall|k: int| 0 <= k < line.len() implies line[k] != '\n' by {
        if k < name.len() {
            assert(line[k] == name[k]);
            assert(!is_white(name[k]));
        } else if k == name.len() {
        } else if k == name.len() + 1 {
        } else if k < name.len() + 1 + 1 + e.len() {
            assert(line[k] == e[k - name.len() - 2]);
        }
    }
    assert(text[line.len() as int] == '\n');
    assert forall|k: int| 0 <= k < line.len() implies text[k] != '\n' by {
        assert(text[k] == line[k]);
    }
    lemma_first_index_found(text, '\n', line.len() as int);
    assert(text.take(line.len() as int) =~= line);
    assert(text.skip(line.len() as int + 1) =~= Seq::<char>::empty());
    assert(line.last() == '"');
    assert(strip_cr(line) == line);
    assert(lines_of(Seq::<char>::empty()) =~= Seq::<Seq<char>>::empty());
    assert(lines_of(text) == seq![strip_cr(text.take(line.len() as int))] + lines_of(
        text.skip(line.len() as int + 1),
    ));
    assert(lines_of(text) =~= seq![line]);
    assert(seq![line].drop_last() =~= Seq::<Seq<char>>::empty());
    assert forall|k: int| 0 <= k < name.len() implies line[k] != ' ' by {
        assert(line[k] == name[k]);
        assert(!is_white(name[k]));
    }
    assert(line[name.len() as int] == ' ');
    lemma_first_index_found(line, ' ', name.len() as int);
    assert(line.take(name.len() as int) =~= name);
    assert(trim_start(name) == name);
    assert(trim_end(name) == name);
    assert(line.skip(name.len() as int + 1) =~= q);
    assert(q[0] == '"');
    assert(trim_start(q) == q);
    lemma_unquote_double_quoted(value);
    assert(parse_option_line(line) == Some((name, value)));
    assert(parse_option_lines(seq![line]) == parse_option_lines(
        Seq::<Seq<char>>::empty(),
    ).push((name, value)));
    assert(parse_option_lines(seq![line]) =~= seq![(name, value)]);
}

/// How a value is printed in single quotes: escaped as in double quotes, but with the two
/// kinds of quote swapped, so that double quotes stand as they are.
pub open spec fn single_quoted(v: Seq<char>) -> Seq<char> {
    seq!['\''] + invert_quotes_spec(escape(invert_quotes_spec(v))) + seq!['\'']
}

proof fn lemma_invert_concat(a: Seq<char>, b: Seq<char>)
    ensures
        invert_quotes_spec(a + b) == invert_quotes_spec(a) + invert_quotes_spec(b),
{
    assert(invert_quotes_spec(a + b) =~= invert_quotes_spec(a) + invert_quotes_spec(b));
}

proof fn lemma_escape_keeps_absent(v: Seq<char>, c: char)
    requires
        !v.contains(c),
        c != '\\' && c != '"' && c != 'n' && c != 't' && c != 'r',
    ensures
        !escape(v).contains(c),
    decreases v.len(),
{
    if v.len() > 0 {
        assert(!v.drop_first().contains(c)) by {
            if v.drop_first().contains(c) {
                let k = choose|k: int| 0 <= k < v.drop_first().len() && v.drop_first()[k] == c;
                assert(v[k + 1] == c);
            }
        }
        lemma_escape_keeps_absent(v.drop_first(), c);
        assert(v[0] != c);
        let a = escape_char(v[0]);
        let b = escape(v.drop_first());
        assert(escape(v) == a + b);
        if escape(v).contains(c) {
            let k = choose|k: int| 0 <= k < escape(v).len() && escape(v)[k] == c;
            if k >= a.len() {
                assert(b[k - a.len()] == c);
            }
        }
    }
}

/// A value printed in single quotes is read back as it was stored; for a value without quotes
/// that print is the value's escapes between single quotes.
pub proof fn lemma_unquote_single_quoted(v: Seq<char>)
    ensures
        unquote_option_spec(single_quoted(v)) == v,
        !v.contains('"') && !v.contains('\'') ==> single_quoted(v) == seq!['\''] + escape(v)
            + seq!['\''],
{
    let e = escape(invert_quotes_spec(v));
    let inner = invert_quotes_spec(e);
    let p = single_quoted(v);
    assert(p[0] == '\'');
    assert(p.last() == '\'');
    lemma_invert_concat(seq!['\''] + inner, seq!['\'']);
    lemma_invert_concat(seq!['\''], inner);
    lemma_invert_quotes_involution(e);
    lemma_invert_quotes_involution(v);
    assert(invert_quotes_spec(seq!['\'']) =~= seq!['"']);
    let d = invert_quotes_spec(p);
    assert(d == seq!['"'] + e + seq!['"']);
    lemma_unescape_escape(invert_quotes_spec(v));
    assert(d.subrange(1, d.len() - 1) =~= e);
    assert(unquote_double_spec(d) == invert_quotes_spec(v));
    if !v.contains('"') && !v.contains('\'') {
        assert(invert_quotes_spec(v) =~= v) by {
            assert forall|k: int| 0 <= k < v.len() implies invert_char(v[k]) == v[k] by {
                if v[k] == '"' || v[k] == '\'' {
                    assert(v.contains(v[k]));
                }
            }
        }
        lemma_escape_no_double_quote(v);
        lemma_escape_keeps_absent(v, '\'');
        let ev = escape(v);
        assert(invert_quotes_spec(ev) =~= ev) by {
            assert forall|k: int| 0 <= k < ev.len() implies invert_char(ev[k]) == ev[k] by {
                if ev[k] == '"' || ev[k] == '\'' {
                    assert(ev.contains(ev[k]));
                }
            }
        }
    }
}

} // verus!
