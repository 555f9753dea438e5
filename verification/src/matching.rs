//! Named patterns and the matches they find in a captured pane.

use crate::text::str_eq;
use std::ops::Range;
use vstd::prelude::*;
use vstd::utf8::*;

verus! {

/// A span of the captured text found by a named pattern. `full` is the whole match and
/// `selection` the part that is copied (the first capture group, when there is one).
#[derive(Debug, PartialEq, Eq)]
pub struct Match {
    pub name: String,
    pub full: Range<usize>,
    pub selection: Range<usize>,
}

/// A match as a mathematical value.
pub struct MatchView {
    pub name: Seq<char>,
    pub full: Range<usize>,
    pub selection: Range<usize>,
}

impl View for Match {
    type V = MatchView;

    open spec fn view(&self) -> MatchView {
        MatchView { name: self.name@, full: self.full, selection: self.selection }
    }
}

/// Views of a list of matches.
pub open spec fn match_views(ms: Seq<Match>) -> Seq<MatchView> {
    ms.map_values(|m: Match| m@)
}

impl Clone for Match {
    fn clone(&self) -> (res: Self)
        ensures
            res@ == self@,
    {
        Match {
            name: self.name.clone(),
            full: Range { start: self.full.start, end: self.full.end },
            selection: Range { start: self.selection.start, end: self.selection.end },
        }
    }
}

impl Match {
    /// A match whose copied part is the whole span.
    pub fn new(name: &str, range: Range<usize>) -> (res: Self)
        ensures
            res.name@ == name@,
            res.full == range,
            res.selection == range,
    {
        Match {
            name: name.to_owned(),
            full: Range { start: range.start, end: range.end },
            selection: range,
        }
    }
}

/// The error `regex::Regex::new` reports for a pattern it cannot compile.
#[verifier::external_type_specification]
#[verifier::external_body]
pub struct ExRegexError(regex::Error);

/// Whether `regex::Regex::new` compiles a pattern: a function of the pattern alone (a syntax
/// error or a compiled size over the default limit makes it fail).
pub uninterp spec fn regex_compiles(pattern: Seq<char>) -> bool;

/// What the compiled pattern finds in a text with `captures_iter`: for each match in turn, the
/// byte range of the whole match and that of the first capture group, when they took part.
pub uninterp spec fn regex_captures(pattern: Seq<char>, text: Seq<char>) -> Seq<
    (Option<(usize, usize)>, Option<(usize, usize)>),
>;

/// A byte range that `regex` reports: ordered, within the text and on character boundaries.
pub open spec fn is_reported_range(text: Seq<u8>, r: Option<(usize, usize)>) -> bool {
    r matches Some((start, end)) ==> start <= end && end <= text.len() && is_char_boundary(
        text,
        start as int,
    ) && is_char_boundary(text, end as int)
}

/// A first capture group that took part lies inside the whole match.
pub open spec fn group_within(full: Option<(usize, usize)>, group: Option<(usize, usize)>) -> bool {
    group matches Some(g) ==> full matches Some(f) && f.0 <= g.0 && g.1 <= f.1
}

/// A match lies in a text's bytes: its copied part inside its whole range, both ordered,
/// within the text and on character boundaries.
pub open spec fn lies_in_text(text: Seq<u8>, m: MatchView) -> bool {
    &&& m.full.start <= m.selection.start
    &&& m.selection.start <= m.selection.end
    &&& m.selection.end <= m.full.end
    &&& m.full.end <= text.len()
    &&& is_char_boundary(text, m.full.start as int)
    &&& is_char_boundary(text, m.full.end as int)
    &&& is_char_boundary(text, m.selection.start as int)
    &&& is_char_boundary(text, m.selection.end as int)
}

/// Every match lies in the text's bytes.
pub open spec fn all_lie_in_text(text: Seq<u8>, ms: Seq<MatchView>) -> bool {
    forall|i: int| 0 <= i < ms.len() ==> lies_in_text(text, #[trigger] ms[i])
}

/// Calls `regex::Regex::new` and keeps only whether it succeeded, or its error. Claimed: it
/// succeeds exactly when `regex_compiles` holds of the pattern.
#[verifier::external_body]
fn check_regex(pattern: &str) -> (res: Result<(), regex::Error>)
    ensures
        res is Ok <==> regex_compiles(pattern@),
{
    match regex::Regex::new(pattern) {
        Ok(_) => Ok(()),
        Err(error) => Err(error),
    }
}

/// Compiles the pattern with `regex::Regex::new` and runs `captures_iter` on the text, keeping
/// for each match the byte ranges of capture groups 0 and 1 (`Captures::get`). Claimed: for a
/// pattern that compiles the result is `regex_captures` of pattern and text, and otherwise
/// empty; as `regex` documents, group 0 is always present, and every range is ordered, lies in
/// the text and falls on character boundaries, and the first group lies inside the whole match.
#[verifier::external_body]
fn regex_find(pattern: &str, text: &str) -> (res: Vec<(Option<(usize, usize)>, Option<(usize, usize)>)>)
    ensures
        regex_compiles(pattern@) ==> res@ == regex_captures(pattern@, text@),
        !regex_compiles(pattern@) ==> res@.len() == 0,
        forall|i: int|
            0 <= i < res@.len() ==> (#[trigger] res@[i]).0 is Some && is_reported_range(
                encode_utf8(text@),
                res@[i].0,
            ) && is_reported_range(encode_utf8(text@), res@[i].1),
        forall|i: int|
            0 <= i < res@.len() ==> group_within((#[trigger] res@[i]).0, res@[i].1),
{
    match regex::Regex::new(pattern) {
        Ok(regex) => regex.captures_iter(text).map(
            |captures| (
                captures.get(0).map(|m| (m.start(), m.end())),
                captures.get(1).map(|m| (m.start(), m.end())),
            ),
        ).collect(),
        Err(_) => Vec::new(),
    }
}

/// The length of a range, zero when it is reversed (`Range::len`).
pub open spec fn range_len(r: Range<usize>) -> nat {
    if r.end >= r.start {
        (r.end - r.start) as nat
    } else {
        0
    }
}

/// `a` comes strictly before `b`: it starts earlier, or at the same place and is longer.
pub open spec fn precedes(a: MatchView, b: MatchView) -> bool {
    a.full.start < b.full.start || (a.full.start == b.full.start && range_len(a.full) > range_len(
        b.full,
    ))
}

/// `x` inserted before the first element it strictly precedes (after all it ties with).
pub open spec fn insert_in_order(s: Seq<MatchView>, x: MatchView) -> Seq<MatchView>
    decreases s.len(),
{
    if s.len() == 0 {
        seq![x]
    } else if precedes(x, s[0]) {
        seq![x] + s
    } else {
        seq![s[0]] + insert_in_order(s.drop_first(), x)
    }
}

/// The matches stably sorted by start, longer first among equal starts.
pub open spec fn sort_matches(s: Seq<MatchView>) -> Seq<MatchView>
    decreases s.len(),
{
    if s.len() == 0 {
        seq![]
    } else {
        insert_in_order(sort_matches(s.drop_last()), s.last())
    }
}

/// The matches, in order, each kept unless it starts inside the last one kept.
pub open spec fn drop_overlapping(s: Seq<MatchView>) -> Seq<MatchView>
    decreases s.len(),
{
    if s.len() == 0 {
        seq![]
    } else {
        let kept = drop_overlapping(s.drop_last());
        if kept.len() > 0 && s.last().full.start < kept.last().full.end {
            kept
        } else {
            kept.push(s.last())
        }
    }
}

/// The matches that are kept of all found: sorted, then overlaps dropped.
pub open spec fn selected_matches(found: Seq<MatchView>) -> Seq<MatchView> {
    drop_overlapping(sort_matches(found))
}

/// Whether `a` comes strictly before `b`.
fn precedes_exec(a: &Match, b: &Match) -> (res: bool)
    ensures
        res == precedes(a@, b@),
{
    let la = if a.full.end >= a.full.start {
        a.full.end - a.full.start
    } else {
        0
    };
    let lb = if b.full.end >= b.full.start {
        b.full.end - b.full.start
    } else {
        0
    };
    a.full.start < b.full.start || (a.full.start == b.full.start && la > lb)
}

proof fn lemma_insert_in_order_at(s: Seq<MatchView>, x: MatchView, j: int)
    requires
        0 <= j <= s.len(),
        forall|q: int| 0 <= q < j ==> !precedes(x, #[trigger] s[q]),
        j < s.len() ==> precedes(x, s[j]),
    ensures
        insert_in_order(s, x) == s.insert(j, x),
    decreases s.len(),
{
    if s.len() == 0 {
        assert(s.insert(j, x) =~= seq![x]);
    } else if j == 0 {
        assert(s.insert(j, x) =~= seq![x] + s);
    } else {
        let t = s.drop_first();
        assert forall|q: int| 0 <= q < j - 1 implies !precedes(x, #[trigger] t[q]) by {
            assert(t[q] == s[q + 1]);
        }
        lemma_insert_in_order_at(t, x, j - 1);
        assert(s.insert(j, x) =~= seq![s[0]] + t.insert(j - 1, x));
    }
}

/// Inserts a match where `insert_in_order` puts it.
fn insert_sorted(v: &mut Vec<Match>, x: Match)
    ensures
        match_views(final(v)@) == insert_in_order(match_views(old(v)@), x@),
{
    let ghost s = match_views(v@);
    let mut j: usize = 0;
    while j < v.len() && !precedes_exec(&x, &v[j])
        invariant
            j <= v.len(),
            s == match_views(v@),
            forall|q: int| 0 <= q < j ==> !precedes(x@, #[trigger] s[q]),
        decreases v.len() - j,
    {
        j = j + 1;
    }
    proof {
        lemma_insert_in_order_at(s, x@, j as int);
    }
    let ghost xv = x@;
    let ghost before = v@;
    v.insert(j, x);
    proof {
        assert(match_views(v@) =~= s.insert(j as int, xv));
    }
}

/// Sorts the matches by start, longer first among equal starts, keeping the found order among
/// ties, then drops each one that starts inside the one kept before it.
pub fn select_matches(found: &[Match]) -> (res: Vec<Match>)
    ensures
        match_views(res@) == selected_matches(match_views(found@)),
{
    let ghost fv = match_views(found@);
    let mut sorted: Vec<Match> = Vec::new();
    for k in 0..found.len()
        invariant
            fv == match_views(found@),
            match_views(sorted@) == sort_matches(fv.take(k as int)),
    {
        insert_sorted(&mut sorted, found[k].clone());
        proof {
            assert(fv.take(k + 1).drop_last() =~= fv.take(k as int));
        }
    }
    assert(fv.take(found.len() as int) =~= fv);
    let ghost sv = match_views(sorted@);
    let mut kept: Vec<Match> = Vec::new();
    for k in 0..sorted.len()
        invariant
            sv == match_views(sorted@),
            match_views(kept@) == drop_overlapping(sv.take(k as int)),
    {
        let m = &sorted[k];
        let ghost before = kept@;
        proof {
            assert(sv.take(k + 1).drop_last() =~= sv.take(k as int));
            assert(sv.take(k + 1).last() == sv[k as int]);
        }
        let n = kept.len();
        if n > 0 && m.full.start < kept[n - 1].full.end {
        } else {
            let c = m.clone();
            let ghost cv = c@;
            kept.push(c);
            proof {
                assert(match_views(kept@) =~= match_views(before).push(cv));
            }
        }
    }
    assert(sv.take(sorted.len() as int) =~= sv);
    kept
}

/// A pattern and the name its matches are reported under.
#[derive(Debug)]
struct NamedPattern {
    name: String,
    pattern: String,
}

/// Named patterns that find copyable text.
#[derive(Debug)]
pub struct MatcherSet {
    matchers: Vec<NamedPattern>,
}

/// Views of (name, value) pairs, such as named patterns or options.
pub open spec fn pair_views(ps: Seq<(String, String)>) -> Seq<(Seq<char>, Seq<char>)> {
    ps.map_values(|p: (String, String)| (p.0@, p.1@))
}

/// Views of borrowed (name, pattern) pairs.
pub open spec fn str_pair_views(ps: Seq<(&str, &str)>) -> Seq<(Seq<char>, Seq<char>)> {
    ps.map_values(|p: (&str, &str)| (p.0@, p.1@))
}

impl View for MatcherSet {
    type V = Seq<(Seq<char>, Seq<char>)>;

    closed spec fn view(&self) -> Seq<(Seq<char>, Seq<char>)> {
        self.matchers@.map_values(|m: NamedPattern| (m.name@, m.pattern@))
    }
}

/// Why a set of named patterns could not be built.
#[derive(Debug)]
pub enum MatcherError {
    /// A pattern was given an empty name.
    EmptyName,
    /// The named pattern does not compile.
    InvalidPattern { name: String, error: regex::Error },
}

/// A build failure as a mathematical value.
pub enum MatcherFailure {
    EmptyName,
    InvalidPattern(Seq<char>),
}

/// The failure an error reports.
pub open spec fn failure_of(e: MatcherError) -> MatcherFailure {
    match e {
        MatcherError::EmptyName => MatcherFailure::EmptyName,
        MatcherError::InvalidPattern { name, .. } => MatcherFailure::InvalidPattern(name@),
    }
}

/// The patterns kept from named patterns, in order: empty patterns are skipped; building fails
/// at the first empty name or, before it, the first pattern that does not compile.
pub open spec fn build_matchers(ps: Seq<(Seq<char>, Seq<char>)>) -> Result<
    Seq<(Seq<char>, Seq<char>)>,
    MatcherFailure,
>
    decreases ps.len(),
{
    if ps.len() == 0 {
        Ok(seq![])
    } else {
        let name = ps[0].0;
        let pattern = ps[0].1;
        if name.len() == 0 {
            Err(MatcherFailure::EmptyName)
        } else if pattern.len() == 0 {
            build_matchers(ps.drop_first())
        } else if !regex_compiles(pattern) {
            Err(MatcherFailure::InvalidPattern(name))
        } else {
            match build_matchers(ps.drop_first()) {
                Ok(rest) => Ok(seq![(name, pattern)] + rest),
                Err(e) => Err(e),
            }
        }
    }
}

/// `acc` followed by a build's patterns, or the build's failure.
pub open spec fn after(
    acc: Seq<(Seq<char>, Seq<char>)>,
    r: Result<Seq<(Seq<char>, Seq<char>)>, MatcherFailure>,
) -> Result<Seq<(Seq<char>, Seq<char>)>, MatcherFailure> {
    match r {
        Ok(rest) => Ok(acc + rest),
        Err(e) => Err(e),
    }
}

/// The same result as a build, as the patterns and the failure stand.
pub open spec fn built_as(
    res: Result<MatcherSet, MatcherError>,
    expected: Result<Seq<(Seq<char>, Seq<char>)>, MatcherFailure>,
) -> bool {
    match res {
        Ok(set) => expected == Ok::<Seq<(Seq<char>, Seq<char>)>, MatcherFailure>(set@),
        Err(e) => expected == Err::<Seq<(Seq<char>, Seq<char>)>, MatcherFailure>(failure_of(e)),
    }
}

/// The patterns without any of this name.
pub open spec fn without_name(ps: Seq<(Seq<char>, Seq<char>)>, name: Seq<char>) -> Seq<
    (Seq<char>, Seq<char>),
>
    decreases ps.len(),
{
    if ps.len() == 0 {
        seq![]
    } else {
        let rest = without_name(ps.drop_last(), name);
        if ps.last().0 == name {
            rest
        } else {
            rest.push(ps.last())
        }
    }
}

/// The patterns after each override in turn replaces those of its name (an empty pattern
/// only removes them), or `None` when an override has an empty name.
pub open spec fn overridden(
    ps: Seq<(Seq<char>, Seq<char>)>,
    overrides: Seq<(Seq<char>, Seq<char>)>,
) -> Option<Seq<(Seq<char>, Seq<char>)>>
    decreases overrides.len(),
{
    if overrides.len() == 0 {
        Some(ps)
    } else {
        match overridden(ps, overrides.drop_last()) {
            None => None,
            Some(current) => {
                let name = overrides.last().0;
                let pattern = overrides.last().1;
                if name.len() == 0 {
                    None
                } else if pattern.len() == 0 {
                    Some(without_name(current, name))
                } else {
                    Some(without_name(current, name).push((name, pattern)))
                }
            },
        }
    }
}

/// The built-in patterns, by name.
pub open spec fn default_table() -> Seq<(Seq<char>, Seq<char>)> {
    seq![
        ("ipv4"@, r"\b\d{1,3}(?:\.\d{1,3}){3}\b"@),
        ("gitsha"@, r"\b[0-9a-f]{7,40}\b"@),
        ("hexaddr"@, r"(?i:\b0x[0-9a-f]{2,}\b)"@),
        ("hexcolor"@, r"(?i:#(?:[0-9a-f]{3}|[0-9a-f]{6})\b)"@),
        ("int"@, r"(?:-?|\b)\d{4,}\b"@),
        ("path"@, r"(?:[\w.~-]+)?(?:/[\w.-]+){2,}\b"@),
        ("uuid"@, r"(?i:\b[0-9a-f]{8}(?:-[0-9a-f]{4}){3}-[0-9a-f]{12}\b)"@),
        ("isodate"@, r"\d{4}-\d{2}-\d{2}"@),
    ]
}

/// The built-in patterns: IPv4 addresses, git hashes, hex addresses and colors, integers of
/// four or more digits, paths, UUIDs and ISO dates.
pub fn default_patterns() -> (res: [(&'static str, &'static str); 8])
    ensures
        str_pair_views(res@) == default_table(),
{
    let res = [
        ("ipv4", r"\b\d{1,3}(?:\.\d{1,3}){3}\b"),
        ("gitsha", r"\b[0-9a-f]{7,40}\b"),
        ("hexaddr", r"(?i:\b0x[0-9a-f]{2,}\b)"),
        ("hexcolor", r"(?i:#(?:[0-9a-f]{3}|[0-9a-f]{6})\b)"),
        ("int", r"(?:-?|\b)\d{4,}\b"),
        ("path", r"(?:[\w.~-]+)?(?:/[\w.-]+){2,}\b"),
        ("uuid", r"(?i:\b[0-9a-f]{8}(?:-[0-9a-f]{4}){3}-[0-9a-f]{12}\b)"),
        ("isodate", r"\d{4}-\d{2}-\d{2}"),
    ];
    assert(str_pair_views(res@) =~= default_table());
    res
}

/// Owned copies of borrowed pairs.
fn owned_pairs(ps: &[(&str, &str)]) -> (res: Vec<(String, String)>)
    ensures
        pair_views(res@) == str_pair_views(ps@),
{
    let mut out: Vec<(String, String)> = Vec::new();
    for i in 0..ps.len()
        invariant
            out.len() == i,
            pair_views(out@) == str_pair_views(ps@).take(i as int),
    {
        let (name, pattern) = ps[i];
        let ghost before = out@;
        out.push((name.to_owned(), pattern.to_owned()));
        proof {
            assert(pair_views(out@) =~= pair_views(before).push((name@, pattern@)));
            assert(str_pair_views(ps@).take(i + 1) =~= str_pair_views(ps@).take(i as int).push(
                (name@, pattern@),
            ));
        }
    }
    assert(str_pair_views(ps@).take(ps.len() as int) =~= str_pair_views(ps@));
    out
}

impl MatcherSet {
    /// The built-in patterns.
    pub fn defaults() -> (res: Self)
        ensures
            res@ == default_table(),
    {
        let table = default_patterns();
        let mut matchers: Vec<NamedPattern> = Vec::new();
        for i in 0..8usize
            invariant
                str_pair_views(table@) == default_table(),
                matchers.len() == i,
                forall|q: int|
                    0 <= q < i ==> (#[trigger] matchers@[q]).name@ == table@[q].0@
                        && matchers@[q].pattern@ == table@[q].1@,
        {
            let (name, pattern) = table[i];
            matchers.push(NamedPattern { name: name.to_owned(), pattern: pattern.to_owned() });
        }
        let res = MatcherSet { matchers };
        proof {
            assert(res@ =~= default_table());
        }
        res
    }

    /// Builds a set from (name, pattern) pairs: an empty pattern is skipped; an empty name,
    /// or a pattern that does not compile, fails.
    pub fn from_patterns(patterns: &[(&str, &str)]) -> (res: Result<Self, MatcherError>)
        ensures
            built_as(res, build_matchers(str_pair_views(patterns@))),
    {
        Self::build(owned_pairs(patterns))
    }

    fn build(patterns: Vec<(String, String)>) -> (res: Result<Self, MatcherError>)
        ensures
            built_as(res, build_matchers(pair_views(patterns@))),
    {
        let ghost ps = pair_views(patterns@);
        let mut matchers: Vec<NamedPattern> = Vec::new();
        let mut k: usize = 0;
        assert(ps.skip(0) =~= ps);
        while k < patterns.len()
            invariant
                k <= patterns.len(),
                ps == pair_views(patterns@),
                build_matchers(ps) == after(
                    matchers@.map_values(|m: NamedPattern| (m.name@, m.pattern@)),
                    build_matchers(ps.skip(k as int)),
                ),
            decreases patterns.len() - k,
        {
            let ghost acc = matchers@.map_values(|m: NamedPattern| (m.name@, m.pattern@));
            let ghost rest = ps.skip(k as int);
            proof {
                assert(rest[0] == ps[k as int]);
                assert(rest.drop_first() =~= ps.skip(k + 1));
            }
            let name = &patterns[k].0;
            let pattern = &patterns[k].1;
            if name.as_str().is_empty() {
                return Err(MatcherError::EmptyName);
            }
            if !pattern.as_str().is_empty() {
                match check_regex(pattern.as_str()) {
                    Ok(()) => {},
                    Err(error) => {
                        return Err(MatcherError::InvalidPattern { name: name.clone(), error });
                    },
                }
                matchers.push(NamedPattern { name: name.clone(), pattern: pattern.clone() });
                proof {
                    let pair = (name@, pattern@);
                    assert(matchers@.map_values(|m: NamedPattern| (m.name@, m.pattern@)) =~= acc.push(
                        pair,
                    ));
                    match build_matchers(ps.skip(k + 1)) {
                        Ok(r) => {
                            assert(acc + (seq![pair] + r) =~= acc.push(pair) + r);
                        },
                        Err(e) => {},
                    }
                }
            }
            k = k + 1;
        }
        proof {
            assert(ps.skip(k as int) =~= Seq::<(Seq<char>, Seq<char>)>::empty());
            let acc = matchers@.map_values(|m: NamedPattern| (m.name@, m.pattern@));
            assert(acc + Seq::<(Seq<char>, Seq<char>)>::empty() =~= acc);
        }
        Ok(MatcherSet { matchers })
    }
}

/// The patterns without any of this name.
fn remove_name(patterns: Vec<(String, String)>, name: &str) -> (res: Vec<(String, String)>)
    ensures
        pair_views(res@) == without_name(pair_views(patterns@), name@),
{
    let ghost ps = pair_views(patterns@);
    let mut out: Vec<(String, String)> = Vec::new();
    for i in 0..patterns.len()
        invariant
            ps == pair_views(patterns@),
            pair_views(out@) == without_name(ps.take(i as int), name@),
    {
        proof {
            assert(ps.take(i + 1).drop_last() =~= ps.take(i as int));
        }
        let existing = &patterns[i].0;
        if !str_eq(existing.as_str(), name) {
            let pair = (existing.clone(), patterns[i].1.clone());
            let ghost before = out@;
            let ghost pv = (pair.0@, pair.1@);
            out.push(pair);
            proof {
                assert(pair_views(out@) =~= pair_views(before).push(pv));
            }
        }
    }
    assert(ps.take(patterns.len() as int) =~= ps);
    out
}

impl MatcherSet {
    /// The built-in patterns with overrides applied in turn: each replaces the patterns of its
    /// name, or, with an empty pattern, only removes them. An empty name fails; so does a
    /// pattern that does not compile.
    pub fn with_overrides(overrides: &[(&str, &str)]) -> (res: Result<Self, MatcherError>)
        ensures
            overridden(default_table(), str_pair_views(overrides@)) is None ==> (res matches Err(e)
                && failure_of(e) == MatcherFailure::EmptyName),
            overridden(default_table(), str_pair_views(overrides@)) matches Some(ps) ==> built_as(
                res,
                build_matchers(ps),
            ),
    {
        let table = default_patterns();
        let mut patterns = owned_pairs(&table);
        let ghost ov = str_pair_views(overrides@);
        for i in 0..overrides.len()
            invariant
                ov == str_pair_views(overrides@),
                overridden(default_table(), ov.take(i as int)) == Some(pair_views(patterns@)),
        {
            proof {
                assert(ov.take(i + 1).drop_last() =~= ov.take(i as int));
            }
            let (name, pattern) = overrides[i];
            if name.is_empty() {
                proof {
                    lemma_overridden_stays_none(default_table(), ov, i as int + 1);
                }
                return Err(MatcherError::EmptyName);
            }
            patterns = remove_name(patterns, name);
            if !pattern.is_empty() {
                let ghost before = patterns@;
                patterns.push((name.to_owned(), pattern.to_owned()));
                proof {
                    assert(pair_views(patterns@) =~= pair_views(before).push((name@, pattern@)));
                }
            }
        }
        assert(ov.take(overrides.len() as int) =~= ov);
        Self::build(patterns)
    }
}

proof fn lemma_overridden_stays_none(
    ps: Seq<(Seq<char>, Seq<char>)>,
    ov: Seq<(Seq<char>, Seq<char>)>,
    k: int,
)
    requires
        0 <= k <= ov.len(),
        overridden(ps, ov.take(k)) is None,
    ensures
        overridden(ps, ov) is None,
    decreases ov.len() - k,
{
    if k < ov.len() {
        assert(ov.take(k + 1).drop_last() =~= ov.take(k));
        lemma_overridden_stays_none(ps, ov, k + 1);
    } else {
        assert(ov.take(k) =~= ov);
    }
}

proof fn lemma_without_name(ps: Seq<(Seq<char>, Seq<char>)>, name: Seq<char>)
    ensures
        forall|i: int|
            0 <= i < without_name(ps, name).len() ==> (#[trigger] without_name(ps, name)[i]).0
                != name,
        forall|q: int|
            0 <= q < ps.len() && ps[q].0 != name ==> without_name(ps, name).contains(
                #[trigger] ps[q],
            ),
    decreases ps.len(),
{
    if ps.len() > 0 {
        lemma_without_name(ps.drop_last(), name);
        let rest = without_name(ps.drop_last(), name);
        assert forall|q: int| 0 <= q < ps.len() && ps[q].0 != name implies without_name(
            ps,
            name,
        ).contains(#[trigger] ps[q]) by {
            if q < ps.len() - 1 {
                assert(ps.drop_last()[q] == ps[q]);
                let k = choose|k: int| 0 <= k < rest.len() && rest[k] == ps[q];
                if ps.last().0 != name {
                    assert(rest.push(ps.last())[k] == ps[q]);
                }
            } else {
                assert(rest.push(ps.last())[rest.len() as int] == ps[q]);
            }
        }
    }
}

/// The last override of a name decides it: with a pattern, that pattern is the one entry of
/// the name, and comes last; empty, the name has no entry left. Every other entry that stood
/// before the override is kept.
pub proof fn lemma_last_override_decides(
    ps: Seq<(Seq<char>, Seq<char>)>,
    overrides: Seq<(Seq<char>, Seq<char>)>,
)
    requires
        overrides.len() > 0,
        overridden(ps, overrides) is Some,
    ensures
        ({
            let (name, pattern) = overrides.last();
            let r = overridden(ps, overrides)->0;
            let before = overridden(ps, overrides.drop_last())->0;
            &&& pattern.len() == 0 ==> forall|i: int| 0 <= i < r.len() ==> (#[trigger] r[i]).0 != name
            &&& pattern.len() > 0 ==> r.last() == (name, pattern) && forall|i: int|
                0 <= i < r.len() - 1 ==> (#[trigger] r[i]).0 != name
            &&& forall|q: int|
                0 <= q < before.len() && before[q].0 != name ==> r.contains(#[trigger] before[q])
        }),
{
    let (name, pattern) = overrides.last();
    let before = overridden(ps, overrides.drop_last())->0;
    lemma_without_name(before, name);
    let w = without_name(before, name);
    if pattern.len() > 0 {
        let r = w.push((name, pattern));
        assert forall|i: int| 0 <= i < r.len() - 1 implies (#[trigger] r[i]).0 != name by {
            assert(r[i] == w[i]);
        }
        assert forall|q: int| 0 <= q < before.len() && before[q].0 != name implies r.contains(
            #[trigger] before[q],
        ) by {
            let k = choose|k: int| 0 <= k < w.len() && w[k] == before[q];
            assert(r[k] == before[q]);
        }
    }
}

/// The pairs whose pattern is not empty, in order.
pub open spec fn non_empty_patterns(ps: Seq<(Seq<char>, Seq<char>)>) -> Seq<(Seq<char>, Seq<char>)>
    decreases ps.len(),
{
    if ps.len() == 0 {
        seq![]
    } else if ps[0].1.len() == 0 {
        non_empty_patterns(ps.drop_first())
    } else {
        seq![ps[0]] + non_empty_patterns(ps.drop_first())
    }
}

/// An empty pattern only disables its entry: when every name is given, building from the
/// pairs gives the same set, or the same failure, as building from those with a pattern.
pub proof fn lemma_empty_patterns_disable(ps: Seq<(Seq<char>, Seq<char>)>)
    requires
        forall|i: int| 0 <= i < ps.len() ==> (#[trigger] ps[i]).0.len() > 0,
    ensures
        build_matchers(ps) == build_matchers(non_empty_patterns(ps)),
    decreases ps.len(),
{
    if ps.len() > 0 {
        let rest = ps.drop_first();
        assert forall|i: int| 0 <= i < rest.len() implies (#[trigger] rest[i]).0.len() > 0 by {
            assert(rest[i] == ps[i + 1]);
        }
        lemma_empty_patterns_disable(rest);
        assert(ps[0].0.len() > 0);
        if ps[0].1.len() > 0 {
            let ne = seq![ps[0]] + non_empty_patterns(rest);
            assert(ne[0] == ps[0]);
            assert(ne.drop_first() =~= non_empty_patterns(rest));
        }
    }
}

/// A capture as the match it reports: none without a whole match; otherwise the whole match,
/// copying the first capture group when it took part.
pub open spec fn capture_match(
    name: Seq<char>,
    c: (Option<(usize, usize)>, Option<(usize, usize)>),
) -> Option<MatchView> {
    match c.0 {
        None => None,
        Some(full) => {
            let sel = match c.1 {
                Some(group) => group,
                None => full,
            };
            Some(
                MatchView {
                    name,
                    full: Range { start: full.0, end: full.1 },
                    selection: Range { start: sel.0, end: sel.1 },
                },
            )
        },
    }
}

/// The matches that captures report, in order.
pub open spec fn captures_to_matches(
    name: Seq<char>,
    caps: Seq<(Option<(usize, usize)>, Option<(usize, usize)>)>,
) -> Seq<MatchView>
    decreases caps.len(),
{
    if caps.len() == 0 {
        seq![]
    } else {
        let rest = captures_to_matches(name, caps.drop_last());
        match capture_match(name, caps.last()) {
            None => rest,
            Some(m) => rest.push(m),
        }
    }
}

/// What a pattern captures in a text: nothing when it does not compile.
pub open spec fn pattern_captures(pattern: Seq<char>, text: Seq<char>) -> Seq<
    (Option<(usize, usize)>, Option<(usize, usize)>),
> {
    if regex_compiles(pattern) {
        regex_captures(pattern, text)
    } else {
        seq![]
    }
}

/// Every match of every pattern, pattern by pattern.
pub open spec fn found_matches(ms: Seq<(Seq<char>, Seq<char>)>, text: Seq<char>) -> Seq<MatchView>
    decreases ms.len(),
{
    if ms.len() == 0 {
        seq![]
    } else {
        found_matches(ms.drop_last(), text) + captures_to_matches(
            ms.last().0,
            pattern_captures(ms.last().1, text),
        )
    }
}

/// The whole range of each match is ordered.
pub open spec fn ranges_ordered(ms: Seq<MatchView>) -> bool {
    forall|i: int| 0 <= i < ms.len() ==> (#[trigger] ms[i]).full.start <= ms[i].full.end
}

impl MatcherSet {
    /// Finds the matches of every pattern in the text, then keeps those that `select_matches`
    /// keeps: sorted by start and free of overlaps.
    pub fn find(&self, text: &str) -> (res: Vec<Match>)
        ensures
            match_views(res@) == selected_matches(found_matches(self@, text@)),
            non_overlapping(match_views(res@)),
            sorted_by_start(match_views(res@)),
            all_lie_in_text(encode_utf8(text@), match_views(res@)),
    {
        let ghost ms = self@;
        let mut found: Vec<Match> = Vec::new();
        for i in 0..self.matchers.len()
            invariant
                ms == self@,
                match_views(found@) == found_matches(ms.take(i as int), text@),
                ranges_ordered(match_views(found@)),
                all_lie_in_text(encode_utf8(text@), match_views(found@)),
        {
            let name = &self.matchers[i].name;
            let caps = regex_find(self.matchers[i].pattern.as_str(), text);
            let ghost base = match_views(found@);
            proof {
                assert(ms.take(i + 1).drop_last() =~= ms.take(i as int));
                assert(ms[i as int] == (name@, self.matchers@[i as int].pattern@));
            }
            for c in 0..caps.len()
                invariant
                    match_views(found@) == base + captures_to_matches(name@, caps@.take(c as int)),
                    ranges_ordered(match_views(found@)),
                    all_lie_in_text(encode_utf8(text@), match_views(found@)),
                    forall|q: int|
                        0 <= q < caps@.len() ==> is_reported_range(
                            encode_utf8(text@),
                            (#[trigger] caps@[q]).0,
                        ) && is_reported_range(encode_utf8(text@), caps@[q].1) && group_within(
                            caps@[q].0,
                            caps@[q].1,
                        ),
            {
                proof {
                    assert(caps@.take(c + 1).drop_last() =~= caps@.take(c as int));
                }
                let (full, group) = caps[c];
                match full {
                    None => {},
                    Some((fs, fe)) => {
                        let (ss, se) = match group {
                            Some(g) => g,
                            None => (fs, fe),
                        };
                        let m = Match {
                            name: name.clone(),
                            full: Range { start: fs, end: fe },
                            selection: Range { start: ss, end: se },
                        };
                        let ghost mv = m@;
                        let ghost before = found@;
                        found.push(m);
                        proof {
                            assert(match_views(found@) =~= match_views(before).push(mv));
                        }
                    },
                }
            }
            proof {
                assert(caps@.take(caps.len() as int) =~= caps@);
            }
        }
        proof {
            assert(ms.take(self.matchers.len() as int) =~= ms);
            lemma_selected_matches_disjoint(match_views(found@));
            lemma_selected_from_found(match_views(found@));
        }
        let res = select_matches(found.as_slice());
        proof {
            let fv = match_views(found@);
            let rv = match_views(res@);
            assert forall|i: int| 0 <= i < rv.len() implies lies_in_text(
                encode_utf8(text@),
                #[trigger] rv[i],
            ) by {
                assert(fv.contains(rv[i]));
                let q = choose|q: int| 0 <= q < fv.len() && fv[q] == rv[i];
                assert(lies_in_text(encode_utf8(text@), fv[q]));
            }
        }
        res
    }
}

/// Whole ranges never overlap: each ends where or before the next begins.
pub open spec fn non_overlapping(ms: Seq<MatchView>) -> bool {
    forall|i: int, j: int|
        0 <= i < j < ms.len() ==> (#[trigger] ms[i]).full.end <= (#[trigger] ms[j]).full.start
}

/// Starts never decrease.
pub open spec fn sorted_by_start(ms: Seq<MatchView>) -> bool {
    forall|i: int, j: int|
        0 <= i < j < ms.len() ==> (#[trigger] ms[i]).full.start <= (#[trigger] ms[j]).full.start
}

/// `insert_in_order` puts the match at some index of the sequence.
proof fn lemma_insert_in_order_is_insert(s: Seq<MatchView>, x: MatchView) -> (j: int)
    ensures
        0 <= j <= s.len(),
        insert_in_order(s, x) == s.insert(j, x),
        forall|q: int| 0 <= q < j ==> !precedes(x, #[trigger] s[q]),
        j < s.len() ==> precedes(x, s[j]),
    decreases s.len(),
{
    if s.len() == 0 || precedes(x, s[0]) {
        lemma_insert_in_order_at(s, x, 0);
        0
    } else {
        let t = s.drop_first();
        let k = lemma_insert_in_order_is_insert(t, x);
        assert forall|q: int| 0 <= q < k + 1 implies !precedes(x, #[trigger] s[q]) by {
            if q > 0 {
                assert(s[q] == t[q - 1]);
            }
        }
        lemma_insert_in_order_at(s, x, k + 1);
        k + 1
    }
}

/// Sorting keeps every match, as often as it was found.
pub proof fn lemma_sort_matches_permutes(s: Seq<MatchView>)
    ensures
        sort_matches(s).to_multiset() == s.to_multiset(),
    decreases s.len(),
{
    broadcast use vstd::seq_lib::group_to_multiset_ensures;

    if s.len() > 0 {
        let front = s.drop_last();
        let x = s.last();
        lemma_sort_matches_permutes(front);
        let sorted = sort_matches(front);
        let j = lemma_insert_in_order_is_insert(sorted, x);
        let ins = sorted.insert(j, x);
        sorted.insert_ensures(j, x);
        assert(ins.remove(j) =~= sorted);
        assert(ins.to_multiset().remove(x) =~= sorted.to_multiset());
        assert(ins.to_multiset().count(x) > 0) by {
            assert(ins[j] == x);
            assert(ins.contains(x));
        }
        assert(ins.to_multiset() =~= sorted.to_multiset().insert(x));
        assert(front.push(x) =~= s);
    }
}

/// Sorting orders matches by start.
pub proof fn lemma_sort_matches_sorted(s: Seq<MatchView>)
    ensures
        sorted_by_start(sort_matches(s)),
    decreases s.len(),
{
    if s.len() > 0 {
        let front = s.drop_last();
        let x = s.last();
        lemma_sort_matches_sorted(front);
        let sorted = sort_matches(front);
        let j = lemma_insert_in_order_is_insert(sorted, x);
        let ins = sorted.insert(j, x);
        sorted.insert_ensures(j, x);
        assert forall|a: int, b: int| 0 <= a < b < ins.len() implies (#[trigger] ins[a]).full.start
            <= (#[trigger] ins[b]).full.start by {
            if b < j {
            } else if b == j {
                assert(!precedes(x, sorted[a]));
            } else if a < j {
                assert(ins[b] == sorted[b - 1]);
                assert(!precedes(x, sorted[a]));
                assert(precedes(x, sorted[j]));
                assert(sorted[j].full.start <= sorted[b - 1].full.start);
            } else if a == j {
                assert(ins[b] == sorted[b - 1]);
                assert(precedes(x, sorted[j]));
                assert(sorted[j].full.start <= sorted[b - 1].full.start);
            } else {
                assert(ins[a] == sorted[a - 1]);
                assert(ins[b] == sorted[b - 1]);
            }
        }
    }
}

/// What dropping overlaps keeps comes from its input.
proof fn lemma_drop_overlapping_from_input(t: Seq<MatchView>)
    ensures
        forall|i: int|
            0 <= i < drop_overlapping(t).len() ==> t.contains(#[trigger] drop_overlapping(t)[i]),
    decreases t.len(),
{
    if t.len() > 0 {
        let front = t.drop_last();
        lemma_drop_overlapping_from_input(front);
        let kept = drop_overlapping(front);
        assert forall|i: int| 0 <= i < drop_overlapping(t).len() implies t.contains(
            #[trigger] drop_overlapping(t)[i],
        ) by {
            if i < kept.len() {
                assert(drop_overlapping(t)[i] == kept[i]);
                let q = choose|q: int| 0 <= q < front.len() && front[q] == kept[i];
                assert(t[q] == front[q]);
            } else {
                assert(drop_overlapping(t)[i] == t.last());
                assert(t[t.len() - 1] == t.last());
            }
        }
    }
}

proof fn lemma_drop_overlapping_disjoint(t: Seq<MatchView>)
    requires
        ranges_ordered(t),
    ensures
        non_overlapping(drop_overlapping(t)),
        ranges_ordered(drop_overlapping(t)),
    decreases t.len(),
{
    if t.len() > 0 {
        let front = t.drop_last();
        assert(ranges_ordered(front)) by {
            assert forall|i: int| 0 <= i < front.len() implies (#[trigger] front[i]).full.start
                <= front[i].full.end by {
                assert(front[i] == t[i]);
            }
        }
        lemma_drop_overlapping_disjoint(front);
        let kept = drop_overlapping(front);
        let x = t.last();
        assert(x == t[t.len() - 1]);
        if !(kept.len() > 0 && x.full.start < kept.last().full.end) {
            let out = kept.push(x);
            assert forall|a: int, b: int| 0 <= a < b < out.len() implies (#[trigger] out[a]).full.end
                <= (#[trigger] out[b]).full.start by {
                if b == kept.len() {
                    assert(kept[a].full.end <= kept.last().full.end) by {
                        if a < kept.len() - 1 {
                            assert(kept[a].full.end <= kept[kept.len() - 1].full.start);
                            assert(kept[kept.len() - 1].full.start <= kept[kept.len()
                                - 1].full.end);
                        }
                    }
                }
            }
        }
    }
}

/// Dropping overlaps from matches sorted by start drops only a match that starts inside one
/// that is kept.
proof fn lemma_drop_overlapping_covers(t: Seq<MatchView>)
    requires
        sorted_by_start(t),
    ensures
        forall|k: int|
            0 <= k < t.len() ==> drop_overlapping(t).contains(#[trigger] t[k]) || exists|o: int|
                0 <= o < drop_overlapping(t).len() && (#[trigger] drop_overlapping(t)[o]).full.start
                    <= t[k].full.start < drop_overlapping(t)[o].full.end,
    decreases t.len(),
{
    if t.len() > 0 {
        let front = t.drop_last();
        assert(sorted_by_start(front)) by {
            assert forall|a: int, b: int| 0 <= a < b < front.len() implies (#[trigger] front[a]).full.start
                <= (#[trigger] front[b]).full.start by {
                assert(front[a] == t[a]);
                assert(front[b] == t[b]);
            }
        }
        lemma_drop_overlapping_covers(front);
        lemma_drop_overlapping_from_input(front);
        let kept = drop_overlapping(front);
        let out = drop_overlapping(t);
        let x = t.last();
        assert(x == t[t.len() - 1]);
        assert forall|o: int| 0 <= o < kept.len() implies out[o] == #[trigger] kept[o] by {}
        assert forall|k: int| 0 <= k < t.len() implies out.contains(#[trigger] t[k]) || exists|o: int|
            0 <= o < out.len() && (#[trigger] out[o]).full.start <= t[k].full.start < out[o].full.end by {
            if k < t.len() - 1 {
                assert(t[k] == front[k]);
                if kept.contains(front[k]) {
                    let o = choose|o: int| 0 <= o < kept.len() && kept[o] == front[k];
                    assert(out[o] == kept[o]);
                } else {
                    let o = choose|o: int|
                        0 <= o < kept.len() && (#[trigger] kept[o]).full.start <= front[k].full.start
                            < kept[o].full.end;
                    assert(out[o] == kept[o]);
                }
            } else if kept.len() > 0 && x.full.start < kept.last().full.end {
                let o = kept.len() - 1;
                assert(out[o] == kept[o]);
                assert(front.contains(kept[o]));
                let q = choose|q: int| 0 <= q < front.len() && front[q] == kept[o];
                assert(t[q] == front[q]);
                assert(t[q].full.start <= t[t.len() - 1].full.start);
            } else {
                assert(out[out.len() - 1] == x);
            }
        }
    }
}

/// Every match that is kept is one of those found.
pub proof fn lemma_selected_from_found(found: Seq<MatchView>)
    ensures
        forall|i: int|
            0 <= i < selected_matches(found).len() ==> found.contains(
                #[trigger] selected_matches(found)[i],
            ),
{
    broadcast use vstd::seq_lib::group_to_multiset_ensures;

    let sorted = sort_matches(found);
    lemma_sort_matches_permutes(found);
    lemma_drop_overlapping_from_input(sorted);
    assert forall|i: int| 0 <= i < selected_matches(found).len() implies found.contains(
        #[trigger] selected_matches(found)[i],
    ) by {
        let m = selected_matches(found)[i];
        assert(sorted.contains(m));
        assert(sorted.to_multiset().count(m) > 0);
    }
}

/// The matches that are kept never overlap, provided every found range is ordered.
pub proof fn lemma_selected_matches_disjoint(found: Seq<MatchView>)
    requires
        ranges_ordered(found),
    ensures
        non_overlapping(selected_matches(found)),
        sorted_by_start(selected_matches(found)),
{
    broadcast use vstd::seq_lib::group_to_multiset_ensures;

    let sorted = sort_matches(found);
    lemma_sort_matches_permutes(found);
    assert forall|i: int| 0 <= i < sorted.len() implies (#[trigger] sorted[i]).full.start
        <= sorted[i].full.end by {
        assert(sorted.to_multiset().count(sorted[i]) > 0);
        assert(found.contains(sorted[i]));
    }
    lemma_drop_overlapping_disjoint(sorted);
    let out = selected_matches(found);
    assert forall|a: int, b: int| 0 <= a < b < out.len() implies (#[trigger] out[a]).full.start
        <= (#[trigger] out[b]).full.start by {
        assert(out[a].full.end <= out[b].full.start);
    }
}

/// A found match is dropped only when it starts inside a match that is kept.
pub proof fn lemma_selected_matches_drop_only_overlaps(found: Seq<MatchView>, m: MatchView)
    requires
        found.contains(m),
    ensures
        selected_matches(found).contains(m) || exists|o: int|
            0 <= o < selected_matches(found).len() && (#[trigger] selected_matches(found)[o]).full.start
                <= m.full.start < selected_matches(found)[o].full.end,
{
    broadcast use vstd::seq_lib::group_to_multiset_ensures;

    let sorted = sort_matches(found);
    lemma_sort_matches_permutes(found);
    lemma_sort_matches_sorted(found);
    lemma_drop_overlapping_covers(sorted);
    assert(found.to_multiset().count(m) > 0);
    assert(sorted.contains(m));
    let k = choose|k: int| 0 <= k < sorted.len() && sorted[k] == m;
    assert(sorted[k] == m);
}

} // verus!
