//! Character and byte-string helpers shared by the rest of the library.

use vstd::prelude::*;

verus! {

/// Lexicographic "strictly less" on byte strings, the order of `str` and `String`.
pub open spec fn lex_lt(a: Seq<u8>, b: Seq<u8>) -> bool
    decreases a.len(),
{
    if a.len() == 0 {
        b.len() > 0
    } else if b.len() == 0 {
        false
    } else if a[0] < b[0] {
        true
    } else if a[0] > b[0] {
        false
    } else {
        lex_lt(a.drop_first(), b.drop_first())
    }
}

pub proof fn lemma_lex_lt_irreflexive(a: Seq<u8>)
    ensures
        !lex_lt(a, a),
    decreases a.len(),
{
    if a.len() > 0 {
        lemma_lex_lt_irreflexive(a.drop_first());
    }
}

pub proof fn lemma_lex_lt_transitive(a: Seq<u8>, b: Seq<u8>, c: Seq<u8>)
    requires
        lex_lt(a, b),
        lex_lt(b, c),
    ensures
        lex_lt(a, c),
    decreases a.len(),
{
    if a.len() > 0 && b.len() > 0 && c.len() > 0 {
        if a[0] == b[0] && b[0] == c[0] {
            lemma_lex_lt_transitive(a.drop_first(), b.drop_first(), c.drop_first());
        }
    }
}

pub proof fn lemma_lex_lt_total(a: Seq<u8>, b: Seq<u8>)
    ensures
        a == b || lex_lt(a, b) || lex_lt(b, a),
    decreases a.len(),
{
    if a.len() > 0 && b.len() > 0 && a[0] == b[0] {
        lemma_lex_lt_total(a.drop_first(), b.drop_first());
        if a.drop_first() == b.drop_first() {
            assert(a =~= seq![a[0]] + a.drop_first());
            assert(b =~= seq![b[0]] + b.drop_first());
        }
    } else if a.len() == 0 && b.len() == 0 {
        assert(a =~= b);
    }
}

pub proof fn lemma_lex_lt_asymmetric(a: Seq<u8>, b: Seq<u8>)
    requires
        lex_lt(a, b),
    ensures
        !lex_lt(b, a),
{
    if lex_lt(b, a) {
        lemma_lex_lt_transitive(a, b, a);
        lemma_lex_lt_irreflexive(a);
    }
}

/// How one byte string stands to another in the lexicographic order.
#[derive(Clone, Copy, Debug, PartialEq, Eq)]
pub enum Precedence {
    Before,
    Same,
    After,
}

/// Compares two byte strings lexicographically.
pub fn compare_bytes(a: &[u8], b: &[u8]) -> (res: Precedence)
    ensures
        res == Precedence::Before <==> lex_lt(a@, b@),
        res == Precedence::Same <==> a@ == b@,
        res == Precedence::After <==> lex_lt(b@, a@),
{
    proof {
        lemma_lex_lt_total(a@, b@);
        lemma_lex_lt_irreflexive(a@);
        if lex_lt(a@, b@) {
            lemma_lex_lt_asymmetric(a@, b@);
        }
    }
    let mut i: usize = 0;
    assert(a@.skip(0) =~= a@);
    assert(b@.skip(0) =~= b@);
    while i < a.len() && i < b.len()
        invariant
            i <= a.len(),
            i <= b.len(),
            a@.take(i as int) == b@.take(i as int),
            lex_lt(a@, b@) == lex_lt(a@.skip(i as int), b@.skip(i as int)),
            lex_lt(b@, a@) == lex_lt(b@.skip(i as int), a@.skip(i as int)),
        decreases a.len() - i,
    {
        if a[i] < b[i] {
            assert(lex_lt(a@.skip(i as int), b@.skip(i as int)));
            assert(!lex_lt(b@.skip(i as int), a@.skip(i as int)));
            assert(a@[i as int] != b@[i as int]);
            return Precedence::Before;
        }
        if a[i] > b[i] {
            assert(lex_lt(b@.skip(i as int), a@.skip(i as int)));
            assert(!lex_lt(a@.skip(i as int), b@.skip(i as int)));
            assert(a@[i as int] != b@[i as int]);
            return Precedence::After;
        }
        assert(a@.skip(i as int).drop_first() =~= a@.skip(i + 1));
        assert(b@.skip(i as int).drop_first() =~= b@.skip(i + 1));
        assert(a@.take(i + 1) =~= a@.take(i as int).push(a@[i as int]));
        assert(b@.take(i + 1) =~= b@.take(i as int).push(b@[i as int]));
        i = i + 1;
    }
    if a.len() == b.len() {
        assert(a@ =~= a@.take(i as int));
        assert(b@ =~= b@.take(i as int));
        Precedence::Same
    } else if i == a.len() {
        assert(lex_lt(a@.skip(i as int), b@.skip(i as int)));
        assert(a@.len() != b@.len());
        Precedence::Before
    } else {
        assert(lex_lt(b@.skip(i as int), a@.skip(i as int)));
        assert(a@.len() != b@.len());
        Precedence::After
    }
}

/// Whether two string slices hold the same characters.
pub fn str_eq(a: &str, b: &str) -> (res: bool)
    ensures
        res == (a@ == b@),
{
    proof {
        vstd::utf8::encode_utf8_decode_utf8(a@);
        vstd::utf8::encode_utf8_decode_utf8(b@);
    }
    match compare_bytes(a.as_bytes(), b.as_bytes()) {
        Precedence::Same => true,
        _ => false,
    }
}

/// The characters `v[start..end]`.
pub fn sub_chars(v: &[char], start: usize, end: usize) -> (res: Vec<char>)
    requires
        start <= end <= v.len(),
    ensures
        res@ == v@.subrange(start as int, end as int),
{
    let mut out: Vec<char> = Vec::new();
    for i in start..end
        invariant
            start <= end <= v.len(),
            out@ == v@.subrange(start as int, i as int),
    {
        out.push(v[i]);
        assert(v@.subrange(start as int, i + 1) =~= v@.subrange(start as int, i as int).push(v@[i as int]));
    }
    out
}

/// The characters of a string slice, in order.
pub fn chars_of(s: &str) -> (res: Vec<char>)
    ensures
        res@ == s@,
{
    broadcast use vstd::string::group_string_axioms;

    let mut out: Vec<char> = Vec::new();
    for c in it: s.chars()
        invariant
            it.seq() == s@,
            out@ == it.seq().take(it.index() as int),
    {
        out.push(c);
    }
    assert(out@ =~= s@);
    out
}

/// What `char::is_uppercase` gives for a character (its Unicode `Uppercase` property).
pub uninterp spec fn char_is_uppercase(c: char) -> bool;

/// What `char::to_lowercase` yields for a character, collected.
pub uninterp spec fn char_lowercase(c: char) -> Seq<char>;

/// What `char::to_uppercase` yields for a character, collected.
pub uninterp spec fn char_uppercase(c: char) -> Seq<char>;

/// What `char::is_whitespace` gives for a character (its Unicode `White_Space` property).
pub uninterp spec fn char_is_whitespace(c: char) -> bool;

/// Whether a character is uppercase: among ASCII characters exactly `'A'..='Z'`.
pub open spec fn is_upper(c: char) -> bool {
    if (c as u32) < 128 {
        'A' <= c && c <= 'Z'
    } else {
        char_is_uppercase(c)
    }
}

/// The first character of a character's lowercase form: among ASCII characters, `'A'..='Z'`
/// become `'a'..='z'` and the others stay.
pub open spec fn lower_first(c: char) -> char {
    if 'A' <= c && c <= 'Z' {
        ((c as u32) + 32) as char
    } else if (c as u32) < 128 {
        c
    } else if char_lowercase(c).len() > 0 {
        char_lowercase(c)[0]
    } else {
        c
    }
}

/// The first character of a character's uppercase form: among ASCII characters, `'a'..='z'`
/// become `'A'..='Z'` and the others stay.
pub open spec fn upper_first(c: char) -> char {
    if 'a' <= c && c <= 'z' {
        ((c as u32) - 32) as char
    } else if (c as u32) < 128 {
        c
    } else if char_uppercase(c).len() > 0 {
        char_uppercase(c)[0]
    } else {
        c
    }
}

/// Whether a character is white space: among ASCII characters exactly space and
/// `'\t'..='\r'`.
pub open spec fn is_white(c: char) -> bool {
    if (c as u32) < 128 {
        c == ' ' || ('\t' <= c && c <= '\r')
    } else {
        char_is_whitespace(c)
    }
}

/// Calls `char::is_uppercase`. Claimed: the result depends on `c` alone, and among ASCII
/// characters it holds exactly of `'A'..='Z'`.
#[verifier::external_body]
pub(crate) fn is_uppercase(c: char) -> (res: bool)
    ensures
        res == char_is_uppercase(c),
        (c as u32) < 128 ==> (res <==> ('A' <= c && c <= 'Z')),
{
    c.is_uppercase()
}

/// Calls `char::to_lowercase` and collects what it yields. Claimed: the result depends on `c`
/// alone, is never empty ("one or more chars"), maps `'A'..='Z'` to `'a'..='z'` and leaves
/// every other ASCII character unchanged.
#[verifier::external_body]
pub(crate) fn to_lowercase(c: char) -> (res: Vec<char>)
    ensures
        res@ == char_lowercase(c),
        res@.len() >= 1,
        'A' <= c && c <= 'Z' ==> res@ == seq![((c as u32) + 32) as char],
        (c as u32) < 128 && !('A' <= c && c <= 'Z') ==> res@ == seq![c],
{
    c.to_lowercase().collect()
}

/// Calls `char::to_uppercase` and collects what it yields. Claimed: the result depends on `c`
/// alone, is never empty, maps `'a'..='z'` to `'A'..='Z'` and leaves every other ASCII
/// character unchanged.
#[verifier::external_body]
pub(crate) fn to_uppercase(c: char) -> (res: Vec<char>)
    ensures
        res@ == char_uppercase(c),
        res@.len() >= 1,
        'a' <= c && c <= 'z' ==> res@ == seq![((c as u32) - 32) as char],
        (c as u32) < 128 && !('a' <= c && c <= 'z') ==> res@ == seq![c],
{
    c.to_uppercase().collect()
}

/// Calls `char::is_whitespace`. Claimed: the result depends on `c` alone, and among ASCII
/// characters it holds exactly of space and `'\t'`, `'\n'`, `'\x0B'`, `'\x0C'`, `'\r'`.
#[verifier::external_body]
pub(crate) fn is_whitespace(c: char) -> (res: bool)
    ensures
        res == char_is_whitespace(c),
        (c as u32) < 128 ==> (res <==> (c == ' ' || ('\t' <= c && c <= '\r'))),
{
    c.is_whitespace()
}

/// Builds a `String` from characters (`FromIterator<char>` for `String`). Claimed: the
/// string holds exactly those characters, in order.
#[verifier::external_body]
pub(crate) fn string_from_chars(chars: &[char]) -> (res: String)
    ensures
        res@ == chars@,
{
    chars.iter().collect()
}

/// Calls `String::push`. Claimed: the character is appended.
#[verifier::external_body]
pub(crate) fn string_push(s: &mut String, c: char)
    ensures
        final(s)@ == old(s)@.push(c),
{
    s.push(c)
}

/// Calls `String::pop`. Claimed: the last character is removed and returned, and an empty
/// string is left unchanged with `None`.
#[verifier::external_body]
pub(crate) fn string_pop(s: &mut String) -> (res: Option<char>)
    ensures
        old(s)@.len() == 0 ==> res is None && final(s)@ == old(s)@,
        old(s)@.len() > 0 ==> res == Some(old(s)@.last()) && final(s)@ == old(s)@.drop_last(),
{
    s.pop()
}

} // verus!
