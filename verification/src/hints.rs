//! Hints: one per distinct selected text, each with a label typed to pick it.

use crate::grouping::{
    lemma_boundary_in_tail, lemma_group_found, lemma_group_inserted, lemma_grouping_same_groups,
};
use crate::matching::{all_lie_in_text, lies_in_text, match_views, Match, MatchView};
use crate::text::{
    compare_bytes, lex_lt, lemma_lex_lt_asymmetric, string_from_chars, Precedence,
};
use std::ops::Range;
use vstd::arithmetic::div_mod::{lemma_fundamental_div_mod, lemma_multiply_divide_lt};
use vstd::arithmetic::power::{lemma_pow1, lemma_pow_increases, pow};
use vstd::prelude::*;
use vstd::string::StringSliceAdditionalSpecFns;
use vstd::utf8::*;

verus! {

/// A label and the text it copies, with every match whose copied part is that text.
#[derive(Debug, PartialEq, Eq)]
pub struct Hint {
    pub label: String,
    pub text: String,
    pub occurrences: Vec<Match>,
}

/// A hint as a mathematical value.
pub struct HintView {
    pub label: Seq<char>,
    pub text: Seq<char>,
    pub occurrences: Seq<MatchView>,
}

impl View for Hint {
    type V = HintView;

    open spec fn view(&self) -> HintView {
        HintView {
            label: self.label@,
            text: self.text@,
            occurrences: match_views(self.occurrences@),
        }
    }
}

/// Copies a list of matches, each by its own `clone`.
pub fn clone_matches(matches: &[Match]) -> (res: Vec<Match>)
    ensures
        match_views(res@) == match_views(matches@),
{
    let mut out: Vec<Match> = Vec::new();
    for i in 0..matches.len()
        invariant
            out.len() == i,
            match_views(out@) == match_views(matches@.take(i as int)),
    {
        let ghost before = out@;
        let c = matches[i].clone();
        let ghost cv = c@;
        out.push(c);
        assert(matches@.take(i + 1) =~= matches@.take(i as int).push(matches@[i as int]));
        assert(match_views(out@) =~= match_views(before).push(cv));
        assert(match_views(matches@.take(i + 1)) =~= match_views(matches@.take(i as int)).push(
            cv,
        ));
        assert(match_views(out@) =~= match_views(matches@.take(i + 1)));
    }
    assert(matches@.take(matches.len() as int) =~= matches@);
    out
}

impl Clone for Hint {
    fn clone(&self) -> (res: Self)
        ensures
            res@ == self@,
    {
        Hint {
            label: self.label.clone(),
            text: self.text.clone(),
            occurrences: clone_matches(self.occurrences.as_slice()),
        }
    }
}

/// Why hints could not be made.
#[derive(Clone, Copy, Debug, PartialEq, Eq)]
pub enum HintError {
    /// The alphabet has fewer than two characters.
    AlphabetTooShort,
    /// A character occurs twice in the alphabet.
    AlphabetNotUnique,
    /// A match's copied range does not lie on character boundaries of the text.
    RangeNotOnCharBoundary,
}

/// No character occurs twice.
pub open spec fn distinct_chars(a: Seq<char>) -> bool {
    forall|i: int, j: int| 0 <= i < j < a.len() ==> a[i] != a[j]
}

/// What is wrong with an alphabet, if anything.
pub open spec fn alphabet_error(a: Seq<char>) -> Option<HintError> {
    if a.len() < 2 {
        Some(HintError::AlphabetTooShort)
    } else if !distinct_chars(a) {
        Some(HintError::AlphabetNotUnique)
    } else {
        None
    }
}

/// The last `width` digits of `index` written in base `alphabet.len()`, most significant first,
/// each digit spelled by the alphabet character at that position.
pub open spec fn label_digits(index: nat, width: nat, alphabet: Seq<char>) -> Seq<char>
    decreases width,
{
    if width == 0 {
        seq![]
    } else {
        label_digits(index / alphabet.len(), (width - 1) as nat, alphabet).push(
            alphabet[(index % alphabet.len()) as int],
        )
    }
}

/// `width` is the least width of at least one whose labels can tell `count` hints apart.
pub open spec fn is_label_width(base: nat, count: nat, width: nat) -> bool {
    &&& width >= 1
    &&& pow(base as int, width) >= count
    &&& (width == 1 || pow(base as int, (width - 1) as nat) < count)
}

/// The label width for `count` hints over an alphabet of `base` characters.
pub open spec fn label_width_for(base: nat, count: nat) -> nat {
    choose|w: nat| is_label_width(base, count, w)
}

/// The bytes of the text that a range selects, if it lies on character boundaries.
pub open spec fn selection_bytes(text: Seq<u8>, r: Range<usize>) -> Option<Seq<u8>> {
    if r.start <= r.end && r.end <= text.len() && is_char_boundary(text, r.start as int)
        && is_char_boundary(text, r.end as int) {
        Some(text.subrange(r.start as int, r.end as int))
    } else {
        None
    }
}

/// The copied bytes of a match.
pub open spec fn value_of(text: Seq<u8>, m: MatchView) -> Option<Seq<u8>> {
    selection_bytes(text, m.selection)
}

/// Every match selects a range on character boundaries.
pub open spec fn all_values_valid(text: Seq<u8>, ms: Seq<MatchView>) -> bool {
    forall|p: int| 0 <= p < ms.len() ==> (#[trigger] value_of(text, ms[p])) is Some
}

/// The matches, in order, whose copied bytes are `key`.
pub open spec fn occurrences_with(text: Seq<u8>, ms: Seq<MatchView>, key: Seq<u8>) -> Seq<MatchView>
    decreases ms.len(),
{
    if ms.len() == 0 {
        seq![]
    } else {
        let rest = occurrences_with(text, ms.drop_last(), key);
        if value_of(text, ms.last()) == Some(key) {
            rest.push(ms.last())
        } else {
            rest
        }
    }
}

/// The UTF-8 bytes of a hint's text, the key it is grouped and ordered by.
pub open spec fn key_of(h: HintView) -> Seq<u8> {
    encode_utf8(h.text)
}

/// The hints' keys strictly increase.
#[verifier::opaque]
pub open spec fn keys_increasing(hints: Seq<HintView>) -> bool {
    forall|i: int, j: int|
        0 <= i < j < hints.len() ==> lex_lt(#[trigger] key_of(hints[i]), #[trigger] key_of(hints[j]))
}

/// Some match copies exactly these bytes.
pub open spec fn copied_by_some(text: Seq<u8>, ms: Seq<MatchView>, key: Seq<u8>) -> bool {
    exists|p: int| 0 <= p < ms.len() && #[trigger] value_of(text, ms[p]) == Some(key)
}

/// Some hint has exactly this key.
pub open spec fn some_hint_keyed(hints: Seq<HintView>, value: Option<Seq<u8>>) -> bool {
    exists|i: int| 0 <= i < hints.len() && value == Some(key_of(#[trigger] hints[i]))
}

/// Every hint's key is the copied text of some match.
#[verifier::opaque]
pub open spec fn keys_from_matches(text: Seq<u8>, ms: Seq<MatchView>, hints: Seq<HintView>) -> bool {
    forall|i: int| 0 <= i < hints.len() ==> copied_by_some(text, ms, key_of(#[trigger] hints[i]))
}

/// Every match's copied text is the key of some hint.
#[verifier::opaque]
pub open spec fn matches_covered(text: Seq<u8>, ms: Seq<MatchView>, hints: Seq<HintView>) -> bool {
    forall|p: int| 0 <= p < ms.len() ==> some_hint_keyed(hints, value_of(text, #[trigger] ms[p]))
}

/// Every hint holds, in order, the matches whose copied text is its key.
#[verifier::opaque]
pub open spec fn occurrences_grouped(text: Seq<u8>, ms: Seq<MatchView>, hints: Seq<HintView>) -> bool {
    forall|i: int|
        0 <= i < hints.len() ==> (#[trigger] hints[i]).occurrences == occurrences_with(
            text,
            ms,
            key_of(hints[i]),
        )
}

/// The hints group the matches by copied text: one hint per distinct text, ordered by the
/// text's bytes, each holding the matches with that text in the order they were given.
pub open spec fn is_grouping(text: Seq<u8>, ms: Seq<MatchView>, hints: Seq<HintView>) -> bool {
    &&& keys_increasing(hints)
    &&& keys_from_matches(text, ms, hints)
    &&& matches_covered(text, ms, hints)
    &&& occurrences_grouped(text, ms, hints)
}

/// The hints that `generate_hints` gives for an alphabet, the text's bytes and the matches:
/// a grouping whose `i`-th label spells `i` in the least width that tells them apart.
pub open spec fn hints_for(
    alphabet: Seq<char>,
    text: Seq<u8>,
    ms: Seq<MatchView>,
    hints: Seq<HintView>,
) -> bool {
    &&& is_grouping(text, ms, hints)
    &&& forall|i: int|
        0 <= i < hints.len() ==> (#[trigger] hints[i]).label == label_digits(
            i as nat,
            label_width_for(alphabet.len(), hints.len()),
            alphabet,
        )
}

/// Views of a list of hints.
pub open spec fn hint_views(hs: Seq<Hint>) -> Seq<HintView> {
    hs.map_values(|h: Hint| h@)
}

/// Groups the matches by the text they select and labels each group.
pub fn generate_hints(alphabet: &str, text: &str, matches: &[Match]) -> (res: Result<
    Vec<Hint>,
    HintError,
>)
    ensures
        alphabet_error(alphabet@) matches Some(e) ==> res == Err::<Vec<Hint>, HintError>(e),
        alphabet_error(alphabet@) is None && !all_values_valid(
            encode_utf8(text@),
            match_views(matches@),
        ) ==> res == Err::<Vec<Hint>, HintError>(HintError::RangeNotOnCharBoundary),
        alphabet_error(alphabet@) is None && all_values_valid(
            encode_utf8(text@),
            match_views(matches@),
        ) ==> (res matches Ok(hints) && hints_for(
            alphabet@,
            encode_utf8(text@),
            match_views(matches@),
            hint_views(hints@),
        )),
{
    let letters = match validate_alphabet(alphabet) {
        Ok(a) => a,
        Err(e) => return Err(e),
    };
    let mut hints = match group_matches(text, matches) {
        Some(h) => h,
        None => return Err(HintError::RangeNotOnCharBoundary),
    };
    let ghost grouped = hint_views(hints@);
    label_hints(&mut hints, letters.as_slice());
    proof {
        lemma_grouping_same_groups(
            encode_utf8(text@),
            match_views(matches@),
            grouped,
            hint_views(hints@),
        );
    }
    Ok(hints)
}

/// Groups the matches by the bytes they select, or `None` if a range is not on character
/// boundaries.
fn group_matches(text: &str, matches: &[Match]) -> (res: Option<Vec<Hint>>)
    ensures
        res is Some <==> all_values_valid(encode_utf8(text@), match_views(matches@)),
        res matches Some(hints) ==> is_grouping(
            encode_utf8(text@),
            match_views(matches@),
            hint_views(hints@),
        ),
{
    let ghost tb = text.spec_bytes();
    let ghost ms = match_views(matches@);
    proof {
        encode_utf8_valid_utf8(text@);
    }
    let mut hints: Vec<Hint> = Vec::new();
    proof {
        reveal(keys_increasing);
        reveal(keys_from_matches);
        reveal(matches_covered);
        reveal(occurrences_grouped);
        assert(ms.take(0) =~= Seq::<MatchView>::empty());
    }
    for k in 0..matches.len()
        invariant
            tb == text.spec_bytes(),
            valid_utf8(tb),
            ms == match_views(matches@),
            all_values_valid(tb, ms.take(k as int)),
            is_grouping(tb, ms.take(k as int), hint_views(hints@)),
    {
        let m = &matches[k];
        let value = match substring(text, m.selection.start, m.selection.end) {
            Some(v) => v,
            None => {
                proof {
                    assert(value_of(tb, ms[k as int]) is None);
                }
                return None;
            },
        };
        let ghost hv = hint_views(hints@);
        assert(value_of(tb, ms[k as int]) == Some(value.spec_bytes()));
        let (j, found) = group_position(&hints, value.as_bytes());
        if found {
            add_occurrence(&mut hints, j, m);
            proof {
                lemma_group_found(tb, ms, k as int, hv, hint_views(hints@), j as int);
            }
        } else {
            insert_group(&mut hints, j, value, m);
            proof {
                lemma_group_inserted(tb, ms, k as int, hv, hint_views(hints@), j as int);
            }
        }
    }
    proof {
        assert(ms.take(matches.len() as int) =~= ms);
    }
    Some(hints)
}

/// Gives the `i`-th hint the label that spells `i` in the least width that tells them apart.
fn label_hints(hints: &mut Vec<Hint>, letters: &[char])
    requires
        alphabet_error(letters@) is None,
    ensures
        final(hints).len() == old(hints).len(),
        forall|q: int|
            0 <= q < old(hints).len() ==> (#[trigger] hint_views(final(hints)@)[q]).text
                == hint_views(old(hints)@)[q].text && hint_views(final(hints)@)[q].occurrences
                == hint_views(old(hints)@)[q].occurrences && hint_views(final(hints)@)[q].label
                == label_digits(q as nat, label_width_for(letters@.len(), old(hints)@.len()), letters@),
{
    let n = hints.len();
    let width = label_width(letters.len(), n);
    proof {
        lemma_label_width_is_chosen(letters@.len(), n as nat, width as nat);
    }
    let ghost grouped = hint_views(hints@);
    for i in 0..n
        invariant
            n == hints.len(),
            n == grouped.len(),
            alphabet_error(letters@) is None,
            width == label_width_for(letters@.len(), n as nat),
            forall|q: int|
                0 <= q < n ==> (#[trigger] hint_views(hints@)[q]).text == grouped[q].text
                    && hint_views(hints@)[q].occurrences == grouped[q].occurrences,
            forall|q: int|
                0 <= q < i ==> (#[trigger] hint_views(hints@)[q]).label == label_digits(
                    q as nat,
                    width as nat,
                    letters@,
                ),
    {
        let label = encode_label(i, width, letters);
        set_label(hints, i, label);
    }
}

/// Where a key stands among the (ordered) keys of the hints: every key before position `j` is
/// smaller, and the key at `j`, if any, is equal (`found`) or greater.
fn group_position(hints: &Vec<Hint>, key: &[u8]) -> (res: (usize, bool))
    ensures
        res.0 <= hints.len(),
        forall|i: int| 0 <= i < res.0 ==> lex_lt(key_of(hint_views(hints@)[i]), key@),
        res.1 ==> res.0 < hints.len() && key_of(hint_views(hints@)[res.0 as int]) == key@,
        !res.1 && res.0 < hints.len() ==> lex_lt(key@, key_of(hint_views(hints@)[res.0 as int])),
{
    let ghost hv = hint_views(hints@);
    let mut j: usize = 0;
    while j < hints.len()
        invariant
            j <= hints.len(),
            hv == hint_views(hints@),
            forall|i: int| 0 <= i < j ==> lex_lt(key_of(hv[i]), key@),
        decreases hints.len() - j,
    {
        assert(key_of(hv[j as int]) == encode_utf8(hints@[j as int].text@));
        match compare_bytes(hints[j].text.as_str().as_bytes(), key) {
            Precedence::Before => {
                j = j + 1;
            },
            Precedence::Same => {
                return (j, true);
            },
            Precedence::After => {
                return (j, false);
            },
        }
    }
    (j, false)
}

/// Adds a match to the occurrences of the `j`-th hint.
fn add_occurrence(hints: &mut Vec<Hint>, j: usize, m: &Match)
    requires
        j < old(hints).len(),
    ensures
        hint_views(final(hints)@) == hint_views(old(hints)@).update(
            j as int,
            HintView {
                label: hint_views(old(hints)@)[j as int].label,
                text: hint_views(old(hints)@)[j as int].text,
                occurrences: hint_views(old(hints)@)[j as int].occurrences.push(m@),
            },
        ),
{
    let mut h = hints[j].clone();
    h.occurrences.push(m.clone());
    let ghost before = hints@;
    hints.set(j, h);
    proof {
        assert(h@.occurrences =~= before[j as int]@.occurrences.push(m@));
        assert(hint_views(hints@) =~= hint_views(before).update(j as int, h@));
    }
}

/// Inserts a new hint for `value`, holding the one match, at position `j`.
fn insert_group(hints: &mut Vec<Hint>, j: usize, value: &str, m: &Match)
    requires
        j <= old(hints).len(),
    ensures
        hint_views(final(hints)@) == hint_views(old(hints)@).insert(
            j as int,
            HintView { label: Seq::empty(), text: value@, occurrences: seq![m@] },
        ),
{
    let mut occ: Vec<Match> = Vec::new();
    occ.push(m.clone());
    let h = Hint { label: String::new(), text: value.to_owned(), occurrences: occ };
    assert(h@.occurrences =~= seq![m@]);
    let ghost before = hints@;
    let ghost hv = h@;
    hints.insert(j, h);
    proof {
        assert(hint_views(hints@) =~= hint_views(before).insert(j as int, hv));
    }
}

/// Gives the `i`-th hint its label.
fn set_label(hints: &mut Vec<Hint>, i: usize, label: String)
    requires
        i < old(hints).len(),
    ensures
        final(hints).len() == old(hints).len(),
        hint_views(final(hints)@) == hint_views(old(hints)@).update(
            i as int,
            HintView {
                label: label@,
                text: hint_views(old(hints)@)[i as int].text,
                occurrences: hint_views(old(hints)@)[i as int].occurrences,
            },
        ),
{
    let mut h = hints[i].clone();
    h.label = label;
    let ghost before = hints@;
    hints.set(i, h);
    proof {
        assert(hint_views(hints@) =~= hint_views(before).update(i as int, h@));
    }
}

/// The bytes `start..end` of a string slice, when both ends lie on character boundaries.
fn substring(text: &str, start: usize, end: usize) -> (res: Option<&str>)
    ensures
        res matches Some(s) ==> selection_bytes(text.spec_bytes(), start..end) == Some(
            s.spec_bytes(),
        ),
        res is None ==> selection_bytes(text.spec_bytes(), start..end) is None,
{
    proof {
        encode_utf8_valid_utf8(text@);
    }
    if start <= end && text.is_char_boundary(start) && text.is_char_boundary(end) {
        let (_, tail) = text.split_at(start);
        proof {
            lemma_boundary_in_tail(text.spec_bytes(), start as int, end as int);
        }
        let (mid, _) = tail.split_at(end - start);
        proof {
            assert(mid.spec_bytes() =~= text.spec_bytes().subrange(start as int, end as int));
        }
        Some(mid)
    } else {
        None
    }
}

/// Checks that the alphabet has at least two characters and none twice.
fn validate_alphabet(alphabet: &str) -> (res: Result<Vec<char>, HintError>)
    ensures
        res matches Ok(v) ==> alphabet_error(alphabet@) is None && v@ == alphabet@,
        res matches Err(e) ==> alphabet_error(alphabet@) == Some(e),
{
    let chars = crate::text::chars_of(alphabet);
    if chars.len() < 2 {
        return Err(HintError::AlphabetTooShort);
    }
    for i in 0..chars.len()
        invariant
            chars@ == alphabet@,
            forall|a: int, b: int| 0 <= a < b < chars.len() && a < i ==> chars@[a] != chars@[b],
    {
        for j in i + 1..chars.len()
            invariant
                chars@ == alphabet@,
                i < chars.len(),
                forall|a: int, b: int|
                    0 <= a < b < chars.len() && a < i ==> chars@[a] != chars@[b],
                forall|b: int| i < b < j ==> chars@[i as int] != chars@[b],
        {
            if chars[i] == chars[j] {
                return Err(HintError::AlphabetNotUnique);
            }
        }
    }
    Ok(chars)
}

/// The least width, at least one, whose labels over `base` characters tell `count` hints apart.
fn label_width(base: usize, count: usize) -> (width: usize)
    requires
        base >= 2,
    ensures
        is_label_width(base as nat, count as nat, width as nat),
{
    let mut width: usize = 1;
    let mut capacity: usize = base;
    proof {
        lemma_pow1(base as int);
    }
    while capacity < count
        invariant
            base >= 2,
            width >= 1,
            2 <= capacity,
            width <= capacity,
            capacity <= pow(base as int, width as nat),
            capacity == pow(base as int, width as nat) || capacity == usize::MAX,
            width == 1 || pow(base as int, (width - 1) as nat) < count,
        decreases usize::MAX - capacity,
    {
        proof {
            reveal(pow);
            assert(pow(base as int, (width + 1) as nat) == base * pow(base as int, width as nat));
            assert(capacity * base >= 2 * capacity && capacity * base == base * capacity)
                by (nonlinear_arith)
                requires
                    base >= 2,
                    capacity >= 0,
            ;
        }
        let ghost before = capacity;
        width = width + 1;
        capacity = match capacity.checked_mul(base) {
            Some(c) => c,
            None => usize::MAX,
        };
        assert(capacity > before);
    }
    width
}

proof fn lemma_label_width_unique(base: nat, count: nat, w1: nat, w2: nat)
    requires
        base >= 2,
        is_label_width(base, count, w1),
        is_label_width(base, count, w2),
    ensures
        w1 == w2,
{
    if w1 < w2 {
        lemma_pow_increases(base, w1, (w2 - 1) as nat);
    } else if w2 < w1 {
        lemma_pow_increases(base, w2, (w1 - 1) as nat);
    }
}

proof fn lemma_label_width_is_chosen(base: nat, count: nat, width: nat)
    requires
        base >= 2,
        is_label_width(base, count, width),
    ensures
        label_width_for(base, count) == width,
{
    let w = label_width_for(base, count);
    lemma_label_width_unique(base, count, w, width);
}

/// Spells `index` in `width` digits of base `alphabet.len()`.
fn encode_label(index: usize, width: usize, alphabet: &[char]) -> (res: String)
    requires
        alphabet.len() >= 1,
    ensures
        res@ == label_digits(index as nat, width as nat, alphabet@),
{
    let mut label: Vec<char> = vec![alphabet[0]; width];
    let mut rest = index;
    let mut place = width;
    assert(label@.subrange(width as int, width as int) =~= Seq::<char>::empty());
    while place > 0
        invariant
            place <= width,
            label.len() == width,
            alphabet.len() >= 1,
            label_digits(index as nat, width as nat, alphabet@) == label_digits(
                rest as nat,
                place as nat,
                alphabet@,
            ) + label@.subrange(place as int, width as int),
        decreases place,
    {
        let ghost before = label@;
        let digit = alphabet[rest % alphabet.len()];
        place = place - 1;
        label.set(place, digit);
        proof {
            assert(label@.subrange(place as int, width as int) =~= seq![digit] + before.subrange(
                place + 1,
                width as int,
            ));
            assert(label_digits(rest as nat, (place + 1) as nat, alphabet@) == label_digits(
                (rest / alphabet.len()) as nat,
                place as nat,
                alphabet@,
            ).push(digit));
            assert(label_digits(rest as nat, (place + 1) as nat, alphabet@) + before.subrange(
                place + 1,
                width as int,
            ) =~= label_digits((rest / alphabet.len()) as nat, place as nat, alphabet@)
                + label@.subrange(place as int, width as int));
        }
        rest = rest / alphabet.len();
    }
    assert(label@.subrange(0, width as int) =~= label@);
    string_from_chars(label.as_slice())
}

/// `p` is a prefix of `s`.
pub open spec fn is_prefix_of(p: Seq<char>, s: Seq<char>) -> bool {
    p.len() <= s.len() && s.subrange(0, p.len() as int) == p
}

proof fn lemma_label_digits_len(index: nat, width: nat, alphabet: Seq<char>)
    requires
        alphabet.len() > 0,
    ensures
        label_digits(index, width, alphabet).len() == width,
    decreases width,
{
    if width > 0 {
        let w1 = (width - 1) as nat;
        lemma_label_digits_len(index / alphabet.len(), w1, alphabet);
        assert(label_digits(index, width, alphabet) == label_digits(
            index / alphabet.len(),
            w1,
            alphabet,
        ).push(alphabet[(index % alphabet.len()) as int]));
    }
}

proof fn lemma_label_digits_distinct(i: nat, j: nat, width: nat, alphabet: Seq<char>)
    requires
        alphabet.len() >= 2,
        distinct_chars(alphabet),
        i != j,
        i < pow(alphabet.len() as int, width),
        j < pow(alphabet.len() as int, width),
    ensures
        label_digits(i, width, alphabet) != label_digits(j, width, alphabet),
    decreases width,
{
    let b = alphabet.len() as int;
    reveal(pow);
    if width == 0 {
    } else {
        let w1 = (width - 1) as nat;
        lemma_label_digits_len(i / alphabet.len(), w1, alphabet);
        lemma_label_digits_len(j / alphabet.len(), w1, alphabet);
        let li = label_digits(i, width, alphabet);
        let lj = label_digits(j, width, alphabet);
        if i % alphabet.len() != j % alphabet.len() {
            assert(li[w1 as int] != lj[w1 as int]);
        } else {
            lemma_fundamental_div_mod(i as int, b);
            lemma_fundamental_div_mod(j as int, b);
            assert(i / alphabet.len() != j / alphabet.len());
            assert(pow(b, width) == b * pow(b, w1));
            lemma_multiply_divide_lt(i as int, b, pow(b, w1));
            lemma_multiply_divide_lt(j as int, b, pow(b, w1));
            lemma_label_digits_distinct(i / alphabet.len(), j / alphabet.len(), w1, alphabet);
            assert(li.drop_last() =~= label_digits(i / alphabet.len(), w1, alphabet));
            assert(lj.drop_last() =~= label_digits(j / alphabet.len(), w1, alphabet));
        }
    }
}

proof fn lemma_pow_at_least_exponent(base: nat, e: nat)
    requires
        base >= 2,
    ensures
        pow(base as int, e) >= e + 1,
    decreases e,
{
    reveal(pow);
    if e > 0 {
        let p = pow(base as int, (e - 1) as nat);
        lemma_pow_at_least_exponent(base, (e - 1) as nat);
        assert(pow(base as int, e) == base * p);
        assert(base * p >= 2 * p) by (nonlinear_arith)
            requires
                base >= 2,
                p >= 0,
        ;
    }
}

proof fn lemma_label_width_exists_below(base: nat, count: nat, w: nat)
    requires
        base >= 2,
        w >= 1,
        pow(base as int, w) >= count,
    ensures
        exists|v: nat| is_label_width(base, count, v),
    decreases w,
{
    if w == 1 || pow(base as int, (w - 1) as nat) < count {
        assert(is_label_width(base, count, w));
    } else {
        lemma_label_width_exists_below(base, count, (w - 1) as nat);
    }
}

/// There is a label width for every count of hints over an alphabet of two or more characters.
pub proof fn lemma_label_width_exists(base: nat, count: nat)
    requires
        base >= 2,
    ensures
        is_label_width(base, count, label_width_for(base, count)),
{
    lemma_pow_at_least_exponent(base, count + 1);
    lemma_label_width_exists_below(base, count, count + 1);
}

/// Labels tell hints apart: no label of a hint made by `generate_hints` is a prefix of the
/// label of another, so typing a whole label never passes through another one.
pub proof fn lemma_labels_prefix_free(
    alphabet: Seq<char>,
    text: Seq<u8>,
    ms: Seq<MatchView>,
    hints: Seq<HintView>,
    i: int,
    j: int,
)
    requires
        alphabet_error(alphabet) is None,
        hints_for(alphabet, text, ms, hints),
        0 <= i < hints.len(),
        0 <= j < hints.len(),
        i != j,
    ensures
        !is_prefix_of(hints[i].label, hints[j].label),
{
    let base = alphabet.len();
    let n = hints.len();
    let w = label_width_for(base, n);
    lemma_label_width_exists(base, n);
    lemma_label_digits_len(i as nat, w, alphabet);
    lemma_label_digits_len(j as nat, w, alphabet);
    lemma_label_digits_distinct(i as nat, j as nat, w, alphabet);
    let li = hints[i].label;
    let lj = hints[j].label;
    assert(li == label_digits(i as nat, w, alphabet));
    assert(lj == label_digits(j as nat, w, alphabet));
    if is_prefix_of(li, lj) {
        assert(lj.subrange(0, li.len() as int) =~= lj);
    }
}

/// Matches that lie in the text, as those `MatcherSet::find` returns, all copy whole
/// characters of it: hints for them never fail on a range.
pub proof fn lemma_matches_in_text_have_values(text: Seq<u8>, ms: Seq<MatchView>)
    requires
        all_lie_in_text(text, ms),
    ensures
        all_values_valid(text, ms),
{
    assert forall|p: int| 0 <= p < ms.len() implies (#[trigger] value_of(text, ms[p])) is Some by {
        assert(lies_in_text(text, ms[p]));
    }
}

} // verus!
