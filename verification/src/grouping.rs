//! Proofs that grouping matches by copied text, one match at a time, keeps a grouping.

use crate::hints::{
    copied_by_some, is_grouping, key_of, some_hint_keyed, keys_from_matches, keys_increasing, matches_covered, occurrences_grouped,
    occurrences_with, value_of, all_values_valid, HintView,
};
use crate::matching::MatchView;
use crate::text::{lex_lt, lemma_lex_lt_irreflexive, lemma_lex_lt_transitive};
use vstd::prelude::*;
use vstd::utf8::*;

verus! {

pub(crate) proof fn lemma_boundary_in_tail(bytes: Seq<u8>, start: int, end: int)
    requires
        valid_utf8(bytes),
        0 <= start <= end <= bytes.len(),
        is_char_boundary(bytes, start),
        is_char_boundary(bytes, end),
    ensures
        is_char_boundary(bytes.subrange(start, bytes.len() as int), end - start),
{
    let tail = bytes.subrange(start, bytes.len() as int);
    valid_utf8_split(bytes, start);
    is_char_boundary_start_end_of_seq(tail);
    if start < end && end < bytes.len() {
        is_char_boundary_iff_not_is_continuation_byte(bytes, end);
        is_char_boundary_iff_not_is_continuation_byte(tail, end - start);
        assert(tail[end - start] == bytes[end]);
    }
}

pub(crate) proof fn lemma_occurrences_step(text: Seq<u8>, ms: Seq<MatchView>, k: int, key: Seq<u8>)
    requires
        0 <= k < ms.len(),
    ensures
        occurrences_with(text, ms.take(k + 1), key) == (if value_of(text, ms[k]) == Some(key) {
            occurrences_with(text, ms.take(k), key).push(ms[k])
        } else {
            occurrences_with(text, ms.take(k), key)
        }),
{
    assert(ms.take(k + 1).drop_last() =~= ms.take(k));
    assert(ms.take(k + 1).last() == ms[k]);
}

pub(crate) proof fn lemma_occurrences_none(text: Seq<u8>, ms: Seq<MatchView>, key: Seq<u8>)
    requires
        forall|p: int| 0 <= p < ms.len() ==> value_of(text, #[trigger] ms[p]) != Some(key),
    ensures
        occurrences_with(text, ms, key) == Seq::<MatchView>::empty(),
    decreases ms.len(),
{
    if ms.len() > 0 {
        let front = ms.drop_last();
        assert forall|p: int| 0 <= p < front.len() implies value_of(text, #[trigger] front[p])
            != Some(key) by {
            assert(front[p] == ms[p]);
        }
        lemma_occurrences_none(text, front, key);
        assert(value_of(text, ms[ms.len() - 1]) != Some(key));
    }
}

pub(crate) proof fn lemma_values_valid_step(text: Seq<u8>, ms: Seq<MatchView>, k: int)
    requires
        0 <= k < ms.len(),
        all_values_valid(text, ms.take(k)),
        value_of(text, ms[k]) is Some,
    ensures
        all_values_valid(text, ms.take(k + 1)),
{
    let m0 = ms.take(k);
    let m1 = ms.take(k + 1);
    assert forall|p: int| 0 <= p < m1.len() implies (#[trigger] value_of(text, m1[p])) is Some by {
        if p < k {
            assert(m1[p] == m0[p]);
            assert(value_of(text, m0[p]) is Some);
        }
    }
}

/// Hints with the same keys and occurrences as a grouping are a grouping too.
pub(crate) proof fn lemma_grouping_same_groups(
    text: Seq<u8>,
    ms: Seq<MatchView>,
    a: Seq<HintView>,
    b: Seq<HintView>,
)
    requires
        is_grouping(text, ms, a),
        b.len() == a.len(),
        forall|q: int|
            0 <= q < a.len() ==> (#[trigger] b[q]).text == a[q].text && b[q].occurrences
                == a[q].occurrences,
    ensures
        is_grouping(text, ms, b),
{
    assert forall|q: int| 0 <= q < a.len() implies key_of(#[trigger] b[q]) == key_of(a[q]) by {
        assert(b[q].text == a[q].text);
    }
    lemma_same_keys_increasing(a, b);
    lemma_same_keys_from_matches(text, ms, a, b);
    lemma_same_keys_covered(text, ms, a, b);
    lemma_same_occurrences(text, ms, a, b);
}

proof fn lemma_same_keys_from_matches(text: Seq<u8>, ms: Seq<MatchView>, a: Seq<HintView>, b: Seq<HintView>)
    requires
        keys_from_matches(text, ms, a),
        b.len() == a.len(),
        forall|q: int| 0 <= q < a.len() ==> key_of(#[trigger] b[q]) == key_of(a[q]),
    ensures
        keys_from_matches(text, ms, b),
{
    reveal(keys_from_matches);
    assert forall|i: int| 0 <= i < b.len() implies copied_by_some(text, ms, key_of(#[trigger] b[i])) by {
        assert(key_of(b[i]) == key_of(a[i]));
        assert(copied_by_some(text, ms, key_of(a[i])));
    }
}

/// Keys copied by some match of a prefix are copied by some match of a longer prefix.
proof fn lemma_keys_from_matches_grow(text: Seq<u8>, ms: Seq<MatchView>, k: int, hs: Seq<HintView>)
    requires
        0 <= k < ms.len(),
        keys_from_matches(text, ms.take(k), hs),
    ensures
        keys_from_matches(text, ms.take(k + 1), hs),
{
    reveal(keys_from_matches);
    assert forall|i: int| 0 <= i < hs.len() implies copied_by_some(
        text,
        ms.take(k + 1),
        key_of(#[trigger] hs[i]),
    ) by {
        assert(copied_by_some(text, ms.take(k), key_of(hs[i])));
        let p = choose|p: int|
            0 <= p < ms.take(k).len() && #[trigger] value_of(text, ms.take(k)[p]) == Some(
                key_of(hs[i]),
            );
        assert(ms.take(k + 1)[p] == ms.take(k)[p]);
    }
}

/// A grouping with the same keys at the same places covers the same matches.
pub(crate) proof fn lemma_some_hint_keyed_same(a: Seq<HintView>, b: Seq<HintView>, v: Option<Seq<u8>>)
    requires
        some_hint_keyed(a, v),
        b.len() == a.len(),
        forall|q: int| 0 <= q < a.len() ==> key_of(#[trigger] b[q]) == key_of(a[q]),
    ensures
        some_hint_keyed(b, v),
{
    let i = choose|i: int| 0 <= i < a.len() && v == Some(key_of(#[trigger] a[i]));
    assert(key_of(b[i]) == key_of(a[i]));
}

proof fn lemma_same_keys_covered(text: Seq<u8>, ms: Seq<MatchView>, a: Seq<HintView>, b: Seq<HintView>)
    requires
        matches_covered(text, ms, a),
        b.len() == a.len(),
        forall|q: int| 0 <= q < a.len() ==> key_of(#[trigger] b[q]) == key_of(a[q]),
    ensures
        matches_covered(text, ms, b),
{
    reveal(matches_covered);
    assert forall|p: int| 0 <= p < ms.len() implies some_hint_keyed(b, value_of(text, #[trigger] ms[p])) by {
        lemma_some_hint_keyed_same(a, b, value_of(text, ms[p]));
    }
}

proof fn lemma_same_occurrences(text: Seq<u8>, ms: Seq<MatchView>, a: Seq<HintView>, b: Seq<HintView>)
    requires
        occurrences_grouped(text, ms, a),
        b.len() == a.len(),
        forall|q: int|
            0 <= q < a.len() ==> key_of(#[trigger] b[q]) == key_of(a[q]) && b[q].occurrences
                == a[q].occurrences,
    ensures
        occurrences_grouped(text, ms, b),
{
    reveal(occurrences_grouped);
    assert forall|i: int| 0 <= i < b.len() implies (#[trigger] b[i]).occurrences
        == occurrences_with(text, ms, key_of(b[i])) by {
        assert(key_of(b[i]) == key_of(a[i]));
        assert(a[i].occurrences == occurrences_with(text, ms, key_of(a[i])));
    }
}

/// Hints with the same keys as before, in the same order.
pub(crate) proof fn lemma_same_keys_increasing(old_hs: Seq<HintView>, new_hs: Seq<HintView>)
    requires
        keys_increasing(old_hs),
        new_hs.len() == old_hs.len(),
        forall|i: int| 0 <= i < old_hs.len() ==> key_of(#[trigger] new_hs[i]) == key_of(old_hs[i]),
    ensures
        keys_increasing(new_hs),
{
    reveal(keys_increasing);
    assert forall|i: int, q: int| 0 <= i < q < new_hs.len() implies lex_lt(
        #[trigger] key_of(new_hs[i]),
        #[trigger] key_of(new_hs[q]),
    ) by {
        assert(key_of(new_hs[i]) == key_of(old_hs[i]));
        assert(key_of(new_hs[q]) == key_of(old_hs[q]));
    }
}

/// Distinct positions of increasing keys hold distinct keys.
pub(crate) proof fn lemma_increasing_keys_distinct(hs: Seq<HintView>, i: int, j: int)
    requires
        keys_increasing(hs),
        0 <= i < hs.len(),
        0 <= j < hs.len(),
        i != j,
    ensures
        key_of(hs[i]) != key_of(hs[j]),
{
    reveal(keys_increasing);
    lemma_lex_lt_irreflexive(key_of(hs[i]));
    if i < j {
        assert(lex_lt(key_of(hs[i]), key_of(hs[j])));
    } else {
        assert(lex_lt(key_of(hs[j]), key_of(hs[i])));
    }
}

/// Adding the `k`-th match to the group whose key it has keeps a grouping of the prefix.
pub(crate) proof fn lemma_group_found(
    text: Seq<u8>,
    ms: Seq<MatchView>,
    k: int,
    old_hs: Seq<HintView>,
    new_hs: Seq<HintView>,
    j: int,
)
    requires
        0 <= k < ms.len(),
        all_values_valid(text, ms.take(k)),
        is_grouping(text, ms.take(k), old_hs),
        0 <= j < old_hs.len(),
        value_of(text, ms[k]) == Some(key_of(old_hs[j])),
        new_hs == old_hs.update(
            j,
            HintView {
                label: old_hs[j].label,
                text: old_hs[j].text,
                occurrences: old_hs[j].occurrences.push(ms[k]),
            },
        ),
    ensures
        all_values_valid(text, ms.take(k + 1)),
        is_grouping(text, ms.take(k + 1), new_hs),
{
    let m0 = ms.take(k);
    let m1 = ms.take(k + 1);
    lemma_values_valid_step(text, ms, k);
    assert forall|i: int| 0 <= i < old_hs.len() implies key_of(#[trigger] new_hs[i]) == key_of(
        old_hs[i],
    ) by {}
    lemma_same_keys_increasing(old_hs, new_hs);
    lemma_same_keys_from_matches(text, m0, old_hs, new_hs);
    lemma_keys_from_matches_grow(text, ms, k, new_hs);
    assert(matches_covered(text, m1, new_hs)) by {
        reveal(matches_covered);
        assert forall|p: int| 0 <= p < m1.len() implies some_hint_keyed(
            new_hs,
            value_of(text, #[trigger] m1[p]),
        ) by {
            if p < k {
                assert(m1[p] == m0[p]);
                lemma_some_hint_keyed_same(old_hs, new_hs, value_of(text, m0[p]));
            } else {
                assert(m1[p] == ms[k]);
                assert(key_of(new_hs[j]) == key_of(old_hs[j]));
            }
        }
    }
    assert(occurrences_grouped(text, m1, new_hs)) by {
        reveal(occurrences_grouped);
        assert forall|i: int| 0 <= i < new_hs.len() implies (#[trigger] new_hs[i]).occurrences
            == occurrences_with(text, m1, key_of(new_hs[i])) by {
            lemma_occurrences_step(text, ms, k, key_of(old_hs[i]));
            assert(old_hs[i].occurrences == occurrences_with(text, m0, key_of(old_hs[i])));
            if i != j {
                lemma_increasing_keys_distinct(old_hs, i, j);
            }
        }
    }
}

/// Starting a new group for the `k`-th match at the place its key belongs keeps a grouping.
pub(crate) proof fn lemma_group_inserted(
    text: Seq<u8>,
    ms: Seq<MatchView>,
    k: int,
    old_hs: Seq<HintView>,
    new_hs: Seq<HintView>,
    j: int,
)
    requires
        0 <= k < ms.len(),
        all_values_valid(text, ms.take(k)),
        is_grouping(text, ms.take(k), old_hs),
        0 <= j <= old_hs.len(),
        value_of(text, ms[k]) is Some,
        forall|i: int| 0 <= i < j ==> lex_lt(key_of(old_hs[i]), value_of(text, ms[k])->0),
        j < old_hs.len() ==> lex_lt(value_of(text, ms[k])->0, key_of(old_hs[j])),
        new_hs == old_hs.insert(j, new_hs[j]),
        key_of(new_hs[j]) == value_of(text, ms[k])->0,
        new_hs[j].occurrences == seq![ms[k]],
    ensures
        all_values_valid(text, ms.take(k + 1)),
        is_grouping(text, ms.take(k + 1), new_hs),
{
    old_hs.insert_ensures(j, new_hs[j]);
    let m0 = ms.take(k);
    let m1 = ms.take(k + 1);
    let v = value_of(text, ms[k])->0;
    lemma_values_valid_step(text, ms, k);
    lemma_inserted_key_placed(old_hs, v, j);
    assert(keys_increasing(new_hs)) by {
        lemma_inserted_keys_increasing(old_hs, new_hs, v, j);
    }
    lemma_keys_from_matches_grow(text, ms, k, old_hs);
    assert(keys_from_matches(text, m1, new_hs)) by {
        reveal(keys_from_matches);
        assert forall|i: int| 0 <= i < new_hs.len() implies copied_by_some(
            text,
            m1,
            key_of(#[trigger] new_hs[i]),
        ) by {
            if i == j {
                assert(m1[k] == ms[k]);
                assert(value_of(text, m1[k]) == Some(key_of(new_hs[j])));
            } else if i < j {
                assert(new_hs[i] == old_hs[i]);
                assert(copied_by_some(text, m1, key_of(old_hs[i])));
            } else {
                assert(new_hs[i] == old_hs[i - 1]);
                assert(copied_by_some(text, m1, key_of(old_hs[i - 1])));
            }
        }
    }
    lemma_inserted_covered(text, ms, k, old_hs, new_hs, j);
    assert forall|p: int| 0 <= p < m0.len() implies value_of(text, #[trigger] m0[p]) != Some(v) by {
        reveal(matches_covered);
        assert(some_hint_keyed(old_hs, value_of(text, m0[p])));
        let i = choose|i: int|
            0 <= i < old_hs.len() && value_of(text, m0[p]) == Some(key_of(#[trigger] old_hs[i]));
        assert(key_of(old_hs[i]) != v);
    }
    lemma_occurrences_none(text, m0, v);
    assert(occurrences_grouped(text, m1, new_hs)) by {
        reveal(occurrences_grouped);
        assert forall|i: int| 0 <= i < new_hs.len() implies (#[trigger] new_hs[i]).occurrences
            == occurrences_with(text, m1, key_of(new_hs[i])) by {
            if i == j {
                lemma_occurrences_step(text, ms, k, v);
                assert(seq![ms[k]] =~= Seq::<MatchView>::empty().push(ms[k]));
            } else {
                let oi = if i < j {
                    i
                } else {
                    i - 1
                };
                assert(new_hs[i] == old_hs[oi]);
                assert(old_hs[oi].occurrences == occurrences_with(text, m0, key_of(old_hs[oi])));
                lemma_occurrences_step(text, ms, k, key_of(old_hs[oi]));
            }
        }
    }
}

proof fn lemma_inserted_covered(
    text: Seq<u8>,
    ms: Seq<MatchView>,
    k: int,
    old_hs: Seq<HintView>,
    new_hs: Seq<HintView>,
    j: int,
)
    requires
        0 <= k < ms.len(),
        matches_covered(text, ms.take(k), old_hs),
        0 <= j <= old_hs.len(),
        new_hs.len() == old_hs.len() + 1,
        forall|i: int| 0 <= i < j ==> #[trigger] new_hs[i] == old_hs[i],
        forall|i: int| j <= i < old_hs.len() ==> new_hs[i + 1] == #[trigger] old_hs[i],
        value_of(text, ms[k]) == Some(key_of(new_hs[j])),
    ensures
        matches_covered(text, ms.take(k + 1), new_hs),
{
    reveal(matches_covered);
    let m0 = ms.take(k);
    let m1 = ms.take(k + 1);
    assert forall|p: int| 0 <= p < m1.len() implies some_hint_keyed(
        new_hs,
        value_of(text, #[trigger] m1[p]),
    ) by {
        if p < k {
            assert(m1[p] == m0[p]);
            assert(some_hint_keyed(old_hs, value_of(text, m0[p])));
            let i = choose|i: int|
                0 <= i < old_hs.len() && value_of(text, m0[p]) == Some(key_of(#[trigger] old_hs[i]));
            if i < j {
                assert(new_hs[i] == old_hs[i]);
            } else {
                assert(new_hs[i + 1] == old_hs[i]);
            }
        } else {
            assert(m1[p] == ms[k]);
        }
    }
}

/// A key placed after every smaller key and before the first greater one differs from all of
/// them and stands in order with each.
pub(crate) proof fn lemma_inserted_key_placed(old_hs: Seq<HintView>, v: Seq<u8>, j: int)
    requires
        keys_increasing(old_hs),
        0 <= j <= old_hs.len(),
        forall|i: int| 0 <= i < j ==> lex_lt(key_of(old_hs[i]), v),
        j < old_hs.len() ==> lex_lt(v, key_of(old_hs[j])),
    ensures
        forall|i: int| 0 <= i < old_hs.len() ==> key_of(#[trigger] old_hs[i]) != v,
        forall|i: int| j <= i < old_hs.len() ==> lex_lt(v, key_of(#[trigger] old_hs[i])),
{
    reveal(keys_increasing);
    assert forall|i: int| j <= i < old_hs.len() implies lex_lt(v, key_of(#[trigger] old_hs[i])) by {
        if i > j {
            lemma_lex_lt_transitive(v, key_of(old_hs[j]), key_of(old_hs[i]));
        }
    }
    assert forall|i: int| 0 <= i < old_hs.len() implies key_of(#[trigger] old_hs[i]) != v by {
        lemma_lex_lt_irreflexive(v);
    }
}

pub(crate) proof fn lemma_inserted_keys_increasing(old_hs: Seq<HintView>, new_hs: Seq<HintView>, v: Seq<u8>, j: int)
    requires
        keys_increasing(old_hs),
        0 <= j <= old_hs.len(),
        new_hs.len() == old_hs.len() + 1,
        forall|i: int| 0 <= i < j ==> #[trigger] new_hs[i] == old_hs[i],
        forall|i: int| j <= i < old_hs.len() ==> new_hs[i + 1] == old_hs[i],
        key_of(new_hs[j]) == v,
        forall|i: int| 0 <= i < j ==> lex_lt(key_of(old_hs[i]), v),
        forall|i: int| j <= i < old_hs.len() ==> lex_lt(v, key_of(#[trigger] old_hs[i])),
    ensures
        keys_increasing(new_hs),
{
    reveal(keys_increasing);
    assert forall|a: int, b: int| 0 <= a < b < new_hs.len() implies lex_lt(
        #[trigger] key_of(new_hs[a]),
        #[trigger] key_of(new_hs[b]),
    ) by {
        if b < j {
        } else if b == j {
            assert(lex_lt(key_of(old_hs[a]), v));
        } else if a < j {
            assert(new_hs[b] == old_hs[b - 1]);
            assert(lex_lt(key_of(old_hs[a]), v));
            assert(lex_lt(v, key_of(old_hs[b - 1])));
            lemma_lex_lt_transitive(key_of(old_hs[a]), v, key_of(old_hs[b - 1]));
        } else if a == j {
            assert(new_hs[b] == old_hs[b - 1]);
        } else {
            assert(new_hs[a] == old_hs[a - 1]);
            assert(new_hs[b] == old_hs[b - 1]);
        }
    }
}

} // verus!
