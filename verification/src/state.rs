//! The selection state machine: typed label characters, multi-select and what is copied.

use crate::hints::{hint_views, is_prefix_of, Hint, HintView};
use crate::text::{
    compare_bytes, is_upper, is_uppercase, lower_first, lemma_lex_lt_transitive, lex_lt,
    string_pop, string_push, to_lowercase, Precedence,
};
use std::collections::BTreeSet;
use vstd::prelude::*;
use vstd::utf8::*;

verus! {

broadcast use vstd::laws_cmp::group_laws_cmp, vstd::std_specs::btree::group_btree_axioms;

/// A key press, as the state machine sees it.
#[derive(Clone, Copy, Debug, PartialEq, Eq)]
pub enum AppEvent {
    Char(char),
    Backspace,
    Tab,
    Enter,
}

/// What was chosen: the text to copy, the names of the patterns that found it and whether an
/// uppercase label asked for the alternative action.
#[derive(Debug, PartialEq, Eq)]
pub struct Selection {
    pub text: String,
    pub matcher_names: Vec<String>,
    pub shifted: bool,
}

/// A selection as a mathematical value.
pub struct SelectionView {
    pub text: Seq<char>,
    pub matcher_names: Seq<Seq<char>>,
    pub shifted: bool,
}

impl View for Selection {
    type V = SelectionView;

    open spec fn view(&self) -> SelectionView {
        SelectionView {
            text: self.text@,
            matcher_names: name_views(self.matcher_names@),
            shifted: self.shifted,
        }
    }
}

/// The hints on screen, what has been typed of a label, the hints selected so far, whether
/// multi-select is on, and whether an uppercase character was typed.
#[derive(Debug)]
pub struct AppState {
    hints: Vec<Hint>,
    input: String,
    selected: BTreeSet<usize>,
    multi_select: bool,
    shifted: bool,
}

/// The state as a mathematical value.
pub struct AppStateView {
    pub hints: Seq<HintView>,
    pub input: Seq<char>,
    pub selected: Set<usize>,
    pub multi_select: bool,
    pub shifted: bool,
}

impl View for AppState {
    type V = AppStateView;

    closed spec fn view(&self) -> AppStateView {
        AppStateView {
            hints: hint_views(self.hints@),
            input: self.input@,
            selected: self.selected@,
            multi_select: self.multi_select,
            shifted: self.shifted,
        }
    }
}

/// Only hints that exist are selected.
pub open spec fn state_wf(s: AppStateView) -> bool {
    forall|i: usize| #[trigger] s.selected.contains(i) ==> i < s.hints.len()
}

/// The character a typed character stands for in a label: the first character of its
/// lowercase form.
pub open spec fn normalized_char(c: char) -> char {
    lower_first(c)
}

/// The first hint whose label is exactly `input`.
pub open spec fn label_position(hints: Seq<HintView>, input: Seq<char>) -> Option<int> {
    if exists|i: int| 0 <= i < hints.len() && (#[trigger] hints[i]).label == input {
        Some(
            choose|i: int|
                0 <= i < hints.len() && (#[trigger] hints[i]).label == input && forall|j: int|
                    0 <= j < i ==> (#[trigger] hints[j]).label != input,
        )
    } else {
        None
    }
}

/// The set with `i` added if it was absent and removed if it was present.
pub open spec fn toggled(selected: Set<usize>, i: usize) -> Set<usize> {
    if selected.contains(i) {
        selected.remove(i)
    } else {
        selected.insert(i)
    }
}

/// The state after an event.
pub open spec fn next_state(s: AppStateView, e: AppEvent) -> AppStateView {
    match e {
        AppEvent::Backspace => AppStateView {
            input: if s.input.len() > 0 {
                s.input.drop_last()
            } else {
                s.input
            },
            ..s
        },
        AppEvent::Tab => AppStateView { multi_select: true, ..s },
        AppEvent::Enter => s,
        AppEvent::Char(c) => {
            let shifted = s.shifted || is_upper(c);
            let input = s.input.push(normalized_char(c));
            match label_position(s.hints, input) {
                None => AppStateView { input, shifted, ..s },
                Some(i) => AppStateView {
                    selected: toggled(s.selected, i as usize),
                    input: Seq::empty(),
                    shifted,
                    ..s
                },
            }
        },
    }
}

/// Whether an event ends the selection: Tab or Enter in multi-select mode, or a completed
/// label outside it, and only with something selected afterwards.
pub open spec fn emits_selection(s: AppStateView, e: AppEvent) -> bool {
    match e {
        AppEvent::Backspace => false,
        AppEvent::Tab | AppEvent::Enter => s.multi_select && !s.selected.is_empty(),
        AppEvent::Char(c) => !s.multi_select && !next_state(s, e).selected.is_empty()
            && label_position(s.hints, s.input.push(normalized_char(c))) is Some,
    }
}

/// The selected hint indices below `n`, in increasing order.
pub open spec fn selected_below(selected: Set<usize>, n: nat) -> Seq<int>
    decreases n,
{
    if n == 0 {
        seq![]
    } else {
        let rest = selected_below(selected, (n - 1) as nat);
        if selected.contains((n - 1) as usize) {
            rest.push(n - 1)
        } else {
            rest
        }
    }
}

/// Words joined by single spaces.
pub open spec fn join_words(words: Seq<Seq<char>>) -> Seq<char>
    decreases words.len(),
{
    if words.len() == 0 {
        seq![]
    } else if words.len() == 1 {
        words[0]
    } else {
        join_words(words.drop_last()) + seq![' '] + words.last()
    }
}

/// Views of a list of strings.
pub open spec fn name_views(names: Seq<String>) -> Seq<Seq<char>> {
    names.map_values(|n: String| n@)
}

/// The texts of the hints at these indices.
pub open spec fn texts_of(s: AppStateView, indices: Seq<int>) -> Seq<Seq<char>> {
    indices.map_values(|i: int| s.hints[i].text)
}

/// The texts of the selected hints, in hint order.
pub open spec fn selected_texts(s: AppStateView) -> Seq<Seq<char>> {
    texts_of(s, selected_below(s.selected, s.hints.len()))
}

/// Some occurrence of a selected hint was found by the pattern of this name.
pub open spec fn name_selected(s: AppStateView, name: Seq<char>) -> bool {
    exists|i: int, o: int|
        0 <= i < s.hints.len() && s.selected.contains(i as usize) && 0 <= o < s.hints[i].occurrences.len()
            && (#[trigger] s.hints[i].occurrences[o]).name == name
}

/// Some occurrence of a selected hint before hint `i`, or of hint `i` before occurrence `o`,
/// was found by the pattern of this name.
pub open spec fn name_selected_below(s: AppStateView, name: Seq<char>, i: int, o: int) -> bool {
    exists|a: int, b: int|
        0 <= a < s.hints.len() && s.selected.contains(a as usize) && 0 <= b < s.hints[a].occurrences.len()
            && (#[trigger] s.hints[a].occurrences[b]).name == name && (a < i || (a == i && b < o))
}

/// Names in strictly increasing byte order, hence each once.
pub open spec fn names_increasing(names: Seq<Seq<char>>) -> bool {
    forall|i: int, j: int|
        0 <= i < j < names.len() ==> lex_lt(
            encode_utf8(#[trigger] names[i]),
            encode_utf8(#[trigger] names[j]),
        )
}

/// A selection describes a state: the selected texts joined by spaces, the distinct names of
/// the patterns behind them in byte order, and the state's shift flag.
pub open spec fn describes(s: AppStateView, sel: SelectionView) -> bool {
    &&& sel.text == join_words(selected_texts(s))
    &&& names_increasing(sel.matcher_names)
    &&& forall|n: Seq<char>| sel.matcher_names.contains(n) <==> name_selected(s, n)
    &&& sel.shifted == s.shifted
}

impl AppState {
    /// A state only ever selects hints that exist.
    #[verifier::type_invariant]
    spec fn well_formed(self) -> bool {
        forall|i: usize| #[trigger] self.selected@.contains(i) ==> i < self.hints.len()
    }

    /// A state over the hints with nothing typed, nothing selected and multi-select off.
    pub fn new(hints: Vec<Hint>) -> (res: Self)
        ensures
            res@.hints == hint_views(hints@),
            res@.input == Seq::<char>::empty(),
            res@.selected == Set::<usize>::empty(),
            !res@.multi_select,
            !res@.shifted,
            state_wf(res@),
    {
        AppState {
            hints,
            input: String::new(),
            selected: BTreeSet::new(),
            multi_select: false,
            shifted: false,
        }
    }

    /// What has been typed of a label so far.
    pub fn input(&self) -> (res: &str)
        ensures
            res@ == self@.input,
    {
        self.input.as_str()
    }

    /// Whether multi-select mode is on.
    pub fn is_multi_select(&self) -> (res: bool)
        ensures
            res == self@.multi_select,
    {
        self.multi_select
    }

    /// Whether the hint at `index` is selected.
    pub fn is_selected(&self, index: usize) -> (res: bool)
        ensures
            res == self@.selected.contains(index),
    {
        self.selected.contains(&index)
    }
}

impl AppState {
    /// Handles one event: returns the selection when the event ends selecting.
    ///
    /// Backspace removes the last typed character. Tab turns multi-select on; in multi-select
    /// mode Tab and Enter end selecting. A character is lowered and appended to the typed
    /// input; when the input spells a hint's label, that hint's selection is toggled, the input
    /// is cleared and, outside multi-select mode, selecting ends. An uppercase character also
    /// asks for the alternative action.
    pub fn handle(&mut self, event: AppEvent) -> (res: Option<Selection>)
        ensures
            final(self)@ == next_state(old(self)@, event),
            res is Some <==> emits_selection(old(self)@, event),
            res matches Some(sel) ==> describes(final(self)@, sel@),
    {
        proof {
            use_type_invariant(&*self);
            assert(state_wf(self@));
        }
        match event {
            AppEvent::Backspace => {
                let mut input = String::new();
                std::mem::swap(&mut input, &mut self.input);
                string_pop(&mut input);
                self.input = input;
                None
            },
            AppEvent::Tab => {
                if !self.multi_select {
                    self.multi_select = true;
                    None
                } else {
                    self.selection()
                }
            },
            AppEvent::Enter => {
                if self.multi_select {
                    self.selection()
                } else {
                    None
                }
            },
            AppEvent::Char(ch) => {
                let ghost s0 = self@;
                if is_uppercase(ch) {
                    self.shifted = true;
                }
                let lower = to_lowercase(ch);
                let normalized = if lower.len() > 0 {
                    lower[0]
                } else {
                    ch
                };
                let mut input = String::new();
                std::mem::swap(&mut input, &mut self.input);
                string_push(&mut input, normalized);
                self.input = input;
                let index = match find_label(&self.hints, &self.input) {
                    Some(i) => i,
                    None => return None,
                };
                let ghost sel0 = self.selected@;
                let mut selected = BTreeSet::new();
                std::mem::swap(&mut selected, &mut self.selected);
                if !selected.insert(index) {
                    selected.remove(&index);
                    proof {
                        assert(selected@ =~= sel0.remove(index));
                    }
                }
                proof {
                    assert(selected@ =~= toggled(sel0, index));
                    lemma_wf_toggled(s0, AppStateView { selected: selected@, ..s0 }, index);
                }
                self.selected = selected;
                self.input = String::new();
                if self.multi_select {
                    None
                } else {
                    self.selection()
                }
            },
        }
    }

    /// The current selection, if anything is selected.
    fn selection(&self) -> (res: Option<Selection>)
        ensures
            res is Some <==> !self@.selected.is_empty(),
            res matches Some(sel) ==> describes(self@, sel@),
    {
        proof {
            use_type_invariant(self);
            assert(state_wf(self@));
        }
        if self.selected.is_empty() {
            return None;
        }
        let ghost s = self@;
        let mut text = String::new();
        let mut first = true;
        let mut names: Vec<String> = Vec::new();
        let n = self.hints.len();
        for i in 0..n
            invariant
                n == self.hints.len(),
                s == self@,
                state_wf(s),
                text@ == join_words(texts_of(s, selected_below(s.selected, i as nat))),
                first <==> selected_below(s.selected, i as nat).len() == 0,
                names_increasing(name_views(names@)),
                forall|nm: Seq<char>|
                    name_views(names@).contains(nm) <==> name_selected_below(s, nm, i as int, 0),
        {
            if self.selected.contains(&i) {
                let ghost before = text@;
                proof {
                    lemma_selected_below_step(s.selected, i as nat);
                    lemma_join_words_push(
                        texts_of(s, selected_below(s.selected, i as nat)),
                        s.hints[i as int].text,
                    );
                    assert(texts_of(s, selected_below(s.selected, (i + 1) as nat)) =~= texts_of(
                        s,
                        selected_below(s.selected, i as nat),
                    ).push(s.hints[i as int].text));
                }
                if !first {
                    proof {
                        reveal_strlit(" ");
                    }
                    text.append(" ");
                }
                text.append(self.hints[i].text.as_str());
                first = false;
                proof {
                    let idx = selected_below(s.selected, i as nat);
                    assert(texts_of(s, idx).len() == idx.len());
                    assert(s.hints[i as int].text == self.hints@[i as int].text@);
                    if idx.len() == 0 {
                        assert(text@ =~= s.hints[i as int].text);
                    } else {
                        assert(text@ =~= before + seq![' '] + s.hints[i as int].text);
                    }
                }
                let occurrences = &self.hints[i].occurrences;
                for o in 0..occurrences.len()
                    invariant
                        s == self@,
                        i < n,
                        n == self.hints.len(),
                        occurrences@ == self.hints@[i as int].occurrences@,
                        s.selected.contains(i),
                        names_increasing(name_views(names@)),
                        forall|nm: Seq<char>|
                            name_views(names@).contains(nm) <==> name_selected_below(
                                s,
                                nm,
                                i as int,
                                o as int,
                            ),
                {
                    proof {
                        lemma_name_selected_next_occurrence(s, i as int, o as int);
                        assert(occurrences@[o as int].name@ == s.hints[i as int].occurrences[o as int].name);
                    }
                    insert_name(&mut names, &occurrences[o].name);
                }
                proof {
                    lemma_name_selected_next_hint(s, i as int, occurrences.len() as int);
                }
            } else {
                proof {
                    lemma_selected_below_step(s.selected, i as nat);
                    lemma_name_selected_next_hint(s, i as int, 0);
                }
            }
        }
        proof {
            lemma_name_selected_all(s);
        }
        Some(Selection { text, matcher_names: names, shifted: self.shifted })
    }
}

proof fn lemma_wf_same_selection(a: AppStateView, b: AppStateView)
    requires
        state_wf(a),
        b.selected == a.selected,
        b.hints.len() == a.hints.len(),
    ensures
        state_wf(b),
{
    assert forall|i: usize| #[trigger] b.selected.contains(i) implies i < b.hints.len() by {
        assert(a.selected.contains(i));
    }
}

proof fn lemma_wf_toggled(a: AppStateView, b: AppStateView, index: usize)
    requires
        state_wf(a),
        index < a.hints.len(),
        b.selected == toggled(a.selected, index),
        b.hints.len() == a.hints.len(),
    ensures
        state_wf(b),
{
    assert forall|i: usize| #[trigger] b.selected.contains(i) implies i < b.hints.len() by {
        if i != index {
            assert(a.selected.contains(i));
        }
    }
}

/// The first hint whose label is exactly `input`.
fn find_label(hints: &Vec<Hint>, input: &String) -> (res: Option<usize>)
    ensures
        res matches Some(i) ==> label_position(hint_views(hints@), input@) == Some(i as int) && i
            < hints.len(),
        res is None ==> label_position(hint_views(hints@), input@) is None,
{
    let ghost hv = hint_views(hints@);
    for i in 0..hints.len()
        invariant
            hv == hint_views(hints@),
            forall|j: int| 0 <= j < i ==> (#[trigger] hv[j]).label != input@,
    {
        if hints[i].label == *input {
            proof {
                assert(hv[i as int].label == input@);
                let c = choose|c: int|
                    0 <= c < hv.len() && (#[trigger] hv[c]).label == input@ && forall|j: int|
                        0 <= j < c ==> (#[trigger] hv[j]).label != input@;
                if c < i {
                } else if c > i {
                    assert(hv[i as int].label != input@);
                }
            }
            return Some(i);
        }
    }
    None
}

proof fn lemma_selected_below_step(selected: Set<usize>, i: nat)
    ensures
        selected_below(selected, i + 1) == (if selected.contains(i as usize) {
            selected_below(selected, i).push(i as int)
        } else {
            selected_below(selected, i)
        }),
{
}

proof fn lemma_join_words_push(words: Seq<Seq<char>>, w: Seq<char>)
    ensures
        join_words(words.push(w)) == (if words.len() == 0 {
            w
        } else {
            join_words(words) + seq![' '] + w
        }),
{
    assert(words.push(w).drop_last() =~= words);
}

proof fn lemma_name_selected_next_occurrence(s: AppStateView, i: int, o: int)
    requires
        0 <= i < s.hints.len(),
        s.selected.contains(i as usize),
        0 <= o < s.hints[i].occurrences.len(),
    ensures
        forall|nm: Seq<char>|
            name_selected_below(s, nm, i, o + 1) <==> (name_selected_below(s, nm, i, o) || nm
                == s.hints[i].occurrences[o].name),
{
    assert forall|nm: Seq<char>|
        name_selected_below(s, nm, i, o + 1) <==> (name_selected_below(s, nm, i, o) || nm
            == s.hints[i].occurrences[o].name) by {
        if nm == s.hints[i].occurrences[o].name {
            assert(s.hints[i].occurrences[o].name == nm);
        }
        if name_selected_below(s, nm, i, o + 1) && nm != s.hints[i].occurrences[o].name {
            let (a, b) = choose|a: int, b: int|
                0 <= a < s.hints.len() && s.selected.contains(a as usize) && 0 <= b
                    < s.hints[a].occurrences.len() && (#[trigger] s.hints[a].occurrences[b]).name
                    == nm && (a < i || (a == i && b < o + 1));
            assert(s.hints[a].occurrences[b].name == nm);
        }
    }
}

proof fn lemma_name_selected_next_hint(s: AppStateView, i: int, o: int)
    requires
        0 <= i < s.hints.len(),
        o == (if s.selected.contains(i as usize) {
            s.hints[i].occurrences.len() as int
        } else {
            0
        }),
    ensures
        forall|nm: Seq<char>|
            name_selected_below(s, nm, i + 1, 0) <==> name_selected_below(s, nm, i, o),
{
    assert forall|nm: Seq<char>|
        name_selected_below(s, nm, i + 1, 0) <==> name_selected_below(s, nm, i, o) by {
        if name_selected_below(s, nm, i + 1, 0) {
            let (a, b) = choose|a: int, b: int|
                0 <= a < s.hints.len() && s.selected.contains(a as usize) && 0 <= b
                    < s.hints[a].occurrences.len() && (#[trigger] s.hints[a].occurrences[b]).name
                    == nm && (a < i + 1 || (a == i + 1 && b < 0));
            assert(s.hints[a].occurrences[b].name == nm);
        }
        if name_selected_below(s, nm, i, o) {
            let (a, b) = choose|a: int, b: int|
                0 <= a < s.hints.len() && s.selected.contains(a as usize) && 0 <= b
                    < s.hints[a].occurrences.len() && (#[trigger] s.hints[a].occurrences[b]).name
                    == nm && (a < i || (a == i && b < o));
            assert(s.hints[a].occurrences[b].name == nm);
        }
    }
}

proof fn lemma_name_selected_all(s: AppStateView)
    ensures
        forall|nm: Seq<char>|
            name_selected_below(s, nm, s.hints.len() as int, 0) <==> name_selected(s, nm),
{
    assert forall|nm: Seq<char>|
        name_selected_below(s, nm, s.hints.len() as int, 0) <==> name_selected(s, nm) by {
        if name_selected(s, nm) {
            let (a, b) = choose|a: int, b: int|
                0 <= a < s.hints.len() && s.selected.contains(a as usize) && 0 <= b
                    < s.hints[a].occurrences.len() && (#[trigger] s.hints[a].occurrences[b]).name
                    == nm;
            assert(s.hints[a].occurrences[b].name == nm);
        }
    }
}

/// Adds a name to names kept in strictly increasing byte order, unless it is there already.
fn insert_name(names: &mut Vec<String>, name: &String)
    requires
        names_increasing(name_views(old(names)@)),
    ensures
        names_increasing(name_views(final(names)@)),
        forall|nm: Seq<char>|
            name_views(final(names)@).contains(nm) <==> (name_views(old(names)@).contains(nm) || nm
                == name@),
{
    let ghost nv = name_views(names@);
    let key = name.as_str().as_bytes();
    let mut j: usize = 0;
    while j < names.len()
        invariant
            j <= names.len(),
            nv == name_views(names@),
            key@ == encode_utf8(name@),
            names_increasing(nv),
            forall|q: int| 0 <= q < j ==> lex_lt(encode_utf8(#[trigger] nv[q]), key@),
        ensures
            j <= names.len(),
            forall|q: int| 0 <= q < j ==> lex_lt(encode_utf8(#[trigger] nv[q]), key@),
            j < names.len() ==> lex_lt(key@, encode_utf8(nv[j as int])),
        decreases names.len() - j,
    {
        assert(nv[j as int] == names@[j as int]@);
        match compare_bytes(names[j].as_str().as_bytes(), key) {
            Precedence::Before => {
                j = j + 1;
            },
            Precedence::Same => {
                proof {
                    encode_utf8_decode_utf8(nv[j as int]);
                    encode_utf8_decode_utf8(name@);
                    assert(nv[j as int] == name@);
                }
                return ;
            },
            Precedence::After => {
                break ;
            },
        }
    }
    proof {
        lemma_name_inserted(nv, name@, j as int);
    }
    let ghost before = names@;
    names.insert(j, name.clone());
    proof {
        assert(name_views(names@) =~= nv.insert(j as int, name@));
    }
}

/// A name placed after every smaller name and before the first greater one keeps the names
/// increasing.
proof fn lemma_name_inserted(nv: Seq<Seq<char>>, name: Seq<char>, j: int)
    requires
        names_increasing(nv),
        0 <= j <= nv.len(),
        forall|q: int| 0 <= q < j ==> lex_lt(encode_utf8(#[trigger] nv[q]), encode_utf8(name)),
        j < nv.len() ==> lex_lt(encode_utf8(name), encode_utf8(nv[j])),
    ensures
        names_increasing(nv.insert(j, name)),
        forall|nm: Seq<char>| nv.insert(j, name).contains(nm) <==> (nv.contains(nm) || nm == name),
{
    let v = encode_utf8(name);
    let nw = nv.insert(j, name);
    nv.insert_ensures(j, name);
    assert forall|q: int| j <= q < nv.len() implies lex_lt(v, encode_utf8(#[trigger] nv[q])) by {
        if q > j {
            lemma_lex_lt_transitive(v, encode_utf8(nv[j]), encode_utf8(nv[q]));
        }
    }
    assert forall|a: int, b: int| 0 <= a < b < nw.len() implies lex_lt(
        encode_utf8(#[trigger] nw[a]),
        encode_utf8(#[trigger] nw[b]),
    ) by {
        if b < j {
        } else if b == j {
            assert(lex_lt(encode_utf8(nv[a]), v));
        } else if a < j {
            assert(nw[b] == nv[b - 1]);
            assert(lex_lt(encode_utf8(nv[a]), v));
            lemma_lex_lt_transitive(encode_utf8(nv[a]), v, encode_utf8(nv[b - 1]));
        } else if a == j {
            assert(nw[b] == nv[b - 1]);
        } else {
            assert(nw[a] == nv[a - 1]);
            assert(nw[b] == nv[b - 1]);
        }
    }
    assert forall|nm: Seq<char>| nw.contains(nm) <==> (nv.contains(nm) || nm == name) by {
        if nw.contains(nm) {
            let q = choose|q: int| 0 <= q < nw.len() && nw[q] == nm;
            if q < j {
                assert(nv[q] == nm);
            } else if q > j {
                assert(nv[q - 1] == nm);
            }
        }
        if nv.contains(nm) {
            let q = choose|q: int| 0 <= q < nv.len() && nv[q] == nm;
            if q < j {
                assert(nw[q] == nm);
            } else {
                assert(nw[q + 1] == nm);
            }
        }
        if nm == name {
            assert(nw[j] == nm);
        }
    }
}

/// The state after a sequence of events, taken in order.
pub open spec fn after_events(s: AppStateView, events: Seq<AppEvent>) -> AppStateView
    decreases events.len(),
{
    if events.len() == 0 {
        s
    } else {
        after_events(next_state(s, events[0]), events.drop_first())
    }
}

/// The key presses that type a word.
pub open spec fn keys_typing(word: Seq<char>) -> Seq<AppEvent>
    decreases word.len(),
{
    if word.len() == 0 {
        seq![]
    } else {
        seq![AppEvent::Char(word[0])] + keys_typing(word.drop_first())
    }
}

/// No hint's label is a prefix of another hint's label.
pub open spec fn labels_prefix_free(hints: Seq<HintView>) -> bool {
    forall|i: int, j: int|
        0 <= i < hints.len() && 0 <= j < hints.len() && i != j ==> !is_prefix_of(
            #[trigger] hints[i].label,
            #[trigger] hints[j].label,
        )
}

/// Every character of the word stands for itself when typed.
pub open spec fn types_as_itself(word: Seq<char>) -> bool {
    forall|k: int| 0 <= k < word.len() ==> normalized_char(#[trigger] word[k]) == word[k]
}

/// No event changes the hints, turns multi-select off or forgets that an uppercase character
/// was typed.
pub proof fn lemma_event_keeps_hints_and_modes(s: AppStateView, e: AppEvent)
    ensures
        next_state(s, e).hints == s.hints,
        s.multi_select ==> next_state(s, e).multi_select,
        s.shifted ==> next_state(s, e).shifted,
        state_wf(s) ==> state_wf(next_state(s, e)),
{
    if state_wf(s) {
        let t = next_state(s, e);
        if let AppEvent::Char(c) = e {
            if let Some(i) = label_position(s.hints, s.input.push(normalized_char(c))) {
                lemma_label_position_in_bounds(s.hints, s.input.push(normalized_char(c)));
                lemma_wf_toggled(s, t, i as usize);
            } else {
                lemma_wf_same_selection(s, t);
            }
        } else {
            lemma_wf_same_selection(s, t);
        }
    }
}

proof fn lemma_label_position_in_bounds(hints: Seq<HintView>, input: Seq<char>)
    ensures
        label_position(hints, input) matches Some(i) ==> 0 <= i < hints.len() && hints[i].label
            == input,
{
    if exists|i: int| 0 <= i < hints.len() && (#[trigger] hints[i]).label == input {
        let w = choose|i: int| 0 <= i < hints.len() && (#[trigger] hints[i]).label == input;
        lemma_first_label_exists(hints, input, w);
    }
}

proof fn lemma_first_label_exists(hints: Seq<HintView>, input: Seq<char>, w: int)
    requires
        0 <= w < hints.len(),
        hints[w].label == input,
    ensures
        exists|i: int|
            0 <= i < hints.len() && (#[trigger] hints[i]).label == input && forall|j: int|
                0 <= j < i ==> (#[trigger] hints[j]).label != input,
    decreases w,
{
    if exists|j: int| 0 <= j < w && (#[trigger] hints[j]).label == input {
        let j = choose|j: int| 0 <= j < w && (#[trigger] hints[j]).label == input;
        lemma_first_label_exists(hints, input, j);
    } else {
        assert(forall|j: int| 0 <= j < w ==> (#[trigger] hints[j]).label != input);
    }
}

/// Backspace takes back a typed character that completed no label: the state is as before,
/// but for the mark of an uppercase character.
pub proof fn lemma_backspace_undoes_char(s: AppStateView, c: char)
    requires
        (label_position(s.hints, s.input.push(normalized_char(c))) is None),
    ensures
        after_events(s, seq![AppEvent::Char(c), AppEvent::Backspace]) == (AppStateView {
            shifted: s.shifted || is_upper(c),
            ..s
        }),
{
    let t = next_state(s, AppEvent::Char(c));
    let u = next_state(t, AppEvent::Backspace);
    assert(t.input.drop_last() =~= s.input);
    let two = seq![AppEvent::Char(c), AppEvent::Backspace];
    let one = seq![AppEvent::Backspace];
    assert(two.drop_first() =~= one);
    assert(one.drop_first() =~= Seq::<AppEvent>::empty());
    assert(after_events(u, one.drop_first()) == u);
    assert(after_events(t, one) == u);
    assert(after_events(s, two) == u);
}

/// Events taken one sequence after another.
pub proof fn lemma_after_events_concat(s: AppStateView, a: Seq<AppEvent>, b: Seq<AppEvent>)
    ensures
        after_events(s, a + b) == after_events(after_events(s, a), b),
    decreases a.len(),
{
    if a.len() > 0 {
        assert((a + b).drop_first() =~= a.drop_first() + b);
        lemma_after_events_concat(next_state(s, a[0]), a.drop_first(), b);
    } else {
        assert(a + b =~= b);
    }
}

/// Typing the rest of a label, from its first `k` characters on, toggles that hint.
proof fn lemma_typing_rest_of_label(t: AppStateView, i: int, k: int)
    requires
        labels_prefix_free(t.hints),
        0 <= i < t.hints.len(),
        0 <= k < t.hints[i].label.len(),
        t.input == t.hints[i].label.take(k),
        types_as_itself(t.hints[i].label),
    ensures
        ({
            let u = after_events(t, keys_typing(t.hints[i].label.skip(k)));
            &&& u.hints == t.hints
            &&& u.input == Seq::<char>::empty()
            &&& u.selected == toggled(t.selected, i as usize)
            &&& u.multi_select == t.multi_select
        }),
    decreases t.hints[i].label.len() - k,
{
    let label = t.hints[i].label;
    let c = label[k];
    let events = keys_typing(label.skip(k));
    assert(label.skip(k)[0] == c);
    let rest = label.skip(k);
    assert(rest.drop_first() =~= label.skip(k + 1));
    assert(events[0] == AppEvent::Char(c));
    assert(events.drop_first() =~= keys_typing(label.skip(k + 1)));
    let typed = t.input.push(normalized_char(c));
    assert(typed =~= label.take(k + 1));
    let next = next_state(t, AppEvent::Char(c));
    assert(events.len() > 0);
    assert(after_events(t, events) == after_events(next, events.drop_first()));
    if k + 1 < label.len() {
        assert(label_position(t.hints, typed) is None) by {
            if exists|j: int| 0 <= j < t.hints.len() && (#[trigger] t.hints[j]).label == typed {
                let j = choose|j: int| 0 <= j < t.hints.len() && (#[trigger] t.hints[j]).label == typed;
                if j == i {
                    assert(label.len() == typed.len());
                } else {
                    assert(label.subrange(0, typed.len() as int) =~= typed);
                    assert(is_prefix_of(t.hints[j].label, t.hints[i].label));
                }
            }
        }
        assert(next.input == label.take(k + 1));
        lemma_typing_rest_of_label(next, i, k + 1);
    } else {
        assert(typed =~= label);
        assert(label_position(t.hints, typed) == Some(i)) by {
            lemma_first_label_exists(t.hints, typed, i);
            let p = choose|p: int|
                0 <= p < t.hints.len() && (#[trigger] t.hints[p]).label == typed && forall|j: int|
                    0 <= j < p ==> (#[trigger] t.hints[j]).label != typed;
            if p != i {
                assert(label.subrange(0, label.len() as int) =~= label);
                assert(is_prefix_of(t.hints[p].label, t.hints[i].label));
            }
        }
        assert(label.skip(k + 1).len() == 0);
        assert(keys_typing(label.skip(k + 1)) =~= Seq::<AppEvent>::empty());
        assert(after_events(next, Seq::<AppEvent>::empty()) == next);
        assert(next.selected == toggled(t.selected, i as usize));
    }
}

/// With nothing typed, typing a hint's whole label toggles that hint's selection and leaves
/// nothing typed, when no label is a prefix of another and the label's characters stand for
/// themselves.
pub proof fn lemma_typing_label_toggles(s: AppStateView, i: int)
    requires
        labels_prefix_free(s.hints),
        0 <= i < s.hints.len(),
        s.hints[i].label.len() > 0,
        s.input == Seq::<char>::empty(),
        types_as_itself(s.hints[i].label),
    ensures
        ({
            let u = after_events(s, keys_typing(s.hints[i].label));
            &&& u.hints == s.hints
            &&& u.input == Seq::<char>::empty()
            &&& u.selected == toggled(s.selected, i as usize)
            &&& u.multi_select == s.multi_select
        }),
{
    assert(s.hints[i].label.take(0) =~= s.input);
    assert(s.hints[i].label.skip(0) =~= s.hints[i].label);
    lemma_typing_rest_of_label(s, i, 0);
}

/// In multi-select mode, typing a hint's label a second time takes its selection back.
pub proof fn lemma_retyping_label_restores_selection(s: AppStateView, i: int)
    requires
        labels_prefix_free(s.hints),
        0 <= i < s.hints.len(),
        s.hints[i].label.len() > 0,
        s.input == Seq::<char>::empty(),
        types_as_itself(s.hints[i].label),
    ensures
        after_events(s, keys_typing(s.hints[i].label) + keys_typing(s.hints[i].label)).selected
            == s.selected,
{
    let w = keys_typing(s.hints[i].label);
    lemma_after_events_concat(s, w, w);
    lemma_typing_label_toggles(s, i);
    let u = after_events(s, w);
    lemma_typing_label_toggles(u, i);
    assert(toggled(toggled(s.selected, i as usize), i as usize) =~= s.selected);
}

/// Typing an uppercase character always marks the state as asking for the alternative
/// action, whether or not it completes a label and in either mode; a character that is not
/// uppercase leaves the mark as it was.
pub proof fn lemma_uppercase_marks_shifted(s: AppStateView, c: char)
    ensures
        is_upper(c) ==> next_state(s, AppEvent::Char(c)).shifted,
        !is_upper(c) ==> next_state(s, AppEvent::Char(c)).shifted == s.shifted,
        next_state(s, AppEvent::Char(c)).multi_select == s.multi_select,
        next_state(s, AppEvent::Char(c)).hints == s.hints,
{
}

/// Tab turns multi-select on and leaves everything else as it was; outside multi-select it
/// never ends selecting, and inside it ends selecting exactly when something is selected.
/// Enter changes nothing, and ends selecting only in multi-select mode with something selected.
pub proof fn lemma_tab_and_enter(s: AppStateView)
    ensures
        next_state(s, AppEvent::Tab).multi_select,
        next_state(s, AppEvent::Tab).selected == s.selected,
        next_state(s, AppEvent::Tab).input == s.input,
        next_state(s, AppEvent::Tab).shifted == s.shifted,
        !s.multi_select ==> !emits_selection(s, AppEvent::Tab),
        s.multi_select ==> (emits_selection(s, AppEvent::Tab) <==> !s.selected.is_empty()),
        next_state(s, AppEvent::Enter) == s,
        emits_selection(s, AppEvent::Enter) <==> (s.multi_select && !s.selected.is_empty()),
{
}

} // verus!
