//! The overlay: the captured text with its hints styled and their labels drawn over the
//! text, laid out as a stream of drawing operations for a terminal of a given size.

use crate::hints::{hint_views, is_prefix_of, Hint, HintView};
use crate::matching::{Match, MatchView};
use crate::state::{AppState, AppStateView};
use crate::text::chars_of;
use std::ops::Range;
use vstd::prelude::*;
use vstd::utf8::*;

verus! {

/// How a character of the overlay is shown.
#[derive(Clone, Copy, Debug, PartialEq, Eq, Structural)]
pub enum CellStyle {
    /// Text that no hint covers.
    Normal,
    /// The copied text of a hint whose label begins with what was typed.
    Match,
    /// The copied text of a hint ruled out by what was typed.
    Skipped,
    /// The copied text of a selected hint.
    Selected,
    /// A label character not typed yet.
    Label,
    /// A label character already typed.
    LabelTyped,
    /// A label character of a selected hint; typing the label deselects it.
    DeselectLabel,
}

/// The foreground colors of the overlay.
#[derive(Clone, Copy, Debug, PartialEq, Eq)]
pub enum StyleColor {
    White,
    Green,
    DarkGrey,
    Yellow,
    Red,
    DarkRed,
}

/// The color and boldness of a style.
pub open spec fn style_look(s: CellStyle) -> (StyleColor, bool) {
    match s {
        CellStyle::Normal => (StyleColor::White, false),
        CellStyle::Match => (StyleColor::Green, false),
        CellStyle::Skipped => (StyleColor::DarkGrey, false),
        CellStyle::Selected => (StyleColor::Yellow, false),
        CellStyle::Label => (StyleColor::Red, true),
        CellStyle::LabelTyped => (StyleColor::Yellow, true),
        CellStyle::DeselectLabel => (StyleColor::DarkRed, true),
    }
}

/// The color and boldness of a style.
pub fn style(s: CellStyle) -> (res: (StyleColor, bool))
    ensures
        res == style_look(s),
{
    match s {
        CellStyle::Normal => (StyleColor::White, false),
        CellStyle::Match => (StyleColor::Green, false),
        CellStyle::Skipped => (StyleColor::DarkGrey, false),
        CellStyle::Selected => (StyleColor::Yellow, false),
        CellStyle::Label => (StyleColor::Red, true),
        CellStyle::LabelTyped => (StyleColor::Yellow, true),
        CellStyle::DeselectLabel => (StyleColor::DarkRed, true),
    }
}

/// One character of the captured text: where it starts in the text's bytes, the character
/// shown there and its style.
#[derive(Clone, Copy, Debug, PartialEq, Eq)]
pub struct Cell {
    pub byte_offset: usize,
    pub ch: char,
    pub style: CellStyle,
}

/// The cells of a text: each character at the byte offset where it starts, unstyled.
pub open spec fn initial_cells(text: Seq<char>) -> Seq<Cell>
    decreases text.len(),
{
    if text.len() == 0 {
        seq![]
    } else {
        initial_cells(text.drop_last()).push(
            Cell {
                byte_offset: encode_utf8(text.drop_last()).len() as usize,
                ch: text.last(),
                style: CellStyle::Normal,
            },
        )
    }
}

/// The byte offsets of cells.
pub open spec fn cell_offsets(cells: Seq<Cell>) -> Seq<usize> {
    cells.map_values(|c: Cell| c.byte_offset)
}

proof fn lemma_encode_utf8_push(s: Seq<char>, c: char)
    ensures
        encode_utf8(s.push(c)) == encode_utf8(s) + encode_scalar(c as u32),
    decreases s.len(),
{
    if s.len() == 0 {
        assert(s.push(c).drop_first() =~= Seq::<char>::empty());
        assert(encode_utf8(s.push(c).drop_first()) =~= Seq::<u8>::empty());
        assert(s.push(c)[0] == c);
        assert(encode_utf8(s) =~= Seq::<u8>::empty());
        assert(encode_utf8(s.push(c)) =~= encode_scalar(c as u32));
    } else {
        assert(s.push(c).drop_first() =~= s.drop_first().push(c));
        lemma_encode_utf8_push(s.drop_first(), c);
        assert(encode_utf8(s.push(c)) =~= encode_utf8(s) + encode_scalar(c as u32));
    }
}

proof fn lemma_encode_utf8_prefix_len(s: Seq<char>, k: int)
    requires
        0 <= k <= s.len(),
    ensures
        encode_utf8(s.take(k)).len() <= encode_utf8(s).len(),
    decreases s.len() - k,
{
    if k < s.len() {
        lemma_encode_utf8_prefix_len(s, k + 1);
        assert(s.take(k + 1) =~= s.take(k).push(s[k]));
        lemma_encode_utf8_push(s.take(k), s[k]);
    } else {
        assert(s.take(k) =~= s);
    }
}

/// The number of bytes of a character's UTF-8 encoding.
fn utf8_len(c: char) -> (res: usize)
    ensures
        res == encode_scalar(c as u32).len(),
{
    let v = c as u32;
    proof {
        vstd::utf8::char_is_scalar(c);
    }
    if v <= 0x7F {
        1
    } else if v <= 0x7FF {
        2
    } else if v <= 0xFFFF {
        3
    } else {
        4
    }
}

/// The cells of a text.
fn cells_of(text: &str) -> (res: Vec<Cell>)
    ensures
        res@ == initial_cells(text@),
{
    let chars = chars_of(text);
    let total = text.as_bytes().len();
    let ghost t = text@;
    let mut cells: Vec<Cell> = Vec::new();
    let mut offset: usize = 0;
    for k in 0..chars.len()
        invariant
            chars@ == t,
            t == text@,
            cells@ == initial_cells(t.take(k as int)),
            offset == encode_utf8(t.take(k as int)).len(),
            encode_utf8(t).len() == total,
    {
        let c = chars[k];
        proof {
            assert(t.take(k + 1).drop_last() =~= t.take(k as int));
            assert(t.take(k + 1).last() == c);
            assert(t.take(k + 1) =~= t.take(k as int).push(c));
            lemma_encode_utf8_push(t.take(k as int), c);
            lemma_encode_utf8_prefix_len(t, k + 1);
        }
        cells.push(Cell { byte_offset: offset, ch: c, style: CellStyle::Normal });
        let n = utf8_len(c);
        offset = offset + n;
    }
    proof {
        assert(t.take(chars.len() as int) =~= t);
    }
    cells
}

/// A cell given `style` when its byte offset lies in `r`.
pub open spec fn restyled_cell(c: Cell, r: Range<usize>, style: CellStyle) -> Cell {
    if r.start <= c.byte_offset && c.byte_offset < r.end {
        Cell { style, ..c }
    } else {
        c
    }
}

/// The cells whose byte offsets lie in `r` given `style`.
pub open spec fn restyled(cells: Seq<Cell>, r: Range<usize>, style: CellStyle) -> Seq<Cell> {
    Seq::new(cells.len(), |k: int| restyled_cell(cells[k], r, style))
}

/// Cells that a label may be drawn over: all but line breaks.
pub open spec fn is_eligible(c: Cell) -> bool {
    c.ch != '\n' && c.ch != '\r'
}

/// The index of the `n`-th (from zero) cell at or after `from` that a label may be drawn over.
pub open spec fn nth_eligible(cells: Seq<Cell>, from: int, n: int) -> Option<int>
    decreases cells.len() - from,
{
    if from < 0 || from >= cells.len() {
        None
    } else if is_eligible(cells[from]) {
        if n == 0 {
            Some(from)
        } else {
            nth_eligible(cells, from + 1, n - 1)
        }
    } else {
        nth_eligible(cells, from + 1, n)
    }
}

/// The style of the `k`-th character of a label when `typed` characters have been typed.
pub open spec fn label_style(selected: bool, k: int, typed: int) -> CellStyle {
    if selected {
        CellStyle::DeselectLabel
    } else if k < typed {
        CellStyle::LabelTyped
    } else {
        CellStyle::Label
    }
}

/// The cells with cell `j` showing `ch` in `style`.
pub open spec fn with_label_char(cells: Seq<Cell>, j: int, ch: char, style: CellStyle) -> Seq<
    Cell,
> {
    cells.update(j, Cell { ch, style, ..cells[j] })
}

/// The cells with the first `k` characters of a label drawn from cell `start` on, each over
/// the next cell that is not a line break.
pub open spec fn labeled(
    cells: Seq<Cell>,
    start: int,
    label: Seq<char>,
    selected: bool,
    typed: int,
    k: nat,
) -> Seq<Cell>
    decreases k,
{
    if k == 0 {
        cells
    } else {
        let prev = labeled(cells, start, label, selected, typed, (k - 1) as nat);
        match nth_eligible(prev, start, k - 1) {
            None => prev,
            Some(j) => with_label_char(prev, j, label[k - 1], label_style(selected, k - 1, typed)),
        }
    }
}

/// The index of the first cell that starts at byte `offset`.
pub open spec fn index_of_offset(offsets: Seq<usize>, offset: usize) -> Option<int> {
    if exists|k: int| 0 <= k < offsets.len() && offsets[k] == offset {
        Some(
            choose|k: int|
                0 <= k < offsets.len() && offsets[k] == offset && forall|j: int|
                    0 <= j < k ==> offsets[j] != offset,
        )
    } else {
        None
    }
}

/// The style of a hint's copied text.
pub open spec fn match_style(selected: bool, candidate: bool) -> CellStyle {
    if selected {
        CellStyle::Selected
    } else if candidate {
        CellStyle::Match
    } else {
        CellStyle::Skipped
    }
}

/// The cells after one occurrence of a hint is drawn: its copied text styled and, unless the
/// hint is neither selected nor still a candidate, its label drawn from where that text starts.
pub open spec fn occurrence_pass(
    cells: Seq<Cell>,
    offsets: Seq<usize>,
    label: Seq<char>,
    selected: bool,
    candidate: bool,
    typed: int,
    m: MatchView,
) -> Seq<Cell> {
    let styled = restyled(cells, m.selection, match_style(selected, candidate));
    if !candidate && !selected {
        styled
    } else {
        match index_of_offset(offsets, m.selection.start) {
            None => styled,
            Some(start) => labeled(styled, start, label, selected, typed, label.len()),
        }
    }
}

/// The cells after the first `o` occurrences of a hint are drawn.
pub open spec fn hint_pass(
    cells: Seq<Cell>,
    offsets: Seq<usize>,
    hint: HintView,
    selected: bool,
    candidate: bool,
    typed: int,
    o: nat,
) -> Seq<Cell>
    decreases o,
{
    if o == 0 {
        cells
    } else {
        occurrence_pass(
            hint_pass(cells, offsets, hint, selected, candidate, typed, (o - 1) as nat),
            offsets,
            hint.label,
            selected,
            candidate,
            typed,
            hint.occurrences[o - 1],
        )
    }
}

/// The cells after the first `i` hints are drawn, in order, for a state: a hint is selected
/// when the state selects it, and a candidate when its label begins with what was typed.
pub open spec fn styled_upto(
    cells: Seq<Cell>,
    offsets: Seq<usize>,
    hints: Seq<HintView>,
    s: AppStateView,
    i: nat,
) -> Seq<Cell>
    decreases i,
{
    if i == 0 {
        cells
    } else {
        let h = hints[i - 1];
        hint_pass(
            styled_upto(cells, offsets, hints, s, (i - 1) as nat),
            offsets,
            h,
            s.selected.contains((i - 1) as usize),
            is_prefix_of(s.input, h.label),
            s.input.len() as int,
            h.occurrences.len(),
        )
    }
}

/// The cells of a text with all the hints drawn.
pub open spec fn styled_cells(text: Seq<char>, hints: Seq<HintView>, s: AppStateView) -> Seq<Cell> {
    let cells = initial_cells(text);
    styled_upto(cells, cell_offsets(cells), hints, s, hints.len())
}

/// Gives `style` to the cells whose byte offsets lie in `r`.
fn restyle(cells: &mut Vec<Cell>, r: &Range<usize>, style: CellStyle)
    ensures
        final(cells)@ == restyled(old(cells)@, *r, style),
{
    let ghost before = cells@;
    let n = cells.len();
    for k in 0..n
        invariant
            n == before.len(),
            cells@.len() == before.len(),
            forall|j: int| 0 <= j < k ==> cells@[j] == restyled_cell(before[j], *r, style),
            forall|j: int| k <= j < before.len() ==> cells@[j] == before[j],
    {
        let c = cells[k];
        if r.start <= c.byte_offset && c.byte_offset < r.end {
            cells.set(k, Cell { style, ..c });
        }
    }
    assert(cells@ =~= restyled(before, *r, style));
}

/// The index of the `n`-th cell at or after `start` that a label may be drawn over.
fn find_eligible(cells: &Vec<Cell>, start: usize, n: usize) -> (res: Option<usize>)
    ensures
        res matches Some(j) ==> nth_eligible(cells@, start as int, n as int) == Some(j as int)
            && j < cells.len(),
        res is None ==> nth_eligible(cells@, start as int, n as int) is None,
{
    let mut from = start;
    let mut left = n;
    while from < cells.len()
        invariant
            start <= from,
            nth_eligible(cells@, start as int, n as int) == nth_eligible(
                cells@,
                from as int,
                left as int,
            ),
        decreases cells.len() - from,
    {
        let c = cells[from];
        if c.ch != '\n' && c.ch != '\r' {
            if left == 0 {
                return Some(from);
            }
            left = left - 1;
        }
        from = from + 1;
    }
    None
}

/// Draws a label from cell `start` on.
fn draw_label(
    cells: &mut Vec<Cell>,
    start: usize,
    label: &[char],
    selected: bool,
    typed: usize,
)
    ensures
        final(cells)@ == labeled(
            old(cells)@,
            start as int,
            label@,
            selected,
            typed as int,
            label@.len(),
        ),
{
    let ghost before = cells@;
    for k in 0..label.len()
        invariant
            cells@ == labeled(before, start as int, label@, selected, typed as int, k as nat),
    {
        match find_eligible(cells, start, k) {
            Some(j) => {
                let c = cells[j];
                let style = if selected {
                    CellStyle::DeselectLabel
                } else if k < typed {
                    CellStyle::LabelTyped
                } else {
                    CellStyle::Label
                };
                cells.set(j, Cell { ch: label[k], style, ..c });
            },
            None => {},
        }
    }
}

/// The index of the first offset equal to `offset`.
fn find_offset(offsets: &Vec<usize>, offset: usize) -> (res: Option<usize>)
    ensures
        res matches Some(k) ==> index_of_offset(offsets@, offset) == Some(k as int),
        res is None ==> index_of_offset(offsets@, offset) is None,
{
    for k in 0..offsets.len()
        invariant
            forall|j: int| 0 <= j < k ==> offsets@[j] != offset,
    {
        if offsets[k] == offset {
            proof {
                let c = choose|c: int|
                    0 <= c < offsets@.len() && offsets@[c] == offset && forall|j: int|
                        0 <= j < c ==> offsets@[j] != offset;
                if c < k {
                } else if c > k {
                    assert(offsets@[k as int] != offset);
                }
            }
            return Some(k);
        }
    }
    None
}

/// Whether `p` is a prefix of `s`.
fn chars_prefix(p: &[char], s: &[char]) -> (res: bool)
    ensures
        res == is_prefix_of(p@, s@),
{
    if p.len() > s.len() {
        return false;
    }
    for k in 0..p.len()
        invariant
            p.len() <= s.len(),
            forall|j: int| 0 <= j < k ==> p@[j] == s@[j],
    {
        if p[k] != s[k] {
            proof {
                assert(s@.subrange(0, p@.len() as int)[k as int] != p@[k as int]);
            }
            return false;
        }
    }
    assert(s@.subrange(0, p@.len() as int) =~= p@);
    true
}

/// Draws one occurrence of a hint: styles its copied text and, for a selected hint or a
/// candidate, draws the label where that text starts.
fn draw_occurrence(
    cells: &mut Vec<Cell>,
    offsets: &Vec<usize>,
    m: &Match,
    label: &[char],
    selected: bool,
    candidate: bool,
    typed: usize,
)
    ensures
        final(cells)@ == occurrence_pass(
            old(cells)@,
            offsets@,
            label@,
            selected,
            candidate,
            typed as int,
            m@,
        ),
{
    let ms = match_style_of(selected, candidate);
    restyle(cells, &m.selection, ms);
    if candidate || selected {
        match find_offset(offsets, m.selection.start) {
            Some(start) => {
                draw_label(cells, start, label, selected, typed);
            },
            None => {},
        }
    }
}

/// Draws every occurrence of a hint, in order.
fn draw_hint(
    cells: &mut Vec<Cell>,
    offsets: &Vec<usize>,
    hint: &Hint,
    label: &[char],
    selected: bool,
    candidate: bool,
    typed: usize,
)
    requires
        label@ == hint@.label,
    ensures
        final(cells)@ == hint_pass(
            old(cells)@,
            offsets@,
            hint@,
            selected,
            candidate,
            typed as int,
            hint@.occurrences.len(),
        ),
{
    let ghost start_cells = cells@;
    let ghost h = hint@;
    for o in 0..hint.occurrences.len()
        invariant
            h == hint@,
            label@ == h.label,
            cells@ == hint_pass(start_cells, offsets@, h, selected, candidate, typed as int, o as nat),
    {
        let m = &hint.occurrences[o];
        assert(h.occurrences[o as int] == m@);
        draw_occurrence(cells, offsets, m, label, selected, candidate, typed);
    }
}

/// The cells of a text with all the hints drawn over them.
pub fn style_cells(text: &str, hints: &[Hint], state: &AppState) -> (res: Vec<Cell>)
    ensures
        res@ == styled_cells(text@, hint_views(hints@), state@),
{
    let mut cells = cells_of(text);
    let ghost base = cells@;
    let ghost hv = hint_views(hints@);
    let mut offsets: Vec<usize> = Vec::new();
    for k in 0..cells.len()
        invariant
            cells@ == base,
            offsets@ == cell_offsets(base).take(k as int),
    {
        offsets.push(cells[k].byte_offset);
        proof {
            assert(offsets@ =~= cell_offsets(base).take(k + 1));
        }
    }
    proof {
        assert(offsets@ =~= cell_offsets(base));
    }
    let input = chars_of(state.input());
    let typed = input.len();
    for i in 0..hints.len()
        invariant
            hv == hint_views(hints@),
            offsets@ == cell_offsets(base),
            input@ == state@.input,
            typed == input@.len(),
            cells@ == styled_upto(base, offsets@, hv, state@, i as nat),
    {
        let hint = &hints[i];
        let ghost h = hv[i as int];
        assert(h == hint@);
        let selected = state.is_selected(i);
        let label = chars_of(hint.label.as_str());
        let candidate = chars_prefix(input.as_slice(), label.as_slice());
        draw_hint(&mut cells, &offsets, hint, label.as_slice(), selected, candidate, typed);
    }
    cells
}

/// The style of a hint's copied text.
fn match_style_of(selected: bool, candidate: bool) -> (res: CellStyle)
    ensures
        res == match_style(selected, candidate),
{
    if selected {
        CellStyle::Selected
    } else if candidate {
        CellStyle::Match
    } else {
        CellStyle::Skipped
    }
}

/// One step of drawing the overlay on a terminal.
#[derive(Clone, Debug, PartialEq, Eq)]
pub enum DrawOp {
    /// Clear the whole screen.
    ClearAll,
    /// Move the cursor to a column and a row.
    MoveTo(u16, u16),
    /// Print `"\r\n"`.
    Newline,
    /// Print `"\r"`.
    CarriageReturn,
    /// Set the foreground color and whether the text is bold.
    SetStyle(StyleColor, bool),
    /// Print a character.
    PrintChar(char),
    /// Print a text.
    PrintText(String),
    /// Reset all text attributes.
    ResetAttributes,
}

/// A drawing step as a mathematical value.
pub enum DrawOpView {
    ClearAll,
    MoveTo(u16, u16),
    Newline,
    CarriageReturn,
    SetStyle(StyleColor, bool),
    PrintChar(char),
    PrintText(Seq<char>),
    ResetAttributes,
}

impl View for DrawOp {
    type V = DrawOpView;

    open spec fn view(&self) -> DrawOpView {
        match self {
            DrawOp::ClearAll => DrawOpView::ClearAll,
            DrawOp::MoveTo(x, y) => DrawOpView::MoveTo(*x, *y),
            DrawOp::Newline => DrawOpView::Newline,
            DrawOp::CarriageReturn => DrawOpView::CarriageReturn,
            DrawOp::SetStyle(c, b) => DrawOpView::SetStyle(*c, *b),
            DrawOp::PrintChar(c) => DrawOpView::PrintChar(*c),
            DrawOp::PrintText(t) => DrawOpView::PrintText(t@),
            DrawOp::ResetAttributes => DrawOpView::ResetAttributes,
        }
    }
}

/// Views of drawing steps.
pub open spec fn op_views(ops: Seq<DrawOp>) -> Seq<DrawOpView> {
    ops.map_values(|o: DrawOp| o@)
}

/// What `UnicodeWidthChar::width` of `unicode_width` gives for a character: the columns it
/// takes, `None` for a control character.
pub uninterp spec fn char_columns(c: char) -> Option<usize>;

/// Calls `unicode_width::UnicodeWidthChar::width`. Claimed: the result is a function of the
/// character; the characters below U+0020 and from U+007F up to U+00A0 (control codes) have
/// none, and the other ASCII characters take one column.
#[verifier::external_body]
fn columns_of(c: char) -> (res: Option<usize>)
    ensures
        res == char_columns(c),
        (c as u32) < 0x20 ==> res is None,
        0x20 <= (c as u32) && (c as u32) < 0x7F ==> res == Some(1usize),
        0x7F <= (c as u32) && (c as u32) < 0xA0 ==> res is None,
{
    unicode_width::UnicodeWidthChar::width(c)
}

/// The columns a character advances the cursor by: its width, none for a control
/// character, cut to 16 bits. The control characters below U+0020 and from U+007F up to
/// U+00A0 take none, the other ASCII characters one.
pub open spec fn cell_width(c: char) -> u16 {
    if (c as u32) < 0x20 || (0x7F <= (c as u32) && (c as u32) < 0xA0) {
        0
    } else if (c as u32) < 0x7F {
        1
    } else {
        match char_columns(c) {
            Some(w) => #[verifier::truncate] (w as u16),
            None => 0,
        }
    }
}

/// The drawing of the cells from `k` on, with the cursor at column `x` of row `y` and the
/// style `active` in force: cells are printed one after another; a line feed moves to the
/// start of the next row (and ends the drawing when that row is not on the screen), a carriage
/// return to the start of the row; a character that does not fit in the rest of the row is
/// printed at the start of the next (and ends the drawing when that row is not on the
/// screen); the style is set only where it changes, and again after every new row. No new row
/// is ever started below the screen.
pub open spec fn layout_from(
    cells: Seq<Cell>,
    k: int,
    x: u16,
    y: u16,
    active: Option<CellStyle>,
    width: u16,
    height: u16,
) -> Seq<DrawOpView>
    decreases cells.len() - k,
{
    if k < 0 || k >= cells.len() || y >= height {
        seq![]
    } else {
        let c = cells[k];
        if c.ch == '\n' {
            if y.saturating_add(1) >= height {
                seq![]
            } else {
                seq![DrawOpView::Newline] + layout_from(
                    cells,
                    k + 1,
                    0,
                    y.saturating_add(1),
                    None,
                    width,
                    height,
                )
            }
        } else if c.ch == '\r' {
            seq![DrawOpView::CarriageReturn] + layout_from(cells, k + 1, 0, y, active, width, height)
        } else {
            let w = cell_width(c.ch);
            let wrap = w > 0 && x.saturating_add(w) > width;
            let x1: u16 = if wrap {
                0
            } else {
                x
            };
            let y1: u16 = if wrap {
                y.saturating_add(1)
            } else {
                y
            };
            let a1 = if wrap {
                None
            } else {
                active
            };
            let pre = if wrap {
                seq![DrawOpView::Newline]
            } else {
                seq![]
            };
            if y1 >= height {
                seq![]
            } else {
                let look = style_look(c.style);
                let set = if a1 != Some(c.style) {
                    seq![DrawOpView::SetStyle(look.0, look.1)]
                } else {
                    seq![]
                };
                pre + set + seq![DrawOpView::PrintChar(c.ch)] + layout_from(
                    cells,
                    k + 1,
                    x1.saturating_add(w),
                    y1,
                    Some(c.style),
                    width,
                    height,
                )
            }
        }
    }
}

/// The drawing of all the cells from the top left corner.
pub open spec fn layout(cells: Seq<Cell>, width: u16, height: u16) -> Seq<DrawOpView> {
    layout_from(cells, 0, 0, 0, None, width, height)
}

/// Lays out cells on a screen of `width` columns and `height` rows.
fn layout_cells(cells: &Vec<Cell>, width: u16, height: u16) -> (res: Vec<DrawOp>)
    ensures
        op_views(res@) == layout(cells@, width, height),
{
    let mut ops: Vec<DrawOp> = Vec::new();
    let mut x: u16 = 0;
    let mut y: u16 = 0;
    let mut active: Option<CellStyle> = None;
    let mut k: usize = 0;
    while k < cells.len()
        invariant
            k <= cells.len(),
            op_views(ops@) + layout_from(cells@, k as int, x, y, active, width, height) == layout(
                cells@,
                width,
                height,
            ),
        decreases cells.len() - k,
    {
        let ghost before = op_views(ops@);
        let c = cells[k];
        if y >= height {
            assert(layout_from(cells@, k as int, x, y, active, width, height) =~= Seq::<
                DrawOpView,
            >::empty());
            assert(op_views(ops@) =~= before + Seq::<DrawOpView>::empty());
            return ops;
        }
        if c.ch == '\n' {
            if y.saturating_add(1) >= height {
                assert(op_views(ops@) =~= before + Seq::<DrawOpView>::empty());
                return ops;
            }
            ops.push(DrawOp::Newline);
            proof {
                assert(op_views(ops@) =~= before + seq![DrawOpView::Newline]);
            }
            x = 0;
            y = y.saturating_add(1);
            active = None;
            k = k + 1;
            continue;
        }
        if c.ch == '\r' {
            ops.push(DrawOp::CarriageReturn);
            proof {
                assert(op_views(ops@) =~= before + seq![DrawOpView::CarriageReturn]);
            }
            x = 0;
            k = k + 1;
            continue;
        }
        let w: u16 = match columns_of(c.ch) {
            Some(n) => #[verifier::truncate] (n as u16),
            None => 0,
        };
        assert(w == cell_width(c.ch));
        assert(c == cells@[k as int]);
        let ghost a0 = active;
        let ghost x0 = x;
        let ghost y0 = y;
        let mut pushed_newline = false;
        if w > 0 && x.saturating_add(w) > width {
            if y.saturating_add(1) >= height {
                assert(op_views(ops@) =~= before + Seq::<DrawOpView>::empty());
                return ops;
            }
            ops.push(DrawOp::Newline);
            x = 0;
            y = y.saturating_add(1);
            active = None;
            pushed_newline = true;
        }
        let ghost pre = if pushed_newline {
            seq![DrawOpView::Newline]
        } else {
            Seq::<DrawOpView>::empty()
        };
        proof {
            assert(op_views(ops@) =~= before + pre);
            assert(pushed_newline == (w > 0 && x0.saturating_add(w) > width));
        }
        let ghost mid = op_views(ops@);
        let mut set = false;
        let changed = match active {
            Some(a) => a != c.style,
            None => true,
        };
        if changed {
            let look = style(c.style);
            ops.push(DrawOp::SetStyle(look.0, look.1));
            set = true;
        }
        ops.push(DrawOp::PrintChar(c.ch));
        proof {
            let look = style_look(c.style);
            let s = if set {
                seq![DrawOpView::SetStyle(look.0, look.1)]
            } else {
                Seq::<DrawOpView>::empty()
            };
            assert(op_views(ops@) =~= mid + s + seq![DrawOpView::PrintChar(c.ch)]);
            assert(layout_from(cells@, k as int, x0, y0, a0, width, height) == pre + s
                + seq![DrawOpView::PrintChar(c.ch)] + layout_from(
                cells@,
                k + 1,
                x.saturating_add(w),
                y,
                Some(c.style),
                width,
                height,
            ));
        }
        active = Some(c.style);
        x = x.saturating_add(w);
        k = k + 1;
    }
    assert(op_views(ops@) =~= op_views(ops@) + Seq::<DrawOpView>::empty());
    ops
}

/// The notice shown when nothing can be copied.
pub open spec fn notice() -> Seq<char> {
    "No copyable text found \u{2014} Esc to close"@
}

/// The first `width` bytes of the notice, at most all of it, as characters: the dash after
/// its first 23 characters takes three bytes.
pub open spec fn notice_shown(width: u16) -> Seq<char> {
    let n: int = if width < 39 {
        width as int
    } else {
        39
    };
    if n <= 23 {
        notice().take(n)
    } else {
        notice().take(n - 2)
    }
}

/// Whether the first `width` bytes of the notice end between characters: not inside the dash.
pub open spec fn notice_cut_ok(width: u16) -> bool {
    width != 24 && width != 25
}

/// The whole frame: clear the screen, draw the cells from the top left corner, show the
/// notice on the last row when there are no hints, and reset the attributes.
pub open spec fn frame_ops(
    text: Seq<char>,
    hints: Seq<HintView>,
    s: AppStateView,
    width: u16,
    height: u16,
) -> Seq<DrawOpView> {
    let notice_ops = if hints.len() == 0 && height > 0 {
        seq![
            DrawOpView::MoveTo(0, (height - 1) as u16),
            DrawOpView::SetStyle(StyleColor::Yellow, true),
            DrawOpView::PrintText(notice_shown(width)),
        ]
    } else {
        seq![]
    };
    seq![DrawOpView::ClearAll, DrawOpView::MoveTo(0, 0)] + layout(
        styled_cells(text, hints, s),
        width,
        height,
    ) + notice_ops + seq![DrawOpView::ResetAttributes]
}

/// The drawing of the overlay for a text, its hints and the selection state on a screen of
/// `width` columns and `height` rows.
pub fn render_frame(text: &str, hints: &[Hint], state: &AppState, width: u16, height: u16) -> (res:
    Vec<DrawOp>)
    requires
        hints.len() > 0 || height == 0 || notice_cut_ok(width),
    ensures
        op_views(res@) == frame_ops(text@, hint_views(hints@), state@, width, height),
{
    let cells = style_cells(text, hints, state);
    let mut body = layout_cells(&cells, width, height);
    let mut ops: Vec<DrawOp> = Vec::new();
    ops.push(DrawOp::ClearAll);
    ops.push(DrawOp::MoveTo(0, 0));
    let ghost head = ops@;
    let ghost drawn_body = body@;
    ops.append(&mut body);
    proof {
        assert(ops@ == head + drawn_body);
        assert(op_views(ops@) =~= seq![DrawOpView::ClearAll, DrawOpView::MoveTo(0, 0)] + op_views(
            drawn_body,
        ));
    }
    let ghost drawn = op_views(ops@);
    if hints.len() == 0 && height > 0 {
        let message = "No copyable text found \u{2014} Esc to close";
        proof {
            reveal_strlit("No copyable text found \u{2014} Esc to close");
        }
        let n: u16 = if width < 39 {
            width
        } else {
            39
        };
        let count: usize = if n <= 23 {
            n as usize
        } else {
            (n - 2) as usize
        };
        let shown = message.substring_char(0, count);
        ops.push(DrawOp::MoveTo(0, height - 1));
        ops.push(DrawOp::SetStyle(StyleColor::Yellow, true));
        ops.push(DrawOp::PrintText(shown.to_string()));
        proof {
            assert(shown@ =~= notice_shown(width));
            assert(op_views(ops@) =~= drawn + seq![
                DrawOpView::MoveTo(0, (height - 1) as u16),
                DrawOpView::SetStyle(StyleColor::Yellow, true),
                DrawOpView::PrintText(notice_shown(width)),
            ]);
        }
    }
    let ghost noted = op_views(ops@);
    ops.push(DrawOp::ResetAttributes);
    proof {
        assert(op_views(ops@) =~= noted + seq![DrawOpView::ResetAttributes]);
    }
    ops
}

/// The number of new rows that drawing steps move down by.
pub open spec fn newline_count(ops: Seq<DrawOpView>) -> int
    decreases ops.len(),
{
    if ops.len() == 0 {
        0
    } else {
        (if ops[0] is Newline {
            1int
        } else {
            0
        }) + newline_count(ops.drop_first())
    }
}

/// Drawing steps that start on `row` print every character on a row above `height`.
pub open spec fn prints_within(ops: Seq<DrawOpView>, row: int, height: int) -> bool
    decreases ops.len(),
{
    if ops.len() == 0 {
        true
    } else {
        &&& (ops[0] is PrintChar ==> row < height)
        &&& prints_within(
            ops.drop_first(),
            if ops[0] is Newline {
                row + 1
            } else {
                row
            },
            height,
        )
    }
}

proof fn lemma_steps_concat(a: Seq<DrawOpView>, b: Seq<DrawOpView>, row: int, height: int)
    ensures
        newline_count(a + b) == newline_count(a) + newline_count(b),
        prints_within(a + b, row, height) == (prints_within(a, row, height) && prints_within(
            b,
            row + newline_count(a),
            height,
        )),
    decreases a.len(),
{
    if a.len() == 0 {
        assert(a + b =~= b);
    } else {
        assert((a + b).drop_first() =~= a.drop_first() + b);
        let r = if a[0] is Newline {
            row + 1
        } else {
            row
        };
        lemma_steps_concat(a.drop_first(), b, r, height);
    }
}

proof fn lemma_single_step(op: DrawOpView, row: int, height: int)
    ensures
        newline_count(seq![op]) == (if op is Newline {
            1int
        } else {
            0
        }),
        prints_within(seq![op], row, height) == (op is PrintChar ==> row < height),
{
    let one = seq![op];
    assert(one.drop_first() =~= Seq::<DrawOpView>::empty());
    assert(newline_count(one.drop_first()) == 0);
    assert(one[0] == op);
    let r = if op is Newline {
        row + 1
    } else {
        row
    };
    assert(prints_within(one.drop_first(), r, height));
}

proof fn lemma_layout_rows(
    cells: Seq<Cell>,
    k: int,
    x: u16,
    y: u16,
    active: Option<CellStyle>,
    width: u16,
    height: u16,
)
    ensures
        ({
            let ops = layout_from(cells, k, x, y, active, width, height);
            &&& y < height ==> newline_count(ops) <= height - 1 - y
            &&& newline_count(ops) >= 0
            &&& prints_within(ops, y as int, height as int)
        }),
    decreases cells.len() - k,
{
    let ops = layout_from(cells, k, x, y, active, width, height);
    if k < 0 || k >= cells.len() || y >= height {
        assert(ops =~= Seq::<DrawOpView>::empty());
    } else {
        let c = cells[k];
        if c.ch == '\n' {
            if y.saturating_add(1) < height {
                let rest = layout_from(cells, k + 1, 0, y.saturating_add(1), None, width, height);
                lemma_layout_rows(cells, k + 1, 0, y.saturating_add(1), None, width, height);
                lemma_steps_concat(seq![DrawOpView::Newline], rest, y as int, height as int);
                lemma_single_step(DrawOpView::Newline, y as int, height as int);
            }
        } else if c.ch == '\r' {
            let rest = layout_from(cells, k + 1, 0, y, active, width, height);
            lemma_layout_rows(cells, k + 1, 0, y, active, width, height);
            lemma_steps_concat(seq![DrawOpView::CarriageReturn], rest, y as int, height as int);
            lemma_single_step(DrawOpView::CarriageReturn, y as int, height as int);
        } else {
            let w = cell_width(c.ch);
            let wrap = w > 0 && x.saturating_add(w) > width;
            let x1: u16 = if wrap {
                0
            } else {
                x
            };
            let y1: u16 = if wrap {
                y.saturating_add(1)
            } else {
                y
            };
            let pre = if wrap {
                seq![DrawOpView::Newline]
            } else {
                seq![]
            };
            lemma_single_step(DrawOpView::Newline, y as int, height as int);
            assert(newline_count(Seq::<DrawOpView>::empty()) == 0);
            assert(prints_within(Seq::<DrawOpView>::empty(), y as int, height as int));
            assert(newline_count(pre) == y1 - y);
            assert(prints_within(pre, y as int, height as int));
            if y1 >= height {
                assert(ops =~= Seq::<DrawOpView>::empty());
            } else {
                let look = style_look(c.style);
                let a1 = if wrap {
                    None
                } else {
                    active
                };
                let set = if a1 != Some(c.style) {
                    seq![DrawOpView::SetStyle(look.0, look.1)]
                } else {
                    seq![]
                };
                let pr = seq![DrawOpView::PrintChar(c.ch)];
                let rest = layout_from(
                    cells,
                    k + 1,
                    x1.saturating_add(w),
                    y1,
                    Some(c.style),
                    width,
                    height,
                );
                lemma_layout_rows(cells, k + 1, x1.saturating_add(w), y1, Some(c.style), width, height);
                lemma_single_step(DrawOpView::SetStyle(look.0, look.1), y1 as int, height as int);
                lemma_single_step(DrawOpView::PrintChar(c.ch), y1 as int, height as int);
                assert(newline_count(set) == 0);
                assert(newline_count(pr) == 0);
                assert(prints_within(set, y1 as int, height as int));
                assert(prints_within(pr, y1 as int, height as int));
                lemma_steps_concat(pre, set, y as int, height as int);
                lemma_steps_concat(pre + set, pr, y as int, height as int);
                lemma_steps_concat(pre + set + pr, rest, y as int, height as int);
            }
        }
    }
}

/// Drawing the cells never starts a new row below the screen: on a screen of `height` rows
/// it moves down at most `height - 1` rows (none on an empty screen), and prints every
/// character on one of the rows of the screen.
pub proof fn lemma_layout_stays_on_screen(cells: Seq<Cell>, width: u16, height: u16)
    ensures
        newline_count(layout(cells, width, height)) <= (if height > 0 {
            height - 1
        } else {
            0
        }),
        prints_within(layout(cells, width, height), 0, height as int),
{
    lemma_layout_rows(cells, 0, 0, 0, None, width, height);
    if height == 0 {
        assert(layout(cells, width, height) =~= Seq::<DrawOpView>::empty());
    }
}

proof fn lemma_no_newline(ops: Seq<DrawOpView>)
    requires
        forall|i: int| 0 <= i < ops.len() ==> !(#[trigger] ops[i] is Newline),
    ensures
        newline_count(ops) == 0,
    decreases ops.len(),
{
    if ops.len() > 0 {
        assert forall|i: int| 0 <= i < ops.drop_first().len() implies !(
        #[trigger] ops.drop_first()[i] is Newline) by {
            assert(ops.drop_first()[i] == ops[i + 1]);
        }
        lemma_no_newline(ops.drop_first());
    }
}

/// The whole frame starts no new row below the screen: on a screen of `height` rows it moves
/// down at most `height - 1` rows, and prints every character of the text on the screen.
pub proof fn lemma_frame_stays_on_screen(
    text: Seq<char>,
    hints: Seq<HintView>,
    s: AppStateView,
    width: u16,
    height: u16,
)
    ensures
        newline_count(frame_ops(text, hints, s, width, height)) <= (if height > 0 {
            height - 1
        } else {
            0
        }),
{
    let body = layout(styled_cells(text, hints, s), width, height);
    lemma_layout_stays_on_screen(styled_cells(text, hints, s), width, height);
    let head = seq![DrawOpView::ClearAll, DrawOpView::MoveTo(0, 0)];
    let notice_ops = if hints.len() == 0 && height > 0 {
        seq![
            DrawOpView::MoveTo(0, (height - 1) as u16),
            DrawOpView::SetStyle(StyleColor::Yellow, true),
            DrawOpView::PrintText(notice_shown(width)),
        ]
    } else {
        seq![]
    };
    let tail = seq![DrawOpView::ResetAttributes];
    lemma_no_newline(head);
    lemma_no_newline(notice_ops);
    lemma_no_newline(tail);
    lemma_steps_concat(head, body, 0, height as int);
    lemma_steps_concat(head + body, notice_ops, 0, height as int);
    lemma_steps_concat(head + body + notice_ops, tail, 0, height as int);
}

proof fn lemma_nth_in_range(c: Seq<Cell>, from: int, n: int)
    ensures
        nth_eligible(c, from, n) matches Some(x) ==> 0 <= from <= x < c.len() && is_eligible(c[x]),
    decreases c.len() - from,
{
    if 0 <= from < c.len() {
        if is_eligible(c[from]) {
            if n != 0 {
                lemma_nth_in_range(c, from + 1, n - 1);
            }
        } else {
            lemma_nth_in_range(c, from + 1, n);
        }
    }
}

proof fn lemma_nth_first(c: Seq<Cell>, from: int, j: int)
    requires
        0 <= from <= j < c.len(),
        is_eligible(c[j]),
        forall|q: int| from <= q < j ==> !is_eligible(#[trigger] c[q]),
    ensures
        nth_eligible(c, from, 0) == Some(j),
    decreases j - from,
{
    if from < j {
        lemma_nth_first(c, from + 1, j);
    }
}

proof fn lemma_nth_after_first(c: Seq<Cell>, from: int, n: int, j: int)
    requires
        n >= 1,
        nth_eligible(c, from, 0) == Some(j),
    ensures
        nth_eligible(c, from, n) matches Some(x) ==> x > j,
    decreases c.len() - from,
{
    if 0 <= from < c.len() {
        if is_eligible(c[from]) {
            lemma_nth_in_range(c, from + 1, n - 1);
        } else {
            lemma_nth_after_first(c, from + 1, n, j);
        }
    }
}

proof fn lemma_labeled_step(
    cells: Seq<Cell>,
    start: int,
    label: Seq<char>,
    selected: bool,
    typed: int,
    m: nat,
)
    requires
        1 <= m <= label.len(),
    ensures
        ({
            let prev = labeled(cells, start, label, selected, typed, (m - 1) as nat);
            let out = labeled(cells, start, label, selected, typed, m);
            &&& out.len() == prev.len()
            &&& nth_eligible(prev, start, m - 1) is None ==> out == prev
            &&& nth_eligible(prev, start, m - 1) matches Some(x) ==> {
                &&& 0 <= x < prev.len()
                &&& out[x].ch == label[m - 1]
                &&& out[x].style == label_style(selected, m - 1, typed)
                &&& forall|q: int| 0 <= q < out.len() && q != x ==> out[q] == prev[q]
            }
        }),
{
    let prev = labeled(cells, start, label, selected, typed, (m - 1) as nat);
    let out = labeled(cells, start, label, selected, typed, m);
    lemma_nth_in_range(prev, start, m - 1);
    match nth_eligible(prev, start, m - 1) {
        None => {},
        Some(x) => {
            let ch = label[m - 1];
            let st = label_style(selected, m - 1, typed);
            assert(out == with_label_char(prev, x, ch, st));
            lemma_with_label_char(prev, x, ch, st);
        },
    }
}

proof fn lemma_first_label_char(
    cells: Seq<Cell>,
    start: int,
    label: Seq<char>,
    selected: bool,
    typed: int,
    m: nat,
    j: int,
)
    requires
        1 <= m <= label.len(),
        label[0] != '\n' && label[0] != '\r',
        nth_eligible(cells, start, 0) == Some(j),
    ensures
        ({
            let out = labeled(cells, start, label, selected, typed, m);
            &&& out.len() == cells.len()
            &&& out[j].ch == label[0]
            &&& out[j].style == label_style(selected, 0, typed)
            &&& nth_eligible(out, start, 0) == Some(j)
        }),
    decreases m,
{
    lemma_nth_in_range(cells, start, 0);
    lemma_labeled_step(cells, start, label, selected, typed, m);
    let prev = labeled(cells, start, label, selected, typed, (m - 1) as nat);
    let out = labeled(cells, start, label, selected, typed, m);
    if m == 1 {
        assert(prev == cells);
        assert forall|q: int| start <= q < j implies !is_eligible(#[trigger] out[q]) by {
            assert(out[q] == cells[q]);
            if is_eligible(cells[q]) {
                lemma_nth_first_is_least(cells, start, j, q);
            }
        }
        lemma_nth_first(out, start, j);
    } else {
        lemma_first_label_char(cells, start, label, selected, typed, (m - 1) as nat, j);
        lemma_nth_after_first(prev, start, m - 1, j);
        match nth_eligible(prev, start, m - 1) {
            None => {},
            Some(x) => {
                assert(x != j);
                assert(out[j] == prev[j]);
                assert forall|q: int| start <= q < j implies !is_eligible(#[trigger] out[q]) by {
                    assert(out[q] == prev[q]);
                    if is_eligible(prev[q]) {
                        lemma_nth_first_is_least(prev, start, j, q);
                    }
                }
                lemma_nth_first(out, start, j);
            },
        }
    }
}

proof fn lemma_with_label_char(cells: Seq<Cell>, j: int, ch: char, style: CellStyle)
    requires
        0 <= j < cells.len(),
    ensures
        with_label_char(cells, j, ch, style).len() == cells.len(),
        with_label_char(cells, j, ch, style)[j].ch == ch,
        with_label_char(cells, j, ch, style)[j].style == style,
        forall|q: int|
            0 <= q < cells.len() && q != j ==> #[trigger] with_label_char(cells, j, ch, style)[q]
                == cells[q],
{
}

proof fn lemma_nth_first_is_least(c: Seq<Cell>, from: int, j: int, q: int)
    requires
        nth_eligible(c, from, 0) == Some(j),
        from <= q < j,
        q < c.len(),
    ensures
        !is_eligible(c[q]),
    decreases c.len() - from,
{
    if 0 <= from < c.len() && !is_eligible(c[from]) && from < q {
        lemma_nth_first_is_least(c, from + 1, j, q);
    }
}

/// Drawing an occurrence of a hint that is selected or still a candidate draws the hint's
/// label where the occurrence's copied text starts: the first cell from there on that is not
/// a line break shows the label's first character, in a label style (for deselecting when the
/// hint is selected, typed when something has been typed, else not typed yet). This holds for
/// every occurrence of the hint, drawn in turn.
pub proof fn lemma_occurrence_draws_label(
    cells: Seq<Cell>,
    offsets: Seq<usize>,
    hint: HintView,
    selected: bool,
    candidate: bool,
    typed: int,
    o: int,
    k: int,
    j: int,
)
    requires
        selected || candidate,
        0 <= o < hint.occurrences.len(),
        hint.label.len() > 0,
        hint.label[0] != '\n' && hint.label[0] != '\r',
        0 <= k < offsets.len(),
        offsets[k] == hint.occurrences[o].selection.start,
        forall|q: int| 0 <= q < k ==> #[trigger] offsets[q] != hint.occurrences[o].selection.start,
        ({
            let before = hint_pass(cells, offsets, hint, selected, candidate, typed, o as nat);
            &&& k <= j < before.len()
            &&& before[j].ch != '\n' && before[j].ch != '\r'
            &&& forall|q: int|
                k <= q < j ==> (#[trigger] before[q]).ch == '\n' || before[q].ch == '\r'
        }),
    ensures
        ({
            let after = hint_pass(cells, offsets, hint, selected, candidate, typed, (o + 1) as nat);
            &&& after[j].ch == hint.label[0]
            &&& after[j].style == (if selected {
                CellStyle::DeselectLabel
            } else if 0 < typed {
                CellStyle::LabelTyped
            } else {
                CellStyle::Label
            })
        }),
{
    let before = hint_pass(cells, offsets, hint, selected, candidate, typed, o as nat);
    let m = hint.occurrences[o];
    let styled = restyled(before, m.selection, match_style(selected, candidate));
    assert(hint_pass(cells, offsets, hint, selected, candidate, typed, (o + 1) as nat)
        == occurrence_pass(before, offsets, hint.label, selected, candidate, typed, m));
    assert(index_of_offset(offsets, m.selection.start) == Some(k)) by {
        let c = choose|c: int|
            0 <= c < offsets.len() && offsets[c] == m.selection.start && forall|q: int|
                0 <= q < c ==> offsets[q] != m.selection.start;
        if c < k {
            assert(offsets[c] != m.selection.start);
        } else if c > k {
            assert(offsets[k] != m.selection.start);
        }
    }
    assert forall|q: int| k <= q < j implies !is_eligible(#[trigger] styled[q]) by {
        assert(styled[q].ch == before[q].ch);
    }
    assert(styled[j].ch == before[j].ch);
    lemma_nth_first(styled, k, j);
    lemma_first_label_char(styled, k, hint.label, selected, typed, hint.label.len(), j);
}

} // verus!
