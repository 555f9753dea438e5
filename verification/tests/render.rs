use crossterm::cursor::MoveTo;
use crossterm::style::{Attribute, Color, Print, SetAttribute, SetForegroundColor};
use crossterm::terminal::{Clear, ClearType};
use crossterm::QueueableCommand;
use rmux_fastcopy::render::{render_frame, DrawOp, StyleColor};
use rmux_fastcopy::{generate_hints, AppEvent, AppState, Hint, Match};

fn color(color: StyleColor) -> Color {
    match color {
        StyleColor::White => Color::White,
        StyleColor::Green => Color::Green,
        StyleColor::DarkGrey => Color::DarkGrey,
        StyleColor::Yellow => Color::Yellow,
        StyleColor::Red => Color::Red,
        StyleColor::DarkRed => Color::DarkRed,
    }
}

fn draw(ops: &[DrawOp]) -> Vec<u8> {
    let mut out: Vec<u8> = Vec::new();
    for op in ops {
        match op {
            DrawOp::ClearAll => out.queue(Clear(ClearType::All)).map(|_| ()),
            DrawOp::MoveTo(x, y) => out.queue(MoveTo(*x, *y)).map(|_| ()),
            DrawOp::Newline => out.queue(Print("\r\n")).map(|_| ()),
            DrawOp::CarriageReturn => out.queue(Print("\r")).map(|_| ()),
            DrawOp::SetStyle(c, bold) => out
                .queue(SetForegroundColor(color(*c)))
                .and_then(|out| {
                    out.queue(SetAttribute(if *bold {
                        Attribute::Bold
                    } else {
                        Attribute::NormalIntensity
                    }))
                })
                .map(|_| ()),
            DrawOp::PrintChar(c) => out.queue(Print(*c)).map(|_| ()),
            DrawOp::PrintText(t) => out.queue(Print(t)).map(|_| ()),
            DrawOp::ResetAttributes => out.queue(SetAttribute(Attribute::Reset)).map(|_| ()),
        }
        .unwrap();
    }
    out
}

fn printed(ops: &[DrawOp]) -> String {
    let mut text = String::new();
    for op in ops {
        match op {
            DrawOp::Newline => text.push_str("\r\n"),
            DrawOp::CarriageReturn => text.push('\r'),
            DrawOp::PrintChar(c) => text.push(*c),
            DrawOp::PrintText(t) => text.push_str(t),
            _ => {}
        }
    }
    text
}

#[test]
fn render_does_not_advance_past_the_last_visible_row() {
    let hints: Vec<Hint> = Vec::new();
    let state = AppState::new(hints.clone());

    let output = draw(&render_frame("first\nsecond\n", &hints, &state, 80, 2));

    assert_eq!(
        output.windows(2).filter(|bytes| *bytes == b"\r\n").count(),
        1,
        "a newline after the bottom row scrolls the popup surface"
    );
}

#[test]
fn render_draws_labels_over_their_text() {
    let hints = generate_hints(
        "ab",
        "one two",
        &[Match::new("word", 0..3), Match::new("word", 4..7)],
    )
    .unwrap();
    let state = AppState::new(hints.clone());

    let ops = render_frame("one two", &hints, &state, 80, 24);

    assert_eq!(printed(&ops), "ane bwo");
    assert_eq!(ops[0], DrawOp::ClearAll);
    assert_eq!(ops[1], DrawOp::MoveTo(0, 0));
    assert_eq!(ops[2], DrawOp::SetStyle(StyleColor::Red, true));
    assert_eq!(ops[3], DrawOp::PrintChar('a'));
    assert_eq!(ops[4], DrawOp::SetStyle(StyleColor::Green, false));
    assert_eq!(ops.last(), Some(&DrawOp::ResetAttributes));
}

#[test]
fn render_styles_typed_skipped_and_selected_hints() {
    let hints = generate_hints(
        "ab",
        "one two six",
        &[
            Match::new("word", 0..3),
            Match::new("word", 4..7),
            Match::new("word", 8..11),
        ],
    )
    .unwrap();
    let mut state = AppState::new(hints.clone());
    assert_eq!(state.handle(AppEvent::Tab), None);
    assert_eq!(state.handle(AppEvent::Char('b')), None);

    let ops = render_frame("one two six", &hints, &state, 80, 24);

    assert_eq!(printed(&ops), "one bao six");
    assert!(ops.contains(&DrawOp::SetStyle(StyleColor::DarkGrey, false)));
    assert!(ops.contains(&DrawOp::SetStyle(StyleColor::Yellow, true)));
    assert!(!ops.contains(&DrawOp::SetStyle(StyleColor::DarkRed, true)));

    assert_eq!(state.handle(AppEvent::Char('a')), None);
    let ops = render_frame("one two six", &hints, &state, 80, 24);
    assert!(ops.contains(&DrawOp::SetStyle(StyleColor::DarkRed, true)));
    assert!(ops.contains(&DrawOp::SetStyle(StyleColor::Yellow, false)));
}

#[test]
fn render_wraps_wide_characters_and_stays_on_screen() {
    let hints: Vec<Hint> = Vec::new();
    let state = AppState::new(hints.clone());

    let ops = render_frame("ab\u{6f22}c", &hints, &state, 3, 24);
    assert_eq!(printed(&ops), "ab\r\n\u{6f22}cNo ");

    let ops = render_frame(&"x".repeat(50), &hints, &state, 10, 3);
    let newlines = ops.iter().filter(|op| **op == DrawOp::Newline).count();
    assert_eq!(newlines, 2);
    let chars = ops
        .iter()
        .filter(|op| matches!(op, DrawOp::PrintChar(_)))
        .count();
    assert_eq!(chars, 30);
}

#[test]
fn render_shows_the_notice_cut_to_the_width() {
    let hints: Vec<Hint> = Vec::new();
    let state = AppState::new(hints.clone());

    let ops = render_frame("", &hints, &state, 80, 5);
    assert_eq!(
        ops,
        vec![
            DrawOp::ClearAll,
            DrawOp::MoveTo(0, 0),
            DrawOp::MoveTo(0, 4),
            DrawOp::SetStyle(StyleColor::Yellow, true),
            DrawOp::PrintText("No copyable text found \u{2014} Esc to close".into()),
            DrawOp::ResetAttributes,
        ]
    );

    let ops = render_frame("", &hints, &state, 10, 5);
    assert_eq!(ops[4], DrawOp::PrintText("No copyabl".into()));

    let ops = render_frame("", &hints, &state, 26, 5);
    assert_eq!(
        ops[4],
        DrawOp::PrintText("No copyable text found \u{2014}".into())
    );
}

#[test]
fn render_does_not_wrap_below_the_last_row() {
    let hints: Vec<Hint> = Vec::new();
    let state = AppState::new(hints.clone());

    let output = draw(&render_frame("abc", &hints, &state, 2, 1));
    assert_eq!(output.windows(2).filter(|bytes| *bytes == b"\r\n").count(), 0);

    let ops = render_frame("abc", &hints, &state, 2, 1);
    assert_eq!(printed(&ops), "abNo");
}
