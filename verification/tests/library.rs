use rmux_fastcopy::action::{
    action_environment, action_from_words, default_action, ActionError,
};
use rmux_fastcopy::commands::{
    capture_pane_args, display_message_args, pane_geometry_format, show_options_args,
    trim_line_end, GeometryError, PaneGeometry,
};
use rmux_fastcopy::config::{
    choose_action, choose_alphabet, option_value, parse_regex, regex_overrides,
};
use rmux_fastcopy::hints::HintError;
use rmux_fastcopy::keys::{key_outcome, KeyInput, KeyOutcome};
use rmux_fastcopy::matching::{select_matches, MatcherError};
use rmux_fastcopy::options::{invert_quotes, unquote_double};
use rmux_fastcopy::render::{style, CellStyle, StyleColor};
use rmux_fastcopy::{
    build_action, build_popup_args, generate_hints, parse_pane_geometry, parse_show_options,
    ActionInput, AppEvent, AppState, Match, MatcherSet, Selection,
};

fn owned(pairs: &[(&str, &str)]) -> Vec<(String, String)> {
    pairs
        .iter()
        .map(|(name, value)| (name.to_string(), value.to_string()))
        .collect()
}

#[test]
fn found_matches_are_sorted_and_do_not_overlap() {
    let text = "0xCAFE 2026-08-10 src/a/b.rs 192.168.1.1 deadbeef1 12345";
    let found = MatcherSet::defaults().find(text);
    assert!(!found.is_empty());
    for pair in found.windows(2) {
        assert!(pair[0].full.end <= pair[1].full.start);
    }
    let names: Vec<&str> = found.iter().map(|m| m.name.as_str()).collect();
    assert_eq!(
        names,
        vec!["hexaddr", "isodate", "path", "ipv4", "gitsha", "int"]
    );
}

#[test]
fn select_matches_prefers_the_earliest_then_the_longest() {
    let found = vec![
        Match::new("later", 5..9),
        Match::new("short", 0..4),
        Match::new("long", 0..7),
        Match::new("after", 7..9),
    ];
    let kept: Vec<String> = select_matches(&found)
        .into_iter()
        .map(|m| m.name)
        .collect();
    assert_eq!(kept, vec!["long".to_string(), "after".to_string()]);
}

#[test]
fn overrides_replace_and_disable_default_patterns() {
    let text = "date 2026-08-10 ticket-77";
    let defaults: Vec<String> = MatcherSet::defaults()
        .find(text)
        .into_iter()
        .map(|m| m.name)
        .collect();
    assert_eq!(defaults, vec!["isodate".to_string()]);

    let matchers = MatcherSet::with_overrides(&[("isodate", ""), ("ticket", r"ticket-(\d+)")])
        .unwrap();
    let found = matchers.find(text);
    assert_eq!(found.len(), 2);
    assert_eq!(found[0].name, "int");
    assert_eq!(&text[found[0].selection.clone()], "2026");
    assert_eq!(found[1].name, "ticket");
    assert_eq!(&text[found[1].selection.clone()], "77");
}

#[test]
fn matcher_errors_name_the_empty_name_and_the_bad_pattern() {
    assert!(matches!(
        MatcherSet::from_patterns(&[("", "x")]),
        Err(MatcherError::EmptyName)
    ));
    assert!(matches!(
        MatcherSet::with_overrides(&[("", "x")]),
        Err(MatcherError::EmptyName)
    ));
    match MatcherSet::from_patterns(&[("ok", "a"), ("broken", "(")]) {
        Err(MatcherError::InvalidPattern { name, .. }) => assert_eq!(name, "broken"),
        other => panic!("unexpected {other:?}"),
    }
    let empty = MatcherSet::from_patterns(&[("off", "")]).unwrap();
    assert!(empty.find("anything 12345").is_empty());
}

#[test]
fn hint_errors_come_from_the_alphabet_and_the_ranges() {
    assert_eq!(
        generate_hints("a", "text", &[]).unwrap_err(),
        HintError::AlphabetTooShort
    );
    assert_eq!(
        generate_hints("aba", "text", &[]).unwrap_err(),
        HintError::AlphabetNotUnique
    );
    assert_eq!(
        generate_hints("ab", "h\u{e9}llo", &[Match::new("x", 0..2)]).unwrap_err(),
        HintError::RangeNotOnCharBoundary
    );
    assert_eq!(
        generate_hints("ab", "text", &[Match::new("x", 2..9)]).unwrap_err(),
        HintError::RangeNotOnCharBoundary
    );
}

#[test]
fn labels_spell_indices_in_the_least_width() {
    let text = "a b c d e";
    let matches: Vec<Match> = (0..5).map(|k| Match::new("w", 2 * k..2 * k + 1)).collect();
    let hints = generate_hints("xy", text, &matches).unwrap();
    let labels: Vec<&str> = hints.iter().map(|h| h.label.as_str()).collect();
    assert_eq!(labels, vec!["xxx", "xxy", "xyx", "xyy", "yxx"]);
    let texts: Vec<&str> = hints.iter().map(|h| h.text.as_str()).collect();
    assert_eq!(texts, vec!["a", "b", "c", "d", "e"]);

    let one = generate_hints("xy", "only", &[Match::new("w", 0..4)]).unwrap();
    assert_eq!(one[0].label, "x");
}

#[test]
fn retyping_a_label_in_multi_select_takes_it_back() {
    let hints = generate_hints(
        "ab",
        "one two",
        &[Match::new("w", 0..3), Match::new("w", 4..7)],
    )
    .unwrap();
    let mut state = AppState::new(hints);
    assert_eq!(state.handle(AppEvent::Tab), None);
    assert!(state.is_multi_select());
    assert_eq!(state.handle(AppEvent::Char('a')), None);
    assert!(state.is_selected(0));
    assert_eq!(state.handle(AppEvent::Char('a')), None);
    assert!(!state.is_selected(0));
    assert_eq!(state.input(), "");
    assert_eq!(state.handle(AppEvent::Enter), None);
}

#[test]
fn backspace_takes_back_a_typed_character() {
    let matches: Vec<Match> = (0..3).map(|k| Match::new("w", 2 * k..2 * k + 1)).collect();
    let hints = generate_hints("ab", "a b c", &matches).unwrap();
    let mut state = AppState::new(hints);
    assert_eq!(state.handle(AppEvent::Char('b')), None);
    assert_eq!(state.input(), "b");
    assert_eq!(state.handle(AppEvent::Backspace), None);
    assert_eq!(state.input(), "");
    assert_eq!(state.handle(AppEvent::Backspace), None);
    assert_eq!(state.input(), "");
    assert_eq!(
        state.handle(AppEvent::Char('A')).map(|s| s.text),
        None
    );
    assert_eq!(state.input(), "a");
    let selected = state.handle(AppEvent::Char('b')).unwrap();
    assert_eq!(selected.text, "b");
    assert!(selected.shifted);
}

#[test]
fn multi_select_stays_on_and_tab_ends_it_with_a_selection() {
    let hints = generate_hints(
        "ab",
        "one two",
        &[Match::new("x", 0..3), Match::new("y", 4..7), Match::new("x", 4..7)],
    )
    .unwrap();
    let mut state = AppState::new(hints);
    assert_eq!(state.handle(AppEvent::Enter), None);
    assert!(!state.is_multi_select());
    assert_eq!(state.handle(AppEvent::Tab), None);
    assert_eq!(state.handle(AppEvent::Char('b')), None);
    assert!(state.is_multi_select());
    assert_eq!(
        state.handle(AppEvent::Tab),
        Some(Selection {
            text: "two".into(),
            matcher_names: vec!["x".into(), "y".into()],
            shifted: false,
        })
    );
    assert!(state.is_multi_select());
}

#[test]
fn unknown_escapes_and_bare_values_survive_option_parsing() {
    let options = parse_show_options(
        "@a \"x\\\\d\\\\s\\n\"\r\n\
         @b\t  plain\\\\value  \n   \n\
         @c 'it''s'\n\
         @d say\"hi\"\n",
    );
    assert_eq!(
        options,
        owned(&[
            ("@a", "x\\d\\s\n"),
            ("@b", "plain\\value  "),
            ("@c", "it''s"),
            ("@d", "say\"hi\""),
        ])
    );
}

#[test]
fn action_errors_for_open_quotes_and_empty_actions() {
    assert!(matches!(
        build_action("open 'unterminated", "x"),
        Err(ActionError::Parse(_))
    ));
    assert!(matches!(build_action("   ", "x"), Err(ActionError::Empty)));
    assert!(matches!(
        action_from_words(Vec::new(), "x"),
        Err(ActionError::Empty)
    ));
}

#[test]
fn action_words_are_split_as_a_shell_would() {
    assert_eq!(
        build_action("open 'a b' \"{}\" {} # comment", "sel").unwrap(),
        ActionInput {
            program: "open".into(),
            args: vec!["a b".into(), "sel".into(), "{}".into()],
            stdin: None,
        }
    );
}

#[test]
fn default_action_loads_the_selection_into_a_buffer() {
    assert_eq!(default_action("rmux"), "rmux load-buffer -");
    assert_eq!(default_action("my rmux"), "'my rmux' load-buffer -");
    assert_eq!(
        build_action(&default_action("rmux"), "copied").unwrap(),
        ActionInput {
            program: "rmux".into(),
            args: vec!["load-buffer".into(), "-".into()],
            stdin: Some("copied".into()),
        }
    );
}

#[test]
fn action_environment_names_patterns_and_pane() {
    let names = vec!["ipv4".to_string(), "path".to_string()];
    assert_eq!(
        action_environment(&names, "%3"),
        owned(&[
            ("FASTCOPY_REGEX_NAME", "ipv4 path"),
            ("FASTCOPY_TARGET_PANE_ID", "%3"),
        ])
    );
    assert_eq!(action_environment(&[], "%3")[0].1, "");
}

#[test]
fn options_and_command_line_choose_alphabet_patterns_and_action() {
    let options = owned(&[
        ("@fastcopy-alphabet", "asdf"),
        ("@fastcopy-action", ""),
        ("@fastcopy-shift-action", "pbcopy"),
        ("@fastcopy-regex-word", "\\w+"),
        ("@fastcopy-regex-@fastcopy-regex-x", "x"),
        ("@other", "1"),
        ("@fastcopy-alphabet", "zx"),
    ]);
    assert_eq!(option_value(&options, "@fastcopy-alphabet"), Some("asdf".into()));
    assert_eq!(option_value(&options, "@fastcopy-action"), None);
    assert_eq!(option_value(&options, "@missing"), None);

    assert_eq!(choose_alphabet(None, &options), "asdf");
    assert_eq!(choose_alphabet(Some("qw".into()), &options), "qw");
    assert_eq!(choose_alphabet(None, &[]), "abcdefghijklmnopqrstuvwxyz");

    assert_eq!(
        regex_overrides(&options, &owned(&[("word", "")])),
        owned(&[("word", "\\w+"), ("x", "x"), ("word", "")])
    );

    assert_eq!(
        choose_action(false, None, None, &options, "rmux"),
        Some("rmux load-buffer -".into())
    );
    assert_eq!(
        choose_action(false, Some("pbcopy".into()), None, &options, "rmux"),
        Some("pbcopy".into())
    );
    assert_eq!(
        choose_action(true, None, None, &options, "rmux"),
        Some("pbcopy".into())
    );
    assert_eq!(choose_action(true, None, None, &[], "rmux"), None);
    assert_eq!(
        choose_action(true, Some("cat".into()), None, &[], "rmux"),
        None
    );
    assert_eq!(
        choose_action(true, None, Some("cat".into()), &[], "rmux"),
        Some("cat".into())
    );
}

#[test]
fn regex_arguments_split_at_the_first_colon() {
    assert_eq!(
        parse_regex("ticket:ticket-(\\d+):x"),
        Ok(("ticket".to_string(), "ticket-(\\d+):x".to_string()))
    );
    assert_eq!(
        parse_regex("isodate:"),
        Ok(("isodate".to_string(), String::new()))
    );
    assert_eq!(parse_regex("nocolon"), Err("expected NAME:PATTERN".to_string()));
    assert_eq!(
        parse_regex(":pattern"),
        Err("regex name must not be empty".to_string())
    );
}

#[test]
fn pane_geometry_reads_four_numbers() {
    assert_eq!(
        parse_pane_geometry("3 4 80 24\n"),
        Ok(PaneGeometry {
            left: 3,
            top: 4,
            width: 80,
            height: 24,
        })
    );
    assert_eq!(parse_pane_geometry("3 4 80"), Err(GeometryError::FieldCount));
    assert_eq!(
        parse_pane_geometry("3 4 80 24 1"),
        Err(GeometryError::FieldCount)
    );
    assert_eq!(
        parse_pane_geometry("3 4 80 x"),
        Err(GeometryError::NotANumber)
    );
    assert_eq!(
        parse_pane_geometry("3 4 80 65536"),
        Err(GeometryError::NotANumber)
    );
    assert_eq!(
        parse_pane_geometry("0 0 65535 00012").unwrap().height,
        12
    );
}

#[test]
fn popup_arguments_cover_the_pane() {
    let geometry = PaneGeometry {
        left: 40,
        top: 10,
        width: 80,
        height: 24,
    };
    assert_eq!(
        build_popup_args("%2", Some("77"), "/home/me", geometry),
        vec![
            "display-popup", "-E", "-B", "-c", "77", "-t", "%2", "-d", "/home/me", "-x", "40",
            "-y", "34", "-w", "80", "-h", "24",
        ]
    );
    let printed = build_popup_args("%2", None, "/", geometry);
    assert_eq!(printed[3], "-t");
    let numbers = format!("{} {} {} {}", printed[8], printed[10], printed[12], printed[14]);
    assert_eq!(
        parse_pane_geometry(&numbers),
        Ok(PaneGeometry {
            left: 40,
            top: 34,
            width: 80,
            height: 24,
        })
    );
}

#[test]
fn command_arguments_are_exact() {
    assert_eq!(capture_pane_args("%1"), vec!["capture-pane", "-p", "-t", "%1"]);
    assert_eq!(
        display_message_args("%1", pane_geometry_format()),
        vec![
            "display-message",
            "-p",
            "-t",
            "%1",
            "#{pane_left} #{pane_top} #{pane_width} #{pane_height}",
        ]
    );
    assert_eq!(show_options_args(), vec!["show-options", "-g"]);
    assert_eq!(trim_line_end("/home/me\r\n\n"), "/home/me");
    assert_eq!(trim_line_end("/a\nb"), "/a\nb");
}

#[test]
fn keys_map_to_events() {
    assert_eq!(key_outcome(KeyInput::Esc, false, false), KeyOutcome::Quit);
    assert_eq!(key_outcome(KeyInput::Char('c'), false, true), KeyOutcome::Quit);
    assert_eq!(
        key_outcome(KeyInput::Char('x'), false, true),
        KeyOutcome::Event(AppEvent::Char('x'))
    );
    assert_eq!(
        key_outcome(KeyInput::Char('a'), true, false),
        KeyOutcome::Event(AppEvent::Char('A'))
    );
    assert_eq!(
        key_outcome(KeyInput::Char('\u{df}'), true, false),
        KeyOutcome::Event(AppEvent::Char('S'))
    );
    assert_eq!(
        key_outcome(KeyInput::BackTab, false, false),
        KeyOutcome::Event(AppEvent::Tab)
    );
    assert_eq!(
        key_outcome(KeyInput::Backspace, false, false),
        KeyOutcome::Event(AppEvent::Backspace)
    );
    assert_eq!(
        key_outcome(KeyInput::Enter, false, false),
        KeyOutcome::Event(AppEvent::Enter)
    );
    assert_eq!(key_outcome(KeyInput::Other, true, true), KeyOutcome::Ignore);
}

#[test]
fn styles_have_their_colors() {
    assert_eq!(style(CellStyle::Normal), (StyleColor::White, false));
    assert_eq!(style(CellStyle::Match), (StyleColor::Green, false));
    assert_eq!(style(CellStyle::Skipped), (StyleColor::DarkGrey, false));
    assert_eq!(style(CellStyle::Selected), (StyleColor::Yellow, false));
    assert_eq!(style(CellStyle::Label), (StyleColor::Red, true));
    assert_eq!(style(CellStyle::LabelTyped), (StyleColor::Yellow, true));
    assert_eq!(style(CellStyle::DeselectLabel), (StyleColor::DarkRed, true));
}

#[test]
fn escaped_option_values_are_recovered() {
    let options = parse_show_options("@fastcopy-x \"a\\\\b\\\"c\\nd\\te\\rf \\\\d\"\n");
    assert_eq!(options, owned(&[("@fastcopy-x", "a\\b\"c\nd\te\rf \\d")]));
    let bare = parse_show_options("@fastcopy-y a\\\\b\n");
    assert_eq!(bare, owned(&[("@fastcopy-y", "a\\b")]));
}

#[test]
fn found_selections_lie_inside_their_matches_and_the_text() {
    let text = "caf\u{e9} ticket-\u{e9}12 ticket-77 0xBEEF 2026-08-10";
    let matchers =
        MatcherSet::with_overrides(&[("ticket", r"ticket-(\S+)"), ("accent", r"(\u{e9})")])
            .unwrap();
    let found = matchers.find(text);
    assert!(!found.is_empty());
    for m in &found {
        assert!(m.full.start <= m.selection.start);
        assert!(m.selection.start <= m.selection.end);
        assert!(m.selection.end <= m.full.end);
        assert!(text.get(m.selection.clone()).is_some());
    }
    assert!(generate_hints("ab", text, &found).is_ok());
}

#[test]
fn empty_patterns_only_disable_their_entries() {
    let text = "id 12345 at 2026-08-10";
    let with_empty = MatcherSet::from_patterns(&[("int", r"\d{4,}"), ("off", ""), ("date", r"\d{4}-\d{2}-\d{2}")])
        .unwrap();
    let without = MatcherSet::from_patterns(&[("int", r"\d{4,}"), ("date", r"\d{4}-\d{2}-\d{2}")])
        .unwrap();
    assert_eq!(with_empty.find(text), without.find(text));
    assert_eq!(with_empty.find(text).len(), 2);
}

#[test]
fn quote_swapping_and_double_quote_unescaping() {
    let value: Vec<char> = "it's \"quoted\"".chars().collect();
    let swapped = invert_quotes(&value);
    assert_eq!(swapped.iter().collect::<String>(), "it\"s 'quoted'");
    assert_eq!(invert_quotes(&swapped), value);

    let literal: Vec<char> = "\"a\\\\b\\\"c\\n\\d\"".chars().collect();
    assert_eq!(unquote_double(&literal).iter().collect::<String>(), "a\\b\"c\n\\d");
    let bare: Vec<char> = "no quotes".chars().collect();
    assert_eq!(unquote_double(&bare), bare);
}
