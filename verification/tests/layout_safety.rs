use rmux_fastcopy::action::default_action;
use rmux_fastcopy::commands::{
    capture_pane_args, display_message_args, pane_geometry_format, pane_path_format,
    show_options_args, PaneGeometry,
};
use rmux_fastcopy::build_popup_args;

#[test]
fn selection_does_not_invoke_layout_mutating_rmux_commands() {
    let geometry = PaneGeometry {
        left: 0,
        top: 0,
        width: 80,
        height: 24,
    };
    let invocations = vec![
        capture_pane_args("%1"),
        display_message_args("%1", pane_geometry_format()),
        display_message_args("%1", pane_path_format()),
        show_options_args(),
        build_popup_args("%1", Some("1234"), "/tmp", geometry),
        build_popup_args("%1", None, "/tmp", geometry),
        default_action("rmux")
            .split(' ')
            .map(|word| word.to_string())
            .collect(),
    ];
    let forbidden_commands = [
        "swap-pane",
        "resize-pane",
        "resize-window",
        "split-window",
        "join-pane",
        "break-pane",
        "select-layout",
        "new-window",
        "kill-pane",
    ];

    for command in forbidden_commands {
        for args in &invocations {
            assert!(
                !args.iter().any(|arg| arg == command),
                "selection must not invoke the layout-mutating command {command}"
            );
        }
    }
}
