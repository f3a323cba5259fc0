//! Setting a terminal up and back.

use paperboy_tui::terminal::{TerminalCommand, TerminalGuard};

#[test]
fn unambiguous_keys_are_turned_on_only_where_asked_for_and_supported() {
    for (asked, supported) in [(false, false), (false, true), (true, false)] {
        let (guard, commands) = TerminalGuard::install(asked, supported);
        assert!(!guard.keyboard_enhancement_active());
        assert_eq!(commands, vec![TerminalCommand::EnableMouseCapture]);
        assert_eq!(
            guard.restore_commands(),
            vec![TerminalCommand::DisableMouseCapture]
        );
        assert_eq!(
            guard.panic_commands(),
            vec![TerminalCommand::DisableMouseCapture]
        );
    }
}

#[test]
fn everything_turned_on_is_turned_off() {
    let (guard, commands) = TerminalGuard::install(true, true);
    assert!(guard.keyboard_enhancement_active());
    assert_eq!(
        commands,
        vec![
            TerminalCommand::PushKeyboardEnhancement,
            TerminalCommand::EnableMouseCapture
        ]
    );
    assert_eq!(
        guard.restore_commands(),
        vec![
            TerminalCommand::PopKeyboardEnhancement,
            TerminalCommand::DisableMouseCapture
        ]
    );
    assert_eq!(
        guard.panic_commands(),
        vec![
            TerminalCommand::DisableMouseCapture,
            TerminalCommand::PopKeyboardEnhancement
        ]
    );
}
