//! The clipboard: escape sequences and tools.

use base64::engine::general_purpose::STANDARD;
use base64::Engine;
use paperboy_tui::clipboard::{
    clipboard_candidates, first_copy_step, next_copy_step, osc52_sequence, CopyStep,
};

#[test]
fn builds_a_plain_osc52_sequence_outside_tmux() {
    let seq = osc52_sequence("hi", false);
    assert_eq!(seq, format!("\x1b]52;c;{}\x07", STANDARD.encode(b"hi")));
}

#[test]
fn wraps_the_sequence_in_a_tmux_dcs_passthrough_and_doubles_escapes() {
    let seq = osc52_sequence("hi", true);
    let inner = format!("\x1b]52;c;{}\x07", STANDARD.encode(b"hi"));
    let expected = format!("\x1bPtmux;{}\x1b\\", inner.replace('\x1b', "\x1b\x1b"));
    assert_eq!(seq, expected);
    assert!(seq.starts_with("\x1bPtmux;"));
    assert!(seq.ends_with("\x1b\\"));
}

#[test]
fn empty_text_still_produces_a_valid_sequence() {
    let seq = osc52_sequence("", false);
    assert_eq!(seq, "\x1b]52;c;\x07");
}

#[test]
fn wayland_is_tried_before_x11_tools_when_both_are_present() {
    let c = clipboard_candidates(true, true, false);
    assert_eq!(c[0].0, "wl-copy");
    assert!(c.iter().any(|(name, _)| *name == "xclip"));
    assert!(c.iter().any(|(name, _)| *name == "xsel"));
}

#[test]
fn x11_tools_are_offered_without_wayland() {
    let c = clipboard_candidates(false, true, false);
    assert_eq!(c[0].0, "xclip");
    assert!(!c.iter().any(|(name, _)| *name == "wl-copy"));
}

#[test]
fn macos_offers_pbcopy() {
    let c = clipboard_candidates(false, false, true);
    assert!(c.iter().any(|(name, _)| *name == "pbcopy"));
}

#[test]
fn clip_exe_is_always_offered_as_a_last_resort_for_wsl() {
    let c = clipboard_candidates(false, false, false);
    assert_eq!(c, vec![("clip.exe", &[][..])]);
}

#[test]
fn sequences_hold_the_text_in_base64() {
    assert_eq!(osc52_sequence("hi", false), "\x1b]52;c;aGk=\x07");
    assert_eq!(osc52_sequence("Man", false), "\x1b]52;c;TWFu\x07");
    assert_eq!(osc52_sequence("M", false), "\x1b]52;c;TQ==\x07");
    assert_eq!(osc52_sequence("??>>", false), "\x1b]52;c;Pz8+Pg==\x07");
    assert_eq!(osc52_sequence("???", false), "\x1b]52;c;Pz8/\x07");
    assert_eq!(
        osc52_sequence("é\n", true),
        "\x1bPtmux;\x1b\x1b]52;c;w6kK\x07\x1b\\"
    );
}

/// Base64, symbol by symbol.
fn plain_base64(bytes: &[u8]) -> String {
    let alphabet: Vec<char> = ('A'..='Z').chain('a'..='z').chain('0'..='9').chain("+/".chars()).collect();
    let mut out = String::new();
    for i in 0..4 * ((bytes.len() + 2) / 3) {
        if 3 * (i / 4) + i % 4 > bytes.len() {
            out.push('=');
        } else {
            let byte = |k: usize| *bytes.get(3 * (i / 4) + k).unwrap_or(&0) as usize;
            let group = byte(0) * 0x1_0000 + byte(1) * 0x100 + byte(2);
            out.push(alphabet[(group >> (18 - 6 * (i % 4))) % 64]);
        }
    }
    out
}

#[test]
fn base64_is_what_the_model_says() {
    for len in 0..70usize {
        for seed in 0..20usize {
            let text: String = (0..len)
                .map(|i| char::from_u32(((i * 37 + seed * 101 + 1) % 0x800) as u32).unwrap())
                .collect();
            let encoded = plain_base64(text.as_bytes());
            assert_eq!(osc52_sequence(&text, false), format!("\x1b]52;c;{encoded}\x07"));
        }
    }
}

#[test]
fn different_texts_have_different_sequences() {
    let texts = ["", "a", "b", "ab", "a\0", "\0", "\0\0", "é", "\x1b"];
    for a in texts {
        for b in texts {
            for in_tmux in [false, true] {
                let same = osc52_sequence(a, in_tmux) == osc52_sequence(b, in_tmux);
                assert_eq!(same, a == b, "{a:?} {b:?}");
            }
        }
    }
}

#[test]
fn all_tools_come_in_order_with_their_arguments() {
    let all = clipboard_candidates(true, true, true);
    let names: Vec<&str> = all.iter().map(|tool| tool.0).collect();
    assert_eq!(names, vec!["wl-copy", "xclip", "xsel", "pbcopy", "clip.exe"]);
    assert_eq!(all[1].1, ["-selection", "clipboard"]);
    assert_eq!(all[2].1, ["--clipboard", "--input"]);
    assert!(all[0].1.is_empty() && all[3].1.is_empty() && all[4].1.is_empty());
}

#[test]
fn tools_are_tried_until_one_accepts() {
    assert_eq!(first_copy_step("", 3), CopyStep::Done);
    assert_eq!(first_copy_step("x", 3), CopyStep::Run(0));
    assert_eq!(first_copy_step("x", 0), CopyStep::WriteSequence);
    assert_eq!(next_copy_step(3, 0, true), CopyStep::Done);
    assert_eq!(next_copy_step(3, 0, false), CopyStep::Run(1));
    assert_eq!(next_copy_step(3, 2, false), CopyStep::WriteSequence);
}
