//! Setting a terminal up for mouse selection, and back.
//!
//! To select text with the mouse an application turns on the terminal's mouse
//! tracking. That has to be undone when it ends, however it ends, or the shell
//! is left with a terminal that prints an escape sequence at every mouse move.
//! [`TerminalGuard`] says which commands to send when it is installed, when the
//! application panics and when it ends; sending them is left to the application.

use vstd::prelude::*;

use crate::text::greatest;

verus! {

/// A command to the terminal.
#[derive(Clone, Copy, Debug, PartialEq, Eq, Structural)]
pub enum TerminalCommand {
    /// Have mouse events reported.
    EnableMouseCapture,
    /// Have mouse events reported no longer.
    DisableMouseCapture,
    /// Have key combinations reported without ambiguity, on top of what was set
    /// before.
    PushKeyboardEnhancement,
    /// Go back to what was set before.
    PopKeyboardEnhancement,
}

/// Keeps a terminal set up for mouse selection.
#[derive(Debug)]
pub struct TerminalGuard {
    keyboard_enhancement_active: bool,
}

impl View for TerminalGuard {
    type V = bool;

    /// Whether unambiguous key reports were turned on.
    closed spec fn view(&self) -> bool {
        self.keyboard_enhancement_active
    }
}

/// The commands that set a terminal up.
pub open spec fn setup(enhanced: bool) -> Seq<TerminalCommand> {
    if enhanced {
        seq![TerminalCommand::PushKeyboardEnhancement, TerminalCommand::EnableMouseCapture]
    } else {
        seq![TerminalCommand::EnableMouseCapture]
    }
}

/// The commands that undo the setup at the normal end.
pub open spec fn teardown(enhanced: bool) -> Seq<TerminalCommand> {
    if enhanced {
        seq![TerminalCommand::PopKeyboardEnhancement, TerminalCommand::DisableMouseCapture]
    } else {
        seq![TerminalCommand::DisableMouseCapture]
    }
}

/// The commands that undo the setup in a panic.
pub open spec fn panic_teardown(enhanced: bool) -> Seq<TerminalCommand> {
    if enhanced {
        seq![TerminalCommand::DisableMouseCapture, TerminalCommand::PopKeyboardEnhancement]
    } else {
        seq![TerminalCommand::DisableMouseCapture]
    }
}

impl TerminalGuard {
    /// The guard, and the commands to send when it is installed, in order.
    /// Unambiguous key reports are turned on where `keyboard_enhancement` asks
    /// for them and they are `supported`.
    pub fn install(keyboard_enhancement: bool, supported: bool) -> (r: (
        TerminalGuard,
        Vec<TerminalCommand>,
    ))
        ensures
            r.0@ == (keyboard_enhancement && supported),
            r.1@ == setup(keyboard_enhancement && supported),
    {
        let enhanced: bool = keyboard_enhancement && supported;
        let mut commands: Vec<TerminalCommand> = Vec::new();
        if enhanced {
            commands.push(TerminalCommand::PushKeyboardEnhancement);
        }
        commands.push(TerminalCommand::EnableMouseCapture);
        assert(commands@ =~= setup(enhanced));
        (TerminalGuard { keyboard_enhancement_active: enhanced }, commands)
    }

    /// Whether unambiguous key reports were turned on.
    pub fn keyboard_enhancement_active(&self) -> (r: bool)
        ensures
            r == self@,
    {
        self.keyboard_enhancement_active
    }

    /// The commands to send when the guard goes, in order.
    pub fn restore_commands(&self) -> (r: Vec<TerminalCommand>)
        ensures
            r@ == teardown(self@),
    {
        let mut commands: Vec<TerminalCommand> = Vec::new();
        if self.keyboard_enhancement_active {
            commands.push(TerminalCommand::PopKeyboardEnhancement);
        }
        commands.push(TerminalCommand::DisableMouseCapture);
        assert(commands@ =~= teardown(self@));
        commands
    }

    /// The commands to send in a panic, in order, before anything else is done
    /// about it.
    pub fn panic_commands(&self) -> (r: Vec<TerminalCommand>)
        ensures
            r@ == panic_teardown(self@),
    {
        let mut commands: Vec<TerminalCommand> = Vec::new();
        commands.push(TerminalCommand::DisableMouseCapture);
        if self.keyboard_enhancement_active {
            commands.push(TerminalCommand::PopKeyboardEnhancement);
        }
        assert(commands@ =~= panic_teardown(self@));
        commands
    }
}

// ---------------------------------------------------------------------------
// Laws
// ---------------------------------------------------------------------------

/// What a terminal is set to: whether it reports mouse events, and how many
/// layers of keyboard settings it holds.
pub struct TerminalModes {
    pub mouse: bool,
    pub layers: int,
}

/// What a command sets a terminal to.
pub open spec fn obeyed(modes: TerminalModes, command: TerminalCommand) -> TerminalModes {
    match command {
        TerminalCommand::EnableMouseCapture => TerminalModes { mouse: true, ..modes },
        TerminalCommand::DisableMouseCapture => TerminalModes { mouse: false, ..modes },
        TerminalCommand::PushKeyboardEnhancement => TerminalModes {
            layers: modes.layers + 1,
            ..modes
        },
        TerminalCommand::PopKeyboardEnhancement => TerminalModes {
            layers: greatest(modes.layers - 1, 0),
            ..modes
        },
    }
}

/// What commands, one after the other, set a terminal to.
pub open spec fn all_obeyed(modes: TerminalModes, commands: Seq<TerminalCommand>) -> TerminalModes
    decreases commands.len(),
{
    if commands.len() == 0 {
        modes
    } else {
        obeyed(all_obeyed(modes, commands.drop_last()), commands.last())
    }
}

proof fn lemma_obeyed_two(modes: TerminalModes, a: TerminalCommand, b: TerminalCommand)
    ensures
        all_obeyed(modes, seq![a]) == obeyed(modes, a),
        all_obeyed(modes, seq![a, b]) == obeyed(obeyed(modes, a), b),
{
    assert(seq![a].drop_last() =~= Seq::<TerminalCommand>::empty());
    assert(seq![a, b].drop_last() =~= seq![a]);
    assert(all_obeyed(modes, seq![a].drop_last()) == modes);
    assert(all_obeyed(modes, seq![a]) == obeyed(modes, a));
    assert(seq![a, b].last() == b);
}

/// A terminal that did not report mouse events is put back the way it was, at
/// the normal end as well as in a panic.
pub proof fn law_terminal_is_put_back(modes: TerminalModes, enhanced: bool)
    requires
        !modes.mouse,
        modes.layers >= 0,
    ensures
        all_obeyed(all_obeyed(modes, setup(enhanced)), teardown(enhanced)) == modes,
        all_obeyed(all_obeyed(modes, setup(enhanced)), panic_teardown(enhanced)) == modes,
{
    let push = TerminalCommand::PushKeyboardEnhancement;
    let pop = TerminalCommand::PopKeyboardEnhancement;
    let enable = TerminalCommand::EnableMouseCapture;
    let disable = TerminalCommand::DisableMouseCapture;
    lemma_obeyed_two(modes, push, enable);
    lemma_obeyed_two(modes, enable, enable);
    let up = all_obeyed(modes, setup(enhanced));
    lemma_obeyed_two(up, pop, disable);
    lemma_obeyed_two(up, disable, pop);
}

/// A panic that unwinds runs both; a terminal without layers of keyboard
/// settings of its own is still put back the way it was.
pub proof fn law_terminal_is_put_back_once(modes: TerminalModes, enhanced: bool)
    requires
        !modes.mouse,
        modes.layers == 0,
    ensures
        all_obeyed(
            all_obeyed(all_obeyed(modes, setup(enhanced)), panic_teardown(enhanced)),
            teardown(enhanced),
        ) == modes,
{
    law_terminal_is_put_back(modes, enhanced);
    let pop = TerminalCommand::PopKeyboardEnhancement;
    let disable = TerminalCommand::DisableMouseCapture;
    lemma_obeyed_two(modes, pop, disable);
    lemma_obeyed_two(modes, disable, disable);
}

/// Setting a terminal up turns mouse events on, and adds a layer of keyboard
/// settings exactly where unambiguous key reports are turned on.
pub proof fn law_setup_turns_on_what_is_asked_for(modes: TerminalModes, enhanced: bool)
    ensures
        all_obeyed(modes, setup(enhanced)).mouse,
        all_obeyed(modes, setup(enhanced)).layers == modes.layers + (if enhanced {
            1int
        } else {
            0int
        }),
        !setup(enhanced).contains(TerminalCommand::DisableMouseCapture),
        !setup(enhanced).contains(TerminalCommand::PopKeyboardEnhancement),
{
    let push = TerminalCommand::PushKeyboardEnhancement;
    let enable = TerminalCommand::EnableMouseCapture;
    lemma_obeyed_two(modes, push, enable);
    lemma_obeyed_two(modes, enable, enable);
}

/// No command is sent twice, and the keyboard settings are touched only where they
/// were asked for: first when the terminal is set up and at the normal end, last in a
/// panic.
pub proof fn law_each_mode_is_put_back_once(enhanced: bool)
    ensures
        enhanced ==> setup(enhanced).len() == 2 && teardown(enhanced).len() == 2
            && panic_teardown(enhanced).len() == 2,
        !enhanced ==> setup(enhanced).len() == 1 && teardown(enhanced).len() == 1
            && panic_teardown(enhanced).len() == 1,
        setup(enhanced).last() == TerminalCommand::EnableMouseCapture,
        teardown(enhanced).last() == TerminalCommand::DisableMouseCapture,
        panic_teardown(enhanced)[0] == TerminalCommand::DisableMouseCapture,
{
}

} // verus!
