//! Keyboard modifier state, as plain values, and the matching rules of
//! `egui::Modifiers` that the tree's selection logic relies on.

use vstd::prelude::*;

verus! {

/// State of the modifier keys, field for field as egui reports them.
#[derive(Clone, Copy, Debug, PartialEq, Eq, Structural)]
pub struct Modifiers {
    /// Either of the alt keys are down (option on Mac).
    pub alt: bool,
    /// Either of the control keys are down.
    pub ctrl: bool,
    /// Either of the shift keys are down.
    pub shift: bool,
    /// The Mac command key.
    pub mac_cmd: bool,
    /// Command on Mac, control elsewhere.
    pub command: bool,
}

impl Default for Modifiers {
    fn default() -> (r: Self)
        ensures
            r == Modifiers::none_spec(),
    {
        Modifiers::none()
    }
}

impl Modifiers {
    /// No modifier pressed.
    pub open spec fn none_spec() -> Self {
        Modifiers { alt: false, ctrl: false, shift: false, mac_cmd: false, command: false }
    }

    /// No modifier pressed.
    pub fn none() -> (r: Self)
        ensures
            r == Modifiers::none_spec(),
    {
        Modifiers { alt: false, ctrl: false, shift: false, mac_cmd: false, command: false }
    }

    /// Only shift pressed.
    pub fn shift() -> (r: Self)
        ensures
            r == (Modifiers { shift: true, ..Modifiers::none_spec() }),
    {
        Modifiers { alt: false, ctrl: false, shift: true, mac_cmd: false, command: false }
    }

    /// Only command (control off Mac) pressed.
    pub fn command() -> (r: Self)
        ensures
            r == (Modifiers { command: true, ..Modifiers::none_spec() }),
    {
        Modifiers { alt: false, ctrl: false, shift: false, mac_cmd: false, command: true }
    }

    /// egui's rule for control and command: a pattern with the Mac command
    /// key needs it and the same control key; a pattern without control or
    /// command forbids both; otherwise what the pattern asks for is pressed.
    pub open spec fn cmd_ctrl_matches_spec(self, pattern: Self) -> bool {
        if pattern.mac_cmd {
            self.mac_cmd && pattern.ctrl == self.ctrl
        } else if !pattern.ctrl && !pattern.command {
            !self.ctrl && !self.command
        } else {
            (pattern.ctrl ==> self.ctrl) && (pattern.command ==> self.command)
        }
    }

    /// egui's logical match: alt and shift of the pattern are pressed, and
    /// control and command match.
    pub open spec fn matches_logically_spec(self, pattern: Self) -> bool {
        &&& pattern.alt ==> self.alt
        &&& pattern.shift ==> self.shift
        &&& self.cmd_ctrl_matches_spec(pattern)
    }

    /// No modifier is pressed.
    pub open spec fn is_none_spec(self) -> bool {
        self == Modifiers::none_spec()
    }

    /// Shift is pressed, and neither alt nor command.
    pub open spec fn shift_only_spec(self) -> bool {
        self.shift && !(self.alt || self.command)
    }

    /// Calls `egui::Modifiers::matches_logically` on these modifiers, whose
    /// result, by egui's source, is `matches_logically_spec`.
    #[verifier::external_body]
    pub(crate) fn matches_logically(&self, pattern: Modifiers) -> (r: bool)
        ensures
            r == self.matches_logically_spec(pattern),
    {
        let pressed = egui::Modifiers {
            alt: self.alt, ctrl: self.ctrl, shift: self.shift, mac_cmd: self.mac_cmd, command: self.command,
        };
        let pattern = egui::Modifiers {
            alt: pattern.alt, ctrl: pattern.ctrl, shift: pattern.shift, mac_cmd: pattern.mac_cmd, command: pattern.command,
        };
        pressed.matches_logically(pattern)
    }

    /// Calls `egui::Modifiers::is_none`, which compares with the all-false
    /// default.
    #[verifier::external_body]
    pub(crate) fn is_none(&self) -> (r: bool)
        ensures
            r == self.is_none_spec(),
    {
        egui::Modifiers {
            alt: self.alt, ctrl: self.ctrl, shift: self.shift, mac_cmd: self.mac_cmd, command: self.command,
        }.is_none()
    }

    /// Calls `egui::Modifiers::shift_only`: shift, and neither alt nor
    /// command.
    #[verifier::external_body]
    pub(crate) fn shift_only(&self) -> (r: bool)
        ensures
            r == self.shift_only_spec(),
    {
        egui::Modifiers {
            alt: self.alt, ctrl: self.ctrl, shift: self.shift, mac_cmd: self.mac_cmd, command: self.command,
        }.shift_only()
    }
}

} // verus!
