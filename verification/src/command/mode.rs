//! Mode-switching commands for changing editor modes.

use crate::actions::{EditMode, EditorAction};
use vstd::prelude::*;

verus! {

/// Mode change commands
#[derive(Debug, Clone, Copy, PartialEq, Eq, Structural)]
pub enum ModeCommand {
    /// Enter Insert mode
    EnterInsert,
    /// Enter Normal mode
    EnterNormal,
    /// Enter Command mode
    EnterCommand,
}

impl ModeCommand {
    pub fn to_action(&self) -> (action: EditorAction)
        ensures
            action == (match *self {
                ModeCommand::EnterInsert => (EditorAction::SetMode { mode: EditMode::Insert }),
                ModeCommand::EnterNormal => (EditorAction::SetMode { mode: EditMode::Normal }),
                ModeCommand::EnterCommand => (EditorAction::SetMode { mode: EditMode::Command }),
            }),
    {
        let mode = match self {
            ModeCommand::EnterInsert => EditMode::Insert,
            ModeCommand::EnterNormal => EditMode::Normal,
            ModeCommand::EnterCommand => EditMode::Command,
        };
        EditorAction::SetMode { mode }
    }

    pub fn description(&self) -> (text: &'static str)
        ensures
            text@ == (match *self {
                ModeCommand::EnterInsert => "Enter Insert mode"@,
                ModeCommand::EnterNormal => "Enter Normal mode"@,
                ModeCommand::EnterCommand => "Enter Command mode"@,
            }),
    {
        match self {
            ModeCommand::EnterInsert => "Enter Insert mode",
            ModeCommand::EnterNormal => "Enter Normal mode",
            ModeCommand::EnterCommand => "Enter Command mode",
        }
    }

    pub fn short_name(&self) -> (text: &'static str)
        ensures
            text@ == (match *self {
                ModeCommand::EnterInsert => "Insert"@,
                ModeCommand::EnterNormal => "Normal"@,
                ModeCommand::EnterCommand => "Command"@,
            }),
    {
        match self {
            ModeCommand::EnterInsert => "Insert",
            ModeCommand::EnterNormal => "Normal",
            ModeCommand::EnterCommand => "Command",
        }
    }
}

} // verus!
