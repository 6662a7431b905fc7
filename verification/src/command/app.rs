//! Application-level commands for editor operations.

use crate::actions::EditorAction;
use vstd::prelude::*;

verus! {

/// Application commands
#[derive(Debug, Clone, Copy, PartialEq, Eq, Structural)]
pub enum AppCommand {
    /// Exit the application
    Exit,
    /// Toggle command info display
    ToggleCommandInfo,
}

impl AppCommand {
    /// The action of the command. Exiting is an effect, not an action.
    pub fn to_action(&self) -> (action: Option<EditorAction>)
        ensures
            match *self {
                AppCommand::Exit => action is None,
                AppCommand::ToggleCommandInfo => action == Some(EditorAction::ToggleCommandInfo),
            },
    {
        match self {
            AppCommand::Exit => None,
            AppCommand::ToggleCommandInfo => Some(EditorAction::ToggleCommandInfo),
        }
    }

    pub fn description(&self) -> (text: &'static str)
        ensures
            text@ == (match *self {
                AppCommand::Exit => "Exit application"@,
                AppCommand::ToggleCommandInfo => "Toggle command help"@,
            }),
    {
        match self {
            AppCommand::Exit => "Exit application",
            AppCommand::ToggleCommandInfo => "Toggle command help",
        }
    }

    pub fn short_name(&self) -> (text: &'static str)
        ensures
            text@ == (match *self {
                AppCommand::Exit => "Exit"@,
                AppCommand::ToggleCommandInfo => "Help"@,
            }),
    {
        match self {
            AppCommand::Exit => "Exit",
            AppCommand::ToggleCommandInfo => "Help",
        }
    }
}

} // verus!
