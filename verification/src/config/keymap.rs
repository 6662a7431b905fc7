//! Keymap configuration: modes, and what the keys do in them.

use crate::strmap::StrMap;
use vstd::prelude::*;

verus! {

/// Root keymap configuration
#[derive(Debug, Clone)]
pub struct KeymapConfig {
    /// Mode definitions
    pub modes: StrMap<ModeConfig>,
    /// Which mode to start in
    pub initial_mode: String,
}

/// Configuration for a single mode
#[derive(Debug, Clone)]
pub struct ModeConfig {
    /// Display name for status line
    pub display_name: Option<String>,
    /// Inherit keybindings from another mode
    pub inherit: Option<String>,
    /// Key bindings for this mode
    pub keys: StrMap<KeyBinding>,
    /// What to do with unmapped keys
    pub fallback: Option<KeyBinding>,
    /// Automatically return to this mode after a command
    pub return_to: Option<String>,
}

/// A key binding - what happens when a key is pressed
#[derive(Debug, PartialEq, Eq)]
pub enum KeyBinding {
    /// Simple command string
    Command(String),
    /// Execute multiple actions
    Sequence(Vec<KeyBinding>),
    /// Execute command and optionally switch mode
    CommandAndMode { command: String, mode: Option<String> },
    /// Enter another mode
    Mode { mode: String },
}

/// Two bindings say the same.
pub open spec fn alike(a: KeyBinding, b: KeyBinding) -> bool
    decreases a,
{
    match (a, b) {
        (KeyBinding::Sequence(x), KeyBinding::Sequence(y)) => all_alike(x@, y@),
        (KeyBinding::Sequence(_), _) => false,
        (_, _) => a == b,
    }
}

/// Two lists of bindings say the same.
pub open spec fn all_alike(a: Seq<KeyBinding>, b: Seq<KeyBinding>) -> bool
    decreases a,
{
    if a.len() == 0 {
        b.len() == 0
    } else {
        b.len() > 0 && all_alike(a.drop_last(), b.drop_last()) && alike(a.last(), b.last())
    }
}

impl Clone for KeyBinding {
    fn clone(&self) -> (c: Self)
        ensures
            alike(*self, c),
        decreases *self,
    {
        match self {
            KeyBinding::Command(name) => KeyBinding::Command(name.clone()),
            KeyBinding::CommandAndMode { command, mode } => KeyBinding::CommandAndMode {
                command: command.clone(),
                mode: match mode {
                    Some(mode) => Some(mode.clone()),
                    None => None,
                },
            },
            KeyBinding::Mode { mode } => KeyBinding::Mode { mode: mode.clone() },
            KeyBinding::Sequence(bindings) => {
                let mut copies: Vec<KeyBinding> = Vec::new();
                let mut i: usize = 0;
                assert(bindings@.take(0) =~= Seq::empty());
                while i < bindings.len()
                    invariant
                        i <= bindings.len(),
                        *self == KeyBinding::Sequence(*bindings),
                        all_alike(bindings@.take(i as int), copies@),
                    decreases bindings.len() - i,
                {
                    assert(decreases_to!(*self => self->Sequence_0));
                    assert(decreases_to!(*self => bindings@[i as int]));
                    let copy = bindings[i].clone();
                    let ghost before = copies@;
                    copies.push(copy);
                    assert(bindings@.take(i + 1).drop_last() =~= bindings@.take(i as int));
                    assert(copies@.drop_last() =~= before);
                    i = i + 1;
                }
                assert(bindings@.take(bindings.len() as int) =~= bindings@);
                KeyBinding::Sequence(copies)
            },
        }
    }
}

/// The mode to start in where a configuration names none.
pub fn default_initial_mode() -> (mode: String)
    ensures
        mode@ == "normal"@,
{
    "normal".to_owned()
}

impl Default for KeymapConfig {
    fn default() -> (config: Self)
        ensures
            config.modes@ == Map::<Seq<char>, ModeConfig>::empty(),
            config.modes.keys().len() == 0,
            config.initial_mode@ == "normal"@,
    {
        KeymapConfig { modes: StrMap::new(), initial_mode: default_initial_mode() }
    }
}

impl Default for ModeConfig {
    fn default() -> (config: Self)
        ensures
            config.display_name is None,
            config.inherit is None,
            config.keys@ == Map::<Seq<char>, KeyBinding>::empty(),
            config.keys.keys().len() == 0,
            config.fallback is None,
            config.return_to is None,
    {
        ModeConfig {
            display_name: None,
            inherit: None,
            keys: StrMap::new(),
            fallback: None,
            return_to: None,
        }
    }
}

} // verus!
