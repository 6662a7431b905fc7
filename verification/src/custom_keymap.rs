//! A keymap with modes that a configuration defines: bindings, inheritance
//! between modes, fallbacks for unmapped keys, return-to modes and command
//! sequences.

use crate::actions::{is_mode_named, mode_name, EditMode};
use crate::command::Command;
use crate::config::keymap::{KeyBinding as ConfigKeyBinding, KeymapConfig, ModeConfig};
use crate::input::{Key, Modifiers};
use crate::lists::copied_range;
use crate::strmap::StrMap;
use crate::text::{ascii_upper, byte_len, bytes_in, chars_of, lowercase, same, string_of, uppercase};
use vstd::prelude::*;
use vstd::seq_lib::seq_to_set_is_finite;
use vstd::set_lib::lemma_len_subset;
use vstd::string::StringExecFns;
use vstd::utf8::{is_ascii_chars, is_ascii_chars_encode_utf8};

verus! {

/// Key binding with normalized key and modifiers.
#[derive(Debug, Clone, PartialEq, Eq, Hash)]
pub struct KeyBinding {
    pub key: Key,
    pub modifiers: Modifiers,
}

/// A processed key binding ready for execution.
#[derive(Debug)]
pub enum ProcessedBinding {
    /// Single command
    Command(Command),
    /// Switch to another mode
    Mode(String),
    /// Execute command then optionally switch mode
    CommandAndMode { command: Command, mode: Option<String> },
    /// Execute multiple bindings in sequence
    Sequence(Vec<ProcessedBinding>),
}

/// Processed mode with resolved inheritance and compiled bindings.
#[derive(Debug, Clone)]
pub struct ProcessedMode {
    /// Display name for status line
    pub display_name: Option<String>,
    /// Resolved key bindings (including inherited), by [`chord`]
    pub bindings: StrMap<(KeyBinding, ProcessedBinding)>,
    /// Fallback behavior for unmapped keys
    pub fallback: Option<ProcessedBinding>,
    /// Mode to return to after executing a command
    pub return_to: Option<String>,
}

/// Custom keymap that supports dynamic modes and advanced features.
#[derive(Debug, Clone)]
pub struct CustomKeymap {
    /// Mode configurations including bindings and settings
    pub modes: StrMap<ProcessedMode>,
    /// Initial mode to start in
    pub initial_mode: String,
}

/// Result of a keymap lookup.
#[derive(Debug, Clone)]
pub enum KeymapResult {
    /// Execute a single command
    Command(Command),
    /// Change to a new mode
    ModeChange(EditMode),
    /// Execute a command then optionally change mode
    CommandAndMode { command: Command, new_mode: Option<EditMode> },
    /// Execute a sequence of commands then optionally change mode
    Sequence(Vec<Command>, Option<EditMode>),
}

// ---------------------------------------------------------------------------
// What bindings mean
// ---------------------------------------------------------------------------

/// What a binding does when its key is pressed.
pub enum Deed {
    Command(Command),
    Mode(Seq<char>),
    CommandAndMode(Command, Option<Seq<char>>),
    Sequence(Seq<Deed>),
}

pub open spec fn opt_text(s: Option<String>) -> Option<Seq<char>> {
    match s {
        Some(t) => Some(t@),
        None => None,
    }
}

/// The command that a name in a configuration stands for.
pub open spec fn command_named(name: Seq<char>) -> Option<Command> {
    if name == "move_left"@ || name == "move_cursor_left"@ {
        Some(Command::MoveCursorLeft)
    } else if name == "move_right"@ || name == "move_cursor_right"@ {
        Some(Command::MoveCursorRight)
    } else if name == "move_up"@ || name == "move_cursor_up"@ {
        Some(Command::MoveCursorUp)
    } else if name == "move_down"@ || name == "move_cursor_down"@ {
        Some(Command::MoveCursorDown)
    } else if name == "enter_insert_mode"@ {
        Some(Command::EnterInsertMode)
    } else if name == "enter_normal_mode"@ {
        Some(Command::EnterNormalMode)
    } else if name == "enter_command_mode"@ {
        Some(Command::EnterCommandMode)
    } else if name == "delete_char"@ {
        Some(Command::DeleteChar)
    } else if name == "delete_line"@ {
        Some(Command::DeleteLine)
    } else if name == "delete_word"@ {
        Some(Command::DeleteWord)
    } else if name == "insert_newline"@ {
        Some(Command::InsertNewline)
    } else if name == "exit"@ {
        Some(Command::Exit)
    } else if name == "toggle_command_info"@ {
        Some(Command::ToggleCommandInfo)
    } else if name == "insert_char"@ {
        Some(Command::InsertChar)
    } else if name == "help"@ {
        Some(Command::Help)
    } else {
        None
    }
}

/// What a configured binding does; nothing where it names a command that does
/// not exist, be it only one of a sequence.
pub open spec fn deed_of(binding: ConfigKeyBinding) -> Option<Deed>
    decreases binding,
{
    match binding {
        ConfigKeyBinding::Command(name) => match command_named(name@) {
            Some(command) => Some(Deed::Command(command)),
            None => None,
        },
        ConfigKeyBinding::Mode { mode } => Some(Deed::Mode(mode@)),
        ConfigKeyBinding::CommandAndMode { command, mode } => match command_named(command@) {
            Some(command) => Some(Deed::CommandAndMode(command, opt_text(mode))),
            None => None,
        },
        ConfigKeyBinding::Sequence(seq) => match deeds_of(seq@) {
            Some(deeds) => Some(Deed::Sequence(deeds)),
            None => None,
        },
    }
}

/// What each of a list of configured bindings does; nothing where one of them
/// does nothing.
pub open spec fn deeds_of(bindings: Seq<ConfigKeyBinding>) -> Option<Seq<Deed>>
    decreases bindings,
{
    if bindings.len() == 0 {
        Some(Seq::empty())
    } else {
        match (deeds_of(bindings.drop_last()), deed_of(bindings.last())) {
            (Some(before), Some(deed)) => Some(before.push(deed)),
            _ => None,
        }
    }
}

/// What a processed binding does.
pub open spec fn deed(binding: ProcessedBinding) -> Deed
    decreases binding,
{
    match binding {
        ProcessedBinding::Command(command) => Deed::Command(command),
        ProcessedBinding::Mode(mode) => Deed::Mode(mode@),
        ProcessedBinding::CommandAndMode { command, mode } => Deed::CommandAndMode(
            command,
            opt_text(mode),
        ),
        ProcessedBinding::Sequence(seq) => Deed::Sequence(deeds(seq@)),
    }
}

/// What each of a list of processed bindings does.
pub open spec fn deeds(bindings: Seq<ProcessedBinding>) -> Seq<Deed>
    decreases bindings,
{
    if bindings.len() == 0 {
        Seq::empty()
    } else {
        deeds(bindings.drop_last()).push(deed(bindings.last()))
    }
}

/// What comes of a deed: the commands to run, and the name of the mode to
/// change to.
pub enum Outcome {
    Command(Command),
    ModeChange(Seq<char>),
    CommandAndMode(Command, Option<Seq<char>>),
    Sequence(Seq<Command>, Option<Seq<char>>),
}

/// The commands of an outcome.
pub open spec fn commands_of(outcome: Outcome) -> Seq<Command> {
    match outcome {
        Outcome::Command(c) => seq![c],
        Outcome::ModeChange(_) => Seq::empty(),
        Outcome::CommandAndMode(c, _) => seq![c],
        Outcome::Sequence(cs, _) => cs,
    }
}

/// The mode that an outcome changes to.
pub open spec fn mode_of(outcome: Outcome) -> Option<Seq<char>> {
    match outcome {
        Outcome::Command(_) => None,
        Outcome::ModeChange(mode) => Some(mode),
        Outcome::CommandAndMode(_, mode) => mode,
        Outcome::Sequence(_, mode) => mode,
    }
}

/// What comes of a deed in a mode that returns to `return_to` after a command.
pub open spec fn outcome(d: Deed, return_to: Option<Seq<char>>) -> Outcome
    decreases d,
{
    match d {
        Deed::Command(c) => match return_to {
            Some(mode) => Outcome::CommandAndMode(c, Some(mode)),
            None => Outcome::Command(c),
        },
        Deed::Mode(mode) => Outcome::ModeChange(mode),
        Deed::CommandAndMode(c, mode) => Outcome::CommandAndMode(c, mode),
        Deed::Sequence(ds) => {
            let (commands, mode) = outcomes(ds, return_to);
            Outcome::Sequence(commands, mode)
        },
    }
}

/// What comes of a sequence: all commands in order, and the last change of
/// mode.
pub open spec fn outcomes(ds: Seq<Deed>, return_to: Option<Seq<char>>) -> (
    Seq<Command>,
    Option<Seq<char>>,
)
    decreases ds,
{
    if ds.len() == 0 {
        (Seq::empty(), None)
    } else {
        let (commands, mode) = outcomes(ds.drop_last(), return_to);
        let last = outcome(ds.last(), return_to);
        (commands + commands_of(last), if mode_of(last) is Some { mode_of(last) } else { mode })
    }
}

pub open spec fn is_opt_mode(mode: Option<EditMode>, name: Option<Seq<char>>) -> bool {
    match name {
        Some(n) => mode matches Some(m) && is_mode_named(m, n),
        None => mode is None,
    }
}

/// `result` says what `o` says.
pub open spec fn says(result: KeymapResult, o: Outcome) -> bool {
    match o {
        Outcome::Command(c) => result == KeymapResult::Command(c),
        Outcome::ModeChange(name) => result matches KeymapResult::ModeChange(mode)
            && is_mode_named(mode, name),
        Outcome::CommandAndMode(c, name) => result matches KeymapResult::CommandAndMode {
            command,
            new_mode,
        } && command == c && is_opt_mode(new_mode, name),
        Outcome::Sequence(cs, name) => result matches KeymapResult::Sequence(commands, mode)
            && commands@ == cs && is_opt_mode(mode, name),
    }
}

// ---------------------------------------------------------------------------
// Keys
// ---------------------------------------------------------------------------

pub open spec fn flag(held: bool) -> char {
    if held {
        '+'
    } else {
        '-'
    }
}

/// A key with its modifiers as one text.
pub open spec fn chord(key: Seq<char>, modifiers: Modifiers) -> Seq<char> {
    seq![flag(modifiers.control), flag(modifiers.alt), flag(modifiers.shift)] + key
}

/// Different keys, or the same key with different modifiers, are different
/// chords.
pub proof fn chords_are_distinct(a: Seq<char>, m: Modifiers, b: Seq<char>, n: Modifiers)
    requires
        chord(a, m) == chord(b, n),
    ensures
        a == b,
        m == n,
{
    let (x, y) = (chord(a, m), chord(b, n));
    assert(x[0] == flag(m.control) && x[1] == flag(m.alt) && x[2] == flag(m.shift));
    assert(y[0] == flag(n.control) && y[1] == flag(n.alt) && y[2] == flag(n.shift));
    assert(a =~= x.skip(3));
    assert(b =~= y.skip(3));
}

/// The place of the first dash at or after `i`.
pub open spec fn dash(s: Seq<char>, i: int) -> Option<int>
    decreases s.len() - i,
{
    if i >= s.len() {
        None
    } else if s[i] == '-' {
        Some(i)
    } else {
        dash(s, i + 1)
    }
}

/// The modifiers with the one named `name` added; nothing where `name` is no
/// modifier.
pub open spec fn with_modifier(m: Modifiers, name: Seq<char>) -> Option<Modifiers> {
    if name == "C"@ || name == "Ctrl"@ {
        Some(Modifiers { control: true, ..m })
    } else if name == "M"@ || name == "Alt"@ || name == "Meta"@ {
        Some(Modifiers { alt: true, ..m })
    } else if name == "S"@ || name == "Shift"@ {
        Some(Modifiers { shift: true, ..m })
    } else {
        None
    }
}

/// The key and modifiers that a text such as `C-M-x` stands for, after those
/// in `m`: names of modifiers, each with a dash behind, and then the key.
pub open spec fn parsed_key(s: Seq<char>, m: Modifiers) -> (Seq<char>, Modifiers)
    decreases s.len(),
{
    match dash(s, 0) {
        Some(at) => if 0 < at < s.len() && with_modifier(m, s.take(at)) is Some {
            parsed_key(s.skip(at + 1), with_modifier(m, s.take(at))->0)
        } else {
            (s, m)
        },
        None => (s, m),
    }
}

pub open spec fn no_modifiers() -> Modifiers {
    Modifiers { control: false, alt: false, shift: false }
}

/// The chord that a key in a configuration stands for.
pub open spec fn configured_chord(s: Seq<char>) -> Seq<char> {
    let (key, modifiers) = parsed_key(s, no_modifiers());
    chord(lowercase(key), modifiers)
}

/// A key as it is shown, without modifiers.
pub open spec fn shown_key(key: Seq<char>) -> Seq<char> {
    if key == "escape"@ || key == "esc"@ {
        "Esc"@
    } else if key == "enter"@ || key == "return"@ {
        "Enter"@
    } else if key == "backspace"@ {
        "Backsp"@
    } else if key == "tab"@ {
        "Tab"@
    } else if key == "space"@ {
        "Space"@
    } else if key == "left"@ {
        "Left"@
    } else if key == "right"@ {
        "Right"@
    } else if key == "up"@ {
        "Up"@
    } else if key == "down"@ {
        "Down"@
    } else if byte_len(key) == 1 || key.len() == 0 {
        key
    } else {
        key.update(0, ascii_upper(key[0]))
    }
}

/// A key with its modifiers as it is shown.
pub open spec fn shown_chord(key: Seq<char>, m: Modifiers) -> Seq<char> {
    (if m.control { "C-"@ } else { Seq::empty() }) + (if m.alt {
        "M-"@
    } else {
        Seq::empty()
    }) + (if m.shift { "S-"@ } else { Seq::empty() }) + shown_key(key)
}

impl KeyBinding {
    /// A binding of `key`, which is normalized to lower case for consistent
    /// matching.
    pub fn new(key: Key, modifiers: Modifiers) -> (binding: KeyBinding)
        ensures
            binding.key@ == lowercase(key@),
            binding.modifiers == modifiers,
    {
        KeyBinding { key: key.as_str().to_lowercase(), modifiers }
    }

    fn chord_text(&self) -> (text: String)
        ensures
            text@ == chord(self.key@, self.modifiers),
    {
        let mut text = String::new();
        text.push(if self.modifiers.control { '+' } else { '-' });
        text.push(if self.modifiers.alt { '+' } else { '-' });
        text.push(if self.modifiers.shift { '+' } else { '-' });
        text.append(self.key.as_str());
        assert(text@ =~= chord(self.key@, self.modifiers));
        text
    }
}

fn find_dash(s: &Vec<char>) -> (at: Option<usize>)
    ensures
        match at {
            Some(i) => dash(s@, 0) == Some(i as int) && i < s.len(),
            None => dash(s@, 0) is None,
        },
{
    let mut i: usize = 0;
    while i < s.len()
        invariant
            i <= s.len(),
            dash(s@, 0) == dash(s@, i as int),
        decreases s.len() - i,
    {
        if s[i] == '-' {
            return Some(i);
        }
        i = i + 1;
    }
    None
}

fn add_modifier(m: Modifiers, name: &str) -> (r: Option<Modifiers>)
    ensures
        r == with_modifier(m, name@),
{
    if same(name, "C") || same(name, "Ctrl") {
        Some(Modifiers { control: true, alt: m.alt, shift: m.shift })
    } else if same(name, "M") || same(name, "Alt") || same(name, "Meta") {
        Some(Modifiers { control: m.control, alt: true, shift: m.shift })
    } else if same(name, "S") || same(name, "Shift") {
        Some(Modifiers { control: m.control, alt: m.alt, shift: true })
    } else {
        None
    }
}

/// Format a key binding for display.
pub fn format_key_binding(key: &Key, modifiers: &Modifiers) -> (text: String)
    ensures
        text@ == shown_chord(key@, *modifiers),
{
    let mut text = String::new();
    if modifiers.control {
        text.append("C-");
    }
    if modifiers.alt {
        text.append("M-");
    }
    if modifiers.shift {
        text.append("S-");
    }
    let ghost before = text@;
    assert(before =~= (if modifiers.control { "C-"@ } else { Seq::empty() }) + (if modifiers.alt {
        "M-"@
    } else {
        Seq::empty()
    }) + (if modifiers.shift { "S-"@ } else { Seq::empty() }));
    let name = key.as_str();
    if same(name, "escape") || same(name, "esc") {
        text.append("Esc");
    } else if same(name, "enter") || same(name, "return") {
        text.append("Enter");
    } else if same(name, "backspace") {
        text.append("Backsp");
    } else if same(name, "tab") {
        text.append("Tab");
    } else if same(name, "space") {
        text.append("Space");
    } else if same(name, "left") {
        text.append("Left");
    } else if same(name, "right") {
        text.append("Right");
    } else if same(name, "up") {
        text.append("Up");
    } else if same(name, "down") {
        text.append("Down");
    } else if name.is_empty() || bytes_in(name) == 1 {
        text.append(name);
    } else {
        let mut chars = chars_of(name);
        let first: char = chars[0];
        let upper: char = if 'a' <= first && first <= 'z' {
            (first as u8 - 32) as char
        } else {
            first
        };
        assert(upper == ascii_upper(first));
        chars.set(0, upper);
        let shown = string_of(chars.as_slice());
        text.append(shown.as_str());
    }
    text
}

// ---------------------------------------------------------------------------
// Modes
// ---------------------------------------------------------------------------

/// What the chords of a table do.
pub open spec fn table(bindings: Map<Seq<char>, (KeyBinding, ProcessedBinding)>) -> Map<
    Seq<char>,
    Deed,
> {
    bindings.map_values(|b: (KeyBinding, ProcessedBinding)| deed(b.1))
}

/// Each key is kept at its own chord.
pub open spec fn keeps_keys(bindings: Map<Seq<char>, (KeyBinding, ProcessedBinding)>) -> bool {
    forall|at: Seq<char>| #[trigger]
        bindings.contains_key(at) ==> chord(bindings[at].0.key@, bindings[at].0.modifiers) == at
}

/// `base` with the first `n` of the configured keys bound, each later one over
/// those before. A key whose binding does nothing is skipped.
pub open spec fn with_keys(
    base: Map<Seq<char>, Deed>,
    keys: Seq<Seq<char>>,
    bindings: Seq<ConfigKeyBinding>,
    n: nat,
) -> Map<Seq<char>, Deed>
    decreases n,
{
    if n == 0 {
        base
    } else {
        let before = with_keys(base, keys, bindings, (n - 1) as nat);
        match deed_of(bindings[n - 1]) {
            Some(d) => before.insert(configured_chord(keys[n - 1]), d),
            None => before,
        }
    }
}

/// The mode that `mode` inherits from, where the configuration has it.
pub open spec fn parent(modes: Map<Seq<char>, ModeConfig>, mode: ModeConfig) -> Option<ModeConfig> {
    match mode.inherit {
        Some(name) => if modes.contains_key(name@) {
            Some(modes[name@])
        } else {
            None
        },
        None => None,
    }
}

/// Following inheritance from `mode` comes to an end within `depth` modes.
pub open spec fn ends_within(modes: Map<Seq<char>, ModeConfig>, mode: ModeConfig, depth: nat) -> bool
    decreases depth,
{
    depth > 0 && (match parent(modes, mode) {
        Some(p) => ends_within(modes, p, (depth - 1) as nat),
        None => true,
    })
}

/// Following inheritance from `mode` comes to an end.
pub open spec fn ends(modes: Map<Seq<char>, ModeConfig>, mode: ModeConfig) -> bool {
    exists|depth: nat| ends_within(modes, mode, depth)
}

/// What the chords do in a mode: those of the mode it inherits from, with its
/// own over them, following inheritance through `depth` modes.
pub open spec fn mode_table(modes: Map<Seq<char>, ModeConfig>, mode: ModeConfig, depth: nat) -> Map<
    Seq<char>,
    Deed,
>
    decreases depth,
{
    let base = match parent(modes, mode) {
        Some(p) => if depth > 0 {
            mode_table(modes, p, (depth - 1) as nat)
        } else {
            Map::empty()
        },
        None => Map::empty(),
    };
    with_keys(base, mode.keys.keys(), mode.keys.values(), mode.keys.keys().len())
}

/// What the chords do in a mode from which inheritance comes to an end.
pub open spec fn whole_table(modes: Map<Seq<char>, ModeConfig>, mode: ModeConfig) -> Map<
    Seq<char>,
    Deed,
> {
    mode_table(modes, mode, choose|depth: nat| ends_within(modes, mode, depth))
}

/// Once inheritance has come to its end, going deeper adds nothing.
proof fn lemma_depth(modes: Map<Seq<char>, ModeConfig>, mode: ModeConfig, a: nat, b: nat)
    requires
        ends_within(modes, mode, a),
        ends_within(modes, mode, b),
    ensures
        mode_table(modes, mode, a) == mode_table(modes, mode, b),
    decreases a,
{
    match parent(modes, mode) {
        Some(p) => {
            lemma_depth(modes, p, (a - 1) as nat, (b - 1) as nat);
        },
        None => {},
    }
}

/// What the chords do in a mode is what they do in the one that it inherits
/// from, with its own over them.
proof fn lemma_whole_table(modes: Map<Seq<char>, ModeConfig>, mode: ModeConfig)
    requires
        ends(modes, mode),
    ensures
        parent(modes, mode) matches Some(p) ==> ends(modes, p),
        whole_table(modes, mode) == with_keys(
            inherited_table(modes, mode),
            mode.keys.keys(),
            mode.keys.values(),
            mode.keys.keys().len(),
        ),
{
    let depth = choose|depth: nat| ends_within(modes, mode, depth);
    match parent(modes, mode) {
        Some(p) => {
            assert(ends_within(modes, p, (depth - 1) as nat));
            lemma_depth(
                modes,
                p,
                (depth - 1) as nat,
                choose|depth: nat| ends_within(modes, p, depth),
            );
        },
        None => {},
    }
}

/// What the chords do in the mode that `mode` inherits from; nothing where
/// there is none.
pub open spec fn inherited_table(modes: Map<Seq<char>, ModeConfig>, mode: ModeConfig) -> Map<
    Seq<char>,
    Deed,
> {
    match parent(modes, mode) {
        Some(p) => whole_table(modes, p),
        None => Map::empty(),
    }
}

/// Following inheritance comes to an end from every mode: none inherits, in
/// however many steps, from itself.
pub open spec fn acyclic(config: KeymapConfig) -> bool {
    forall|name: Seq<char>|
        config.modes@.contains_key(name) ==> ends(config.modes@, #[trigger] config.modes@[name])
}

pub open spec fn opt_deed(binding: Option<ConfigKeyBinding>) -> Option<Deed> {
    match binding {
        Some(b) => deed_of(b),
        None => None,
    }
}

pub open spec fn opt_processed(binding: Option<ProcessedBinding>) -> Option<Deed> {
    match binding {
        Some(b) => Some(deed(b)),
        None => None,
    }
}

/// `mode` is what the configuration makes of `config`.
pub open spec fn is_processed(
    mode: ProcessedMode,
    modes: Map<Seq<char>, ModeConfig>,
    config: ModeConfig,
) -> bool {
    &&& opt_text(mode.display_name) == opt_text(config.display_name)
    &&& opt_text(mode.return_to) == opt_text(config.return_to)
    &&& opt_processed(mode.fallback) == opt_deed(config.fallback)
    &&& table(mode.bindings@) == whole_table(modes, config)
    &&& keeps_keys(mode.bindings@)
}

/// A table with one chord bound to a command.
pub open spec fn bind(t: Map<Seq<char>, Deed>, key: Seq<char>, d: Deed) -> Map<Seq<char>, Deed> {
    t.insert(chord(lowercase(key), no_modifiers()), d)
}

/// The chords of the normal mode that comes with the editor.
pub open spec fn normal_table() -> Map<Seq<char>, Deed> {
    let t = Map::<Seq<char>, Deed>::empty();
    let t = bind(t, "h"@, Deed::Command(Command::MoveCursorLeft));
    let t = bind(t, "j"@, Deed::Command(Command::MoveCursorDown));
    let t = bind(t, "k"@, Deed::Command(Command::MoveCursorUp));
    let t = bind(t, "l"@, Deed::Command(Command::MoveCursorRight));
    let t = bind(t, "i"@, Deed::Mode("insert"@));
    let t = bind(t, ":"@, Deed::Mode("command"@));
    let t = bind(t, "?"@, Deed::Command(Command::ToggleCommandInfo));
    bind(t, "escape"@, Deed::Command(Command::Exit))
}

/// The chords of the insert mode that comes with the editor.
pub open spec fn insert_table() -> Map<Seq<char>, Deed> {
    let t = Map::<Seq<char>, Deed>::empty();
    let t = bind(t, "escape"@, Deed::Mode("normal"@));
    let t = bind(t, "enter"@, Deed::Command(Command::InsertNewline));
    bind(t, "backspace"@, Deed::Command(Command::DeleteChar))
}

/// The chords of the command mode that comes with the editor.
pub open spec fn command_table() -> Map<Seq<char>, Deed> {
    bind(Map::empty(), "escape"@, Deed::Mode("normal"@))
}

/// The keys of the normal mode that comes with the editor that run a command,
/// as they are shown.
pub open spec fn normal_keys() -> Seq<(Seq<char>, Command)> {
    seq![
        ("h"@, Command::MoveCursorLeft),
        ("j"@, Command::MoveCursorDown),
        ("k"@, Command::MoveCursorUp),
        ("l"@, Command::MoveCursorRight),
        ("?"@, Command::ToggleCommandInfo),
        ("Esc"@, Command::Exit),
    ]
}

/// The keys of the insert mode that comes with the editor that run a command,
/// as they are shown.
pub open spec fn insert_keys() -> Seq<(Seq<char>, Command)> {
    seq![("Enter"@, Command::InsertNewline), ("Backsp"@, Command::DeleteChar)]
}

/// `mode` is one of the modes that come with the editor: `display` is the name
/// on the status line, `t` what its chords do and `shown` its listing.
pub open spec fn is_builtin(
    mode: ProcessedMode,
    display: Seq<char>,
    t: Map<Seq<char>, Deed>,
    fallback: Option<Deed>,
    shown: Seq<(Seq<char>, Command)>,
) -> bool {
    &&& opt_text(mode.display_name) == Some(display)
    &&& mode.return_to is None
    &&& opt_processed(mode.fallback) == fallback
    &&& table(mode.bindings@) == t
    &&& keeps_keys(mode.bindings@)
    &&& listing(mode.bindings) == shown
}

/// `mode` is the mode called `name` in a keymap made from `config`: the one
/// configured, else the one of that name that comes with the editor.
pub open spec fn is_mode_of(mode: ProcessedMode, config: KeymapConfig, name: Seq<char>) -> bool {
    if config.modes@.contains_key(name) {
        is_processed(mode, config.modes@, config.modes@[name])
    } else if name == "normal"@ {
        is_builtin(mode, "NORMAL"@, normal_table(), None, normal_keys())
    } else if name == "insert"@ {
        is_builtin(
            mode,
            "INSERT"@,
            insert_table(),
            Some(Deed::Command(Command::InsertChar)),
            insert_keys(),
        )
    } else {
        name == "command"@ && is_builtin(mode, "COMMAND"@, command_table(), None, Seq::empty())
    }
}

/// What pressing a chord in a mode comes to: its binding, else the fallback.
pub open spec fn pressed(mode: ProcessedMode, key: Seq<char>, modifiers: Modifiers) -> Option<Outcome> {
    let at = chord(lowercase(key), modifiers);
    if table(mode.bindings@).contains_key(at) {
        Some(outcome(table(mode.bindings@)[at], opt_text(mode.return_to)))
    } else {
        match opt_processed(mode.fallback) {
            Some(d) => Some(outcome(d, opt_text(mode.return_to))),
            None => None,
        }
    }
}

/// What pressing a chord comes to in a mode of a keymap, where it has that mode.
pub open spec fn looked_up(
    keymap: CustomKeymap,
    key: Seq<char>,
    modifiers: Modifiers,
    mode: EditMode,
) -> Option<Outcome> {
    if keymap.modes@.contains_key(mode_name(mode)) {
        pressed(keymap.modes@[mode_name(mode)], key, modifiers)
    } else {
        None
    }
}

fn opt_clone(s: &Option<String>) -> (c: Option<String>)
    ensures
        opt_text(c) == opt_text(*s),
{
    match s {
        Some(t) => Some(t.clone()),
        None => None,
    }
}

/// Binds `key` in a table.
fn bind_key(
    bindings: &mut StrMap<(KeyBinding, ProcessedBinding)>,
    key: KeyBinding,
    binding: ProcessedBinding,
)
    requires
        keeps_keys(old(bindings)@),
    ensures
        table(final(bindings)@) == table(old(bindings)@).insert(
            chord(key.key@, key.modifiers),
            deed(binding),
        ),
        keeps_keys(final(bindings)@),
        !table(old(bindings)@).contains_key(chord(key.key@, key.modifiers))
            ==> final(bindings).values() == old(bindings).values().push((key, binding)),
{
    let at = key.chord_text();
    bindings.insert(at, (key, binding));
    assert(table(bindings@) =~= table(old(bindings)@).insert(
        chord(key.key@, key.modifiers),
        deed(binding),
    ));
}

/// Binds the key called `name`, without modifiers.
fn bind_plain(
    bindings: &mut StrMap<(KeyBinding, ProcessedBinding)>,
    name: &str,
    binding: ProcessedBinding,
)
    requires
        keeps_keys(old(bindings)@),
    ensures
        table(final(bindings)@) == bind(table(old(bindings)@), name@, deed(binding)),
        keeps_keys(final(bindings)@),
        !table(old(bindings)@).contains_key(chord(lowercase(name@), no_modifiers())) ==> listing(
            *final(bindings),
        ) == (match binding {
            ProcessedBinding::Command(command) => listing(*old(bindings)).push(
                (shown_chord(lowercase(name@), no_modifiers()), command),
            ),
            _ => listing(*old(bindings)),
        }),
{
    let ghost before = bindings.values();
    let key = KeyBinding::new(name.to_owned(), Modifiers::default());
    proof {
        lemma_listed_agrees(before, before.push((key, binding)), before.len());
    }
    bind_key(bindings, key, binding);
}

proof fn lemma_listed_agrees(
    a: Seq<(KeyBinding, ProcessedBinding)>,
    b: Seq<(KeyBinding, ProcessedBinding)>,
    n: nat,
)
    requires
        n <= a.len(),
        n <= b.len(),
        forall|i: int| 0 <= i < n ==> a[i] == #[trigger] b[i],
    ensures
        listed(a, n) == listed(b, n),
    decreases n,
{
    if n > 0 {
        lemma_listed_agrees(a, b, (n - 1) as nat);
        assert(a[n - 1] == b[n - 1]);
    }
}

/// A key that is a single ASCII character is shown as it is, and it is its own
/// lower case where it is no capital.
proof fn lemma_plain_key(c: char)
    requires
        c <= '\u{7f}',
        !('A' <= c <= 'Z'),
    ensures
        lowercase(seq![c]) == seq![c],
        shown_chord(seq![c], no_modifiers()) == seq![c],
{
    reveal_strlit("escape");
    reveal_strlit("esc");
    reveal_strlit("enter");
    reveal_strlit("return");
    reveal_strlit("backspace");
    reveal_strlit("tab");
    reveal_strlit("space");
    reveal_strlit("left");
    reveal_strlit("right");
    reveal_strlit("up");
    reveal_strlit("down");
    let s = seq![c];
    assert(lowercase(s) =~= s);
    is_ascii_chars_encode_utf8(s);
    assert(shown_chord(s, no_modifiers()) =~= s);
}

/// The names of the keys that the editor's own modes bind.
proof fn lemma_named_keys()
    ensures
        lowercase("escape"@) == "escape"@,
        lowercase("enter"@) == "enter"@,
        lowercase("backspace"@) == "backspace"@,
        "escape"@.len() == 6,
        "enter"@.len() == 5,
        "backspace"@.len() == 9,
        shown_chord("escape"@, no_modifiers()) == "Esc"@,
        shown_chord("enter"@, no_modifiers()) == "Enter"@,
        shown_chord("backspace"@, no_modifiers()) == "Backsp"@,
{
    reveal_strlit("escape");
    reveal_strlit("esc");
    reveal_strlit("enter");
    reveal_strlit("return");
    reveal_strlit("backspace");
    assert(lowercase("escape"@) =~= "escape"@);
    assert(lowercase("enter"@) =~= "enter"@);
    assert(lowercase("backspace"@) =~= "backspace"@);
    assert("backspace"@.len() == 9);
    assert("enter"@.len() == 5);
    assert(shown_chord("escape"@, no_modifiers()) =~= "Esc"@);
    assert(shown_chord("enter"@, no_modifiers()) =~= "Enter"@);
    assert(shown_chord("backspace"@, no_modifiers()) =~= "Backsp"@);
}

proof fn lemma_plain_chords_differ(a: Seq<char>, b: Seq<char>)
    requires
        a != b,
    ensures
        chord(a, no_modifiers()) != chord(b, no_modifiers()),
{
    if chord(a, no_modifiers()) == chord(b, no_modifiers()) {
        chords_are_distinct(a, no_modifiers(), b, no_modifiers());
    }
}

/// Plain keys of different names are different chords.
proof fn lemma_all_plain_chords_differ()
    ensures
        forall|a: Seq<char>, b: Seq<char>|
            a != b ==> #[trigger] chord(a, no_modifiers()) != #[trigger] chord(b, no_modifiers()),
{
    assert forall|a: Seq<char>, b: Seq<char>| a != b implies #[trigger] chord(a, no_modifiers())
        != #[trigger] chord(b, no_modifiers()) by {
        lemma_plain_chords_differ(a, b);
    }
}

proof fn lemma_deeds_push(bindings: Seq<ProcessedBinding>, b: ProcessedBinding)
    ensures
        deeds(bindings.push(b)) == deeds(bindings).push(deed(b)),
{
    assert(bindings.push(b).drop_last() =~= bindings);
}

impl Clone for ProcessedBinding {
    fn clone(&self) -> (c: Self)
        ensures
            deed(c) == deed(*self),
        decreases *self,
    {
        match self {
            ProcessedBinding::Command(command) => ProcessedBinding::Command(*command),
            ProcessedBinding::Mode(mode) => ProcessedBinding::Mode(mode.clone()),
            ProcessedBinding::CommandAndMode { command, mode } => ProcessedBinding::CommandAndMode {
                command: *command,
                mode: opt_clone(mode),
            },
            ProcessedBinding::Sequence(bindings) => {
                let mut copies: Vec<ProcessedBinding> = Vec::new();
                let mut i: usize = 0;
                assert(bindings@.take(0) =~= Seq::empty());
                while i < bindings.len()
                    invariant
                        i <= bindings.len(),
                        *self == ProcessedBinding::Sequence(*bindings),
                        deeds(copies@) == deeds(bindings@.take(i as int)),
                    decreases bindings.len() - i,
                {
                    assert(decreases_to!(*self => self->Sequence_0));
                    assert(decreases_to!(*self => bindings@[i as int]));
                    let copy = bindings[i].clone();
                    proof {
                        assert(bindings@.take(i + 1) =~= bindings@.take(i as int).push(
                            bindings@[i as int],
                        ));
                        lemma_deeds_push(bindings@.take(i as int), bindings@[i as int]);
                        lemma_deeds_push(copies@, copy);
                    }
                    copies.push(copy);
                    i = i + 1;
                }
                assert(bindings@.take(bindings.len() as int) =~= bindings@);
                ProcessedBinding::Sequence(copies)
            },
        }
    }
}

impl CustomKeymap {
    /// Creates a new custom keymap from configuration.
    pub fn from_config(config: KeymapConfig) -> (keymap: Self)
        requires
            acyclic(config),
        ensures
            keymap.initial_mode == config.initial_mode,
            forall|name: Seq<char>| #[trigger]
                keymap.modes@.contains_key(name) <==> config.modes@.contains_key(name) || name
                    == "normal"@ || name == "insert"@ || name == "command"@,
            forall|name: Seq<char>| #[trigger]
                keymap.modes@.contains_key(name) ==> is_mode_of(
                    keymap.modes@[name],
                    config,
                    name,
                ),
    {
        let mut modes: StrMap<ProcessedMode> = StrMap::new();
        let count: usize = config.modes.len();
        let mut i: usize = 0;
        while i < count
            invariant
                acyclic(config),
                count == config.modes.keys().len(),
                count == config.modes.values().len(),
                i <= count,
                forall|k: int| 0 <= k < i ==> modes@.contains_key(#[trigger] config.modes.keys()[k]),
                forall|name: Seq<char>| #[trigger]
                    modes@.contains_key(name) ==> config.modes@.contains_key(name) && is_mode_of(
                        modes@[name],
                        config,
                        name,
                    ),
            decreases count - i,
        {
            let name = config.modes.key_at(i);
            let mode = config.modes.value_at(i);
            assert(ends(config.modes@, config.modes@[name@]));
            let processed = Self::process_mode(mode, &config);
            let ghost before = modes@;
            modes.insert(name.clone(), processed);
            assert(is_mode_of(processed, config, name@));
            i = i + 1;
        }
        assert forall|name: Seq<char>| config.modes@.contains_key(name) implies modes@.contains_key(
            name,
        ) by {
            let k = config.modes.keys().index_of(name);
            assert(config.modes.keys()[k] == name);
        }
        proof {
            reveal_strlit("normal");
            reveal_strlit("insert");
            reveal_strlit("command");
            assert("normal"@[0] != "insert"@[0]);
            assert("normal"@[0] != "command"@[0]);
            assert("insert"@[0] != "command"@[0]);
        }
        if !modes.contains_key("normal") {
            modes.insert("normal".to_owned(), Self::default_normal_mode());
        }
        if !modes.contains_key("insert") {
            modes.insert("insert".to_owned(), Self::default_insert_mode());
        }
        if !modes.contains_key("command") {
            modes.insert("command".to_owned(), Self::default_command_mode());
        }
        CustomKeymap { modes, initial_mode: config.initial_mode }
    }

    /// Creates a default keymap with vim-like bindings.
    pub fn default() -> (keymap: Self)
        ensures
            keymap.initial_mode@ == "normal"@,
            keymap.modes@.contains_key("normal"@) && is_builtin(
                keymap.modes@["normal"@],
                "NORMAL"@,
                normal_table(),
                None,
                normal_keys(),
            ),
            keymap.modes@.contains_key("insert"@) && is_builtin(
                keymap.modes@["insert"@],
                "INSERT"@,
                insert_table(),
                Some(Deed::Command(Command::InsertChar)),
                insert_keys(),
            ),
            keymap.modes@.contains_key("command"@) && is_builtin(
                keymap.modes@["command"@],
                "COMMAND"@,
                command_table(),
                None,
                Seq::empty(),
            ),
            forall|name: Seq<char>|
                keymap.modes@.contains_key(name) ==> name == "normal"@ || name == "insert"@ || name
                    == "command"@,
    {
        proof {
            reveal_strlit("normal");
            reveal_strlit("insert");
            reveal_strlit("command");
            assert("normal"@[0] != "insert"@[0]);
            assert("normal"@[0] != "command"@[0]);
            assert("insert"@[0] != "command"@[0]);
        }
        let mut modes: StrMap<ProcessedMode> = StrMap::new();
        modes.insert("normal".to_owned(), Self::default_normal_mode());
        modes.insert("insert".to_owned(), Self::default_insert_mode());
        modes.insert("command".to_owned(), Self::default_command_mode());
        CustomKeymap { modes, initial_mode: "normal".to_owned() }
    }

    /// Looks up a binding for the given key and mode.
    pub fn lookup(&self, key: &Key, modifiers: &Modifiers, mode: &EditMode) -> (result: Option<
        KeymapResult,
    >)
        ensures
            match looked_up(*self, key@, *modifiers, *mode) {
                Some(o) => result matches Some(r) && says(r, o),
                None => result is None,
            },
    {
        let processed: &ProcessedMode = match self.modes.get(mode.name()) {
            Some(processed) => processed,
            None => {
                return None;
            },
        };
        let binding = KeyBinding::new(key.clone(), *modifiers);
        let at = binding.chord_text();
        match processed.bindings.get(at.as_str()) {
            Some(bound) => {
                return Some(Self::process_binding(&bound.1, &processed.return_to));
            },
            None => {},
        }
        match &processed.fallback {
            Some(fallback) => Some(Self::process_binding(fallback, &processed.return_to)),
            None => None,
        }
    }

    /// Process a binding of a mode that returns to `return_to` and return the
    /// result.
    pub fn process_binding(binding: &ProcessedBinding, return_to: &Option<String>) -> (result:
        KeymapResult)
        ensures
            says(result, outcome(deed(*binding), opt_text(*return_to))),
        decreases *binding,
    {
        match binding {
            ProcessedBinding::Command(command) => match return_to {
                Some(mode) => KeymapResult::CommandAndMode {
                    command: *command,
                    new_mode: Some(EditMode::from_name(mode.as_str())),
                },
                None => KeymapResult::Command(*command),
            },
            ProcessedBinding::Mode(mode) => KeymapResult::ModeChange(
                EditMode::from_name(mode.as_str()),
            ),
            ProcessedBinding::CommandAndMode { command, mode } => KeymapResult::CommandAndMode {
                command: *command,
                new_mode: match mode {
                    Some(m) => Some(EditMode::from_name(m.as_str())),
                    None => None,
                },
            },
            ProcessedBinding::Sequence(bindings) => {
                let mut commands: Vec<Command> = Vec::new();
                let mut final_mode: Option<EditMode> = None;
                let ghost back = opt_text(*return_to);
                let mut i: usize = 0;
                assert(bindings@.take(0) =~= Seq::empty());
                while i < bindings.len()
                    invariant
                        i <= bindings.len(),
                        *binding == ProcessedBinding::Sequence(*bindings),
                        back == opt_text(*return_to),
                        commands@ == outcomes(deeds(bindings@.take(i as int)), back).0,
                        is_opt_mode(
                            final_mode,
                            outcomes(deeds(bindings@.take(i as int)), back).1,
                        ),
                    decreases bindings.len() - i,
                {
                    let ghost so_far = deeds(bindings@.take(i as int));
                    assert(decreases_to!(*binding => binding->Sequence_0));
                    assert(decreases_to!(*binding => bindings@[i as int]));
                    let one = Self::process_binding(&bindings[i], return_to);
                    proof {
                        let next = bindings@.take(i + 1);
                        assert(next =~= bindings@.take(i as int).push(bindings@[i as int]));
                        lemma_deeds_push(bindings@.take(i as int), bindings@[i as int]);
                        assert(deeds(next).drop_last() =~= so_far);
                    }
                    match one {
                        KeymapResult::Command(command) => {
                            commands.push(command);
                        },
                        KeymapResult::ModeChange(mode) => {
                            final_mode = Some(mode);
                        },
                        KeymapResult::CommandAndMode { command, new_mode } => {
                            commands.push(command);
                            if new_mode.is_some() {
                                final_mode = new_mode;
                            }
                        },
                        KeymapResult::Sequence(more, mode) => {
                            let mut more = more;
                            commands.append(&mut more);
                            if mode.is_some() {
                                final_mode = mode;
                            }
                        },
                    }
                    assert(commands@ =~= outcomes(deeds(bindings@.take(i + 1)), back).0);
                    i = i + 1;
                }
                assert(bindings@.take(bindings.len() as int) =~= bindings@);
                KeymapResult::Sequence(commands, final_mode)
            },
        }
    }

    /// Process a mode configuration, resolving inheritance.
    pub fn process_mode(config: &ModeConfig, keymap_config: &KeymapConfig) -> (mode: ProcessedMode)
        requires
            ends(keymap_config.modes@, *config),
        ensures
            is_processed(mode, keymap_config.modes@, *config),
    {
        let ghost depth = choose|depth: nat|
            ends_within(keymap_config.modes@, *config, depth);
        let bindings = Self::process_keys(config, keymap_config, Ghost(depth));
        let fallback: Option<ProcessedBinding> = match &config.fallback {
            Some(b) => Self::process_config_binding(b),
            None => None,
        };
        ProcessedMode {
            display_name: opt_clone(&config.display_name),
            bindings,
            fallback,
            return_to: opt_clone(&config.return_to),
        }
    }

    /// The bindings of a mode: those of the mode it inherits from, overridden
    /// by its own.
    fn process_keys(
        config: &ModeConfig,
        keymap_config: &KeymapConfig,
        Ghost(depth): Ghost<nat>,
    ) -> (bindings: StrMap<(KeyBinding, ProcessedBinding)>)
        requires
            ends_within(keymap_config.modes@, *config, depth),
        ensures
            table(bindings@) == mode_table(keymap_config.modes@, *config, depth),
            keeps_keys(bindings@),
        decreases depth,
    {
        let mut bindings: StrMap<(KeyBinding, ProcessedBinding)> = StrMap::new();
        assert(table(bindings@) =~= Map::empty());
        match &config.inherit {
            Some(name) => match keymap_config.modes.get(name.as_str()) {
                Some(parent_config) => {
                    bindings = Self::process_keys(
                        parent_config,
                        keymap_config,
                        Ghost((depth - 1) as nat),
                    );
                },
                None => {},
            },
            None => {},
        }
        let ghost base = table(bindings@);
        let count: usize = config.keys.len();
        let mut i: usize = 0;
        while i < count
            invariant
                count == config.keys.keys().len(),
                count == config.keys.values().len(),
                i <= count,
                keeps_keys(bindings@),
                table(bindings@) == with_keys(
                    base,
                    config.keys.keys(),
                    config.keys.values(),
                    i as nat,
                ),
            decreases count - i,
        {
            let key = Self::parse_key_binding(config.keys.key_at(i).as_str());
            match Self::process_config_binding(config.keys.value_at(i)) {
                Some(processed) => {
                    bind_key(&mut bindings, key, processed);
                },
                None => {},
            }
            i = i + 1;
        }
        bindings
    }

    /// Process a configuration binding into a processed binding, or nothing
    /// for one with an unknown command.
    pub fn process_config_binding(binding: &ConfigKeyBinding) -> (processed: Option<ProcessedBinding>)
        ensures
            opt_processed(processed) == deed_of(*binding),
        decreases *binding,
    {
        match binding {
            ConfigKeyBinding::Command(name) => match Self::parse_command(name.as_str()) {
                Some(command) => Some(ProcessedBinding::Command(command)),
                None => None,
            },
            ConfigKeyBinding::Mode { mode } => Some(ProcessedBinding::Mode(mode.clone())),
            ConfigKeyBinding::CommandAndMode { command, mode } => match Self::parse_command(
                command.as_str(),
            ) {
                Some(command) => Some(
                    ProcessedBinding::CommandAndMode { command, mode: opt_clone(mode) },
                ),
                None => None,
            },
            ConfigKeyBinding::Sequence(seq) => {
                let mut processed: Vec<ProcessedBinding> = Vec::new();
                let mut i: usize = 0;
                assert(seq@.take(0) =~= Seq::empty());
                while i < seq.len()
                    invariant
                        i <= seq.len(),
                        *binding == ConfigKeyBinding::Sequence(*seq),
                        deeds_of(seq@.take(i as int)) == Some(deeds(processed@)),
                    decreases seq.len() - i,
                {
                    let ghost next = seq@.take(i + 1);
                    assert(next.drop_last() =~= seq@.take(i as int));
                    assert(decreases_to!(*binding => seq@[i as int]));
                    match Self::process_config_binding(&seq[i]) {
                        Some(one) => {
                            proof {
                                lemma_deeds_push(processed@, one);
                            }
                            processed.push(one);
                        },
                        None => {
                            proof {
                                lemma_deeds_fail(seq@, i + 1);
                            }
                            return None;
                        },
                    }
                    i = i + 1;
                }
                assert(seq@.take(seq.len() as int) =~= seq@);
                Some(ProcessedBinding::Sequence(processed))
            },
        }
    }

    /// Parse a key binding string into a [`KeyBinding`]: modifiers such as
    /// `C-` or `Alt-`, and then the key.
    pub fn parse_key_binding(key_str: &str) -> (binding: KeyBinding)
        ensures
            chord(binding.key@, binding.modifiers) == configured_chord(key_str@),
            binding.key@ == lowercase(parsed_key(key_str@, no_modifiers()).0),
            binding.modifiers == parsed_key(key_str@, no_modifiers()).1,
    {
        let mut modifiers = Modifiers::default();
        let mut rest = chars_of(key_str);
        let mut more: bool = true;
        while more
            invariant
                more ==> parsed_key(key_str@, no_modifiers()) == parsed_key(rest@, modifiers),
                !more ==> parsed_key(key_str@, no_modifiers()) == (rest@, modifiers),
            decreases rest.len(), if more { 1int } else { 0int },
        {
            match find_dash(&rest) {
                Some(at) => {
                    let name = string_of(copied_range(&rest, 0, at).as_slice());
                    assert(name@ =~= rest@.take(at as int));
                    match add_modifier(modifiers, name.as_str()) {
                        Some(with) => {
                            if at > 0 {
                                let tail = copied_range(&rest, at + 1, rest.len());
                                assert(tail@ =~= rest@.skip(at + 1));
                                modifiers = with;
                                rest = tail;
                            } else {
                                more = false;
                            }
                        },
                        None => {
                            more = false;
                        },
                    }
                },
                None => {
                    more = false;
                },
            }
        }
        KeyBinding::new(string_of(rest.as_slice()), modifiers)
    }

    /// Parse a command string into a [`Command`].
    pub fn parse_command(name: &str) -> (command: Option<Command>)
        ensures
            command == command_named(name@),
    {
        if same(name, "move_left") || same(name, "move_cursor_left") {
            Some(Command::MoveCursorLeft)
        } else if same(name, "move_right") || same(name, "move_cursor_right") {
            Some(Command::MoveCursorRight)
        } else if same(name, "move_up") || same(name, "move_cursor_up") {
            Some(Command::MoveCursorUp)
        } else if same(name, "move_down") || same(name, "move_cursor_down") {
            Some(Command::MoveCursorDown)
        } else if same(name, "enter_insert_mode") {
            Some(Command::EnterInsertMode)
        } else if same(name, "enter_normal_mode") {
            Some(Command::EnterNormalMode)
        } else if same(name, "enter_command_mode") {
            Some(Command::EnterCommandMode)
        } else if same(name, "delete_char") {
            Some(Command::DeleteChar)
        } else if same(name, "delete_line") {
            Some(Command::DeleteLine)
        } else if same(name, "delete_word") {
            Some(Command::DeleteWord)
        } else if same(name, "insert_newline") {
            Some(Command::InsertNewline)
        } else if same(name, "exit") {
            Some(Command::Exit)
        } else if same(name, "toggle_command_info") {
            Some(Command::ToggleCommandInfo)
        } else if same(name, "insert_char") {
            Some(Command::InsertChar)
        } else if same(name, "help") {
            Some(Command::Help)
        } else {
            None
        }
    }

    /// Creates default normal mode configuration.
    pub fn default_normal_mode() -> (mode: ProcessedMode)
        ensures
            is_builtin(mode, "NORMAL"@, normal_table(), None, normal_keys()),
    {
        let mut bindings: StrMap<(KeyBinding, ProcessedBinding)> = StrMap::new();
        assert(table(bindings@) =~= Map::empty());
        proof {
            reveal_strlit("h");
            reveal_strlit("j");
            reveal_strlit("k");
            reveal_strlit("l");
            reveal_strlit("i");
            reveal_strlit(":");
            reveal_strlit("?");
            assert("h"@ =~= seq!['h'] && "j"@ =~= seq!['j'] && "k"@ =~= seq!['k']);
            assert("l"@ =~= seq!['l'] && "i"@ =~= seq!['i'] && ":"@ =~= seq![':']);
            assert("?"@ =~= seq!['?']);
            lemma_plain_key('h');
            lemma_plain_key('j');
            lemma_plain_key('k');
            lemma_plain_key('l');
            lemma_plain_key('i');
            lemma_plain_key(':');
            lemma_plain_key('?');
            lemma_named_keys();
            lemma_all_plain_chords_differ();
            assert("h"@[0] == 'h' && "j"@[0] == 'j' && "k"@[0] == 'k' && "l"@[0] == 'l');
            assert("i"@[0] == 'i' && ":"@[0] == ':' && "?"@[0] == '?');
        }
        bind_plain(&mut bindings, "h", ProcessedBinding::Command(Command::MoveCursorLeft));
        bind_plain(&mut bindings, "j", ProcessedBinding::Command(Command::MoveCursorDown));
        bind_plain(&mut bindings, "k", ProcessedBinding::Command(Command::MoveCursorUp));
        bind_plain(&mut bindings, "l", ProcessedBinding::Command(Command::MoveCursorRight));
        bind_plain(&mut bindings, "i", ProcessedBinding::Mode("insert".to_owned()));
        bind_plain(&mut bindings, ":", ProcessedBinding::Mode("command".to_owned()));
        bind_plain(&mut bindings, "?", ProcessedBinding::Command(Command::ToggleCommandInfo));
        bind_plain(&mut bindings, "escape", ProcessedBinding::Command(Command::Exit));
        assert(listing(bindings) =~= normal_keys());
        ProcessedMode {
            display_name: Some("NORMAL".to_owned()),
            bindings,
            fallback: None,
            return_to: None,
        }
    }

    /// Creates default insert mode configuration.
    pub fn default_insert_mode() -> (mode: ProcessedMode)
        ensures
            is_builtin(
                mode,
                "INSERT"@,
                insert_table(),
                Some(Deed::Command(Command::InsertChar)),
                insert_keys(),
            ),
    {
        let mut bindings: StrMap<(KeyBinding, ProcessedBinding)> = StrMap::new();
        assert(table(bindings@) =~= Map::empty());
        proof {
            lemma_named_keys();
            lemma_all_plain_chords_differ();
        }
        bind_plain(&mut bindings, "escape", ProcessedBinding::Mode("normal".to_owned()));
        bind_plain(&mut bindings, "enter", ProcessedBinding::Command(Command::InsertNewline));
        bind_plain(&mut bindings, "backspace", ProcessedBinding::Command(Command::DeleteChar));
        assert(listing(bindings) =~= insert_keys());
        ProcessedMode {
            display_name: Some("INSERT".to_owned()),
            bindings,
            fallback: Some(ProcessedBinding::Command(Command::InsertChar)),
            return_to: None,
        }
    }

    /// Creates default command mode configuration.
    pub fn default_command_mode() -> (mode: ProcessedMode)
        ensures
            is_builtin(mode, "COMMAND"@, command_table(), None, Seq::empty()),
    {
        let mut bindings: StrMap<(KeyBinding, ProcessedBinding)> = StrMap::new();
        assert(table(bindings@) =~= Map::empty());
        bind_plain(&mut bindings, "escape", ProcessedBinding::Mode("normal".to_owned()));
        ProcessedMode {
            display_name: Some("COMMAND".to_owned()),
            bindings,
            fallback: None,
            return_to: None,
        }
    }

    /// Gets the display name for a mode: the one it was given, else its name
    /// in capitals.
    pub fn get_mode_display_name(&self, mode: &EditMode) -> (name: String)
        ensures
            name@ == (if self.modes@.contains_key(mode_name(*mode))
                && self.modes@[mode_name(*mode)].display_name is Some {
                self.modes@[mode_name(*mode)].display_name->0@
            } else {
                uppercase(mode_name(*mode))
            }),
    {
        match self.modes.get(mode.name()) {
            Some(processed) => match &processed.display_name {
                Some(display) => {
                    return display.clone();
                },
                None => {},
            },
            None => {},
        }
        mode.name().to_uppercase()
    }

    /// Gets all bindings for a mode as (key_display, command) pairs: those
    /// that run a single command, in the order they were bound.
    pub fn get_bindings_for_mode(&self, mode: &EditMode) -> (shown: Vec<(String, Command)>)
        ensures
            shown_pairs(shown@) == (if self.modes@.contains_key(mode_name(*mode)) {
                listing(self.modes@[mode_name(*mode)].bindings)
            } else {
                Seq::empty()
            }),
    {
        let mut shown: Vec<(String, Command)> = Vec::new();
        assert(shown_pairs(shown@) =~= Seq::empty());
        match self.modes.get(mode.name()) {
            Some(processed) => {
                let count: usize = processed.bindings.len();
                let mut i: usize = 0;
                while i < count
                    invariant
                        count == processed.bindings.keys().len(),
                        count == processed.bindings.values().len(),
                        i <= count,
                        shown_pairs(shown@) == listed(processed.bindings.values(), i as nat),
                    decreases count - i,
                {
                    let bound = processed.bindings.value_at(i);
                    let ghost before = shown@;
                    match &bound.1 {
                        ProcessedBinding::Command(command) => {
                            let text = format_key_binding(&bound.0.key, &bound.0.modifiers);
                            shown.push((text, *command));
                            assert(shown_pairs(shown@) =~= shown_pairs(before).push(
                                (text@, *command),
                            ));
                        },
                        _ => {},
                    }
                    i = i + 1;
                }
            },
            None => {},
        }
        shown
    }
}

pub open spec fn shown_pairs(shown: Seq<(String, Command)>) -> Seq<(Seq<char>, Command)> {
    Seq::new(shown.len(), |i: int| (shown[i].0@, shown[i].1))
}

/// The first `n` bindings that run a single command, each with its key as it
/// is shown.
pub open spec fn listed(bindings: Seq<(KeyBinding, ProcessedBinding)>, n: nat) -> Seq<
    (Seq<char>, Command),
>
    decreases n,
{
    if n == 0 {
        Seq::empty()
    } else {
        let before = listed(bindings, (n - 1) as nat);
        let (key, binding) = bindings[n - 1];
        match binding {
            ProcessedBinding::Command(command) => before.push(
                (shown_chord(key.key@, key.modifiers), command),
            ),
            _ => before,
        }
    }
}

/// The bindings of a table that run a single command, in the order they were
/// bound.
pub open spec fn listing(bindings: StrMap<(KeyBinding, ProcessedBinding)>) -> Seq<
    (Seq<char>, Command),
> {
    listed(bindings.values(), bindings.values().len())
}

proof fn lemma_deeds_fail(bindings: Seq<ConfigKeyBinding>, n: int)
    requires
        0 <= n <= bindings.len(),
        deeds_of(bindings.take(n)) is None,
    ensures
        deeds_of(bindings) is None,
    decreases bindings.len() - n,
{
    if n < bindings.len() {
        assert(bindings.take(n + 1).drop_last() =~= bindings.take(n));
        lemma_deeds_fail(bindings, n + 1);
    } else {
        assert(bindings.take(n) =~= bindings);
    }
}

// ---------------------------------------------------------------------------
// Inheritance
// ---------------------------------------------------------------------------

fn chain_ends(config: &KeymapConfig, mode: &ModeConfig, depth: usize) -> (r: bool)
    ensures
        r == ends_within(config.modes@, *mode, depth as nat),
    decreases depth,
{
    if depth == 0 {
        return false;
    }
    match &mode.inherit {
        Some(name) => match config.modes.get(name.as_str()) {
            Some(p) => chain_ends(config, p, depth - 1),
            None => true,
        },
        None => true,
    }
}

/// Inheritance from `mode` ends after exactly `count` modes.
spec fn runs(modes: Map<Seq<char>, ModeConfig>, mode: ModeConfig, count: nat) -> bool
    decreases count,
{
    count > 0 && (match parent(modes, mode) {
        Some(p) => runs(modes, p, (count - 1) as nat),
        None => count == 1,
    })
}

proof fn lemma_runs(modes: Map<Seq<char>, ModeConfig>, mode: ModeConfig, depth: nat) -> (count: nat)
    requires
        ends_within(modes, mode, depth),
    ensures
        runs(modes, mode, count),
    decreases depth,
{
    match parent(modes, mode) {
        Some(p) => lemma_runs(modes, p, (depth - 1) as nat) + 1,
        None => 1,
    }
}

proof fn lemma_runs_once(modes: Map<Seq<char>, ModeConfig>, mode: ModeConfig, a: nat, b: nat)
    requires
        runs(modes, mode, a),
        runs(modes, mode, b),
    ensures
        a == b,
    decreases a,
{
    match parent(modes, mode) {
        Some(p) => lemma_runs_once(modes, p, (a - 1) as nat, (b - 1) as nat),
        None => {},
    }
}

proof fn lemma_runs_within(
    modes: Map<Seq<char>, ModeConfig>,
    mode: ModeConfig,
    count: nat,
    depth: nat,
)
    requires
        runs(modes, mode, count),
        count <= depth,
    ensures
        ends_within(modes, mode, depth),
    decreases count,
{
    match parent(modes, mode) {
        Some(p) => lemma_runs_within(modes, p, (count - 1) as nat, (depth - 1) as nat),
        None => {},
    }
}

/// The names of the modes that inheritance from the one called `name` runs
/// through.
proof fn lemma_chain(modes: Map<Seq<char>, ModeConfig>, name: Seq<char>, count: nat) -> (names: Seq<
    Seq<char>,
>)
    requires
        modes.contains_key(name),
        runs(modes, modes[name], count),
    ensures
        names.len() == count,
        forall|i: int|
            0 <= i < count ==> modes.contains_key(#[trigger] names[i]) && runs(
                modes,
                modes[names[i]],
                (count - i) as nat,
            ),
    decreases count,
{
    match modes[name].inherit {
        Some(above) => if modes.contains_key(above@) {
            let rest = lemma_chain(modes, above@, (count - 1) as nat);
            let names = seq![name] + rest;
            assert forall|i: int| 0 <= i < count implies modes.contains_key(#[trigger] names[i])
                && runs(modes, modes[names[i]], (count - i) as nat) by {
                if i > 0 {
                    assert(names[i] == rest[i - 1]);
                }
            }
            names
        } else {
            seq![name]
        },
        None => seq![name],
    }
}

/// Inheritance that comes to an end passes no mode twice, so it ends within as
/// many modes as there are.
proof fn lemma_ends_in_time(config: KeymapConfig, name: Seq<char>)
    requires
        config.modes@.contains_key(name),
        ends(config.modes@, config.modes@[name]),
    ensures
        ends_within(config.modes@, config.modes@[name], config.modes.keys().len()),
{
    let modes = config.modes@;
    let keys = config.modes.keys();
    let depth = choose|depth: nat| ends_within(modes, modes[name], depth);
    let count = lemma_runs(modes, modes[name], depth);
    let names = lemma_chain(modes, name, count);
    assert forall|i: int, j: int| 0 <= i < names.len() && 0 <= j < names.len() && i
        != j implies names[i] != names[j] by {
        if names[i] == names[j] {
            lemma_runs_once(modes, modes[names[i]], (count - i) as nat, (count - j) as nat);
        }
    }
    names.unique_seq_to_set();
    keys.lemma_cardinality_of_set();
    seq_to_set_is_finite(keys);
    assert(names.to_set().subset_of(keys.to_set())) by {
        assert forall|n: Seq<char>| names.to_set().contains(n) implies keys.to_set().contains(n) by {
            let i = names.index_of(n);
            assert(modes.contains_key(names[i]));
        }
    }
    lemma_len_subset(names.to_set(), keys.to_set());
    lemma_runs_within(modes, modes[name], count, keys.len());
}

/// Whether following inheritance comes to an end from every mode, so that a
/// keymap can be made of the configuration.
pub fn inheritance_ends(config: &KeymapConfig) -> (r: bool)
    ensures
        r == acyclic(*config),
{
    let count: usize = config.modes.len();
    let mut i: usize = 0;
    while i < count
        invariant
            count == config.modes.keys().len(),
            count == config.modes.values().len(),
            i <= count,
            forall|k: int|
                0 <= k < i ==> ends(
                    config.modes@,
                    config.modes@[#[trigger] config.modes.keys()[k]],
                ),
        decreases count - i,
    {
        let name = config.modes.key_at(i);
        let mode = config.modes.value_at(i);
        if !chain_ends(config, mode, count) {
            proof {
                if ends(config.modes@, config.modes@[name@]) {
                    lemma_ends_in_time(*config, name@);
                }
            }
            return false;
        }
        i = i + 1;
    }
    assert forall|name: Seq<char>| config.modes@.contains_key(name) implies ends(
        config.modes@,
        #[trigger] config.modes@[name],
    ) by {
        let k = config.modes.keys().index_of(name);
        assert(config.modes.keys()[k] == name);
    }
    true
}

proof fn lemma_with_keys(
    base: Map<Seq<char>, Deed>,
    keys: Seq<Seq<char>>,
    bindings: Seq<ConfigKeyBinding>,
    n: nat,
    at: Seq<char>,
)
    requires
        forall|i: int|
            0 <= i < n ==> deed_of(#[trigger] bindings[i]) is None || configured_chord(keys[i])
                != at,
    ensures
        with_keys(base, keys, bindings, n).contains_key(at) == base.contains_key(at),
        base.contains_key(at) ==> with_keys(base, keys, bindings, n)[at] == base[at],
    decreases n,
{
    if n > 0 {
        lemma_with_keys(base, keys, bindings, (n - 1) as nat, at);
        let own = bindings[n - 1];
    }
}

/// The mode binds the chord `at` itself with its key number `i`, whose binding
/// resolves.
pub open spec fn binds(mode: ModeConfig, i: int, at: Seq<char>) -> bool {
    &&& 0 <= i < mode.keys.keys().len()
    &&& deed_of(mode.keys.values()[i]) is Some
    &&& configured_chord(mode.keys.keys()[i]) == at
}

/// A chord that a mode does not bind itself does there what it does in the
/// mode that it inherits from.
pub proof fn unbound_chord_is_inherited(
    modes: Map<Seq<char>, ModeConfig>,
    mode: ModeConfig,
    at: Seq<char>,
)
    requires
        ends(modes, mode),
        forall|i: int| !#[trigger] binds(mode, i, at),
    ensures
        ({
            let own = whole_table(modes, mode);
            let inherited = inherited_table(modes, mode);
            &&& own.contains_key(at) == inherited.contains_key(at)
            &&& inherited.contains_key(at) ==> own[at] == inherited[at]
        }),
{
    lemma_whole_table(modes, mode);
    assert forall|i: int| 0 <= i < mode.keys.keys().len() implies deed_of(
        #[trigger] mode.keys.values()[i],
    ) is None || configured_chord(mode.keys.keys()[i]) != at by {
        assert(!binds(mode, i, at));
    }
    lemma_with_keys(
        inherited_table(modes, mode),
        mode.keys.keys(),
        mode.keys.values(),
        mode.keys.keys().len(),
        at,
    );
}

proof fn lemma_own_key(
    base: Map<Seq<char>, Deed>,
    keys: Seq<Seq<char>>,
    bindings: Seq<ConfigKeyBinding>,
    n: nat,
    i: int,
)
    requires
        0 <= i < n,
        deed_of(bindings[i]) is Some,
        forall|j: int|
            i < j < n ==> deed_of(#[trigger] bindings[j]) is None || configured_chord(keys[j])
                != configured_chord(keys[i]),
    ensures
        with_keys(base, keys, bindings, n).contains_key(configured_chord(keys[i])),
        with_keys(base, keys, bindings, n)[configured_chord(keys[i])] == deed_of(bindings[i])->0,
    decreases n,
{
    if i < n - 1 {
        lemma_own_key(base, keys, bindings, (n - 1) as nat, i);
        let own = bindings[n - 1];
    }
}

/// A binding of a mode's own overrides what it inherits. Where several of its
/// keys are the same chord, the last that resolves counts.
pub proof fn own_binding_overrides(
    modes: Map<Seq<char>, ModeConfig>,
    mode: ModeConfig,
    i: int,
    at: Seq<char>,
)
    requires
        ends(modes, mode),
        binds(mode, i, at),
        forall|j: int| i < j ==> !#[trigger] binds(mode, j, at),
    ensures
        whole_table(modes, mode).contains_key(at),
        whole_table(modes, mode)[at] == deed_of(mode.keys.values()[i])->0,
{
    lemma_whole_table(modes, mode);
    assert forall|j: int| i < j < mode.keys.keys().len() implies deed_of(
        #[trigger] mode.keys.values()[j],
    ) is None || configured_chord(mode.keys.keys()[j]) != at by {
        assert(!binds(mode, j, at));
    }
    lemma_own_key(
        inherited_table(modes, mode),
        mode.keys.keys(),
        mode.keys.values(),
        mode.keys.keys().len(),
        i,
    );
}

/// What a mode comes to. Its bindings are those of the mode it inherits from,
/// `above`, where there is one, overridden by each key of its own that
/// resolves. A key with an unknown command leaves the inherited binding in
/// place. The display name, the fallback and the mode to return to are the
/// mode's own, whatever it inherits.
pub proof fn a_mode_is_its_parent_overridden(
    mode: ProcessedMode,
    above: Option<ProcessedMode>,
    modes: Map<Seq<char>, ModeConfig>,
    config: ModeConfig,
)
    requires
        ends(modes, config),
        is_processed(mode, modes, config),
        match parent(modes, config) {
            Some(p) => above matches Some(m) && is_processed(m, modes, p),
            None => above is None,
        },
    ensures
        ({
            let own = table(mode.bindings@);
            let inherited = match above {
                Some(m) => table(m.bindings@),
                None => Map::empty(),
            };
            &&& forall|i: int, at: Seq<char>|
                binds(config, i, at) && (forall|j: int| i < j ==> !#[trigger] binds(config, j, at))
                    ==> own.contains_key(at) && own[at] == deed_of(config.keys.values()[i])->0
            &&& forall|at: Seq<char>|
                (forall|i: int| !#[trigger] binds(config, i, at)) ==> #[trigger] own.contains_key(
                    at,
                ) == inherited.contains_key(at) && (inherited.contains_key(at) ==> own[at]
                    == inherited[at])
            &&& forall|i: int|
                0 <= i < config.keys.keys().len() && deed_of(#[trigger] config.keys.values()[i])
                    is None && (forall|j: int| !#[trigger]
                    binds(config, j, configured_chord(config.keys.keys()[i]))) ==> ({
                    let at = configured_chord(config.keys.keys()[i]);
                    &&& own.contains_key(at) == inherited.contains_key(at)
                    &&& inherited.contains_key(at) ==> own[at] == inherited[at]
                })
        }),
        opt_text(mode.display_name) == opt_text(config.display_name),
        opt_processed(mode.fallback) == opt_deed(config.fallback),
        opt_text(mode.return_to) == opt_text(config.return_to),
{
    let own = table(mode.bindings@);
    let inherited = match above {
        Some(m) => table(m.bindings@),
        None => Map::empty(),
    };
    assert(inherited == inherited_table(modes, config));
    assert forall|i: int, at: Seq<char>|
        binds(config, i, at) && (forall|j: int| i < j ==> !#[trigger] binds(config, j, at)) implies
        own.contains_key(at) && own[at] == deed_of(config.keys.values()[i])->0 by {
        own_binding_overrides(modes, config, i, at);
    }
    assert forall|at: Seq<char>| (forall|i: int| !#[trigger] binds(config, i, at)) implies
        #[trigger] own.contains_key(at) == inherited.contains_key(at) && (inherited.contains_key(at)
        ==> own[at] == inherited[at]) by {
        unbound_chord_is_inherited(modes, config, at);
    }
}

/// What pressing a key in a mode of a keymap comes to: nothing exactly where
/// there is no such mode, or neither the chord is bound in it nor there is a
/// fallback; the binding, where there is one, whatever the fallback. The
/// modifiers held have to be those bound. A key and its lower case come to the
/// same, where the lower case is its own lower case, as it is of ASCII text.
pub proof fn a_binding_goes_before_the_fallback(
    keymap: CustomKeymap,
    key: Seq<char>,
    modifiers: Modifiers,
    mode: EditMode,
)
    ensures
        ({
            let at = chord(lowercase(key), modifiers);
            let name = mode_name(mode);
            let m = keymap.modes@[name];
            let t = table(m.bindings@);
            &&& looked_up(keymap, key, modifiers, mode) is None <==> !keymap.modes@.contains_key(
                name,
            ) || !t.contains_key(at) && m.fallback is None
            &&& keymap.modes@.contains_key(name) && t.contains_key(at) ==> looked_up(
                keymap,
                key,
                modifiers,
                mode,
            ) == Some(outcome(t[at], opt_text(m.return_to)))
            &&& forall|other: Modifiers|
                other != modifiers ==> #[trigger] chord(lowercase(key), other) != at
        }),
        lowercase(lowercase(key)) == lowercase(key) ==> looked_up(
            keymap,
            lowercase(key),
            modifiers,
            mode,
        ) == looked_up(keymap, key, modifiers, mode),
        is_ascii_chars(key) ==> lowercase(lowercase(key)) == lowercase(key),
{
    let at = chord(lowercase(key), modifiers);
    assert forall|other: Modifiers| other != modifiers implies #[trigger] chord(
        lowercase(key),
        other,
    ) != at by {
        if chord(lowercase(key), other) == at {
            chords_are_distinct(lowercase(key), other, lowercase(key), modifiers);
        }
    }
    if is_ascii_chars(key) {
        assert(lowercase(lowercase(key)) =~= lowercase(key));
    }
}

/// Commands go by their names, the movements by a short and a long one. A text
/// that is none of the names names no command.
pub proof fn commands_go_by_their_names(name: Seq<char>)
    ensures
        command_named("move_left"@) == Some(Command::MoveCursorLeft),
        command_named("move_cursor_left"@) == Some(Command::MoveCursorLeft),
        command_named("move_right"@) == Some(Command::MoveCursorRight),
        command_named("move_cursor_right"@) == Some(Command::MoveCursorRight),
        command_named("move_up"@) == Some(Command::MoveCursorUp),
        command_named("move_cursor_up"@) == Some(Command::MoveCursorUp),
        command_named("move_down"@) == Some(Command::MoveCursorDown),
        command_named("move_cursor_down"@) == Some(Command::MoveCursorDown),
        command_named("enter_insert_mode"@) == Some(Command::EnterInsertMode),
        command_named("enter_normal_mode"@) == Some(Command::EnterNormalMode),
        command_named("enter_command_mode"@) == Some(Command::EnterCommandMode),
        command_named("delete_char"@) == Some(Command::DeleteChar),
        command_named("delete_line"@) == Some(Command::DeleteLine),
        command_named("delete_word"@) == Some(Command::DeleteWord),
        command_named("insert_newline"@) == Some(Command::InsertNewline),
        command_named("exit"@) == Some(Command::Exit),
        command_named("toggle_command_info"@) == Some(Command::ToggleCommandInfo),
        command_named("insert_char"@) == Some(Command::InsertChar),
        command_named("help"@) == Some(Command::Help),
        command_named(name) is Some ==> (name == "move_left"@ || name == "move_cursor_left"@ || name == "move_right"@ || name == "move_cursor_right"@ || name == "move_up"@ || name == "move_cursor_up"@ || name == "move_down"@ || name == "move_cursor_down"@ || name == "enter_insert_mode"@ || name == "enter_normal_mode"@ || name == "enter_command_mode"@ || name == "delete_char"@ || name == "delete_line"@ || name == "delete_word"@ || name == "insert_newline"@ || name == "exit"@ || name == "toggle_command_info"@ || name == "insert_char"@ || name == "help"@),
{
    reveal_strlit("move_left");
    reveal_strlit("move_cursor_left");
    reveal_strlit("move_right");
    reveal_strlit("move_cursor_right");
    reveal_strlit("move_up");
    reveal_strlit("move_cursor_up");
    reveal_strlit("move_down");
    reveal_strlit("move_cursor_down");
    reveal_strlit("enter_insert_mode");
    reveal_strlit("enter_normal_mode");
    reveal_strlit("enter_command_mode");
    reveal_strlit("delete_char");
    reveal_strlit("delete_line");
    reveal_strlit("delete_word");
    reveal_strlit("insert_newline");
    reveal_strlit("exit");
    reveal_strlit("toggle_command_info");
    reveal_strlit("insert_char");
    reveal_strlit("help");
    assert("move_left"@.len() == 9);
    assert("move_cursor_left"@.len() == 16);
    assert("move_right"@.len() == 10);
    assert("move_cursor_right"@.len() == 17);
    assert("move_up"@.len() == 7);
    assert("move_cursor_up"@.len() == 14);
    assert("move_down"@.len() == 9);
    assert("move_cursor_down"@.len() == 16);
    assert("enter_insert_mode"@.len() == 17);
    assert("enter_normal_mode"@.len() == 17);
    assert("enter_command_mode"@.len() == 18);
    assert("delete_char"@.len() == 11);
    assert("delete_line"@.len() == 11);
    assert("delete_word"@.len() == 11);
    assert("insert_newline"@.len() == 14);
    assert("exit"@.len() == 4);
    assert("toggle_command_info"@.len() == 19);
    assert("insert_char"@.len() == 11);
    assert("help"@.len() == 4);
    assert("move_left"@[5] != "move_down"@[5]);
    assert("move_cursor_left"@[12] != "move_cursor_down"@[12]);
    assert("move_cursor_right"@[0] != "enter_insert_mode"@[0]);
    assert("move_cursor_right"@[0] != "enter_normal_mode"@[0]);
    assert("move_cursor_up"@[0] != "insert_newline"@[0]);
    assert("enter_insert_mode"@[6] != "enter_normal_mode"@[6]);
    assert("delete_char"@[7] != "delete_line"@[7]);
    assert("delete_char"@[7] != "delete_word"@[7]);
    assert("delete_char"@[0] != "insert_char"@[0]);
    assert("delete_line"@[7] != "delete_word"@[7]);
    assert("delete_line"@[0] != "insert_char"@[0]);
    assert("delete_word"@[0] != "insert_char"@[0]);
    assert("exit"@[0] != "help"@[0]);
}

proof fn lemma_dash(s: Seq<char>, at: int, i: int)
    requires
        0 <= i <= at < s.len(),
        s[at] == '-',
        forall|k: int| 0 <= k < at ==> #[trigger] s[k] != '-',
    ensures
        dash(s, i) == Some(at),
    decreases at - i,
{
    if i < at {
        assert(s[i] != '-');
        lemma_dash(s, at, i + 1);
    }
}

proof fn lemma_no_dash(s: Seq<char>, i: int)
    requires
        0 <= i <= s.len(),
        !s.contains('-'),
    ensures
        dash(s, i) is None,
    decreases s.len() - i,
{
    if i < s.len() {
        assert(s.contains(s[i]));
        lemma_no_dash(s, i + 1);
    }
}

/// `with` is `m` with the modifier called `name` held too: `C` and `Ctrl`
/// control, `M`, `Alt` and `Meta` alt, `S` and `Shift` shift.
pub open spec fn holds_too(with: Modifiers, m: Modifiers, name: Seq<char>) -> bool {
    ||| (name == "C"@ || name == "Ctrl"@) && with == (Modifiers { control: true, ..m })
    ||| (name == "M"@ || name == "Alt"@ || name == "Meta"@) && with == (Modifiers { alt: true, ..m })
    ||| (name == "S"@ || name == "Shift"@) && with == (Modifiers { shift: true, ..m })
}

/// How a key of a configuration is read: a modifier before a dash is held with
/// what follows it. A key without a dash is itself, and so is one that starts
/// with a dash.
pub proof fn modifiers_stand_before_the_key(
    name: Seq<char>,
    rest: Seq<char>,
    m: Modifiers,
    with: Modifiers,
)
    ensures
        holds_too(with, m, name) ==> parsed_key(name + seq!['-'] + rest, m) == parsed_key(
            rest,
            with,
        ),
        !rest.contains('-') ==> parsed_key(rest, m) == (rest, m),
        rest.len() > 0 && rest[0] == '-' ==> parsed_key(rest, m) == (rest, m),
{
    reveal_strlit("C");
    reveal_strlit("Ctrl");
    reveal_strlit("M");
    reveal_strlit("Alt");
    reveal_strlit("Meta");
    reveal_strlit("S");
    reveal_strlit("Shift");
    if holds_too(with, m, name) {
        let s = name + seq!['-'] + rest;
        assert forall|k: int| 0 <= k < name.len() implies #[trigger] s[k] != '-' by {
            assert(s[k] == name[k]);
        }
        lemma_dash(s, name.len() as int, 0);
        assert(s.take(name.len() as int) =~= name);
        assert(s.skip(name.len() as int + 1) =~= rest);
        assert("C"@[0] == 'C' && "M"@[0] == 'M' && "S"@[0] == 'S');
        assert("C"@.len() == 1 && "M"@.len() == 1 && "S"@.len() == 1);
        assert("Ctrl"@.len() == 4 && "Meta"@.len() == 4 && "Alt"@.len() == 3 && "Shift"@.len() == 5);
        assert("Ctrl"@[0] == 'C' && "Meta"@[0] == 'M');
        assert(with_modifier(m, name) == Some(with));
    }
    if !rest.contains('-') {
        lemma_no_dash(rest, 0);
    }
    if rest.len() > 0 && rest[0] == '-' {
        lemma_dash(rest, 0, 0);
    }
}

/// What stands before the first dash and is no modifier is part of the key.
pub proof fn other_dashes_belong_to_the_key(s: Seq<char>, at: int, m: Modifiers)
    requires
        0 <= at < s.len(),
        s[at] == '-',
        forall|k: int| 0 <= k < at ==> #[trigger] s[k] != '-',
        forall|with: Modifiers| !#[trigger] holds_too(with, m, s.take(at)),
    ensures
        parsed_key(s, m) == (s, m),
{
    lemma_dash(s, at, 0);
    if with_modifier(m, s.take(at)) is Some {
        let with = with_modifier(m, s.take(at))->0;
        assert(holds_too(with, m, s.take(at)));
    }
}

/// A sequence runs its parts in order: the commands of the one part and then
/// those of the other, and the last mode that a part changes to is the one that
/// stays.
pub proof fn a_sequence_runs_in_order(a: Seq<Deed>, b: Seq<Deed>, return_to: Option<Seq<char>>)
    ensures
        outcomes(Seq::empty(), return_to).0.len() == 0,
        outcomes(Seq::empty(), return_to).1 is None,
        outcomes(a + b, return_to).0 == outcomes(a, return_to).0 + outcomes(b, return_to).0,
        outcomes(a + b, return_to).1 == (if outcomes(b, return_to).1 is Some {
            outcomes(b, return_to).1
        } else {
            outcomes(a, return_to).1
        }),
    decreases b.len(),
{
    if b.len() == 0 {
        assert(a + b =~= a);
        assert(outcomes(a + b, return_to).0 =~= outcomes(a, return_to).0 + outcomes(b, return_to).0);
    } else {
        let c = b.drop_last();
        a_sequence_runs_in_order(a, c, return_to);
        assert((a + b).drop_last() =~= a + c);
        assert((a + b).last() == b.last());
        assert(outcomes(a + b, return_to).0 =~= outcomes(a, return_to).0 + outcomes(
            b,
            return_to,
        ).0);
    }
}

/// What single bindings come to: a command runs, and where the mode has one to
/// return to, that mode comes after it; a mode is changed to; a command with a
/// mode runs and changes to it. So they do as parts of a sequence.
pub proof fn a_binding_does_what_it_says(
    c: Command,
    mode: Seq<char>,
    to: Option<Seq<char>>,
    return_to: Option<Seq<char>>,
)
    ensures
        return_to is None ==> outcome(Deed::Command(c), return_to) == Outcome::Command(c),
        return_to is Some ==> outcome(Deed::Command(c), return_to) == Outcome::CommandAndMode(
            c,
            return_to,
        ),
        outcome(Deed::Mode(mode), return_to) == Outcome::ModeChange(mode),
        outcome(Deed::CommandAndMode(c, to), return_to) == Outcome::CommandAndMode(c, to),
        outcomes(seq![Deed::Command(c)], return_to) == (seq![c], return_to),
        outcomes(seq![Deed::Mode(mode)], return_to) == (Seq::<Command>::empty(), Some(mode)),
        outcomes(seq![Deed::CommandAndMode(c, to)], return_to) == (seq![c], to),
{
    reveal_with_fuel(outcomes, 2);
    assert(seq![Deed::Command(c)].drop_last() =~= Seq::empty());
    assert(seq![Deed::Mode(mode)].drop_last() =~= Seq::empty());
    assert(seq![Deed::CommandAndMode(c, to)].drop_last() =~= Seq::empty());
    assert(outcomes(seq![Deed::Command(c)], return_to).0 =~= seq![c]);
    assert(outcomes(seq![Deed::Mode(mode)], return_to).0 =~= Seq::<Command>::empty());
    assert(outcomes(seq![Deed::CommandAndMode(c, to)], return_to).0 =~= seq![c]);
}

/// What a configured binding stands for: its command by name, its mode, or the
/// bindings of a sequence one after the other. It stands for nothing exactly
/// where a command in it is unknown.
pub proof fn a_configured_binding_is_taken_as_written(binding: ConfigKeyBinding)
    ensures
        binding matches ConfigKeyBinding::Command(name) ==> (match command_named(name@) {
            Some(c) => deed_of(binding) == Some(Deed::Command(c)),
            None => deed_of(binding) is None,
        }),
        binding matches ConfigKeyBinding::Mode { mode } ==> deed_of(binding) == Some(
            Deed::Mode(mode@),
        ),
        binding matches ConfigKeyBinding::CommandAndMode { command, mode } ==> (match command_named(
            command@,
        ) {
            Some(c) => deed_of(binding) == Some(
                Deed::CommandAndMode(
                    c,
                    match mode {
                        Some(m) => Some(m@),
                        None => None,
                    },
                ),
            ),
            None => deed_of(binding) is None,
        }),
        binding matches ConfigKeyBinding::Sequence(parts) ==> (match deed_of(binding) {
            Some(d) => d is Sequence && d->Sequence_0.len() == parts@.len() && forall|i: int|
                0 <= i < parts@.len() ==> deed_of(#[trigger] parts@[i]) == Some(d->Sequence_0[i]),
            None => exists|i: int| 0 <= i < parts@.len() && deed_of(#[trigger] parts@[i]) is None,
        }),
{
    match binding {
        ConfigKeyBinding::Sequence(parts) => {
            lemma_deeds_of(parts@);
        },
        _ => {},
    }
}

proof fn lemma_deeds_of(parts: Seq<ConfigKeyBinding>)
    ensures
        match deeds_of(parts) {
            Some(ds) => ds.len() == parts.len() && forall|i: int|
                0 <= i < parts.len() ==> deed_of(#[trigger] parts[i]) == Some(ds[i]),
            None => exists|i: int| 0 <= i < parts.len() && deed_of(#[trigger] parts[i]) is None,
        },
    decreases parts.len(),
{
    if parts.len() > 0 {
        let before = parts.drop_last();
        lemma_deeds_of(before);
        match deeds_of(parts) {
            Some(ds) => {
                assert forall|i: int| 0 <= i < parts.len() implies deed_of(#[trigger] parts[i])
                    == Some(ds[i]) by {
                    if i < before.len() {
                        assert(parts[i] == before[i]);
                    }
                }
            },
            None => {
                if deeds_of(before) is None {
                    let i = choose|i: int|
                        0 <= i < before.len() && deed_of(#[trigger] before[i]) is None;
                    assert(deed_of(parts[i]) is None);
                } else {
                    assert(deed_of(parts[parts.len() - 1]) is None);
                }
            },
        }
    }
}

/// The keys that come with the editor. In normal mode `h`, `j`, `k` and `l`
/// move the cursor left, down, up and right, `i` and `:` change to insert and
/// command mode, `?` shows the commands, and escape leaves the editor. In insert
/// mode escape changes to normal mode, enter and backspace edit, and every
/// other key inserts its character. In command mode escape changes to normal
/// mode.
pub proof fn the_keys_that_come_with_the_editor(
    normal: ProcessedMode,
    insert: ProcessedMode,
    command: ProcessedMode,
    key: Seq<char>,
    modifiers: Modifiers,
)
    requires
        is_builtin(normal, "NORMAL"@, normal_table(), None, normal_keys()),
        is_builtin(
            insert,
            "INSERT"@,
            insert_table(),
            Some(Deed::Command(Command::InsertChar)),
            insert_keys(),
        ),
        is_builtin(command, "COMMAND"@, command_table(), None, Seq::empty()),
    ensures
        pressed(normal, seq!['h'], no_modifiers()) == Some(Outcome::Command(Command::MoveCursorLeft)),
        pressed(normal, seq!['j'], no_modifiers()) == Some(Outcome::Command(Command::MoveCursorDown)),
        pressed(normal, seq!['k'], no_modifiers()) == Some(Outcome::Command(Command::MoveCursorUp)),
        pressed(normal, seq!['l'], no_modifiers()) == Some(
            Outcome::Command(Command::MoveCursorRight),
        ),
        pressed(normal, seq!['i'], no_modifiers()) == Some(Outcome::ModeChange("insert"@)),
        pressed(normal, seq![':'], no_modifiers()) == Some(Outcome::ModeChange("command"@)),
        pressed(normal, seq!['?'], no_modifiers()) == Some(
            Outcome::Command(Command::ToggleCommandInfo),
        ),
        pressed(normal, "escape"@, no_modifiers()) == Some(Outcome::Command(Command::Exit)),
        pressed(insert, "escape"@, no_modifiers()) == Some(Outcome::ModeChange("normal"@)),
        pressed(insert, "enter"@, no_modifiers()) == Some(Outcome::Command(Command::InsertNewline)),
        pressed(insert, "backspace"@, no_modifiers()) == Some(Outcome::Command(Command::DeleteChar)),
        lowercase(key) != "escape"@ && lowercase(key) != "enter"@ && lowercase(key) != "backspace"@
            || modifiers != no_modifiers() ==> pressed(insert, key, modifiers) == Some(
            Outcome::Command(Command::InsertChar),
        ),
        pressed(command, "escape"@, no_modifiers()) == Some(Outcome::ModeChange("normal"@)),
        lowercase(key) != "escape"@ || modifiers != no_modifiers() ==> pressed(
            command,
            key,
            modifiers,
        ) is None,
{
    reveal_strlit("h");
    reveal_strlit("j");
    reveal_strlit("k");
    reveal_strlit("l");
    reveal_strlit("i");
    reveal_strlit(":");
    reveal_strlit("?");
    assert("h"@ =~= seq!['h'] && "j"@ =~= seq!['j'] && "k"@ =~= seq!['k']);
    assert("l"@ =~= seq!['l'] && "i"@ =~= seq!['i'] && ":"@ =~= seq![':']);
    assert("?"@ =~= seq!['?']);
    lemma_plain_key('h');
    lemma_plain_key('j');
    lemma_plain_key('k');
    lemma_plain_key('l');
    lemma_plain_key('i');
    lemma_plain_key(':');
    lemma_plain_key('?');
    lemma_named_keys();
    lemma_all_plain_chords_differ();
    assert("h"@[0] == 'h' && "j"@[0] == 'j' && "k"@[0] == 'k' && "l"@[0] == 'l');
    assert("i"@[0] == 'i' && ":"@[0] == ':' && "?"@[0] == '?');
    let at = chord(lowercase(key), modifiers);
    if at == chord("escape"@, no_modifiers()) {
        chords_are_distinct(lowercase(key), modifiers, "escape"@, no_modifiers());
    }
    if at == chord("enter"@, no_modifiers()) {
        chords_are_distinct(lowercase(key), modifiers, "enter"@, no_modifiers());
    }
    if at == chord("backspace"@, no_modifiers()) {
        chords_are_distinct(lowercase(key), modifiers, "backspace"@, no_modifiers());
    }
}

/// A chord is shown with its modifiers before the key: `C-`, then `M-`, then
/// `S-`, those that are held.
pub proof fn modifiers_are_shown_before_the_key(key: Seq<char>, m: Modifiers, shown: Seq<char>)
    requires
        shown == shown_chord(key, m),
    ensures
        !m.control && !m.alt && !m.shift ==> shown == shown_key(key),
        m.control ==> shown == "C-"@ + shown_chord(key, (Modifiers { control: false, ..m })),
        !m.control && m.alt ==> shown == "M-"@ + shown_chord(key, (Modifiers { alt: false, ..m })),
        !m.control && !m.alt && m.shift ==> shown == "S-"@ + shown_chord(
            key,
            (Modifiers { shift: false, ..m }),
        ),
{
    let none = Seq::<char>::empty();
    let key = shown_key(key);
    assert(none + none + none + key =~= key);
    let alt = if m.alt { "M-"@ } else { none };
    let shift = if m.shift { "S-"@ } else { none };
    assert("C-"@ + alt + shift + key =~= "C-"@ + (none + alt + shift + key));
    assert(none + "M-"@ + shift + key =~= "M-"@ + (none + none + shift + key));
    assert(none + none + "S-"@ + key =~= "S-"@ + (none + none + none + key));
}

proof fn lemma_one_byte(c: char)
    requires
        c <= '\u{7f}',
    ensures
        byte_len(seq![c]) == 1,
{
    is_ascii_chars_encode_utf8(seq![c]);
}

/// Keys with a name are shown by a short one; a key that is one byte long as it
/// is; any other with a capital.
pub proof fn keys_are_shown_by_name(key: Seq<char>)
    ensures
        shown_key("escape"@) == "Esc"@,
        shown_key("esc"@) == "Esc"@,
        shown_key("enter"@) == "Enter"@,
        shown_key("return"@) == "Enter"@,
        shown_key("backspace"@) == "Backsp"@,
        shown_key("tab"@) == "Tab"@,
        shown_key("space"@) == "Space"@,
        shown_key("left"@) == "Left"@,
        shown_key("right"@) == "Right"@,
        shown_key("up"@) == "Up"@,
        shown_key("down"@) == "Down"@,
        key.len() == 1 && key[0] <= '\u{7f}' ==> shown_key(key) == key,
        key.len() > 1 && 'a' <= key[0] <= 'z' && key != "escape"@ && key != "esc"@ && key != "enter"@
            && key != "return"@ && key != "backspace"@ && key != "tab"@ && key != "space"@ && key
            != "left"@ && key != "right"@ && key != "up"@ && key != "down"@ ==> shown_key(key).len()
            == key.len() && shown_key(key)[0] as int == key[0] as int - 32 && shown_key(key).skip(1)
            == key.skip(1),
{
    reveal_strlit("escape");
    reveal_strlit("esc");
    reveal_strlit("enter");
    reveal_strlit("return");
    reveal_strlit("backspace");
    reveal_strlit("tab");
    reveal_strlit("space");
    reveal_strlit("left");
    reveal_strlit("right");
    reveal_strlit("up");
    reveal_strlit("down");
    assert("escape"@.len() == 6 && "esc"@.len() == 3 && "enter"@.len() == 5 && "return"@.len() == 6);
    assert("backspace"@.len() == 9 && "tab"@.len() == 3 && "space"@.len() == 5);
    assert("left"@.len() == 4 && "right"@.len() == 5 && "up"@.len() == 2 && "down"@.len() == 4);
    assert("escape"@[0] == 'e' && "return"@[0] == 'r');
    assert("esc"@[0] == 'e' && "tab"@[0] == 't');
    assert("enter"@[0] == 'e' && "space"@[0] == 's' && "right"@[0] == 'r');
    assert("left"@[0] == 'l' && "down"@[0] == 'd');
    if key.len() == 1 && key[0] <= '\u{7f}' {
        assert(key =~= seq![key[0]]);
        lemma_one_byte(key[0]);
    }
    if key.len() > 1 {
        crate::text::byte_len_grows(key, 0, key.len() as int);
        assert(key.take(key.len() as int) =~= key);
        assert(key.update(0, ascii_upper(key[0])).skip(1) =~= key.skip(1));
    }
}

/// What a processed binding stands for: its command, its mode, both, or its
/// parts one after the other.
pub proof fn a_processed_binding_stands_for_its_parts(
    c: Command,
    mode: String,
    to: Option<String>,
    parts: Vec<ProcessedBinding>,
)
    ensures
        deed(ProcessedBinding::Command(c)) == Deed::Command(c),
        deed(ProcessedBinding::Mode(mode)) == Deed::Mode(mode@),
        deed(ProcessedBinding::CommandAndMode { command: c, mode: to }) == Deed::CommandAndMode(
            c,
            match to {
                Some(m) => Some(m@),
                None => None,
            },
        ),
        deed(ProcessedBinding::Sequence(parts)) is Sequence,
        deed(ProcessedBinding::Sequence(parts))->Sequence_0.len() == parts@.len(),
        forall|i: int|
            0 <= i < parts@.len() ==> deed(ProcessedBinding::Sequence(parts))->Sequence_0[i]
                == deed(#[trigger] parts@[i]),
{
    lemma_deeds(parts@);
}

proof fn lemma_deeds(parts: Seq<ProcessedBinding>)
    ensures
        deeds(parts).len() == parts.len(),
        forall|i: int| 0 <= i < parts.len() ==> deeds(parts)[i] == deed(#[trigger] parts[i]),
    decreases parts.len(),
{
    if parts.len() > 0 {
        let before = parts.drop_last();
        lemma_deeds(before);
        assert forall|i: int| 0 <= i < parts.len() implies deeds(parts)[i] == deed(
            #[trigger] parts[i],
        ) by {
            if i < before.len() {
                assert(parts[i] == before[i]);
            }
        }
    }
}

/// A result tells what a key came to: the commands to run, in order, and the
/// name of the mode to change to, where there is one.
pub proof fn a_result_tells_what_the_key_came_to(result: KeymapResult, o: Outcome)
    requires
        says(result, o),
    ensures
        match result {
            KeymapResult::Command(c) => o == Outcome::Command(c),
            KeymapResult::ModeChange(mode) => o is ModeChange && o->ModeChange_0 == mode_name(mode),
            KeymapResult::CommandAndMode { command, new_mode } => o is CommandAndMode
                && o->CommandAndMode_0 == command && (match new_mode {
                Some(mode) => o->CommandAndMode_1 == Some(mode_name(mode)),
                None => o->CommandAndMode_1 is None,
            }),
            KeymapResult::Sequence(commands, mode) => o is Sequence && o->Sequence_0 == commands@
                && (match mode {
                Some(mode) => o->Sequence_1 == Some(mode_name(mode)),
                None => o->Sequence_1 is None,
            }),
        },
{
    match result {
        KeymapResult::ModeChange(mode) => {
            crate::actions::named_mode_keeps_its_name(mode, o->ModeChange_0);
        },
        KeymapResult::CommandAndMode { command, new_mode } => {
            if let Some(mode) = new_mode {
                crate::actions::named_mode_keeps_its_name(mode, o->CommandAndMode_1->0);
            }
        },
        KeymapResult::Sequence(commands, mode) => {
            if let Some(mode) = mode {
                crate::actions::named_mode_keeps_its_name(mode, o->Sequence_1->0);
            }
        },
        _ => {},
    }
}

proof fn lemma_listed(bindings: Seq<(KeyBinding, ProcessedBinding)>, n: nat)
    requires
        n <= bindings.len(),
    ensures
        forall|k: int|
            0 <= k < n && (#[trigger] bindings[k]).1 is Command ==> listed(bindings, n).contains(
                (shown_chord(bindings[k].0.key@, bindings[k].0.modifiers), bindings[k].1->Command_0),
            ),
        forall|i: int|
            0 <= i < listed(bindings, n).len() ==> is_binding_of(
                #[trigger] listed(bindings, n)[i],
                bindings,
                n,
            ),
    decreases n,
{
    if n > 0 {
        let p = (n - 1) as nat;
        lemma_listed(bindings, p);
        let before = listed(bindings, p);
        let all = listed(bindings, n);
        assert forall|k: int| 0 <= k < n && (#[trigger] bindings[k]).1 is Command implies all.contains(
            (shown_chord(bindings[k].0.key@, bindings[k].0.modifiers), bindings[k].1->Command_0),
        ) by {
            let row = (
                shown_chord(bindings[k].0.key@, bindings[k].0.modifiers),
                bindings[k].1->Command_0,
            );
            if k < p {
                assert(before.contains(row));
                let i = choose|i: int| 0 <= i < before.len() && before[i] == row;
                assert(all[i] == row);
            } else {
                assert(all.last() == row);
            }
        }
        assert forall|i: int| 0 <= i < all.len() implies is_binding_of(
            #[trigger] all[i],
            bindings,
            n,
        ) by {
            if i < before.len() {
                assert(all[i] == before[i]);
                assert(is_binding_of(before[i], bindings, p));
                let k = choose|k: int|
                    0 <= k < p && (#[trigger] bindings[k]).1 == ProcessedBinding::Command(
                        before[i].1,
                    ) && before[i].0 == shown_chord(
                        bindings[k].0.key@,
                        bindings[k].0.modifiers,
                    );
                assert(bindings[k].1 == ProcessedBinding::Command(all[i].1));
            } else {
                assert(bindings[n - 1].1 == ProcessedBinding::Command(all[i].1));
            }
        }
    }
}

/// One of the first `n` bindings runs the command, and its chord is shown so.
pub open spec fn is_binding_of(
    row: (Seq<char>, Command),
    bindings: Seq<(KeyBinding, ProcessedBinding)>,
    n: nat,
) -> bool {
    exists|k: int|
        0 <= k < n && (#[trigger] bindings[k]).1 == ProcessedBinding::Command(row.1) && row.0
            == shown_chord(bindings[k].0.key@, bindings[k].0.modifiers)
}

/// The listing of a mode names every chord that runs a single command, with the
/// command, and nothing else.
pub proof fn the_listing_names_every_command(bindings: Seq<(KeyBinding, ProcessedBinding)>)
    ensures
        forall|k: int|
            0 <= k < bindings.len() && (#[trigger] bindings[k]).1 is Command ==> listed(
                bindings,
                bindings.len(),
            ).contains(
                (shown_chord(bindings[k].0.key@, bindings[k].0.modifiers), bindings[k].1->Command_0),
            ),
        forall|i: int|
            0 <= i < listed(bindings, bindings.len()).len() ==> is_binding_of(
                #[trigger] listed(bindings, bindings.len())[i],
                bindings,
                bindings.len(),
            ),
{
    lemma_listed(bindings, bindings.len());
}

/// A mode of a keymap is the one that is configured under its name; the three
/// that come with the editor are there where the configuration has none of
/// their name.
pub proof fn configured_modes_go_before_those_that_come_with_the_editor(
    mode: ProcessedMode,
    config: KeymapConfig,
    name: Seq<char>,
)
    requires
        is_mode_of(mode, config, name),
    ensures
        config.modes@.contains_key(name) ==> is_processed(mode, config.modes@, config.modes@[name]),
        !config.modes@.contains_key(name) ==> name == "normal"@ || name == "insert"@ || name
            == "command"@,
        !config.modes@.contains_key(name) && name == "normal"@ ==> table(mode.bindings@)
            == normal_table(),
        !config.modes@.contains_key(name) && name == "insert"@ ==> table(mode.bindings@)
            == insert_table(),
        !config.modes@.contains_key(name) && name == "command"@ ==> table(mode.bindings@)
            == command_table(),
{
    reveal_strlit("normal");
    reveal_strlit("insert");
    reveal_strlit("command");
    assert("normal"@[0] != "insert"@[0]);
    assert("normal"@[0] != "command"@[0]);
    assert("insert"@[0] != "command"@[0]);
}

} // verus!
