//! What a configuration file can say.

pub mod keymap;

use vstd::prelude::*;

verus! {

/// Where the configuration is taken from.
#[derive(Debug, PartialEq, Eq)]
pub enum ConfigSource {
    /// The file at this path.
    File(String),
    /// The configuration that comes with the editor.
    Embedded,
}

/// The font family of the editor text where a configuration names none.
pub fn default_buffer_font_family() -> (family: String)
    ensures
        family@ == "Courier"@,
{
    "Courier".to_owned()
}

/// The configuration to load: a path given on the command line comes before
/// one that was discovered, and that before the one that comes with the
/// editor.
pub fn config_source(cli_override: Option<String>, discovered_path: Option<String>) -> (source:
    ConfigSource)
    ensures
        source == (match (cli_override, discovered_path) {
            (Some(path), _) => ConfigSource::File(path),
            (None, Some(path)) => ConfigSource::File(path),
            (None, None) => ConfigSource::Embedded,
        }),
{
    match cli_override {
        Some(path) => ConfigSource::File(path),
        None => match discovered_path {
            Some(path) => ConfigSource::File(path),
            None => ConfigSource::Embedded,
        },
    }
}

} // verus!
