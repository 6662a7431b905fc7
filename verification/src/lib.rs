//! The decisions of the Stoat editor: what its keys, pickers, palettes and
//! popups do, how its history and its diagnostics are laid out, and when the
//! work behind them is due. Files, servers and the screen are elsewhere.

pub mod actions;
pub mod command;
pub mod command_line;
pub mod command_palette;
pub mod command_palette_v2;
pub mod commit_graph;
pub mod commit_list;
pub mod commit_picker;
pub mod completion;
pub mod config;
pub mod conflict_session;
pub mod content_view;
pub mod cursor;
pub mod custom_keymap;
pub mod debounce;
pub mod dev_tools;
pub mod diagnostic_spans;
pub mod diagnostics;
pub mod diagnostics_picker;
pub mod host;
pub mod input;
pub mod lists;
pub mod order;
pub mod pathmap;
pub mod paths;
pub mod picker;
pub mod poll;
pub mod processor;
pub mod state;
pub mod strmap;
pub mod text;
