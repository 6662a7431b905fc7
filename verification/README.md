# Stoat

A Stoat-ally different editor. This crate holds what the editor decides, as
executable Rust whose contracts Verus proves.

- `src/` is the library. Each module states its model in spec functions, gives
  every function a contract over that model, and proves what holds across
  several of them as public proof functions.
  - Pickers and palettes: `command_palette`, `command_palette_v2`,
    `commit_picker`, `commit_list`, `commit_graph`, `diagnostics_picker`,
    `picker`.
  - Completion: `completion`, with its sources (`lsp`, `path`, `word`), the
    keystroke pipeline (`request`), acceptance (`accept`) and snippets
    (`snippet`).
  - Diagnostics: `diagnostics`, `diagnostic_spans`.
  - Keys and commands: `custom_keymap`, `config`, `command`, `command_line`,
    `actions`, `cursor`, `state`, `processor`, `input`.
  - The rest of the editor: `debounce`, `conflict_session`, `content_view`,
    `dev_tools`, `host`.
  - Groundwork: `text`, `paths`, `order`, `strmap`, `pathmap`, `lists`,
    `poll`.
- `tests/` runs the library.
- `app/` is ordinary Rust around it: configuration files, language servers, the
  file system watch and throwaway repositories.

What rests on trust is marked where it stands: a few functions of the standard
library in `text`, the home directory in `command_line`, and the contents of a
`SmolStr` in `command::edit`.
