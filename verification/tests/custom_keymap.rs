use stoat::actions::EditMode;
use stoat::command::Command;
use stoat::config::keymap::{KeyBinding as ConfigKeyBinding, KeymapConfig, ModeConfig};
use stoat::custom_keymap::{format_key_binding, inheritance_ends, CustomKeymap, KeymapResult};
use stoat::input::Modifiers;

#[test]
fn test_default_keymap() {
    let keymap = CustomKeymap::default();

    // Test normal mode binding
    let result = keymap.lookup(&"h".to_string(), &Modifiers::default(), &EditMode::Normal);
    assert!(matches!(
        result,
        Some(KeymapResult::Command(Command::MoveCursorLeft))
    ));

    // Test insert mode fallback
    let result = keymap.lookup(&"x".to_string(), &Modifiers::default(), &EditMode::Insert);
    assert!(matches!(
        result,
        Some(KeymapResult::Command(Command::InsertChar))
    ));
}

#[test]
fn test_custom_mode() {
    let mut config = KeymapConfig::default();

    let mut delete_mode = ModeConfig::default();
    delete_mode.display_name = Some("DELETE".to_string());
    delete_mode.return_to = Some("normal".to_string());
    delete_mode.keys.insert(
        "d".to_string(),
        ConfigKeyBinding::Command("delete_line".to_string()),
    );
    delete_mode.keys.insert(
        "w".to_string(),
        ConfigKeyBinding::Command("delete_word".to_string()),
    );

    config.modes.insert("delete".to_string(), delete_mode);

    let keymap = CustomKeymap::from_config(config);

    // Test custom mode binding with return_to
    let result = keymap.lookup(
        &"d".to_string(),
        &Modifiers::default(),
        &EditMode::custom("delete"),
    );
    assert!(matches!(
        result,
        Some(KeymapResult::CommandAndMode {
            command: Command::DeleteLine,
            new_mode: Some(EditMode::Normal),
        })
    ));
}

#[test]
fn test_mode_inheritance() {
    let mut config = KeymapConfig::default();

    // Base mode
    let mut base_mode = ModeConfig::default();
    base_mode.keys.insert(
        "x".to_string(),
        ConfigKeyBinding::Command("delete_char".to_string()),
    );
    config.modes.insert("base".to_string(), base_mode);

    // Derived mode
    let mut derived_mode = ModeConfig::default();
    derived_mode.inherit = Some("base".to_string());
    derived_mode.keys.insert(
        "y".to_string(),
        ConfigKeyBinding::Command("delete_word".to_string()),
    );
    config.modes.insert("derived".to_string(), derived_mode);

    let keymap = CustomKeymap::from_config(config);

    // Test inherited binding
    let result = keymap.lookup(
        &"x".to_string(),
        &Modifiers::default(),
        &EditMode::custom("derived"),
    );
    assert!(matches!(
        result,
        Some(KeymapResult::Command(Command::DeleteChar))
    ));

    // Test own binding
    let result = keymap.lookup(
        &"y".to_string(),
        &Modifiers::default(),
        &EditMode::custom("derived"),
    );
    assert!(matches!(
        result,
        Some(KeymapResult::Command(Command::DeleteWord))
    ));
}

#[test]
fn test_command_sequence() {
    let mut config = KeymapConfig::default();

    let mut normal_mode = ModeConfig::default();
    normal_mode.keys.insert(
        "ZZ".to_string(),
        ConfigKeyBinding::Sequence(vec![
            ConfigKeyBinding::Command("toggle_command_info".to_string()),
            ConfigKeyBinding::Command("exit".to_string()),
        ]),
    );
    config.modes.insert("normal".to_string(), normal_mode);

    let keymap = CustomKeymap::from_config(config);

    let result = keymap.lookup(&"ZZ".to_string(), &Modifiers::default(), &EditMode::Normal);
    assert!(matches!(
        result,
        Some(KeymapResult::Sequence(cmds, None)) if cmds.len() == 2
    ));
}

#[test]
fn test_fallback_handler() {
    let mut config = KeymapConfig::default();

    // Create a mode with fallback to insert_char
    let mut type_mode = ModeConfig::default();
    type_mode.fallback = Some(ConfigKeyBinding::Command("insert_char".to_string()));
    type_mode.keys.insert(
        "Escape".to_string(),
        ConfigKeyBinding::Mode {
            mode: "normal".to_string(),
        },
    );
    config.modes.insert("type".to_string(), type_mode);

    let keymap = CustomKeymap::from_config(config);

    // Test that unmapped keys trigger fallback
    let result = keymap.lookup(
        &"a".to_string(),
        &Modifiers::default(),
        &EditMode::custom("type"),
    );
    assert!(matches!(
        result,
        Some(KeymapResult::Command(Command::InsertChar))
    ));

    // Test that mapped keys work normally
    let result = keymap.lookup(
        &"Escape".to_string(),
        &Modifiers::default(),
        &EditMode::custom("type"),
    );
    assert!(matches!(
        result,
        Some(KeymapResult::ModeChange(EditMode::Normal))
    ));
}

#[test]
fn test_command_and_mode_binding() {
    let mut config = KeymapConfig::default();

    let mut normal_mode = ModeConfig::default();
    normal_mode.keys.insert(
        "c".to_string(),
        ConfigKeyBinding::CommandAndMode {
            command: "delete_char".to_string(),
            mode: Some("insert".to_string()),
        },
    );
    config.modes.insert("normal".to_string(), normal_mode);

    let keymap = CustomKeymap::from_config(config);

    let result = keymap.lookup(&"c".to_string(), &Modifiers::default(), &EditMode::Normal);
    assert!(matches!(
        result,
        Some(KeymapResult::CommandAndMode {
            command: Command::DeleteChar,
            new_mode: Some(EditMode::Insert),
        })
    ));
}

#[test]
fn modifiers_are_read_from_the_key() {
    let chord = CustomKeymap::parse_key_binding("C-M-X");
    assert_eq!(chord.key, "x");
    assert_eq!(chord.modifiers, Modifiers { control: true, alt: true, shift: false });

    let chord = CustomKeymap::parse_key_binding("Shift-Tab");
    assert_eq!(chord.key, "tab");
    assert_eq!(chord.modifiers, Modifiers { control: false, alt: false, shift: true });

    let chord = CustomKeymap::parse_key_binding("Z-Z");
    assert_eq!(chord.key, "z-z");
    assert_eq!(chord.modifiers, Modifiers::default());

    let chord = CustomKeymap::parse_key_binding("C--");
    assert_eq!(chord.key, "-");
    assert!(chord.modifiers.control);
}

#[test]
fn keys_are_shown_with_their_modifiers() {
    let plain = Modifiers::default();
    let all = Modifiers { control: true, alt: true, shift: true };
    assert_eq!(format_key_binding(&"escape".to_string(), &plain), "Esc");
    assert_eq!(format_key_binding(&"h".to_string(), &all), "C-M-S-h");
    assert_eq!(format_key_binding(&"pageup".to_string(), &plain), "Pageup");
    assert_eq!(format_key_binding(&"é".to_string(), &plain), "é");
    assert_eq!(format_key_binding(&String::new(), &plain), "");
}

#[test]
fn unknown_commands_are_skipped() {
    let mut config = KeymapConfig::default();
    let mut mode = ModeConfig::default();
    mode.keys.insert("a".to_string(), ConfigKeyBinding::Command("no_such".to_string()));
    mode.keys.insert(
        "b".to_string(),
        ConfigKeyBinding::Sequence(vec![
            ConfigKeyBinding::Command("exit".to_string()),
            ConfigKeyBinding::Command("no_such".to_string()),
        ]),
    );
    config.modes.insert("normal".to_string(), mode);
    let keymap = CustomKeymap::from_config(config);
    let plain = Modifiers::default();
    assert!(keymap.lookup(&"a".to_string(), &plain, &EditMode::Normal).is_none());
    assert!(keymap.lookup(&"b".to_string(), &plain, &EditMode::Normal).is_none());
    assert!(keymap.lookup(&"a".to_string(), &plain, &EditMode::custom("nowhere")).is_none());
}

#[test]
fn own_bindings_override_inherited_ones() {
    let mut config = KeymapConfig::default();
    let mut base = ModeConfig::default();
    base.keys.insert("x".to_string(), ConfigKeyBinding::Command("delete_char".to_string()));
    base.fallback = Some(ConfigKeyBinding::Command("insert_char".to_string()));
    config.modes.insert("base".to_string(), base);
    let mut derived = ModeConfig::default();
    derived.inherit = Some("base".to_string());
    derived.keys.insert("X".to_string(), ConfigKeyBinding::Command("delete_word".to_string()));
    config.modes.insert("derived".to_string(), derived);
    assert!(inheritance_ends(&config));
    let keymap = CustomKeymap::from_config(config);
    let plain = Modifiers::default();
    let mode = EditMode::custom("derived");
    assert!(matches!(
        keymap.lookup(&"x".to_string(), &plain, &mode),
        Some(KeymapResult::Command(Command::DeleteWord))
    ));
    // Bindings are inherited, a fallback is not.
    assert!(keymap.lookup(&"q".to_string(), &plain, &mode).is_none());
}

#[test]
fn a_mode_is_its_parent_with_its_own_keys_over_it() {
    let mut config = KeymapConfig::default();
    let mut base = ModeConfig::default();
    base.display_name = Some("BASE".to_string());
    base.return_to = Some("normal".to_string());
    base.fallback = Some(ConfigKeyBinding::Command("insert_char".to_string()));
    base.keys.insert("x".to_string(), ConfigKeyBinding::Command("delete_char".to_string()));
    base.keys.insert("y".to_string(), ConfigKeyBinding::Command("delete_line".to_string()));
    base.keys.insert("z".to_string(), ConfigKeyBinding::Command("help".to_string()));
    config.modes.insert("base".to_string(), base.clone());
    let mut derived = ModeConfig::default();
    derived.inherit = Some("base".to_string());
    derived.keys.insert("x".to_string(), ConfigKeyBinding::Command("delete_word".to_string()));
    derived.keys.insert("y".to_string(), ConfigKeyBinding::Command("no_such_thing".to_string()));
    derived.keys.insert("C-x".to_string(), ConfigKeyBinding::Command("exit".to_string()));

    let above = CustomKeymap::process_mode(&base, &config);
    assert_eq!(above.bindings.len(), 3);
    assert_eq!(above.display_name.as_deref(), Some("BASE"));
    assert_eq!(above.return_to.as_deref(), Some("normal"));
    assert!(above.fallback.is_some());

    let mode = CustomKeymap::process_mode(&derived, &config);
    assert_eq!(mode.bindings.len(), 4);
    assert_eq!(mode.display_name, None);
    assert_eq!(mode.return_to, None);
    assert!(mode.fallback.is_none());

    config.modes.insert("derived".to_string(), derived);
    let keymap = CustomKeymap::from_config(config);
    let press = |key: &str, modifiers: Modifiers| {
        keymap.lookup(&key.to_string(), &modifiers, &EditMode::custom("derived"))
    };
    let plain = Modifiers::default();
    let control = Modifiers { control: true, ..Modifiers::default() };
    assert!(matches!(press("x", plain), Some(KeymapResult::Command(Command::DeleteWord))));
    assert!(matches!(press("y", plain), Some(KeymapResult::Command(Command::DeleteLine))));
    assert!(matches!(press("z", plain), Some(KeymapResult::Command(Command::Help))));
    assert!(matches!(press("x", control), Some(KeymapResult::Command(Command::Exit))));
    assert!(press("y", control).is_none());
}

#[test]
fn a_mode_may_inherit_from_one_that_is_not_there() {
    let mut mode = ModeConfig::default();
    mode.inherit = Some("nowhere".to_string());
    mode.keys.insert("x".to_string(), ConfigKeyBinding::Command("exit".to_string()));
    let processed = CustomKeymap::process_mode(&mode, &KeymapConfig::default());
    assert_eq!(processed.bindings.len(), 1);
}

#[test]
fn capitals_of_a_key_do_not_matter() {
    let mut config = KeymapConfig::default();
    let mut mode = ModeConfig::default();
    mode.keys.insert("É".to_string(), ConfigKeyBinding::Command("exit".to_string()));
    config.modes.insert("m".to_string(), mode);
    let keymap = CustomKeymap::from_config(config);
    for key in ["É", "é"] {
        assert!(matches!(
            keymap.lookup(&key.to_string(), &Modifiers::default(), &EditMode::custom("m")),
            Some(KeymapResult::Command(Command::Exit))
        ));
    }
}

#[test]
fn a_circle_of_modes_is_found_out() {
    let mut config = KeymapConfig::default();
    let mut a = ModeConfig::default();
    a.inherit = Some("b".to_string());
    config.modes.insert("a".to_string(), a);
    let mut b = ModeConfig::default();
    b.inherit = Some("a".to_string());
    config.modes.insert("b".to_string(), b);
    assert!(!inheritance_ends(&config));
}

#[test]
fn display_names_fall_back_to_capitals() {
    let keymap = CustomKeymap::default();
    assert_eq!(keymap.get_mode_display_name(&EditMode::Normal), "NORMAL");
    assert_eq!(keymap.get_mode_display_name(&EditMode::custom("delete")), "DELETE");
    assert_eq!(keymap.get_mode_display_name(&EditMode::custom("größe")), "GRÖSSE");
}

#[test]
fn bindings_are_listed_with_their_keys() {
    let keymap = CustomKeymap::default();
    assert_eq!(
        keymap.get_bindings_for_mode(&EditMode::Normal),
        vec![
            ("h".to_string(), Command::MoveCursorLeft),
            ("j".to_string(), Command::MoveCursorDown),
            ("k".to_string(), Command::MoveCursorUp),
            ("l".to_string(), Command::MoveCursorRight),
            ("?".to_string(), Command::ToggleCommandInfo),
            ("Esc".to_string(), Command::Exit),
        ]
    );
    assert_eq!(keymap.get_bindings_for_mode(&EditMode::custom("nowhere")), vec![]);
}

#[test]
fn sequences_collect_commands_and_keep_the_last_mode() {
    let mut config = KeymapConfig::default();
    let mut mode = ModeConfig::default();
    mode.return_to = Some("normal".to_string());
    mode.keys.insert(
        "s".to_string(),
        ConfigKeyBinding::Sequence(vec![
            ConfigKeyBinding::Command("exit".to_string()),
            ConfigKeyBinding::Mode { mode: "insert".to_string() },
            ConfigKeyBinding::Sequence(vec![ConfigKeyBinding::CommandAndMode {
                command: "help".to_string(),
                mode: None,
            }]),
        ]),
    );
    config.modes.insert("m".to_string(), mode);
    let keymap = CustomKeymap::from_config(config);
    match keymap.lookup(&"s".to_string(), &Modifiers::default(), &EditMode::custom("m")) {
        Some(KeymapResult::Sequence(commands, mode)) => {
            assert_eq!(commands, vec![Command::Exit, Command::Help]);
            assert_eq!(mode, Some(EditMode::Insert));
        },
        other => panic!("{:?}", other),
    }
}

fn binding_from(value: &toml::Value) -> ConfigKeyBinding {
    match value {
        toml::Value::String(name) => ConfigKeyBinding::Command(name.clone()),
        toml::Value::Table(table) => ConfigKeyBinding::Mode {
            mode: table["mode"].as_str().unwrap().to_string(),
        },
        other => panic!("unexpected binding {other:?}"),
    }
}

fn config_from(text: &str) -> KeymapConfig {
    let root: toml::Table = toml::from_str(text).unwrap();
    let text_in = |table: &toml::Table, key: &str| {
        table.get(key).map(|v| v.as_str().unwrap().to_string())
    };
    let mut config = KeymapConfig::default();
    if let Some(mode) = text_in(&root, "initial_mode") {
        config.initial_mode = mode;
    }
    for (name, value) in root["modes"].as_table().unwrap() {
        let table = value.as_table().unwrap();
        let mut mode = ModeConfig::default();
        mode.display_name = text_in(table, "display_name");
        mode.fallback = table.get("fallback").map(binding_from);
        for (key, value) in table["keys"].as_table().unwrap() {
            mode.keys.insert(key.clone(), binding_from(value));
        }
        config.modes.insert(name.clone(), mode);
    }
    config
}

#[test]
fn test_keymap_from_toml() {
    let toml = r#"
        initial_mode = "normal"

        [modes.normal]
        display_name = "NORMAL"

        [modes.normal.keys]
        h = "move_left"
        j = "move_down"
        k = "move_up"
        l = "move_right"
        i = { mode = "insert" }

        [modes.insert]
        display_name = "INSERT"
        fallback = "insert_char"

        [modes.insert.keys]
        Escape = { mode = "normal" }
    "#;

    let keymap = CustomKeymap::from_config(config_from(toml));

    // Test normal mode movement
    let result = keymap.lookup(&"h".to_string(), &Modifiers::default(), &EditMode::Normal);
    assert!(matches!(
        result,
        Some(KeymapResult::Command(Command::MoveCursorLeft))
    ));

    // Test mode switching
    let result = keymap.lookup(&"i".to_string(), &Modifiers::default(), &EditMode::Normal);
    assert!(matches!(
        result,
        Some(KeymapResult::ModeChange(EditMode::Insert))
    ));

    // Test insert mode fallback
    let result = keymap.lookup(&"x".to_string(), &Modifiers::default(), &EditMode::Insert);
    assert!(matches!(
        result,
        Some(KeymapResult::Command(Command::InsertChar))
    ));
}

#[test]
fn the_default_keys_are_listed_as_they_are_shown() {
    let config = KeymapConfig::default();
    for keymap in [CustomKeymap::default(), CustomKeymap::from_config(config.clone())] {
        let mut shown: Vec<(String, Command)> = Vec::new();
        for (key, command) in [
            ("h", Command::MoveCursorLeft),
            ("j", Command::MoveCursorDown),
            ("k", Command::MoveCursorUp),
            ("l", Command::MoveCursorRight),
            ("?", Command::ToggleCommandInfo),
            ("Esc", Command::Exit),
        ] {
            shown.push((key.to_string(), command));
        }
        let copy = keymap.clone();
        assert_eq!(keymap.get_bindings_for_mode(&EditMode::Normal), shown);
        assert_eq!(copy.get_bindings_for_mode(&EditMode::Normal), shown);
        assert_eq!(
            keymap.get_bindings_for_mode(&EditMode::Insert),
            vec![
                ("Enter".to_string(), Command::InsertNewline),
                ("Backsp".to_string(), Command::DeleteChar),
            ]
        );
        assert_eq!(keymap.get_bindings_for_mode(&EditMode::Command), vec![]);
    }
}

#[test]
fn a_copied_sequence_says_the_same() {
    let binding = ConfigKeyBinding::Sequence(vec![
        ConfigKeyBinding::Command("exit".to_string()),
        ConfigKeyBinding::Sequence(vec![ConfigKeyBinding::Mode { mode: "insert".to_string() }]),
    ]);
    assert_eq!(binding.clone(), binding);
}

#[test]
fn a_binding_wins_over_the_fallback() {
    let keymap = CustomKeymap::default();
    let plain = Modifiers::default();
    let control = Modifiers { control: true, ..plain };
    let pressed = |key: &str, modifiers: &Modifiers, mode: &EditMode| {
        keymap.lookup(&key.to_string(), modifiers, mode)
    };
    assert!(matches!(
        pressed("Enter", &plain, &EditMode::Insert),
        Some(KeymapResult::Command(Command::InsertNewline))
    ));
    assert!(matches!(
        pressed("enter", &control, &EditMode::Insert),
        Some(KeymapResult::Command(Command::InsertChar))
    ));
    assert!(pressed("h", &control, &EditMode::Normal).is_none());
    assert!(matches!(
        pressed("H", &plain, &EditMode::Normal),
        Some(KeymapResult::Command(Command::MoveCursorLeft))
    ));
    assert!(pressed("h", &plain, &EditMode::custom("nowhere")).is_none());
}
