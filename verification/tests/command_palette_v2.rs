use stoat::command_palette_v2::{fuzzy_match, CommandInfo, CommandPaletteV2};

fn command(name: &str, aliases: &[&str]) -> CommandInfo {
    CommandInfo {
        name: name.to_string(),
        description: String::new(),
        aliases: aliases.iter().map(|a| a.to_string()).collect(),
        hidden: false,
    }
}

#[test]
fn creates_palette_with_commands() {
    let palette: CommandPaletteV2<u8> =
        CommandPaletteV2::new(vec![command("Test1", &[]), command("Test2", &[])]);
    assert_eq!(palette.filtered_commands.len(), 2);
    assert_eq!(palette.selected_index, 0);
}

#[test]
fn filters_commands_by_name() {
    let mut palette: CommandPaletteV2<u8> = CommandPaletteV2::new(vec![
        command("MoveLeft", &[]),
        command("MoveRight", &[]),
        command("DeleteLeft", &[]),
    ]);
    palette.filter_commands("move");
    assert_eq!(palette.filtered_commands.len(), 2); // MoveLeft and MoveRight
}

#[test]
fn navigates_filtered_list() {
    let mut palette: CommandPaletteV2<u8> = CommandPaletteV2::new(vec![
        command("First", &[]),
        command("Second", &[]),
        command("Third", &[]),
    ]);
    assert_eq!(palette.selected_index, 0);
    palette.select_next();
    assert_eq!(palette.selected_index, 1);
    palette.select_next();
    assert_eq!(palette.selected_index, 2);
    palette.select_next();
    assert_eq!(palette.selected_index, 0);
    palette.select_prev();
    assert_eq!(palette.selected_index, 2);
}

#[test]
fn fuzzy_match_works() {
    assert!(fuzzy_match("moveleft", "ml"));
    assert!(fuzzy_match("moveleft", "move"));
    assert!(fuzzy_match("moveleft", "left"));
    assert!(!fuzzy_match("moveleft", "mz"));
    assert!(!fuzzy_match("moveleft", "lm")); // Order matters
}

#[test]
fn an_alias_matches_as_well_as_the_name() {
    let mut palette: CommandPaletteV2<u8> =
        CommandPaletteV2::new(vec![command("Quit", &["Exit"]), command("Save", &[])]);
    palette.update_filter("EX");
    assert_eq!(palette.filtered_commands.len(), 1);
    assert_eq!(palette.selected_command().map(|c| c.name.as_str()), Some("Quit"));
    palette.update_filter("zzz");
    assert!(palette.selected_command().is_none());
    palette.select_next();
    palette.select_prev();
    assert_eq!(palette.selected_index, 0);
    palette.update_filter("");
    assert_eq!(palette.filtered_commands.len(), 2);
}

#[test]
fn a_new_filter_selects_the_first_match() {
    let mut palette: CommandPaletteV2<u8> =
        CommandPaletteV2::new(vec![command("Aa", &[]), command("Ab", &[])]);
    palette.select_next();
    palette.update_filter("a");
    assert_eq!(palette.selected_index, 0);
}

#[test]
fn the_key_context_is_kept_and_escape_dismisses() {
    let mut palette: CommandPaletteV2<u8> = CommandPaletteV2::new(Vec::new());
    assert_eq!(palette.previous_key_context(), None);
    palette.set_previous_key_context(7);
    assert_eq!(palette.previous_key_context(), Some(7));
    assert!(CommandPaletteV2::<u8>::handle_overlay_key_down("escape"));
    assert!(!CommandPaletteV2::<u8>::handle_overlay_key_down("enter"));
}
