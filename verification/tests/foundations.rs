use stoat::actions::{EditMode, TextPosition};
use stoat::config::keymap::{default_initial_mode, KeymapConfig, ModeConfig};
use stoat::config::{config_source, default_buffer_font_family, ConfigSource};
use stoat::content_view::{PaneContent, ViewType};
use stoat::cursor::Point;
use stoat::dev_tools::git::{repo_dir, TestRepo};
use stoat::diagnostic_spans::ByStart;
use stoat::lists::copied_range;
use stoat::order::stable_order;
use stoat::paths::{
    has_name, join_path, name_of, parent_path, path_comes_before, path_components,
    path_starts_with, same_path,
};
use stoat::picker::{nav_clamp, nav_move, nav_page_step, TargetPicker};
use stoat::processor::{byte_to_char, byte_to_visual, char_to_byte, visual_to_byte};
use stoat::strmap::StrMap;
use stoat::text::{
    begins_with, blank, bytes_in, chars_before, chars_from, comes_before, decimal, join,
    same_ignoring_case, trim,
};

#[test]
fn text_helpers_count_and_compare() {
    assert_eq!(bytes_in("aé✓"), 6);
    assert_eq!(chars_before("aé✓", 3), ['a', 'é']);
    assert_eq!(chars_from("aé✓", 3), ['✓']);
    assert!(begins_with("foobar", "foo") && !begins_with("fo", "foo"));
    assert!(blank(" \t\n") && !blank(" x "));
    assert_eq!(trim("  a b\t"), "a b");
    assert_eq!(decimal(0), "0");
    assert_eq!(decimal(90210), "90210");
    assert_eq!(join(&vec!["a".to_string(), "b".to_string()], ", "), "a, b");
    assert!(comes_before("a", "ab") && comes_before("ab", "b") && !comes_before("b", "b"));
    assert!(same_ignoring_case("OpenFile", "openfile") && !same_ignoring_case("a", "b"));
}

#[test]
fn paths_are_read_by_their_components() {
    assert_eq!(join_path("/ws", "a.rs"), "/ws/a.rs");
    assert_eq!(join_path("/ws/", "a.rs"), "/ws/a.rs");
    assert_eq!(join_path("/ws", "/etc"), "/etc");
    assert_eq!(path_components("/a//b/./c/"), ["0", "3a", "3b", "3c"]);
    assert_eq!(path_components("./a/.."), ["1", "3a", "2"]);
    assert!(path_starts_with("/ws/src/a.rs", "/ws/src"));
    assert!(!path_starts_with("/ws/src2/a.rs", "/ws/src"));
    assert!(same_path("/ws//a", "/ws/a/"));
    assert!(path_comes_before("/ws/a/x", "/ws/a-b/x"));
    assert!(has_name("/ws/.gitignore", ".gitignore"));
    assert_eq!(parent_path("/ws/a.rs").as_deref(), Some("/ws"));
    assert_eq!(parent_path("a.rs").as_deref(), Some(""));
    assert_eq!(parent_path("/"), None);
    assert_eq!(name_of("/ws/a.rs").as_deref(), Some("a.rs"));
    assert_eq!(name_of("/ws/.."), None);
}

#[test]
fn component_reading_agrees_with_the_standard_library() {
    let samples = [
        "", "/", "a", "/a", "a/", "a/b", "/a/b/c", "./a", "a/./b", "a/../b", "..", "../", "/..",
        "//a", "/a/.", ".", "./", "a//b//", "/.a/b.c",
    ];
    for s in samples {
        let std_path = std::path::Path::new(s);
        let parts: Vec<String> = std_path
            .components()
            .map(|c| {
                let text = c.as_os_str().to_str().unwrap();
                match text {
                    "/" => "0".to_string(),
                    "." => "1".to_string(),
                    ".." => "2".to_string(),
                    name => format!("3{name}"),
                }
            })
            .collect();
        assert_eq!(path_components(s), parts, "components of {s:?}");
        assert_eq!(
            parent_path(s).as_deref(),
            std_path.parent().map(|p| p.to_str().unwrap()),
            "parent of {s:?}"
        );
        assert_eq!(
            name_of(s).as_deref(),
            std_path.file_name().map(|p| p.to_str().unwrap()),
            "name of {s:?}"
        );
        for t in samples {
            let other = std::path::Path::new(t);
            assert_eq!(path_starts_with(s, t), std_path.starts_with(other), "{s:?} {t:?}");
            assert_eq!(path_comes_before(s, t), std_path < other, "{s:?} {t:?}");
            assert_eq!(same_path(s, t), std_path == other, "{s:?} {t:?}");
            assert_eq!(
                join_path(s, t),
                std_path.join(other).to_str().unwrap(),
                "{s:?} joined with {t:?}"
            );
        }
    }
}

#[test]
fn a_map_by_text_keeps_the_order_keys_came_in() {
    let mut map = StrMap::new();
    map.insert("b".to_string(), 1);
    map.insert("a".to_string(), 2);
    map.insert("b".to_string(), 3);
    assert_eq!(map.len(), 2);
    assert_eq!((map.key_at(0).as_str(), *map.value_at(0)), ("b", 3));
    assert!(map.contains_key("a") && !map.contains_key("c"));
    assert_eq!(map.remove("b"), Some(3));
    assert_eq!(map.get("b"), None);
    assert_eq!(map.remove("b"), None);
}

#[test]
fn equal_keys_keep_their_order() {
    let keys: Vec<ByStart> = [5usize, 1, 5, 0].iter().map(|&start| ByStart { start }).collect();
    assert_eq!(stable_order(&keys), [3, 1, 0, 2]);
    assert_eq!(copied_range(&vec![1, 2, 3, 4], 1, 3), [2, 3]);
}

#[test]
fn selection_is_held_inside_the_rows() {
    assert_eq!(nav_move(5, 3, 10), 4);
    assert_eq!(nav_move(5, 3, -10), 0);
    assert_eq!(nav_move(0, 0, 1), 0);
    assert_eq!(nav_clamp(3, 9), 2);
    assert_eq!(nav_page_step(Some(9)), 4);
    let mut picker = TargetPicker::new(vec!['a', 'b'], vec!["a".to_string(), "b".to_string()]);
    picker.move_selection(1);
    assert_eq!(picker.selected_entry(), Some(&'b'));
    picker.refilter(vec![1]);
    assert_eq!((picker.selected, picker.selected_entry()), (0, Some(&'b')));
}

#[test]
fn lines_are_measured_in_bytes_characters_and_columns() {
    let line = "a\té!";
    assert_eq!(char_to_byte(line, 3), 4);
    assert_eq!(char_to_byte(line, 99), 5);
    assert_eq!(byte_to_char(line, 4), 3);
    assert_eq!(byte_to_visual(line, 2, 4), 4);
    assert_eq!(byte_to_visual(line, 5, 4), 6);
    assert_eq!(visual_to_byte(line, 3, 4), (1, 1));
    assert_eq!(visual_to_byte(line, 5, 4), (4, 5));
}

#[test]
fn modes_and_positions_are_built_from_plain_values() {
    assert_eq!(EditMode::from_name("insert").name(), "insert");
    assert_eq!(EditMode::from_name("delete").name(), "delete");
    let p = TextPosition::new_with_byte_offset(1, 2, 3, 4);
    assert_eq!((p.line, p.column, p.byte_offset, p.visual_column), (1, 2, 3, 4));
    assert!(Point::new(0, 9).is_before(&Point::new(1, 0)));
    assert!(!Point::new(1, 0).is_before(&Point::new(1, 0)));
}

#[test]
fn a_pane_gives_its_view_by_kind() {
    let pane: PaneContent<u32, (), ()> = PaneContent::Editor(7);
    assert_eq!(pane.view_type(), ViewType::Editor);
    assert_eq!(pane.as_editor(), Some(&7));
    assert!(pane.as_static().is_none() && pane.as_claude().is_none());
    let chat: PaneContent<u32, (), u8> = PaneContent::Claude(1);
    assert_eq!((chat.view_type(), chat.as_claude()), (ViewType::Claude, Some(&1)));
    let page: PaneContent<u32, u8, ()> = PaneContent::Static(2);
    assert_eq!((page.view_type(), page.as_static()), (ViewType::Static, Some(&2)));
}

#[test]
fn the_command_line_path_comes_before_the_discovered_one() {
    let path = |s: &str| Some(s.to_string());
    assert_eq!(
        config_source(path("/fake/cli.toml"), path("/fake/discovered.toml")),
        ConfigSource::File("/fake/cli.toml".to_string())
    );
    assert_eq!(
        config_source(None, path("/fake/discovered.toml")),
        ConfigSource::File("/fake/discovered.toml".to_string())
    );
    assert_eq!(config_source(None, None), ConfigSource::Embedded);
    assert_eq!(default_buffer_font_family(), "Courier");
}

#[test]
fn an_empty_keymap_starts_in_normal_mode() {
    assert_eq!(default_initial_mode(), "normal");
    let config = KeymapConfig::default();
    assert_eq!((config.modes.len(), config.initial_mode.as_str()), (0, "normal"));
    let mode = ModeConfig::default();
    assert!(mode.inherit.is_none() && mode.fallback.is_none() && mode.keys.len() == 0);
}

#[test]
fn a_fixture_gets_a_directory_of_its_own() {
    assert_eq!(
        repo_dir("/fixtures/basic-diff", None, "/tmp"),
        "/tmp/stoat-dev/basic-diff"
    );
    assert_eq!(repo_dir("/fixtures/x", Some("/base"), "/tmp"), "/base/stoat-dev/x");
    assert_eq!(repo_dir("/", None, "/tmp"), "/tmp/stoat-dev/unknown");
    let repo = |persist| TestRepo { dir: "/d".to_string(), changed_files: Vec::new(), persist };
    assert!(repo(false).is_removed_on_drop() && !repo(true).is_removed_on_drop());
}
