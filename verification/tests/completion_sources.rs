use std::collections::BTreeMap;
use stoat::completion::lsp::{
    documentation_string, extract_items, fetched, map_kind, translate_all, Answer, Documentation,
    LspItem, LspKind, LspResponse, TextEdit,
};
use stoat::completion::path::{
    directory_to_list, path_suffix, resolve_parent, split_path_suffix, DirEntry,
};
use stoat::completion::word::MAX_MATCHES;
use stoat::completion::{
    path, word, CompletionContext, CompletionItem, CompletionItemKind, CompletionSource,
};

fn labels(items: &[CompletionItem]) -> Vec<String> {
    items.iter().map(|i| i.label.clone()).collect()
}

// --- paths ---

/// The files and directories of a tree, by directory.
struct Tree {
    dirs: BTreeMap<String, BTreeMap<String, bool>>,
}

impl Tree {
    fn new() -> Self {
        Tree { dirs: BTreeMap::new() }
    }

    fn insert(&mut self, path: &str, is_dir: bool) {
        let (dir, name) = path.rsplit_once('/').expect("absolute");
        if is_dir {
            self.dirs.entry(path.to_string()).or_default();
        }
        if name.is_empty() {
            return;
        }
        self.dirs
            .entry(dir.to_string())
            .or_default()
            .insert(name.to_string(), is_dir);
        if !dir.is_empty() {
            self.insert(dir, true);
        }
    }

    fn insert_file(&mut self, path: &str) {
        self.insert(path, false);
    }

    fn insert_dir(&mut self, path: &str) {
        self.insert(path, true);
    }

    fn list(&self, dir: &str) -> Option<Vec<DirEntry>> {
        let mut parts: Vec<&str> = Vec::new();
        for part in dir.split('/') {
            match part {
                "" | "." => {}
                other => parts.push(other),
            }
        }
        let key = parts.iter().map(|p| format!("/{p}")).collect::<String>();
        self.dirs.get(&key).map(|entries| {
            entries
                .iter()
                .map(|(name, is_dir)| DirEntry { name: name.clone(), is_dir: *is_dir })
                .collect()
        })
    }
}

fn path_ctx(text: &str) -> CompletionContext<'_> {
    CompletionContext {
        cursor_offset: text.len(),
        prefix: "",
        prefix_range: text.len()..text.len(),
        text_before_cursor: text,
    }
}

fn fetch_paths(text: &str, tree: &Tree, base: &str, home: Option<&str>) -> Vec<CompletionItem> {
    let ctx = path_ctx(text);
    let listing = directory_to_list(&ctx, base, home).and_then(|dir| tree.list(&dir));
    path::fetch(&ctx, listing)
}

#[test]
fn empty_text_returns_no_items() {
    let items = fetch_paths("", &Tree::new(), "/ws", None);
    assert_eq!(items, Vec::new());
}

#[test]
fn bare_identifier_returns_no_items() {
    let mut fs = Tree::new();
    fs.insert_file("/ws/foo.txt");
    let items = fetch_paths("foo", &fs, "/ws", None);
    assert_eq!(items, Vec::new());
}

#[test]
fn dot_slash_lists_base_dir_with_directory_suffix() {
    let mut fs = Tree::new();
    fs.insert_file("/ws/main.rs");
    fs.insert_file("/ws/lib.rs");
    fs.insert_dir("/ws/src");
    let items = fetch_paths("./", &fs, "/ws", None);
    let mut got = labels(&items);
    got.sort();
    assert_eq!(got, vec!["lib.rs", "main.rs", "src/"]);
}

#[test]
fn dot_slash_replace_range_is_zero_width_at_cursor() {
    let mut fs = Tree::new();
    fs.insert_file("/ws/lib.rs");
    let items = fetch_paths("./", &fs, "/ws", None);
    assert!(!items.is_empty());
    for item in &items {
        assert_eq!(item.replace_range, 2..2, "replace range follows cursor");
    }
}

#[test]
fn nested_path_lists_subdirectory() {
    let mut fs = Tree::new();
    fs.insert_file("/ws/sub/a.txt");
    fs.insert_file("/ws/sub/b.txt");
    let items = fetch_paths("./sub/", &fs, "/ws", None);
    let mut got = labels(&items);
    got.sort();
    assert_eq!(got, vec!["a.txt", "b.txt"]);
}

#[test]
fn nested_path_with_typed_name_filters_by_prefix() {
    let mut fs = Tree::new();
    fs.insert_file("/ws/sub/foo.txt");
    fs.insert_file("/ws/sub/bar.txt");
    fs.insert_file("/ws/sub/foobar.txt");
    let items = fetch_paths("./sub/fo", &fs, "/ws", None);
    let mut got = labels(&items);
    got.sort();
    assert_eq!(got, vec!["foo.txt", "foobar.txt"]);
}

#[test]
fn typed_name_replace_range_covers_only_typed_segment() {
    let mut fs = Tree::new();
    fs.insert_file("/ws/sub/foo.txt");
    let items = fetch_paths("./sub/fo", &fs, "/ws", None);
    assert_eq!(items.len(), 1);
    assert_eq!(items[0].replace_range, 6..8, "replace covers only `fo`");
}

#[test]
fn absolute_path_lists_root_directory() {
    let mut fs = Tree::new();
    fs.insert_file("/etc/hosts");
    fs.insert_file("/etc/passwd");
    let items = fetch_paths("/etc/hos", &fs, "/ws", None);
    assert_eq!(labels(&items), vec!["hosts"]);
}

#[test]
fn home_relative_path_uses_home_dir_when_provided() {
    let mut fs = Tree::new();
    fs.insert_dir("/home/u/Documents");
    fs.insert_file("/home/u/Downloads/x");
    let items = fetch_paths("~/Doc", &fs, "/ws", Some("/home/u"));
    assert_eq!(labels(&items), vec!["Documents/"]);
}

#[test]
fn home_path_without_home_dir_falls_through_to_base() {
    let mut fs = Tree::new();
    fs.insert_dir("/ws/~/foo");
    let items = fetch_paths("~/fo", &fs, "/ws", None);
    assert_eq!(labels(&items), vec!["foo/"]);
}

#[test]
fn missing_directory_returns_empty() {
    let items = fetch_paths("./missing/", &Tree::new(), "/ws", None);
    assert_eq!(items, Vec::new());
}

#[test]
fn path_case_insensitive_filter() {
    let mut fs = Tree::new();
    fs.insert_file("/ws/Main.rs");
    fs.insert_file("/ws/main.toml");
    let items = fetch_paths("./MAIN", &fs, "/ws", None);
    let mut got = labels(&items);
    got.sort();
    assert_eq!(got, vec!["Main.rs", "main.toml"]);
}

#[test]
fn path_items_carry_kind_and_source() {
    let mut fs = Tree::new();
    fs.insert_file("/ws/a");
    fs.insert_dir("/ws/b");
    let items = fetch_paths("./", &fs, "/ws", None);
    assert_eq!(items[0].kind, Some(CompletionItemKind::File));
    assert_eq!(items[1].kind, Some(CompletionItemKind::Folder));
    assert!(items.iter().all(|i| i.source == CompletionSource::Path));
    assert_eq!(items[1].insert_text, "b/");
}

#[test]
fn a_path_suffix_stops_at_what_is_no_path() {
    assert_eq!(path_suffix("let x = ./a-b_c"), Some("./a-b_c".to_string()));
    assert_eq!(path_suffix("./é"), Some("./é".to_string()));
    assert_eq!(path_suffix("“./日本"), Some("./日本".to_string()));
    assert_eq!(path_suffix("x "), None);
    assert_eq!(path_suffix(""), None);
    assert_eq!(path_suffix("./a“"), None);
    assert_eq!(
        split_path_suffix("a/b/c"),
        ("a/b/".to_string(), "c".to_string())
    );
    assert_eq!(split_path_suffix("abc"), (String::new(), "abc".to_string()));
    assert_eq!(resolve_parent("", "/ws", None), "/ws");
    assert_eq!(resolve_parent("/etc/", "/ws", Some("/home/u")), "/etc/");
    assert_eq!(resolve_parent("~/x/", "/ws", Some("/home/u")), "/home/u/x/");
    assert_eq!(resolve_parent("x/", "/ws", Some("/home/u")), "/ws/x/");
}

// --- words ---

fn word_ctx(prefix: &str) -> CompletionContext<'_> {
    let len = prefix.len();
    CompletionContext {
        cursor_offset: len,
        prefix,
        prefix_range: 0..len,
        text_before_cursor: prefix,
    }
}

#[test]
fn empty_prefix_returns_empty() {
    assert_eq!(word::fetch(&word_ctx(""), "foo bar baz"), Vec::new());
}

#[test]
fn prefix_without_matches_returns_empty() {
    assert_eq!(word::fetch(&word_ctx("xy"), "alpha beta gamma"), Vec::new());
}

#[test]
fn single_match_returns_one_item() {
    let items = word::fetch(&word_ctx("pr"), "println foo");
    assert_eq!(labels(&items), vec!["println"]);
}

#[test]
fn duplicates_are_deduped() {
    let items = word::fetch(&word_ctx("fo"), "foo bar foo baz foo");
    assert_eq!(labels(&items), vec!["foo"]);
}

#[test]
fn prefix_itself_not_suggested() {
    assert_eq!(word::fetch(&word_ctx("foo"), "foo bar"), Vec::new());
}

#[test]
fn multiple_matches_returned_sorted() {
    let items = word::fetch(&word_ctx("foo"), "foo foobar foobaz qux");
    assert_eq!(labels(&items), vec!["foobar", "foobaz"]);
}

#[test]
fn punctuation_separates_tokens() {
    let items = word::fetch(&word_ctx("ba"), "foo,bar.baz;qux");
    assert_eq!(labels(&items), vec!["bar", "baz"]);
}

#[test]
fn underscore_is_part_of_token() {
    let text = "_foo bar_baz hello";
    assert_eq!(labels(&word::fetch(&word_ctx("_f"), text)), vec!["_foo"]);
    assert_eq!(labels(&word::fetch(&word_ctx("bar"), text)), vec!["bar_baz"]);
}

#[test]
fn final_token_at_buffer_end_is_collected() {
    let items = word::fetch(&word_ctx("foo"), "alpha beta foobar");
    assert_eq!(labels(&items), vec!["foobar"]);
}

#[test]
fn replace_range_mirrors_context_prefix_range() {
    let mut c = word_ctx("foo");
    c.prefix_range = 5..8;
    c.cursor_offset = 8;
    let items = word::fetch(&c, "foobar");
    assert_eq!(items.len(), 1);
    assert_eq!(items[0].replace_range, 5..8);
}

#[test]
fn the_match_set_stops_at_the_cap() {
    let text: String = (0..MAX_MATCHES + 50).map(|i| format!("foo{i} ")).collect();
    let items = word::fetch(&word_ctx("foo"), &text);
    assert_eq!(items.len(), MAX_MATCHES);
}

#[test]
fn case_sensitive_match() {
    let items = word::fetch(&word_ctx("Fo"), "Foo foo FOO");
    assert_eq!(labels(&items), vec!["Foo"]);
}

#[test]
fn words_come_out_in_alphabetical_order() {
    let items = word::fetch(&word_ctx("f"), "fz fa fm fé");
    assert_eq!(labels(&items), vec!["fa", "fm", "fz", "fé"]);
}

// --- language servers ---

fn ctx_at(prefix_start: usize, prefix_end: usize) -> CompletionContext<'static> {
    CompletionContext {
        cursor_offset: prefix_end,
        prefix: "",
        prefix_range: prefix_start..prefix_end,
        text_before_cursor: "",
    }
}

fn lsp_item(label: &str) -> LspItem {
    LspItem {
        label: label.to_string(),
        kind: None,
        detail: None,
        documentation: None,
        text_edit: None,
        insert_text: None,
        is_snippet: false,
        filter_text: None,
        sort_text: None,
        has_additional_edits: false,
    }
}

fn fetch_items(ctx: &CompletionContext<'_>, reply: Option<LspResponse>) -> Answer {
    let (raw, complete) = fetched(reply);
    Answer { items: translate_all(raw, "test-server", ctx), complete }
}

fn answered(items: Vec<LspItem>, ctx: &CompletionContext<'_>) -> Vec<CompletionItem> {
    fetch_items(ctx, Some(LspResponse::Array(items))).items
}

#[test]
fn empty_response_returns_no_items() {
    let answer = fetch_items(&ctx_at(0, 0), None);
    assert_eq!(answer.items, Vec::new());
    assert_eq!(answer, Answer::default());
}

#[test]
fn programmed_labels_translate_with_default_replace_range() {
    let items = answered(
        vec![lsp_item("foo"), lsp_item("bar"), lsp_item("baz")],
        &ctx_at(2, 7),
    );
    assert_eq!(items.len(), 3);
    assert_eq!(labels(&items), ["foo", "bar", "baz"]);
    for item in &items {
        assert_eq!(item.source, CompletionSource::Lsp);
        assert_eq!(item.kind, None);
        assert_eq!(item.replace_range, 2..7);
        assert_eq!(item.detail, None);
        assert_eq!(item.insert_text, item.label);
        assert_eq!(item.server.as_deref(), Some("test-server"));
    }
}

#[test]
fn text_edit_overrides_replace_range_and_insert_text() {
    let items = answered(
        vec![LspItem {
            text_edit: Some(TextEdit::Edit { range: 0..5, new_text: "println!(\"\")".into() }),
            ..lsp_item("println!")
        }],
        &ctx_at(0, 5),
    );
    assert_eq!(items.len(), 1);
    assert_eq!(items[0].replace_range, 0..5);
    assert_eq!(items[0].insert_text, "println!(\"\")");
}

#[test]
fn an_insert_and_replace_edit_replaces() {
    let items = answered(
        vec![LspItem {
            text_edit: Some(TextEdit::InsertAndReplace {
                insert: 0..2,
                replace: 0..5,
                new_text: "printed".into(),
            }),
            insert_text: Some("unused".into()),
            ..lsp_item("print")
        }],
        &ctx_at(1, 2),
    );
    assert_eq!(items[0].replace_range, 0..5);
    assert_eq!(items[0].insert_text, "printed");
}

#[test]
fn detail_propagates_through() {
    let items = answered(
        vec![LspItem {
            detail: Some("fn open(path: &Path) -> io::Result<File>".into()),
            ..lsp_item("open")
        }],
        &ctx_at(0, 0),
    );
    assert_eq!(
        items[0].detail.as_deref(),
        Some("fn open(path: &Path) -> io::Result<File>"),
    );
}

#[test]
fn known_kind_maps_through() {
    let items = answered(
        vec![LspItem { kind: Some(LspKind::Method), ..lsp_item("push") }],
        &ctx_at(0, 0),
    );
    assert_eq!(items[0].kind, Some(CompletionItemKind::Method));
}

#[test]
fn unknown_kind_falls_back_to_other() {
    let items = answered(
        vec![LspItem { kind: Some(LspKind::Color), ..lsp_item("x") }],
        &ctx_at(0, 0),
    );
    assert_eq!(items[0].kind, Some(CompletionItemKind::Other));
    assert_eq!(map_kind(LspKind::Unlisted), Some(CompletionItemKind::Other));
    assert_eq!(map_kind(LspKind::Constructor), Some(CompletionItemKind::Function));
    assert_eq!(map_kind(LspKind::EnumMember), Some(CompletionItemKind::Enum));
    assert_eq!(map_kind(LspKind::Value), Some(CompletionItemKind::Variable));
}

#[test]
fn insert_text_falls_back_to_label_when_neither_text_edit_nor_insert_text() {
    let items = answered(vec![lsp_item("bare_label")], &ctx_at(0, 0));
    assert_eq!(items[0].insert_text, "bare_label");
}

#[test]
fn insert_text_field_overrides_label_when_no_text_edit() {
    let items = answered(
        vec![LspItem { insert_text: Some("method".into()), ..lsp_item("method (display)") }],
        &ctx_at(0, 0),
    );
    assert_eq!(items[0].insert_text, "method");
    assert_eq!(items[0].label, "method (display)");
}

#[test]
fn a_list_is_complete_unless_it_says_otherwise() {
    let (items, complete) = extract_items(LspResponse::Array(vec![lsp_item("a")]));
    assert_eq!((items.len(), complete), (1, true));
    let (_, complete) =
        extract_items(LspResponse::List { items: vec![], is_incomplete: true });
    assert!(!complete);
    let (_, complete) =
        extract_items(LspResponse::List { items: vec![], is_incomplete: false });
    assert!(complete);
}

#[test]
fn documentation_is_taken_as_it_stands() {
    assert_eq!(documentation_string(None), None);
    assert_eq!(
        documentation_string(Some(Documentation::PlainText("a".into()))),
        Some("a".to_string())
    );
    assert_eq!(
        documentation_string(Some(Documentation::MarkupContent("**a**".into()))),
        Some("**a**".to_string())
    );
}
