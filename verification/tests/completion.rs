use stoat::completion::{
    applicable_sources, is_identifier_like, is_path_like, CompletionContext, CompletionItem,
    CompletionItemKind, CompletionPopup, CompletionSource,
};

fn ctx<'a>(text_before_cursor: &'a str, prefix: &'a str) -> CompletionContext<'a> {
    let cursor_offset = text_before_cursor.len();
    let prefix_start = cursor_offset.saturating_sub(prefix.len());
    CompletionContext {
        cursor_offset,
        prefix,
        prefix_range: prefix_start..cursor_offset,
        text_before_cursor,
    }
}

#[test]
fn path_like_triggers_on_dot_slash() {
    assert!(is_path_like(&ctx("./", "")));
}

#[test]
fn path_like_triggers_on_dot_dot_slash() {
    assert!(is_path_like(&ctx("../", "")));
}

#[test]
fn path_like_triggers_on_root_slash() {
    assert!(is_path_like(&ctx("/", "")));
}

#[test]
fn path_like_triggers_on_tilde() {
    assert!(is_path_like(&ctx("~", "")));
}

#[test]
fn path_like_triggers_when_prefix_contains_slash() {
    assert!(is_path_like(&ctx("foo/bar", "foo/bar")));
}

#[test]
fn path_like_triggers_after_subpath_separator() {
    assert!(is_path_like(&ctx("src/", "")));
}

#[test]
fn path_like_rejects_bare_identifier() {
    assert!(!is_path_like(&ctx("foo", "foo")));
}

#[test]
fn path_like_rejects_empty() {
    assert!(!is_path_like(&ctx("", "")));
}

#[test]
fn identifier_like_accepts_simple() {
    assert!(is_identifier_like(&ctx("foo", "foo")));
}

#[test]
fn identifier_like_accepts_underscore_lead() {
    assert!(is_identifier_like(&ctx("_bar", "_bar")));
}

#[test]
fn identifier_like_accepts_alphanumeric() {
    assert!(is_identifier_like(&ctx("foo_baz9", "foo_baz9")));
}

#[test]
fn identifier_like_rejects_empty_prefix() {
    assert!(!is_identifier_like(&ctx("foo", "")));
}

#[test]
fn identifier_like_rejects_leading_digit() {
    assert!(!is_identifier_like(&ctx("9foo", "9foo")));
}

#[test]
fn identifier_like_rejects_slashed_prefix() {
    assert!(!is_identifier_like(&ctx("foo/bar", "foo/bar")));
}

#[test]
fn applies_path_source_on_path_context() {
    let c = ctx("./", "");
    assert!(CompletionSource::Path.applies(&c));
    assert!(!CompletionSource::Lsp.applies(&c));
    assert!(!CompletionSource::Word.applies(&c));
}

#[test]
fn applies_identifier_sources_on_identifier_context() {
    let c = ctx("foo", "foo");
    assert!(!CompletionSource::Path.applies(&c));
    assert!(CompletionSource::Lsp.applies(&c));
    assert!(CompletionSource::Word.applies(&c));
}

#[test]
fn applicable_sources_returns_path_first_for_slashed_prefix() {
    let s = applicable_sources(&ctx("foo/bar", "foo/bar"));
    assert_eq!(s, vec![CompletionSource::Path]);
}

#[test]
fn applicable_sources_returns_lsp_then_word_for_identifier() {
    let s = applicable_sources(&ctx("foo", "foo"));
    assert_eq!(s, vec![CompletionSource::Lsp, CompletionSource::Word]);
}

#[test]
fn applicable_sources_returns_path_only_for_path_segment_start() {
    let s = applicable_sources(&ctx("./", ""));
    assert_eq!(s, vec![CompletionSource::Path]);
}

#[test]
fn applicable_sources_returns_empty_for_empty_prefix() {
    let s = applicable_sources(&ctx("", ""));
    assert!(s.is_empty());
}

#[test]
fn completion_item_clone_round_trip() {
    let item = CompletionItem {
        label: "open_file".into(),
        source: CompletionSource::Lsp,
        kind: Some(CompletionItemKind::Function),
        detail: Some("fn open_file(path: &Path)".into()),
        replace_range: 4..12,
        insert_text: "open_file(${1:path})".into(),
        is_snippet: false,
        documentation: None,
        lsp_item: None,
        server: None,
    };
    assert_eq!(item.clone(), item);
}

#[test]
fn context_records_cursor_and_prefix_range() {
    let c = ctx("let foo", "foo");
    assert_eq!(c.cursor_offset, 7);
    assert_eq!(c.prefix_range, 4..7);
    assert_eq!(c.prefix, "foo");
    assert_eq!(c.text_before_cursor, "let foo");
}

#[test]
fn completion_popup_round_trip() {
    let item = CompletionItem {
        label: "open_file".into(),
        source: CompletionSource::Lsp,
        kind: Some(CompletionItemKind::Function),
        detail: None,
        replace_range: 4..7,
        insert_text: "open_file()".into(),
        is_snippet: false,
        documentation: None,
        lsp_item: None,
        server: None,
    };
    let popup = CompletionPopup {
        items: vec![item.clone()],
        matches: vec![(0, 0)],
        selected_idx: 0,
        anchor_offset: 4,
        prefix_range: 4..7,
        prefix: "foo".to_string(),
        incomplete: Vec::new(),
    };
    assert_eq!(popup.clone(), popup);
    assert_eq!(popup.items, [item]);
    assert_eq!(popup.selected_idx, 0);
    assert_eq!(popup.anchor_offset, 4);
    assert_eq!(popup.prefix_range, 4..7);
}

#[test]
fn completion_item_kind_covers_each_variant() {
    let kinds = [
        CompletionItemKind::Function,
        CompletionItemKind::Method,
        CompletionItemKind::Variable,
        CompletionItemKind::Field,
        CompletionItemKind::Module,
        CompletionItemKind::Class,
        CompletionItemKind::Struct,
        CompletionItemKind::Enum,
        CompletionItemKind::Constant,
        CompletionItemKind::Keyword,
        CompletionItemKind::File,
        CompletionItemKind::Folder,
        CompletionItemKind::Snippet,
        CompletionItemKind::Other,
    ];
    for kind in kinds {
        let item = CompletionItem {
            label: "x".into(),
            source: CompletionSource::Lsp,
            kind: Some(kind),
            detail: None,
            replace_range: 0..0,
            insert_text: String::new(),
            is_snippet: false,
            documentation: None,
            lsp_item: None,
            server: None,
        };
        assert_eq!(item.kind, Some(kind));
    }
}
