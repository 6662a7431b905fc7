use stoat::diagnostics::{
    Diagnostic, DiagnosticSet, DiagnosticSeverity, DiagnosticTags, Position, PublishedSpan,
};
use stoat::diagnostics_picker::{
    diagnostic_haystack, diagnostic_target, haystack_prefix_len, render_message, DiagnosticsEntry,
    DiagnosticsPicker, LocatedDiagnostic, PickerScope, PreviewSource,
    MESSAGE_MAX_CHARS,
};
use stoat::host::OffsetEncoding;
use stoat::strmap::StrMap;

fn diag(line: u32, column: u32, message: &str, severity: DiagnosticSeverity) -> Diagnostic {
    Diagnostic {
        start: Position { line, character: column },
        end: Position { line, character: column + 1 },
        severity: Some(severity),
        message: message.to_string(),
        tags: DiagnosticTags { unnecessary: false, deprecated: false },
    }
}

fn utf16(diags: Vec<Diagnostic>) -> Vec<LocatedDiagnostic> {
    diags
        .into_iter()
        .map(|diagnostic| LocatedDiagnostic {
            encoding: OffsetEncoding::Utf16,
            diagnostic,
            offset: 0,
        })
        .collect()
}

fn replace_for_path(set: &mut DiagnosticSet, path: &str, diagnostics: Vec<Diagnostic>) {
    let spans = diagnostics.iter().map(|_| PublishedSpan::unresolved()).collect();
    set.replace_from_server(path.to_string(), "lsp".to_string(), diagnostics, spans);
}

#[test]
fn local_entries_list_every_diagnostic_with_position() {
    let diagnostics = utf16(vec![
        diag(0, 0, "first", DiagnosticSeverity::Error),
        diag(2, 2, "third", DiagnosticSeverity::Warning),
        diag(1, 1, "second", DiagnosticSeverity::Information),
    ]);
    let entries = DiagnosticsPicker::local_entries(&diagnostics);
    assert_eq!(
        entries
            .iter()
            .map(|e| (e.line, e.column, e.message.as_str()))
            .collect::<Vec<_>>(),
        [(1, 1, "first"), (2, 2, "second"), (3, 3, "third")],
        "entries sort by position"
    );
    assert!(entries.iter().all(|e| e.path.is_none()));
}

#[test]
fn workspace_entries_list_pairs_from_every_path() {
    let mut set = DiagnosticSet::new();
    replace_for_path(
        &mut set,
        "/ws/a.rs",
        vec![diag(2, 0, "a-second", DiagnosticSeverity::Error)],
    );
    replace_for_path(
        &mut set,
        "/ws/b.rs",
        vec![
            diag(1, 0, "b-second", DiagnosticSeverity::Warning),
            diag(0, 0, "b-first", DiagnosticSeverity::Error),
        ],
    );
    replace_for_path(
        &mut set,
        "/ws/a.rs",
        vec![
            diag(0, 0, "a-first", DiagnosticSeverity::Error),
            diag(2, 0, "a-second", DiagnosticSeverity::Error),
        ],
    );
    let entries = DiagnosticsPicker::workspace_entries(&set, &StrMap::new());
    assert_eq!(
        entries
            .iter()
            .map(|e| (e.path.clone(), e.message.as_str()))
            .collect::<Vec<_>>(),
        [
            (Some("/ws/a.rs".to_string()), "a-first"),
            (Some("/ws/a.rs".to_string()), "a-second"),
            (Some("/ws/b.rs".to_string()), "b-first"),
            (Some("/ws/b.rs".to_string()), "b-second"),
        ],
        "entries sort by path then position"
    );
    assert!(entries.iter().all(|e| e.offset == 0));
}

#[test]
fn paths_sort_by_their_parts_and_encodings_follow_their_server() {
    let mut set = DiagnosticSet::new();
    for path in ["/ws/a-b/x.rs", "/ws/a/x.rs"] {
        replace_for_path(&mut set, path, vec![diag(0, 0, "m", DiagnosticSeverity::Hint)]);
    }
    let mut encodings = StrMap::new();
    encodings.insert("lsp".to_string(), OffsetEncoding::Utf8);
    let entries = DiagnosticsPicker::workspace_entries(&set, &encodings);
    assert_eq!(
        entries.iter().map(|e| e.path.as_deref()).collect::<Vec<_>>(),
        [Some("/ws/a/x.rs"), Some("/ws/a-b/x.rs")]
    );
    assert!(entries.iter().all(|e| e.encoding == OffsetEncoding::Utf8));
    let entries = DiagnosticsPicker::workspace_entries(&set, &StrMap::new());
    assert!(entries.iter().all(|e| e.encoding == OffsetEncoding::Utf16));
}

#[test]
fn local_entries_truncate_long_messages_and_strip_newlines() {
    let long = "a".repeat(200);
    let multi = format!("first\nsecond\n{long}");
    let diagnostics = utf16(vec![diag(0, 0, &multi, DiagnosticSeverity::Error)]);
    let entries = DiagnosticsPicker::local_entries(&diagnostics);
    assert_eq!(entries[0].message.chars().count(), MESSAGE_MAX_CHARS);
    assert!(!entries[0].message.contains('\n'));
    assert_eq!(render_message("a\nb"), "a b");
}

fn entry(path: Option<&str>) -> DiagnosticsEntry {
    DiagnosticsEntry {
        offset: 0,
        line: 12,
        column: 1,
        severity: None,
        message: "unresolved import".to_string(),
        path: path.map(str::to_string),
        encoding: OffsetEncoding::Utf16,
    }
}

#[test]
fn the_haystack_prefix_covers_everything_before_the_message() {
    let local = entry(None);
    let workspace = entry(Some("/ws/a.rs"));
    assert_eq!(
        (haystack_prefix_len(&local), haystack_prefix_len(&workspace)),
        (3, 12),
        "`12 ` and `/ws/a.rs:12 ` are what precede the message"
    );
    assert_eq!(diagnostic_haystack(&local), "12 unresolved import");
    assert_eq!(diagnostic_haystack(&workspace), "/ws/a.rs:12 unresolved import");
}

#[test]
fn a_local_target_reads_the_file_the_scope_names() {
    let mut buffers: StrMap<u64> = StrMap::new();
    let scope = PickerScope::Local("/ws/a.rs".to_string());
    assert_eq!(
        diagnostic_target(&buffers, &scope, &entry(None)),
        Some((PreviewSource::File("/ws/a.rs".to_string()), 11)),
        "the scope's file previews at the diagnostic's 0-based line"
    );
    assert!(
        diagnostic_target(&buffers, &PickerScope::Workspace, &entry(None)).is_none(),
        "a workspace entry without a path of its own has nothing to read"
    );
    buffers.insert("/ws/b.rs".to_string(), 4);
    assert_eq!(
        diagnostic_target(&buffers, &scope, &entry(Some("/ws/b.rs"))),
        Some((PreviewSource::Buffer(4), 11)),
        "an open buffer wins over the file"
    );
}

#[test]
fn the_picker_pages_and_selects_among_its_rows() {
    let entries: Vec<DiagnosticsEntry> = (0..6)
        .map(|i| DiagnosticsEntry { line: i, ..entry(None) })
        .collect();
    let mut picker = DiagnosticsPicker::from_entries(entries, PickerScope::Workspace);
    assert_eq!(*picker.scope(), PickerScope::Workspace);
    assert_eq!(picker.entries().len(), 6);
    assert_eq!(picker.filtered(), [0, 1, 2, 3, 4, 5]);
    picker.picker.viewport_rows = Some(4);
    picker.page(1);
    assert_eq!(picker.selected(), 2);
    picker.picker.refilter(vec![5, 1]);
    assert_eq!(picker.selected(), 1);
    assert_eq!(picker.selected_entry().map(|e| e.line), Some(1));
    picker.picker.refilter(Vec::new());
    assert!(picker.selected_entry().is_none());
}
