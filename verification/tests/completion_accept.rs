use stoat::completion::accept::{
    execute, pump_completion_accept, resolve_advertised, resolve_host, resolved_imports, splice,
    AcceptedImports, AdditionalEdits, FocusedEditor, ResolveHost, ResolvingServer, Servers,
};
use stoat::completion::request::CompletionState;
use stoat::completion::{CompletionItem, CompletionPopup, CompletionSource, LspExtras};

fn item(label: &str, insert_text: &str, source: CompletionSource, is_snippet: bool) -> CompletionItem {
    CompletionItem {
        label: label.into(),
        source,
        kind: None,
        detail: None,
        replace_range: 0..3,
        insert_text: insert_text.into(),
        is_snippet,
        documentation: None,
        lsp_item: None,
        server: None,
    }
}

fn word(label: &str) -> CompletionItem {
    item(label, label, CompletionSource::Word, false)
}

fn lsp_row(label: &str, has_additional_edits: bool) -> CompletionItem {
    CompletionItem {
        lsp_item: Some(LspExtras { filter_text: None, sort_text: None, has_additional_edits }),
        ..item(label, label, CompletionSource::Lsp, false)
    }
}

fn showing(items: Vec<CompletionItem>) -> CompletionState {
    CompletionState {
        pending_completion_request: true,
        pending_completion: Some(CompletionPopup::showing(items)),
        last_completion_signature: None,
        completion_context: None,
        completion_generation: 1,
        active_snippet: false,
    }
}

fn editor(text: &str, ends: (usize, usize)) -> FocusedEditor {
    FocusedEditor { probe: (1, 7, ends.1), text: text.to_string(), ends }
}

fn servers(resolves: bool) -> Servers {
    Servers { named: Vec::new(), primary: Some(Some(resolves)) }
}

#[test]
fn accept_replaces_prefix_with_insert_text() {
    let mut state = showing(vec![word("foobar")]);
    let done = execute(&mut state, Some(&editor("foo", (0, 3))), &servers(false)).expect("accepted");
    assert_eq!(done.text, "foobar");
    assert_eq!(done.selections, [6..6]);
    assert!(state.pending_completion.is_none());
    assert!(!state.pending_completion_request);
    assert_eq!(state.last_completion_signature, Some((1, 7)));
}

#[test]
fn accept_honors_widened_replace_range_from_lsp_text_edit() {
    let mut state =
        showing(vec![item("println!", "println!(\"\")", CompletionSource::Lsp, false)]);
    let done =
        execute(&mut state, Some(&editor("print", (0, 5))), &servers(false)).expect("accepted");
    assert_eq!(done.text, "println!(\"\")");
    let end = "println!(\"\")".len();
    assert_eq!(done.selections, [end..end]);
}

#[test]
fn accept_uses_selected_idx_not_first_item() {
    let mut state = showing(vec![word("foo"), word("foobar")]);
    state.pending_completion.as_mut().expect("open").selected_idx = 1;
    let done = execute(&mut state, Some(&editor("fo", (0, 2))), &servers(false)).expect("accepted");
    assert_eq!(done.text, "foobar");
}

#[test]
fn accept_with_no_popup_is_noop() {
    let mut state = showing(Vec::new());
    state.pending_completion = None;
    assert_eq!(execute(&mut state, Some(&editor("abc", (0, 0))), &servers(true)), None);
    assert!(state.pending_completion_request, "nothing else changes");
}

#[test]
fn accept_snippet_expands_placeholder_and_arms_cursor() {
    let mut state =
        showing(vec![item("println!", "println!(${1:msg})$0", CompletionSource::Lsp, true)]);
    let done = execute(&mut state, Some(&editor("pri", (0, 3))), &servers(false)).expect("accepted");
    assert_eq!(done.text, "println!(msg)");
    assert_eq!(done.selections, [9..12], "selection on `msg` placeholder");
    assert!(
        state.active_snippet,
        "active snippet should remain so Tab can advance to $0",
    );
}

#[test]
fn accept_snippet_with_only_exit_does_not_arm_active() {
    let mut state = showing(vec![item("println!", "println!()$0", CompletionSource::Lsp, true)]);
    let done = execute(&mut state, Some(&editor("pri", (0, 3))), &servers(false)).expect("accepted");
    assert_eq!(done.text, "println!()");
    assert!(!state.active_snippet);
}

#[test]
fn accept_snippet_with_linked_tabstops_places_multi_cursor() {
    let mut state = showing(vec![item("linked", "${1:x} = ${1}", CompletionSource::Lsp, true)]);
    let done = execute(&mut state, Some(&editor("foo", (0, 3))), &servers(false)).expect("accepted");
    assert_eq!(done.text, "x = ");
    assert_eq!(done.selections.len(), 2, "two cursors at the linked tabstop sites");
}

#[test]
fn non_snippet_item_keeps_existing_behavior() {
    let mut state = showing(vec![word("foobar")]);
    let done = execute(&mut state, Some(&editor("foo", (0, 3))), &servers(false)).expect("accepted");
    assert_eq!(done.text, "foobar");
    assert!(!state.active_snippet);
}

#[test]
fn word_accept_arms_no_resolve() {
    let mut state = showing(vec![word("foobar")]);
    let done = execute(&mut state, Some(&editor("foo", (0, 3))), &servers(true)).expect("accepted");
    assert_eq!(done.text, "foobar");
    assert_eq!(done.additional, AdditionalEdits::Nothing, "a word accept issues no resolve");
}

#[test]
fn accept_resolves_and_applies_additional_text_edits() {
    let mut state = showing(vec![lsp_row("barbaz", false)]);
    let done = execute(&mut state, Some(&editor("bar", (0, 3))), &servers(true)).expect("accepted");
    assert_eq!(done.text, "barbaz", "the main edit lands at once");
    assert_eq!(done.additional, AdditionalEdits::Resolve(ResolveHost::Primary));

    let imports = resolved_imports(1, Some(Some(vec![(0, 0, "use foo;\n")])));
    let apply = pump_completion_accept(Some((true, imports))).expect("imports to apply");
    let (start, end, text) = apply.edits[0];
    assert_eq!(
        splice(&done.text, start, end, text),
        "use foo;\nbarbaz",
        "the resolved import is applied above the completion",
    );
}

#[test]
fn a_resolved_import_is_dropped_when_the_buffer_moved_under_it() {
    let imports = resolved_imports(1, Some(Some(vec!["use foo;\n"])));
    assert_eq!(
        pump_completion_accept(Some((false, imports))),
        None,
        "an import landed against text it was not resolved for"
    );
}

#[test]
fn accept_resolve_timeout_leaves_the_main_edit_alone() {
    let late: Option<Option<Vec<&str>>> = None;
    assert_eq!(resolved_imports(1, late), None);
    assert_eq!(resolved_imports(1, Some(Some(Vec::<&str>::new()))), None);
    assert_eq!(pump_completion_accept::<&str>(Some((true, None))), None);
    assert_eq!(pump_completion_accept::<&str>(None), None);
    assert_eq!(
        resolved_imports(1, Some(Some(vec!["x"]))),
        Some(AcceptedImports { buffer_id: 1, edits: vec!["x"] })
    );
}

#[test]
fn accept_after_backspacing_beside_a_multibyte_character_replaces_live_text() {
    let mut state = showing(vec![word("foobar")]);
    // The item's range shrank with the text it was fetched for.
    let done = execute(&mut state, Some(&editor("foéxx", (0, 2))), &servers(false)).expect("accepted");
    assert_eq!(done.text, "foobaréxx");
}

#[test]
fn a_character_typed_after_the_popup_opened_joins_what_accept_replaces() {
    let mut state = showing(vec![item("println!", "println!()", CompletionSource::Lsp, false)]);
    // The item's range grew with the text it was fetched for.
    let done = execute(&mut state, Some(&editor("prin", (0, 4))), &servers(false)).expect("accepted");
    assert_eq!(done.text, "println!()");
}

#[test]
fn a_word_item_replaces_the_prefix_typed_after_it_was_fetched() {
    let mut state = showing(vec![word("foobar")]);
    let done = execute(&mut state, Some(&editor("foobar\nfoo", (7, 10))), &servers(false))
        .expect("accepted");
    assert_eq!(done.text, "foobar\nfoobar");
}

#[test]
fn crossed_ends_are_put_in_order() {
    let mut state = showing(vec![word("ab")]);
    let done = execute(&mut state, Some(&editor("xyz", (2, 1))), &servers(false)).expect("accepted");
    assert_eq!(done.edit_range, 1..2);
    assert_eq!(done.text, "xabz");
}

#[test]
fn without_an_editor_or_rows_nothing_happens() {
    let mut state = showing(vec![word("foobar")]);
    assert_eq!(execute(&mut state, None, &servers(true)), None);
    assert!(state.pending_completion.is_some(), "the popup stays");
    assert!(state.pending_completion_request);

    let mut state = showing(Vec::new());
    assert_eq!(execute(&mut state, Some(&editor("abc", (0, 0))), &servers(true)), None);
    assert!(state.pending_completion.is_some());
}

#[test]
fn later_tabstops_stay_to_be_visited() {
    let mut state = showing(vec![item("for", "for ${1:x} in ${2:xs} {$0}", CompletionSource::Lsp, true)]);
    let done = execute(&mut state, Some(&editor("= fo;", (2, 4))), &servers(false)).expect("accepted");
    assert_eq!(done.text, "= for x in xs {};");
    assert_eq!(done.selections, [6..7]);
    let left: Vec<_> = done.remaining.iter().map(|g| (g.idx, g.ranges.clone())).collect();
    assert_eq!(left, [(2, vec![11..13]), (0, vec![15..15])]);
}

#[test]
fn the_server_that_produced_an_item_resolves_it() {
    let known = Servers {
        named: vec![ResolvingServer { name: "ra".into(), resolve_provider: Some(Some(true)) }],
        primary: None,
    };
    let from = |name: &str, carries: bool| CompletionItem {
        server: Some(name.to_string()),
        ..lsp_row("x", carries)
    };
    assert_eq!(resolve_host(&from("ra", false), &known), ResolveHost::Named("ra".into()));
    assert_eq!(resolve_host(&from("gone", false), &known), ResolveHost::Primary);
    let outcome = |item: CompletionItem| {
        let mut state = showing(vec![item]);
        execute(&mut state, Some(&editor("", (0, 0))), &known).expect("accepted").additional
    };
    assert_eq!(
        outcome(from("ra", false)),
        AdditionalEdits::Resolve(ResolveHost::Named("ra".into()))
    );
    assert_eq!(outcome(from("gone", false)), AdditionalEdits::Nothing);
    assert_eq!(outcome(from("gone", true)), AdditionalEdits::Apply(ResolveHost::Primary));
    assert!(resolve_advertised(Some(Some(true))));
    assert!(!resolve_advertised(Some(None)));
    assert!(!resolve_advertised(None));
}
