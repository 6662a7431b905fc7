use stoat::command_palette::{
    action_is_available, dispatch_argument, dispatches_bare, history_head, parse_command, refilter,
    split_once, visible, ActionKind, ActionParam, ArgPicker, Availability, Browse, CommandPalette,
    FocusTarget, FuzzyMatch, PaletteOutcome, PaletteScope, PaneView, PathPicker, PreviewPolicy,
    RebasePause, Registry, RegistryEntry, Submission, ValueSource, WorkspaceState,
};
use stoat::strmap::StrMap;

const COMMON: u8 = 0;
const NORMAL: u8 = 1;

fn entry(name: &str, command_name: &str, aliases: &[&str], kind: ActionKind, priority: u8) -> RegistryEntry {
    RegistryEntry {
        name: name.to_string(),
        command_name: command_name.to_string(),
        aliases: aliases.iter().map(|a| a.to_string()).collect(),
        kind,
        priority,
        palette_visible: true,
        params: Vec::new(),
    }
}

fn with_param(mut entry: RegistryEntry, value_source: ValueSource, required: bool) -> RegistryEntry {
    entry.params.push(ActionParam { value_source, required });
    entry
}

fn registry() -> Registry {
    let mut entries = vec![
        entry("Quit", "quit", &["q"], ActionKind::Global, COMMON),
        entry("QuitAll", "quit-all", &["qa"], ActionKind::Global, NORMAL),
        entry("WriteQuit", "write-quit", &["wq"], ActionKind::Global, NORMAL),
        entry("SaveBuffer", "save-buffer", &["w", "write"], ActionKind::Global, COMMON),
        entry("ForceSaveBuffer", "force-save-buffer", &["w!"], ActionKind::Global, NORMAL),
        with_param(
            entry("OpenFile", "open-file", &["o"], ActionKind::Global, COMMON),
            ValueSource::Files,
            true,
        ),
        with_param(
            entry("SetCwd", "set-cwd", &["cd"], ActionKind::Global, NORMAL),
            ValueSource::Directories,
            true,
        ),
        with_param(
            entry("OpenConfig", "open-config", &["config"], ActionKind::Global, NORMAL),
            ValueSource::Typed,
            false,
        ),
        with_param(
            entry("RenameWorkspace", "rename-workspace", &[], ActionKind::Global, NORMAL),
            ValueSource::Typed,
            true,
        ),
        entry("AutoReload", "auto-reload", &[], ActionKind::Global, NORMAL),
        entry("Diff", "diff", &[], ActionKind::Global, NORMAL),
        entry("OpenCommits", "open-commits", &[], ActionKind::Global, NORMAL),
        entry("FocusLeft", "focus-left", &[], ActionKind::Global, NORMAL),
        entry("FocusRight", "focus-right", &[], ActionKind::Global, NORMAL),
        entry("ClosePane", "close-pane", &[], ActionKind::Global, NORMAL),
        entry("CloseWorkspace", "close-workspace", &[], ActionKind::Global, NORMAL),
        entry("Run", "run", &[], ActionKind::Global, COMMON),
        entry("OpenRun", "open-run", &[], ActionKind::Global, COMMON),
        entry("AbortRebase", "abort-rebase", &[], ActionKind::AbortRebase, NORMAL),
        entry("ExecuteRebase", "execute-rebase", &[], ActionKind::ExecuteRebase, NORMAL),
        entry("SetRebaseOpPick", "set-rebase-op-pick", &[], ActionKind::SetRebaseOpPick, NORMAL),
        entry("SetRebaseOpSquash", "set-rebase-op-squash", &[], ActionKind::SetRebaseOpSquash, NORMAL),
        entry("RewordConfirm", "reword-confirm", &[], ActionKind::RewordConfirm, NORMAL),
        entry("RewordAbort", "reword-abort", &[], ActionKind::RewordAbort, NORMAL),
        entry("RebaseContinue", "rebase-continue", &[], ActionKind::RebaseContinue, NORMAL),
        entry("RebaseConflictTakeOurs", "rebase-conflict-take-ours", &[], ActionKind::RebaseConflictTakeOurs, NORMAL),
        entry("RebaseConflictTakeTheirs", "rebase-conflict-take-theirs", &[], ActionKind::RebaseConflictTakeTheirs, NORMAL),
        entry("RebaseConflictApply", "rebase-conflict-apply", &[], ActionKind::RebaseConflictApply, NORMAL),
        entry("RebaseConflictAbort", "rebase-conflict-abort", &[], ActionKind::RebaseConflictAbort, NORMAL),
        entry("ReviewStageChunk", "review-stage-chunk", &[], ActionKind::ReviewStageChunk, NORMAL),
        entry("ReviewApplyStaged", "review-apply-staged", &[], ActionKind::ReviewApplyStaged, NORMAL),
        entry("ReviewRefresh", "review-refresh", &[], ActionKind::ReviewRefresh, NORMAL),
        entry("CloseReview", "close-review", &[], ActionKind::CloseReview, NORMAL),
        entry("CloseCommits", "close-commits", &[], ActionKind::CloseCommits, NORMAL),
        entry("CommitsNext", "commits-next", &[], ActionKind::CommitsNext, NORMAL),
        entry("CommitsOpenReview", "commits-open-review", &[], ActionKind::CommitsOpenReview, NORMAL),
        entry("EnterRebase", "enter-rebase", &[], ActionKind::EnterRebase, NORMAL),
        entry("RunSubmit", "run-submit", &[], ActionKind::RunSubmit, NORMAL),
        entry("RunInterrupt", "run-interrupt", &[], ActionKind::RunInterrupt, NORMAL),
        entry("RunHistoryNext", "run-history-next", &[], ActionKind::RunHistoryNext, NORMAL),
    ];
    entries.push(RegistryEntry {
        palette_visible: false,
        ..entry("OpenCommandPalette", "open-command-palette", &[], ActionKind::Global, COMMON)
    });
    entries.push(with_param(
        entry("OpenBuffer", "open-buffer", &["b"], ActionKind::Global, NORMAL),
        ValueSource::Buffers,
        true,
    ));
    entries.push(with_param(
        entry("SetTheme", "set-theme", &["theme"], ActionKind::Global, NORMAL),
        ValueSource::Themes,
        true,
    ));
    let mut tokens = StrMap::new();
    for (i, e) in entries.iter().enumerate() {
        tokens.insert(e.name.clone(), i);
        tokens.insert(e.command_name.clone(), i);
        for alias in &e.aliases {
            tokens.insert(alias.clone(), i);
        }
    }
    Registry { entries, tokens }
}

/// Ranks the listed command names against `input`: every word of it has to
/// appear, and a name it opens beats one that holds it, which beats one that
/// its characters are scattered over.
fn rank(input: &str, registry: &Registry, scope: PaletteScope, a: &Availability) -> Vec<FuzzyMatch> {
    let words: Vec<String> = input.split_whitespace().map(|w| w.to_lowercase()).collect();
    let mut found = Vec::new();
    for i in visible(registry, scope, a) {
        let name = &registry.entries[i].command_name;
        let mut score = 0;
        let mut all = true;
        for word in &words {
            let mut rest = name.chars();
            if !word.chars().all(|c| rest.any(|n| n == c)) {
                all = false;
                break;
            }
            score += if name.starts_with(word.as_str()) {
                3
            } else if name.contains(word.as_str()) {
                2
            } else {
                1
            };
        }
        if all {
            found.push(FuzzyMatch { entry: i, score, matched_indices: vec![0] });
        }
    }
    found
}

fn rows_for(text: &str, scope: PaletteScope, a: &Availability, registry: &Registry) -> Vec<usize> {
    let mut filtered = Vec::new();
    let mut match_indices = Vec::new();
    let mut selected = 0;
    let matches = rank(text, registry, scope, a);
    refilter(
        text,
        registry,
        scope,
        a,
        &matches,
        &mut filtered,
        &mut match_indices,
        &mut selected,
    );
    assert_eq!(filtered.len(), match_indices.len());
    filtered
}

fn names_for(text: &str) -> Vec<String> {
    let registry = registry();
    rows_for(text, PaletteScope::All, &Availability::default(), &registry)
        .into_iter()
        .map(|i| registry.entries[i].command_name.clone())
        .collect()
}

fn action_names(text: &str, scope: PaletteScope, a: &Availability) -> Vec<String> {
    let registry = registry();
    rows_for(text, scope, a, &registry)
        .into_iter()
        .map(|i| registry.entries[i].name.clone())
        .collect()
}

fn pos_in(listed: &[String], name: &str) -> usize {
    listed.iter().position(|n| n == name).expect("listed")
}

fn has(listed: &[String], name: &str) -> bool {
    listed.iter().any(|n| n == name)
}

#[test]
fn empty_filter_groups_by_priority_then_alphabetical() {
    let registry = registry();
    let listed = names_for("");
    assert!(has(&listed, "quit"));
    assert!(has(&listed, "open-file"));
    assert!(!has(&listed, "open-command-palette"));
    let with_priority: Vec<(u8, String)> = listed
        .iter()
        .map(|n| {
            let e = registry.entries.iter().find(|e| e.command_name == *n).expect("registered");
            (e.priority, n.clone())
        })
        .collect();
    let mut sorted = with_priority.clone();
    sorted.sort();
    assert_eq!(with_priority, sorted, "listing not sorted by (priority, command name)");
}

#[test]
fn priority_orders_within_prefix_tier() {
    let listed = names_for("");
    assert!(pos_in(&listed, "run") < pos_in(&listed, "close-commits"));
}

#[test]
fn tier_boundary_dominates_priority() {
    let listed = names_for("run");
    let open_run = pos_in(&listed, "open-run");
    assert!(pos_in(&listed, "run") < open_run);
    assert!(pos_in(&listed, "run-submit") < open_run);
    assert!(pos_in(&listed, "run-history-next") < open_run);
}

#[test]
fn fuzzy_matches_noncontiguous_subsequence() {
    let listed = names_for("qa");
    assert!(has(&listed, "quit-all"), "QuitAll must match via fuzzy");
    assert!(!has(&listed, "quit"), "Quit lacks 'a' and must not match");
}

#[test]
fn tiers_order_prefix_then_substring_then_fuzzy() {
    let listed = names_for("re");
    let prefix = pos_in(&listed, "review-refresh");
    let substring = pos_in(&listed, "close-review");
    let fuzzy = pos_in(&listed, "run-interrupt");
    assert!(prefix < substring, "prefix ranks above substring");
    assert!(substring < fuzzy, "substring ranks above fuzzy");
}

#[test]
fn multi_token_query_matches_in_either_order() {
    assert!(has(&names_for("open file"), "open-file"));
    assert!(has(&names_for("file open"), "open-file"));
}

#[test]
fn whitespace_only_query_lists_all_actions() {
    assert_eq!(names_for("   "), names_for(""));
}

#[test]
fn alphabetical_within_same_priority() {
    let listed = names_for("");
    assert!(pos_in(&listed, "close-commits") < pos_in(&listed, "close-review"));
    assert!(pos_in(&listed, "close-review") < pos_in(&listed, "close-workspace"));
}

#[test]
fn prefix_filter_ranks_first() {
    let listed = names_for("foc");
    assert!(has(&listed, "focus-left"));
    if let Some(idx) = listed.iter().position(|n| !n.starts_with("focus")) {
        assert!(
            listed[idx..].iter().all(|n| !n.starts_with("focus")),
            "prefix matches must come before any fuzzy matches",
        );
    }
}

#[test]
fn exact_alias_match_pins_to_top() {
    assert_eq!(
        names_for("w").first().map(|s| s.as_str()),
        Some("save-buffer"),
        "`w` is SaveBuffer's alias and must pin to the top",
    );
    assert_eq!(
        names_for("o").first().map(|s| s.as_str()),
        Some("open-file"),
        "`o` is OpenFile's alias and must pin to the top",
    );
}

#[test]
fn substring_filter_after_prefix() {
    assert!(has(&names_for("pane"), "close-pane"));
}

#[test]
fn command_palette_case_insensitive_filter() {
    assert_eq!(names_for("quit"), vec!["quit", "quit-all", "write-quit"]);
}

#[test]
fn refilter_clamps_selected_when_results_shrink() {
    let registry = registry();
    let availability = Availability::default();
    let mut filtered = Vec::new();
    let mut match_indices = Vec::new();
    let mut selected = 7;
    let matches = rank("quit", &registry, PaletteScope::All, &availability);
    refilter(
        "quit",
        &registry,
        PaletteScope::All,
        &availability,
        &matches,
        &mut filtered,
        &mut match_indices,
        &mut selected,
    );
    assert_eq!(filtered.len(), 3);
    assert_eq!(selected, 2);
}

#[test]
fn a_pinned_name_is_highlighted_whole_and_a_pinned_alias_not_at_all() {
    let registry = registry();
    let availability = Availability::default();
    for (input, first, highlights) in [
        ("quit", "quit", vec![0, 1, 2, 3]),
        ("w!", "force-save-buffer", vec![]),
    ] {
        let mut filtered = Vec::new();
        let mut match_indices = Vec::new();
        let mut selected = 0;
        refilter(
            input,
            &registry,
            PaletteScope::All,
            &availability,
            &Vec::new(),
            &mut filtered,
            &mut match_indices,
            &mut selected,
        );
        assert_eq!(filtered.len(), 1);
        assert_eq!(registry.entries[filtered[0]].command_name, first);
        assert_eq!(match_indices[0], highlights);
    }
}

#[test]
fn a_blank_input_lists_every_action_whatever_matched() {
    let registry = registry();
    let every = rows_for("", PaletteScope::All, &Availability::default(), &registry);
    assert!(every.len() > 1);
    for input in ["", "  ", "\t"] {
        let mut filtered = Vec::new();
        let mut match_indices = Vec::new();
        let mut selected = 0;
        let stray = vec![FuzzyMatch { entry: 0, score: 1, matched_indices: vec![0] }];
        refilter(
            input,
            &registry,
            PaletteScope::All,
            &Availability::default(),
            &stray,
            &mut filtered,
            &mut match_indices,
            &mut selected,
        );
        assert_eq!(filtered, every);
        assert!(match_indices.iter().all(|m| m.is_empty()));
    }
}

// --- availability ---

fn nothing() -> Availability {
    Availability::default()
}

#[test]
fn active_scope_default_availability_hides_contextual_actions() {
    let listed = action_names("", PaletteScope::Active, &nothing());
    for name in [
        "AbortRebase",
        "ExecuteRebase",
        "RewordConfirm",
        "RewordAbort",
        "RebaseContinue",
        "RebaseConflictTakeOurs",
        "RebaseConflictApply",
        "ReviewStageChunk",
        "ReviewApplyStaged",
        "CommitsNext",
        "CommitsOpenReview",
        "RunSubmit",
        "EnterRebase",
    ] {
        assert!(!has(&listed, name), "{name} unexpectedly visible");
    }
    for name in ["Quit", "OpenFile", "Diff", "OpenCommits", "FocusLeft"] {
        assert!(has(&listed, name), "{name} missing from applicable list");
    }
}

#[test]
fn active_scope_in_rebase_plan_surfaces_rebase_actions() {
    let ctx = Availability { in_rebase_plan: true, ..nothing() };
    let listed = action_names("", PaletteScope::Active, &ctx);
    for name in ["AbortRebase", "ExecuteRebase", "SetRebaseOpPick", "SetRebaseOpSquash"] {
        assert!(has(&listed, name), "{name} missing when in_rebase_plan");
    }
    assert!(!has(&listed, "RewordConfirm"));
    assert!(!has(&listed, "RebaseConflictApply"));
}

#[test]
fn active_scope_in_reword_surfaces_reword_actions() {
    let ctx = Availability { in_rebase_exec: true, in_rebase_reword: true, ..nothing() };
    let listed = action_names("", PaletteScope::Active, &ctx);
    for name in ["RewordConfirm", "RewordAbort", "RebaseContinue"] {
        assert!(has(&listed, name), "{name} missing in reword");
    }
    assert!(!has(&listed, "AbortRebase"));
}

#[test]
fn active_scope_in_conflict_surfaces_conflict_actions() {
    let ctx = Availability { in_rebase_exec: true, in_conflict: true, ..nothing() };
    let listed = action_names("", PaletteScope::Active, &ctx);
    for name in [
        "RebaseConflictTakeOurs",
        "RebaseConflictTakeTheirs",
        "RebaseConflictApply",
        "RebaseConflictAbort",
    ] {
        assert!(has(&listed, name), "{name} missing in conflict");
    }
    assert!(!has(&listed, "RewordConfirm"));
}

#[test]
fn active_scope_review_open_surfaces_review_actions() {
    let ctx = Availability { review_open: true, ..nothing() };
    let listed = action_names("", PaletteScope::Active, &ctx);
    for name in ["ReviewStageChunk", "ReviewApplyStaged", "CloseReview"] {
        assert!(has(&listed, name), "{name} missing when review_open");
    }
    assert!(!has(&listed, "CommitsNext"));
}

#[test]
fn active_scope_commits_open_surfaces_commits_actions() {
    let ctx = Availability { commits_open: true, ..nothing() };
    let listed = action_names("", PaletteScope::Active, &ctx);
    for name in ["CommitsNext", "CommitsOpenReview", "EnterRebase"] {
        assert!(has(&listed, name), "{name} missing when commits_open");
    }
    assert!(!has(&listed, "ReviewStageChunk"));
}

#[test]
fn active_scope_run_focused_surfaces_run_actions() {
    let ctx = Availability { run_focused: true, ..nothing() };
    let listed = action_names("", PaletteScope::Active, &ctx);
    for name in ["RunSubmit", "RunInterrupt"] {
        assert!(has(&listed, name), "{name} missing when run_focused");
    }
}

#[test]
fn all_scope_shows_contextual_actions_regardless_of_state() {
    let listed = action_names("", PaletteScope::All, &nothing());
    for name in [
        "AbortRebase",
        "RewordConfirm",
        "RebaseConflictApply",
        "ReviewStageChunk",
        "CommitsNext",
        "RunSubmit",
    ] {
        assert!(has(&listed, name), "{name} missing in All scope");
    }
}

#[test]
fn every_registered_action_is_available_when_all_flags_set() {
    let ctx = Availability {
        in_rebase_plan: true,
        in_rebase_exec: true,
        in_rebase_reword: true,
        in_conflict: true,
        review_open: true,
        commits_open: true,
        run_focused: true,
    };
    for entry in &registry().entries {
        assert!(
            action_is_available(entry.kind, &ctx),
            "{} missing from availability predicate",
            entry.name,
        );
    }
}

fn plain_workspace() -> WorkspaceState {
    WorkspaceState {
        has_rebase: false,
        rebase_active: None,
        review_open: false,
        commits_open: false,
        focus: FocusTarget::SplitPane,
        pane_view: PaneView::Other,
        docks: vec![PaneView::Run],
        modal_run: false,
    }
}

#[test]
fn availability_follows_the_workspace() {
    assert_eq!(Availability::from_stoat(&plain_workspace()), nothing());
    let ws = WorkspaceState {
        rebase_active: Some(Some(RebasePause::Conflict)),
        focus: FocusTarget::Dock(0),
        ..plain_workspace()
    };
    assert_eq!(
        Availability::from_stoat(&ws),
        Availability {
            in_rebase_exec: true,
            in_conflict: true,
            run_focused: true,
            ..nothing()
        }
    );
    let ws = WorkspaceState {
        rebase_active: Some(Some(RebasePause::Edit)),
        focus: FocusTarget::Dock(3),
        modal_run: true,
        ..plain_workspace()
    };
    assert_eq!(
        Availability::from_stoat(&ws),
        Availability { in_rebase_exec: true, run_focused: true, ..nothing() }
    );
}

// --- the palette ---

fn sync(palette: &mut CommandPalette, registry: &Registry) {
    let matches = rank(&palette.input, registry, palette.scope, &palette.availability);
    palette.refilter_from_input(registry, &matches, palette.generation + 1);
}

fn open(text: &str, registry: &Registry) -> CommandPalette {
    let mut palette = CommandPalette::new(registry, nothing(), 7);
    sync(&mut palette, registry);
    palette.input = text.to_string();
    sync(&mut palette, registry);
    palette
}

fn toggle(palette: &mut CommandPalette, registry: &Registry) {
    let other = match palette.scope {
        PaletteScope::Active => PaletteScope::All,
        PaletteScope::All => PaletteScope::Active,
    };
    let matches = rank(&palette.input, registry, other, &palette.availability);
    palette.toggle_scope(registry, &matches, palette.generation + 1);
}

/// Reads an argument as text; an empty one is refused.
fn submit(palette: &mut CommandPalette, registry: &Registry) -> PaletteOutcome<String> {
    match palette.handle_submit(registry) {
        Submission::Keep => PaletteOutcome::Keep,
        Submission::Argument { entry, chosen } => {
            let parsed = if chosen.is_empty() { None } else { Some(chosen.clone()) };
            dispatch_argument(registry, entry, &chosen, parsed)
        }
        Submission::Dispatch { entry, line } => {
            PaletteOutcome::Dispatch { entry, params: Vec::new(), line }
        }
    }
}

fn dispatched(text: &str) -> Option<(String, Vec<String>, String)> {
    let registry = registry();
    let mut palette = open(text, &registry);
    match submit(&mut palette, &registry) {
        PaletteOutcome::Dispatch { entry, params, line } => {
            Some((registry.entries[entry].name.clone(), params, line))
        }
        _ => None,
    }
}

#[test]
fn palette_generation_gates_on_filter_change() {
    let registry = registry();
    let mut palette = open("", &registry);
    let g1 = palette.generation;
    sync(&mut palette, &registry);
    let g2 = palette.generation;
    assert_eq!(g1, g2, "an identical re-sync leaves the generation unchanged");
    palette.input = "quit".to_string();
    sync(&mut palette, &registry);
    assert_ne!(g2, palette.generation, "a changed query bumps the generation");
    palette.input = "q".to_string();
    palette.refilter_from_input(&registry, &Vec::new(), 99);
    assert_eq!(palette.generation, 99, "the list takes the stamp it was given");
}

#[test]
fn palette_refilter_skips_when_key_unchanged() {
    let registry = registry();
    let mut palette = open("quit", &registry);
    assert!(!palette.filtered.is_empty(), "query should match entries");
    // Clear the derived list, then re-sync with identical input. A skipped
    // refilter leaves it cleared. A re-run would repopulate it.
    palette.filtered.clear();
    palette.match_indices.clear();
    palette.selected = 0;
    let generation = palette.generation;
    sync(&mut palette, &registry);
    assert!(
        palette.filtered.is_empty(),
        "unchanged input must skip the refilter and leave filtered untouched"
    );
    assert_eq!(
        palette.generation, generation,
        "unchanged input must not bump the generation"
    );
}

#[test]
fn command_palette_filter_narrows_on_typing() {
    assert_eq!(
        dispatched("quit").map(|d| d.0).as_deref(),
        Some("Quit"),
        "Enter leaves the palette by dispatching what was typed"
    );
}

#[test]
fn command_palette_down_then_enter_dispatches_selection() {
    let registry = registry();
    let mut palette = open("focus", &registry);
    palette.selected = 1;
    let expected = palette.filtered[1];
    match submit(&mut palette, &registry) {
        PaletteOutcome::Dispatch { entry, .. } => assert_eq!(entry, expected),
        other => panic!("{other:?}"),
    }
}

#[test]
fn the_list_shows_kebab_command_names() {
    let registry = registry();
    let palette = open("auto", &registry);
    let shown: Vec<&str> = palette
        .filtered
        .iter()
        .map(|&i| registry.entries[i].command_name.as_str())
        .collect();
    assert!(shown.contains(&"auto-reload"), "the row reads as a user command");
    assert!(!shown.contains(&"AutoReload"), "no row still reads as a code identifier");
}

#[test]
fn backtab_toggles_scope_to_all_and_back() {
    let registry = registry();
    let mut palette = open("", &registry);
    assert_eq!(palette.scope(), PaletteScope::Active);
    toggle(&mut palette, &registry);
    assert_eq!(palette.scope(), PaletteScope::All);
    toggle(&mut palette, &registry);
    assert_eq!(palette.scope(), PaletteScope::Active);
}

#[test]
fn abort_rebase_hidden_by_default_visible_after_backtab() {
    let registry = registry();
    let mut palette = open("abort", &registry);
    let listed = |p: &CommandPalette| -> Vec<String> {
        p.filtered.iter().map(|&i| registry.entries[i].name.clone()).collect()
    };
    assert!(!has(&listed(&palette), "AbortRebase"));
    toggle(&mut palette, &registry);
    assert!(has(&listed(&palette), "AbortRebase"));
}

#[test]
fn palette_alias_w_dispatches_save_buffer() {
    assert_eq!(dispatched("w").map(|d| d.0).as_deref(), Some("SaveBuffer"));
}

#[test]
fn palette_alias_write_dispatches_save_buffer() {
    assert_eq!(dispatched("write").map(|d| d.0).as_deref(), Some("SaveBuffer"));
}

#[test]
fn palette_alias_w_bang_dispatches_force_save_buffer() {
    assert_eq!(dispatched("w!").map(|d| d.0).as_deref(), Some("ForceSaveBuffer"));
}

#[test]
fn palette_optional_param_command_dispatches_bare() {
    assert_eq!(
        dispatched("config").map(|d| d.0).as_deref(),
        Some("OpenConfig"),
        "an optional first argument still dispatches on a bare submit",
    );
}

#[test]
fn palette_optional_param_command_dispatches_with_its_arg() {
    assert_eq!(
        dispatched("config stoatty"),
        Some((
            "OpenConfig".to_string(),
            vec!["stoatty".to_string()],
            "config stoatty".to_string()
        ))
    );
}

#[test]
fn palette_partial_text_dispatches_fuzzy_selection() {
    let registry = registry();
    let mut palette = open("qui", &registry);
    let expected = palette.filtered[palette.selected];
    match submit(&mut palette, &registry) {
        PaletteOutcome::Dispatch { entry, .. } => assert_eq!(entry, expected),
        other => panic!("partial fuzzy text should dispatch the top candidate: {other:?}"),
    }
}

#[test]
fn palette_arrowed_selection_wins_over_alias() {
    let registry = registry();
    let mut palette = open("w", &registry);
    assert!(palette.filtered.len() >= 2, "expected >=2 fuzzy candidates for `w`");
    palette.selected = 1;
    let expected = palette.filtered[1];
    assert_ne!(registry.entries[expected].name, "SaveBuffer");
    match submit(&mut palette, &registry) {
        PaletteOutcome::Dispatch { entry, .. } => assert_eq!(entry, expected),
        other => panic!("an arrowed-to selection should dispatch that entry: {other:?}"),
    }
}

#[test]
fn palette_param_alias_expands_to_the_command_name() {
    let registry = registry();
    let mut palette = open("o", &registry);
    assert_eq!(submit(&mut palette, &registry), PaletteOutcome::Keep);
    assert_eq!(palette.input, "open-file ");
}

#[test]
fn free_arg_submit_dispatches() {
    assert_eq!(
        dispatched("RenameWorkspace newname").map(|d| d.0).as_deref(),
        Some("RenameWorkspace"),
    );
}

#[test]
fn an_argument_that_cannot_be_read_keeps_the_palette_open() {
    assert_eq!(dispatched("RenameWorkspace "), None);
    let registry = registry();
    let outcome: PaletteOutcome<String> = dispatch_argument(&registry, 0, "x", None);
    assert_eq!(outcome, PaletteOutcome::Keep);
}

#[test]
fn a_recorded_line_names_its_command_again() {
    let registry = registry();
    let (name, params, line) = dispatched("set-cwd /hist/sub").expect("dispatches");
    assert_eq!((name.as_str(), line.as_str()), ("SetCwd", "cd /hist/sub"));
    assert_eq!(params, ["/hist/sub"]);
    let (entry, arg) = parse_command(&line, &registry).expect("replays");
    assert_eq!(registry.entries[entry].name, "SetCwd");
    assert_eq!(arg, "/hist/sub");
}

#[test]
fn parsing_needs_a_space_a_known_head_and_a_parameter() {
    let registry = registry();
    assert_eq!(parse_command("open-file", &registry), None);
    assert_eq!(parse_command("nonsense x", &registry), None);
    assert_eq!(parse_command("quit x", &registry), None);
    let (_, arg) = parse_command("o a file with spaces", &registry).expect("a command");
    assert_eq!(arg, "a file with spaces");
    assert_eq!(split_once("a b c"), Some(("a".to_string(), "b c".to_string())));
    assert_eq!(split_once("abc"), None);
}

#[test]
fn heads_and_bare_runs_follow_the_entry() {
    let registry = registry();
    let by_name = |n: &str| registry.entries.iter().find(|e| e.name == n).expect("registered");
    assert_eq!(history_head(by_name("SetCwd")), "cd");
    assert_eq!(history_head(by_name("Diff")), "Diff");
    assert!(dispatches_bare(by_name("Quit")));
    assert!(dispatches_bare(by_name("OpenConfig")));
    assert!(!dispatches_bare(by_name("OpenFile")));
}

// --- the argument picker ---

fn listing(paths: &[&str], rows: &[usize]) -> PathPicker {
    PathPicker {
        all_paths: paths.iter().map(|p| p.to_string()).collect(),
        filtered: rows.to_vec(),
        selected: 0,
        viewport_rows: None,
        walking: true,
    }
}

fn dir_picker() -> ArgPicker {
    ArgPicker {
        source: ValueSource::Directories,
        core: listing(&["/ws/docs", "/ws/src"], &[1, 0]),
        browse: None,
    }
}

#[test]
fn the_argument_follows_the_picker() {
    let registry = registry();
    let mut palette = open("cd sr", &registry);
    assert_eq!(palette.arg_source(&registry), Some(ValueSource::Directories));
    assert_eq!(palette.arg_tail(&registry).as_deref(), Some("sr"));
    palette.arg_picker = Some(dir_picker());
    assert_eq!(
        palette.handle_submit(&registry),
        Submission::Argument { entry: 6, chosen: "/ws/src".to_string() }
    );
    palette.arg_picker = Some(ArgPicker { source: ValueSource::Files, ..dir_picker() });
    assert_eq!(
        palette.handle_submit(&registry),
        Submission::Argument { entry: 6, chosen: "sr".to_string() },
        "a picker for another source offers nothing"
    );
}

#[test]
fn an_explicit_path_takes_the_browsed_directory_or_stays_as_typed() {
    let registry = registry();
    let mut palette = open("cd ~/pr", &registry);
    palette.arg_picker = Some(dir_picker());
    assert_eq!(
        palette.handle_submit(&registry),
        Submission::Argument { entry: 6, chosen: "~/pr".to_string() },
        "no workspace directory overrides an explicit path"
    );
    palette.arg_picker = Some(ArgPicker {
        browse: Some(Browse {
            partial: "pr".to_string(),
            picker: listing(&["/home/u/proj"], &[0]),
        }),
        ..dir_picker()
    });
    assert_eq!(
        palette.handle_submit(&registry),
        Submission::Argument { entry: 6, chosen: "/home/u/proj".to_string() }
    );
}

#[test]
fn browsing_stops_at_the_cap_and_leaves_the_workspace_list_alone() {
    let mut picker = dir_picker();
    assert!(picker.pump_walk(vec!["/ws/a".to_string()], 2));
    assert_eq!(picker.core.all_paths.len(), 3, "no cap outside browsing");
    assert_eq!(picker.filter_query("sr"), "sr");

    picker.browse = Some(Browse { partial: "p".to_string(), picker: listing(&["/x"], &[]) });
    assert_eq!(picker.filter_query("sr"), "p");
    assert!(!picker.pump_walk(Vec::new(), 3));
    assert!(picker.pump_walk(vec!["/y".into(), "/z".into(), "/w".into()], 3));
    let browse = picker.browse.as_ref().expect("browsing");
    assert_eq!(browse.picker.all_paths, ["/x", "/y", "/z"]);
    assert!(!browse.picker.walking);

    picker.refilter(vec![2, 0]);
    assert_eq!(picker.selected_path().map(|s| s.as_str()), Some("/z"));
    picker.move_selection(5);
    assert_eq!(picker.browse_selected_path().map(|s| s.as_str()), Some("/x"));
    picker.page(-1);
    assert_eq!(picker.active_core_ref().selected, 0);
    picker.leave_browse();
    assert_eq!(picker.selected_path().map(|s| s.as_str()), Some("/ws/src"));
    assert_eq!(picker.browse_selected_path(), None);
}

#[test]
fn an_installed_picker_is_not_installed_again() {
    let registry = registry();
    let mut palette = open("cd ", &registry);
    palette.install_arg_picker(ValueSource::Directories, true, vec!["/ws/a".into()]);
    palette.install_arg_picker(ValueSource::Files, false, Vec::new());
    let picker = palette.arg_picker.as_ref().expect("installed");
    assert_eq!(picker.source(), ValueSource::Directories);
    assert_eq!(picker.preview_policy(), PreviewPolicy::NoPreview);
    palette.dispose_arg_picker();
    palette.install_arg_picker(ValueSource::Buffers, false, Vec::new());
    let picker = palette.arg_picker.as_ref().expect("installed");
    assert_eq!(picker.preview_policy(), PreviewPolicy::LiveBufferThenFile);
}

// --- the palette over a workspace ---

const ROOT: &str = "/stoat-palette-test";

/// A palette open over a workspace, driven a frame at a time.
struct Session {
    registry: Registry,
    palette: CommandPalette,
    files: Vec<String>,
    buffers: Vec<String>,
    themes: Vec<String>,
}

impl Session {
    fn over(files: &[&str]) -> Session {
        let registry = registry();
        let palette = CommandPalette::new(&registry, Availability::default(), 0);
        Session {
            registry,
            palette,
            files: files.iter().map(|f| format!("{ROOT}/{f}")).collect(),
            buffers: Vec::new(),
            themes: Vec::new(),
        }
    }

    fn candidates(&self, source: ValueSource) -> Vec<String> {
        match source {
            ValueSource::Files => self.files.clone(),
            ValueSource::Buffers => self.buffers.clone(),
            ValueSource::Themes => self.themes.clone(),
            _ => {
                let mut dirs: Vec<String> = self
                    .files
                    .iter()
                    .map(|f| f.rsplit_once('/').unwrap().0.to_string())
                    .filter(|d| d != ROOT)
                    .collect();
                dirs.sort();
                dirs.dedup();
                dirs
            }
        }
    }

    fn frame(&mut self) {
        sync(&mut self.palette, &self.registry);
        let Some(source) = self.palette.arg_source(&self.registry) else {
            return;
        };
        if self.palette.arg_picker.as_ref().is_some_and(|p| p.source() != source) {
            self.palette.dispose_arg_picker();
        }
        let paths = self.candidates(source);
        self.palette.install_arg_picker(source, false, paths);
        let tail = self.palette.arg_tail(&self.registry).expect("collecting an argument");
        let rank = |paths: &Vec<String>, query: &str| -> Vec<usize> {
            let query = query.trim();
            (0..paths.len()).filter(|&i| paths[i].contains(query)).collect()
        };
        let preview = self.palette.sync_arg_picker(&tail, Vec::new(), 100, rank);
        assert_eq!(preview, Some(self.picker().preview_policy()));
    }

    fn type_text(&mut self, text: &str) {
        self.palette.input.push_str(text);
        self.frame();
    }

    fn picker(&self) -> &ArgPicker {
        self.palette.arg_picker.as_ref().expect("arg picker active")
    }

    fn enter(&mut self) -> Option<(String, Vec<String>, String)> {
        match submit(&mut self.palette, &self.registry) {
            PaletteOutcome::Dispatch { entry, params, line } => {
                Some((self.registry.entries[entry].name.clone(), params, line))
            }
            _ => None,
        }
    }

    fn argument(&mut self) -> (String, String) {
        let (name, params, _) = self.enter().expect("dispatches");
        (name, params[0].clone())
    }
}

#[test]
fn arg_picker_lists_workspace_files() {
    let mut s = Session::over(&["a.rs", "b.rs", "sub/c.rs"]);
    s.type_text("o ");
    assert_eq!(s.picker().core.filtered.len(), 3);
}

#[test]
fn arg_picker_narrows_on_typing() {
    let mut s = Session::over(&["alpha.rs", "beta.rs", "gamma.rs"]);
    s.type_text("o ");
    assert_eq!(s.picker().core.filtered.len(), 3);

    s.type_text("alp");
    let picker = s.picker();
    assert_eq!(picker.core.filtered.len(), 1);
    let idx = picker.core.filtered[0];
    assert!(picker.core.all_paths[idx].ends_with("alpha.rs"));
}

#[test]
fn arg_picker_ctrl_n_moves_selection() {
    let mut s = Session::over(&["a.rs", "b.rs", "c.rs"]);
    s.type_text("o ");
    assert_eq!(s.picker().core.selected, 0);

    s.palette.arg_picker.as_mut().unwrap().move_selection(1);
    s.frame();
    assert_eq!(s.picker().core.selected, 1);
}

#[test]
fn arg_submit_opens_selected_candidate() {
    let mut s = Session::over(&["note.txt", "other.txt"]);
    s.type_text("o note");
    assert_eq!(s.argument(), ("OpenFile".to_string(), format!("{ROOT}/note.txt")));
}

#[test]
fn buffer_arg_picker_lists_open_buffers() {
    let mut s = Session::over(&["a.rs", "b.rs", "c.rs"]);
    s.buffers = s.files[..2].to_vec();
    s.type_text("b ");
    assert_eq!(
        s.picker().core.filtered.len(),
        2,
        "lists only the two open buffers, not every workspace file",
    );
}

#[test]
fn buffer_arg_submit_activates_selected_buffer() {
    let mut s = Session::over(&["alpha.rs", "beta.rs"]);
    s.buffers = s.files.clone();
    s.type_text("b alpha");
    assert_eq!(s.argument(), ("OpenBuffer".to_string(), format!("{ROOT}/alpha.rs")));
}

#[test]
fn dir_arg_picker_lists_workspace_dirs() {
    let mut s = Session::over(&["top.rs", "src/main.rs", "docs/readme.md"]);
    s.type_text("cd ");
    assert_eq!(
        s.picker().core.filtered.len(),
        2,
        "lists src and docs; a root-level file contributes no directory",
    );
}

#[test]
fn dir_arg_picker_narrows_on_typing() {
    let mut s = Session::over(&["src/main.rs", "docs/readme.md"]);
    s.type_text("cd ");
    assert_eq!(s.picker().core.filtered.len(), 2);

    s.type_text("src");
    let picker = s.picker();
    assert_eq!(picker.core.filtered.len(), 1);
    let idx = picker.core.filtered[0];
    assert!(picker.core.all_paths[idx].ends_with("src"));
}

#[test]
fn dir_arg_submit_sets_git_root() {
    let mut s = Session::over(&["src/main.rs"]);
    s.type_text("cd src");
    assert_eq!(s.argument(), ("SetCwd".to_string(), format!("{ROOT}/src")));
}

#[test]
fn arg_submit_after_flip_to_cd_sets_dir_not_file() {
    let mut s = Session::over(&["src/main.rs"]);
    s.type_text("o ");

    s.palette.input = "cd src".to_string();
    s.frame();
    assert_eq!(
        s.argument(),
        ("SetCwd".to_string(), format!("{ROOT}/src")),
        "Enter after the flip sets cwd to the directory, not the stale file",
    );
}

#[test]
fn arg_picker_follows_edited_command() {
    let mut s = Session::over(&["top.rs", "src/main.rs", "docs/readme.md"]);
    s.type_text("o ");
    assert_eq!(s.picker().core.filtered.len(), 3);

    s.palette.input = "cd ".to_string();
    s.frame();
    let picker = s.picker();
    assert_eq!(picker.source(), ValueSource::Directories);
    assert_eq!(
        picker.core.filtered.len(),
        2,
        "the picker follows the parsed command to the two directories",
    );
}

#[test]
fn dir_arg_browse_enter_sets_git_root() {
    let mut s = Session::over(&["wsdir/f.rs"]);
    s.type_text("cd ~/proj");
    s.palette.arg_picker.as_mut().unwrap().browse = Some(Browse {
        partial: "proj".to_string(),
        picker: listing(&["/fake-home/projects"], &[]),
    });
    s.frame();
    assert!(
        s.picker().selected_path().is_some_and(|p| p.ends_with("projects")),
        "the browse walk surfaces ~/projects",
    );
    assert_eq!(s.argument(), ("SetCwd".to_string(), "/fake-home/projects".to_string()));
}

#[test]
fn dir_arg_browse_backspace_restores_workspace_dirs() {
    let mut s = Session::over(&["wsdir/f.rs"]);
    s.type_text("cd /");
    s.palette.arg_picker.as_mut().unwrap().browse =
        Some(Browse { partial: String::new(), picker: listing(&["/etc"], &[]) });
    s.frame();
    assert_eq!(s.picker().selected_path().map(String::as_str), Some("/etc"));

    s.palette.arg_picker.as_mut().unwrap().leave_browse();
    s.palette.input = "cd ".to_string();
    s.frame();
    assert!(
        s.picker().browse.is_none(),
        "backspacing out of the path shape leaves browse mode"
    );
    let picker = s.picker();
    let idx = picker.core.filtered[0];
    assert!(
        picker.core.all_paths[idx].ends_with("wsdir"),
        "the workspace directory list is restored"
    );
}

#[test]
fn theme_alias_reaches_set_theme() {
    let mut s = Session::over(&[]);
    s.themes = vec!["default".to_string(), "probe".to_string()];
    s.type_text("theme ");
    let listed: Vec<String> = {
        let picker = s.picker();
        picker.core.filtered.iter().map(|&i| picker.core.all_paths[i].clone()).collect()
    };
    assert!(
        listed.iter().any(|n| n == "probe"),
        "the alias opens the same theme arg picker: {listed:?}",
    );

    s.palette.input = "theme probe".to_string();
    s.frame();
    assert_eq!(
        s.argument(),
        ("SetTheme".to_string(), "probe".to_string()),
        "`:theme NAME` dispatches SetTheme with the argument"
    );
}

#[test]
fn a_fuzzy_list_submit_records_the_entry_head() {
    let mut s = Session::over(&[]);
    s.type_text("focus");
    s.palette.selected = 1;
    let (_, _, line) = s.enter().expect("dispatches the highlighted row");
    assert!(
        s.registry.lookup_alias(&line).is_some(),
        "the recorded head re-resolves through lookup_alias, got {line:?}"
    );
}

#[test]
fn palette_cd_sets_git_root() {
    let mut s = Session::over(&[]);
    s.type_text("cd /cd-test/sub");
    assert_eq!(
        s.enter(),
        Some((
            "SetCwd".to_string(),
            vec!["/cd-test/sub".to_string()],
            "cd /cd-test/sub".to_string()
        )),
        "the typed path dispatches verbatim"
    );
}
