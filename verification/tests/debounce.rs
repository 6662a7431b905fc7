use stoat::debounce::{
    CodeSearch, Debounce, FsEventKind, FsWatchEvent, HostAnswers, CODE_SEARCH_AST_DEBOUNCE,
    CODE_SEARCH_DEBOUNCE, DIFF_WARM_BATCH_MAX, FS_WATCH_DEBOUNCE, IGNORED_DIR_CACHE_MAX,
    INDEX_EXTERNAL_DRAIN_CAP, Reindex, WORKSPACE_AUTOSAVE_THROTTLE,
};

const CLEAN: HostAnswers =
    HostAnswers { parent_ignored: false, path_ignored: false, has_language: true, is_dir: false };

fn state() -> Debounce {
    Debounce::new("/repo".to_string(), true, None)
}

fn event(path: &str, kind: FsEventKind) -> FsWatchEvent {
    FsWatchEvent { path: path.to_string(), kind }
}

fn modified(path: &str, answers: HostAnswers) -> (FsWatchEvent, HostAnswers) {
    (event(path, FsEventKind::Modified), answers)
}

#[test]
fn a_key_press_arms_the_autosave_throttle() {
    let mut d = state();
    assert!(
        d.pending_workspace_autosave.is_none(),
        "a session with no input owes no save"
    );
    d.arm_workspace_autosave(0);
    assert!(
        d.pending_workspace_autosave.is_some(),
        "the first press opens the window"
    );
}

#[test]
fn typing_through_the_window_still_saves_on_time() {
    let mut d = state();
    d.arm_workspace_autosave(0);
    assert!(!d.drain_pending_workspace_autosave(3000));
    d.arm_workspace_autosave(3000);
    assert!(d.drain_pending_workspace_autosave(6000));
    assert!(
        d.pending_workspace_autosave.is_none(),
        "the window opened at the first press closed at 5s and the save ran, \
         where a debounce restarted at 3s and would still be waiting"
    );
}

#[test]
fn the_drain_clears_the_armed_slot() {
    let mut d = state();
    d.arm_workspace_autosave(0);
    assert!(d.drain_pending_workspace_autosave(WORKSPACE_AUTOSAVE_THROTTLE));
    assert!(d.pending_workspace_autosave.is_none(), "the drain closes the window");
    assert!(!d.drain_pending_workspace_autosave(WORKSPACE_AUTOSAVE_THROTTLE));
}

#[test]
fn a_burst_under_an_ignored_dir_arms_nothing() {
    let mut d = state();
    let ignored = HostAnswers { parent_ignored: true, ..CLEAN };
    let burst: Vec<(FsWatchEvent, HostAnswers)> = ["one.rs", "two.rs", "three.rs"]
        .iter()
        .map(|name| modified(&format!("/repo/target/debug/{name}"), ignored))
        .collect();
    d.drain_fs_watch_events(&burst, 0);
    assert!(
        d.diff_warm_pending_paths.is_empty(),
        "no diff warm is armed for build output"
    );
    assert!(
        d.index_pending_external_edits.is_empty(),
        "and none of it reaches the code graph"
    );
    assert_eq!(d.ignored_dir_cache.len(), 1, "one question covers the directory");

    d.drain_fs_watch_events(&vec![modified("/repo/src/b.rs", CLEAN)], 0);
    assert_eq!(
        d.index_pending_external_edits.len(),
        1,
        "a source file beside it still arms the index debounce"
    );
}

#[test]
fn a_gitignore_edit_drops_the_cached_verdict() {
    let mut d = state();
    let built = "/repo/generated/one.rs";
    d.drain_fs_watch_events(&vec![modified(built, CLEAN)], 0);
    assert_eq!(
        d.index_pending_external_edits.len(),
        1,
        "the directory is clean, so its verdict caches as not ignored"
    );
    d.index_pending_external_edits.clear();

    let ignored = HostAnswers { parent_ignored: true, ..CLEAN };
    let rules = HostAnswers { has_language: false, ..CLEAN };
    d.drain_fs_watch_events(
        &vec![modified("/repo/.gitignore", rules), modified(built, ignored)],
        0,
    );
    assert!(
        d.index_pending_external_edits.is_empty(),
        "the new rule applies rather than the verdict cached before it"
    );
    assert_eq!(d.finder_path_epoch, 1);
}

#[test]
fn a_kept_verdict_is_not_asked_for_again() {
    let mut d = state();
    let first = event("/repo/src/a.rs", FsEventKind::Modified);
    assert_eq!(d.questions(&first).parent.as_deref(), Some("/repo/src"));
    d.route_fs_watch_event(&first, &CLEAN, 0);
    let second = event("/repo/src/b.rs", FsEventKind::Created);
    let q = d.questions(&second);
    assert_eq!((q.parent, q.path, q.is_dir), (None, true, true));
    assert!(!d.parent_dir_ignored("/repo/src/c.rs", true), "the kept verdict stands");
    assert!(!d.parent_dir_ignored("/elsewhere/c.rs", true), "no verdict outside the root");
}

#[test]
fn the_verdicts_are_dropped_at_the_bound() {
    let mut d = state();
    for i in 0..IGNORED_DIR_CACHE_MAX + 1 {
        if i < 2 || i >= IGNORED_DIR_CACHE_MAX - 1 {
            d.parent_dir_ignored(&format!("/repo/d{i}/x"), true);
        } else {
            d.ignored_dir_cache.push(stoat::debounce::DirVerdict {
                dir: format!("/repo/d{i}"),
                ignored: true,
            });
        }
    }
    assert_eq!(d.ignored_dir_cache.len(), 1);
}

#[test]
fn a_git_write_stales_the_diffs_after_a_quiet_window() {
    let mut d = state();
    d.diff_warmed = true;
    d.drain_fs_watch_events(&vec![modified("/repo/.git/HEAD", HostAnswers { has_language: false, ..CLEAN })], 0);
    d.drain_fs_watch_events(&vec![modified("/repo/.git/index", HostAnswers { has_language: false, ..CLEAN })], 30);
    assert!(!d.drain_pending_diff_refresh(FS_WATCH_DEBOUNCE), "the second write pushed it back");
    assert!(d.drain_pending_diff_refresh(30 + FS_WATCH_DEBOUNCE));
    assert!(!d.diff_warmed);
    assert!(d.diff_warm_pending_paths.is_empty());
}

#[test]
fn a_git_write_goes_to_the_diff_refresh_alone() {
    let mut d = state();
    d.drain_fs_watch_events(
        &vec![modified("/repo/.git/hooks/pre-commit.rs", HostAnswers { has_language: true, ..CLEAN })],
        0,
    );
    assert!(d.index_pending_external_edits.is_empty());
    assert!(d.diff_warm_pending_paths.is_empty());
    assert!(d.drain_pending_diff_refresh(FS_WATCH_DEBOUNCE));
}

#[test]
fn what_changes_the_tree_bumps_the_epoch_and_a_new_directory_is_watched() {
    let mut d = state();
    let dir = HostAnswers { is_dir: true, has_language: false, ..CLEAN };
    let watch = d.drain_fs_watch_events(
        &vec![
            (event("/repo/new", FsEventKind::Created), dir),
            (event("/repo/a.rs", FsEventKind::Modified), CLEAN),
            (event("/repo/b.rs", FsEventKind::Removed), dir),
        ],
        0,
    );
    assert_eq!(watch, ["/repo/new"]);
    assert_eq!(d.finder_path_epoch, 2);
}

#[test]
fn a_window_covers_every_path_that_arrives_before_it_closes() {
    let mut d = state();
    d.diff_warmed = true;
    d.drain_fs_watch_events(&vec![modified("/repo/a.rs", CLEAN)], 0);
    d.drain_fs_watch_events(&vec![modified("/repo/b.rs", CLEAN), modified("/repo//a.rs", CLEAN)], 40);
    assert_eq!(d.drain_pending_diff_warm_files(49), None);
    assert_eq!(
        d.drain_pending_diff_warm_files(50),
        Some(vec!["/repo/a.rs".to_string(), "/repo/b.rs".to_string()])
    );
    assert!(d.diff_warm_file_timer.is_none() && d.diff_warmed);
}

#[test]
fn a_large_batch_or_an_owed_warm_goes_to_the_whole_warm() {
    let mut d = state();
    d.drain_fs_watch_events(&vec![modified("/repo/a.rs", CLEAN)], 0);
    assert_eq!(d.drain_pending_diff_warm_files(50), None, "the first warm is owed");
    d.diff_warmed = true;
    let many: Vec<(FsWatchEvent, HostAnswers)> = (0..DIFF_WARM_BATCH_MAX + 1)
        .map(|i| modified(&format!("/repo/{i}.rs"), CLEAN))
        .collect();
    d.drain_fs_watch_events(&many, 100);
    assert_eq!(d.drain_pending_diff_warm_files(150), None);
    assert!(!d.diff_warmed && d.diff_warm_pending_paths.is_empty());
    let mut off = Debounce::new("/repo".to_string(), true, Some(false));
    off.drain_fs_watch_events(&vec![modified("/repo/a.rs", CLEAN)], 0);
    assert!(off.diff_warm_pending_paths.is_empty(), "switched off");
}

#[test]
fn reindexing_goes_out_in_paced_batches() {
    let mut d = state();
    for i in 0..INDEX_EXTERNAL_DRAIN_CAP + 3 {
        d.index_pending_external_edits.push(format!("/repo/{i}.rs"));
    }
    d.index_external_edit_timer = Some(10);
    assert_eq!(d.drain_pending_index_edits(9), None);
    let batch = d.drain_pending_index_edits(10).expect("due");
    assert_eq!(batch.len(), INDEX_EXTERNAL_DRAIN_CAP);
    assert_eq!(d.index_external_edit_timer, Some(10 + FS_WATCH_DEBOUNCE));
    let rest = d.drain_pending_index_edits(10 + FS_WATCH_DEBOUNCE).expect("due");
    assert_eq!(rest.len(), 3);
    assert_eq!(d.index_external_edit_timer, None);
}

#[test]
fn a_code_search_waits_for_a_pause_in_typing() {
    let mut d = state();
    d.set_code_search_query("a".to_string(), true, 0);
    assert!(d.code_search_debounce.is_none(), "no search is open");
    d.code_search = Some(CodeSearch { is_ast: false, invalid_pattern: false });
    d.set_code_search_query("a".to_string(), true, 0);
    d.set_code_search_query("ab".to_string(), true, 100);
    assert_eq!(d.drain_pending_code_search(CODE_SEARCH_DEBOUNCE), None);
    assert_eq!(
        d.drain_pending_code_search(100 + CODE_SEARCH_DEBOUNCE).as_deref(),
        Some("ab")
    );
    d.set_code_search_query("(".to_string(), false, 0);
    assert!(d.code_search_debounce.is_none());
    assert_eq!(d.code_search.map(|s| s.invalid_pattern), Some(false));
    d.set_code_search_query("a".to_string(), true, 0);
    d.set_code_search_query(String::new(), true, 10);
    assert!(d.code_search_debounce.is_none(), "an empty pattern would match everywhere");
    d.code_search = Some(CodeSearch { is_ast: true, invalid_pattern: false });
    d.set_code_search_query("(".to_string(), false, 0);
    assert_eq!(d.code_search.map(|s| s.invalid_pattern), Some(true));
    d.set_code_search_query("x".to_string(), true, 0);
    assert_eq!(d.code_search.map(|s| s.invalid_pattern), Some(false));
    d.code_search = None;
    assert_eq!(d.drain_pending_code_search(CODE_SEARCH_AST_DEBOUNCE), None);
    assert!(d.code_search_debounce.is_none(), "a query that outlived its search is dropped");
}

#[test]
fn an_externally_changed_file_is_reindexed_by_what_is_on_disk() {
    let d = Debounce::new("/repo".to_string(), true, None);
    let todo = |path: &str, recorded, on_disk| d.reindex_external_path(path, recorded, on_disk);
    assert_eq!(todo("/elsewhere/a.rs", None, Some(1)), Reindex::Outside);
    assert_eq!(todo("/repo/a.rs", Some(1), Some(1)), Reindex::Unchanged);
    assert_eq!(todo("/repo/a.rs", Some(1), Some(2)), Reindex::Extract);
    assert_eq!(todo("/repo/a.rs", None, Some(2)), Reindex::Extract);
    assert_eq!(todo("/repo/a.rs", Some(1), None), Reindex::Remove);
}
