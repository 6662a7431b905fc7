use stoat::commit_picker::{
    age_label, CommitColumn, CommitPicker, CommitPickerRole, COMMIT_COLUMNS,
};
use stoat::host::CommitInfo;
use stoat::picker::Ranking;
use stoat::strmap::StrMap;

fn commit(sha: &str, summary: &str) -> CommitInfo {
    CommitInfo {
        sha: sha.to_string(),
        short_sha: sha.chars().take(7).collect(),
        summary: summary.to_string(),
        author_name: "test".into(),
        author_email: "t@t".into(),
        time: 0,
        parents: Vec::new(),
    }
}

type Picker = CommitPicker<String>;

fn tips(branches: &[(&str, &str)]) -> StrMap<Vec<String>> {
    let mut tips: StrMap<Vec<String>> = StrMap::new();
    for (name, sha) in branches {
        let mut names = tips.get(sha).cloned().unwrap_or_default();
        names.push(name.to_string());
        tips.insert(sha.to_string(), names);
    }
    tips
}

/// A matcher that finds a query where it stands in a text.
fn rank(query: &str, texts: &[String]) -> Ranking {
    let mut order = Vec::new();
    let mut matches = Vec::new();
    for (i, text) in texts.iter().enumerate() {
        if let Some(at) = text.find(query) {
            let start = text[..at].chars().count() as u32;
            order.push(i);
            matches.push((start..start + query.chars().count() as u32).collect());
        }
    }
    Ranking { order, matches }
}

fn refilter(p: &mut Picker, query: &str) {
    let ranking = rank(query, &p.haystacks());
    p.refilter(query, ranking);
}

fn pop_scope(p: &mut Picker) -> Option<String> {
    let ranking = match p.parked_haystacks() {
        Some((query, texts)) => rank(&query, &texts),
        None => rank("", &[]),
    };
    p.pop_scope(ranking)
}

/// A picker over `commits` (newest first) with `branches` as `(name, sha)`
/// pairs, opened over `ref_sha`.
fn picker(commits: Vec<CommitInfo>, branches: &[(&str, &str)], ref_sha: &str) -> Picker {
    let mut p = Picker::new(
        CommitPickerRole::PickBase,
        "/repo".to_string(),
        ref_sha.to_string(),
        0,
    );
    p.set_commits(commits, tips(branches), "", rank("", &[]));
    p.selected = 0;
    p
}

fn history() -> Vec<CommitInfo> {
    vec![
        commit("ccc3333", "add the widget"),
        commit("bbb2222", "rename the gadget"),
        commit("aaa1111", "initial import"),
    ]
}

fn shown(p: &Picker) -> Vec<String> {
    p.filtered.iter().map(|&idx| p.commits[idx].sha.clone()).collect()
}

#[test]
fn empty_query_keeps_newest_first_order() {
    let p = picker(history(), &[], "ccc3333");
    assert_eq!(shown(&p), ["ccc3333", "bbb2222", "aaa1111"]);
    assert_eq!(p.match_indices, vec![Vec::<u32>::new(); 3]);
}

#[test]
fn refilter_matches_summary_text() {
    let mut p = picker(history(), &[], "ccc3333");
    refilter(&mut p, "widget");
    assert_eq!(shown(&p), ["ccc3333"]);
}

#[test]
fn refilter_matches_an_abbreviated_sha() {
    let mut p = picker(history(), &[], "ccc3333");
    refilter(&mut p, "bbb2");
    assert_eq!(shown(&p), ["bbb2222"]);
}

#[test]
fn refilter_matches_a_branch_name() {
    let mut p = picker(history(), &[("feature", "bbb2222")], "ccc3333");
    refilter(&mut p, "feature");
    assert_eq!(shown(&p), ["bbb2222"]);
}

#[test]
fn row_cells_start_where_the_join_puts_them() {
    let p = picker(history(), &[("main", "ccc3333")], "ccc3333");
    let row = p.row(0);
    assert_eq!(row.text, "ccc3333 main add the widget test now");
    assert_eq!(
        row.cells.each_ref().map(|c| (c.text.as_str(), c.start)),
        [("ccc3333", 0), ("main", 8), ("add the widget", 13), ("test", 28), ("now", 33)],
        "every cell reports where its text begins in the join"
    );

    let bare = p.row(1);
    assert_eq!(
        bare.text, "bbb2222  rename the gadget test now",
        "a commit with no branch keeps the empty cell, so the columns line up"
    );
    assert_eq!(bare.cells[CommitColumn::Branch.index()].text, "", "and that cell is simply empty");
    assert_eq!(
        bare.cells[CommitColumn::Title.index()].start,
        9,
        "the title still starts after the empty branch cell and its space"
    );
    assert_eq!(p.row(9).text, "");
}

#[test]
fn an_empty_first_cell_keeps_its_space() {
    let mut unnamed = commit("ccc3333", "add the widget");
    unnamed.short_sha = String::new();
    let p = picker(vec![unnamed], &[("main", "ccc3333")], "ccc3333");
    let row = p.row(0);
    assert_eq!(row.text, " main add the widget test now");
    assert_eq!(
        row.cells.each_ref().map(|c| (c.text.as_str(), c.start)),
        [("", 0), ("main", 1), ("add the widget", 6), ("test", 21), ("now", 26)],
    );
}

#[test]
fn cycling_walks_every_column_and_returns_to_all() {
    let mut p = picker(history(), &[], "ccc3333");
    assert_eq!(p.filter_column, None, "an opened picker searches the row");

    let mut seen = Vec::new();
    for _ in 0..COMMIT_COLUMNS + 1 {
        p.cycle_filter_column("", rank("", &[]));
        seen.push(p.filter_column);
    }
    assert_eq!(
        seen,
        [
            Some(CommitColumn::Commit),
            Some(CommitColumn::Branch),
            Some(CommitColumn::Title),
            Some(CommitColumn::Author),
            Some(CommitColumn::Date),
            None,
        ],
        "one pass through the columns lands back on the whole row"
    );
}

#[test]
fn a_scoped_query_matches_only_its_own_column() {
    let mut p = picker(history(), &[("main", "ccc3333")], "ccc3333");
    refilter(&mut p, "widget");
    assert_eq!(shown(&p), ["ccc3333"], "unscoped, the summary matches");

    p.filter_column = Some(CommitColumn::Commit);
    refilter(&mut p, "widget");
    assert_eq!(
        shown(&p),
        Vec::<String>::new(),
        "scoped to the sha, a summary word matches nothing"
    );

    p.filter_column = Some(CommitColumn::Branch);
    refilter(&mut p, "main");
    assert_eq!(shown(&p), ["ccc3333"], "and the branch column finds its own text");
}

#[test]
fn a_scoped_match_reports_offsets_into_the_joined_row() {
    let mut p = picker(history(), &[("main", "ccc3333")], "ccc3333");
    p.filter_column = Some(CommitColumn::Title);
    refilter(&mut p, "add");

    let row = p.row(p.filtered[0]);
    let title_start = row.cells[CommitColumn::Title.index()].start;
    assert_eq!(
        p.match_indices[0],
        [title_start as u32, title_start as u32 + 1, title_start as u32 + 2],
        "the three matched characters sit where the title begins in the join"
    );
    assert!(
        row.text[..title_start].contains("ccc3333"),
        "which is past the sha, so the highlight cannot land on it"
    );
}

#[test]
fn age_label_takes_the_coarsest_unit_it_fills() {
    let now = 1_000_000_000;
    let ago = |seconds| age_label(now, now - seconds);

    assert_eq!(ago(0), "now");
    assert_eq!(ago(59), "now", "under a minute is not worth a number");
    assert_eq!(ago(60), "1m");
    assert_eq!(ago(3_600), "1h");
    assert_eq!(ago(86_400 * 2), "2d");
    assert_eq!(ago(2_592_000 * 3), "3mo");
    assert_eq!(ago(31_536_000 * 4), "4y");
}

#[test]
fn a_commit_dated_ahead_of_now_reads_as_now() {
    assert_eq!(age_label(1_000, 5_000), "now");
}

#[test]
fn an_age_out_of_range_stays_in_range() {
    assert_eq!(age_label(i64::MAX, i64::MIN), "292471208677y");
    assert_eq!(age_label(i64::MIN, i64::MAX), "now");
}

#[test]
fn default_selection_picks_the_newest_other_branch_tip() {
    let p = picker(history(), &[("main", "ccc3333"), ("feature", "bbb2222")], "ccc3333");
    assert_eq!(
        p.default_selection(),
        1,
        "the ref's own tip is skipped for the next branch down"
    );
}

#[test]
fn default_selection_falls_back_to_the_newest_row() {
    assert_eq!(picker(history(), &[], "ccc3333").default_selection(), 0);
    assert_eq!(
        picker(history(), &[("main", "ccc3333")], "ccc3333").default_selection(),
        0,
        "a repo whose only branch is the ref itself has no better row"
    );
}

#[test]
fn a_browser_starts_at_the_newest_row() {
    let mut p = Picker::new(CommitPickerRole::Browse, "/repo".into(), "ccc3333".into(), 0);
    p.set_commits(history(), tips(&[("feature", "bbb2222")]), "", rank("", &[]));
    assert_eq!(p.selected, 0);
}

#[test]
fn a_walk_that_moves_the_selection_drops_the_preview_scroll() {
    let mut p = Picker::new(CommitPickerRole::PickBase, "/repo".into(), "ccc3333".into(), 0);
    p.preview_scroll = 5;
    p.set_commits(history(), tips(&[("feature", "bbb2222")]), "", rank("", &[]));
    assert_eq!((p.selected, p.preview_scroll), (1, 0));
    p.preview_scroll = 7;
    p.set_commits(history(), tips(&[("feature", "bbb2222")]), "", rank("", &[]));
    assert_eq!((p.selected, p.preview_scroll), (1, 7), "the same row keeps its scroll");
}

#[test]
fn move_selection_clamps_to_bounds() {
    let mut p = picker(history(), &[], "ccc3333");
    p.move_selection(-1);
    assert_eq!(p.selected, 0);
    p.move_selection(9);
    assert_eq!(p.selected, 2);
}

#[test]
fn page_steps_by_half_the_viewport() {
    let mut p = picker(history(), &[], "ccc3333");
    p.viewport_rows = Some(4);
    p.page(1);
    assert_eq!(p.selected, 2);
    p.page(-1);
    assert_eq!(p.selected, 0);
}

fn tipped_history() -> Vec<CommitInfo> {
    vec![
        commit("eee5555", "newest"),
        commit("ddd4444", "fourth"),
        commit("ccc3333", "middle"),
        commit("bbb2222", "second"),
        commit("aaa1111", "oldest"),
    ]
}

#[test]
fn a_branch_jump_skips_the_commits_between_tips() {
    let mut p =
        picker(tipped_history(), &[("feature", "ccc3333"), ("root", "aaa1111")], "eee5555");

    p.select_branch(1);
    assert_eq!(p.selected, 2, "down lands on the first tip below row 0");
    p.select_branch(1);
    assert_eq!(p.selected, 4, "and again on the next one past it");
    p.select_branch(-1);
    assert_eq!(p.selected, 2, "up walks back to the tip above");
}

#[test]
fn a_branch_jump_stops_rather_than_wrapping() {
    let mut p = picker(tipped_history(), &[("root", "aaa1111")], "eee5555");

    p.select_branch(-1);
    assert_eq!(p.selected, 0, "no tip lies above row 0, so nothing moves");

    p.select_branch(1);
    assert_eq!(p.selected, 4, "down reaches the only tip");
    p.select_branch(1);
    assert_eq!(p.selected, 4, "and stays there rather than wrapping to the top");
}

#[test]
fn a_branch_jump_ignores_a_tip_the_filter_hid() {
    let mut p =
        picker(tipped_history(), &[("feature", "ccc3333"), ("root", "aaa1111")], "eee5555");
    refilter(&mut p, "newest");
    assert_eq!(shown(&p), ["eee5555"], "only the non-tip row survives");

    p.select_branch(1);
    assert_eq!(p.selected, 0, "with no visible tip below, nothing moves");
}

#[test]
fn a_history_without_branches_never_jumps() {
    let mut p = picker(tipped_history(), &[], "eee5555");
    p.select_branch(1);
    p.select_branch(-1);
    assert_eq!(p.selected, 0, "no tips means no rows to jump to");
}

#[test]
fn refilter_clamps_a_stale_selection() {
    let mut p = picker(history(), &[], "ccc3333");
    p.selected = 2;
    refilter(&mut p, "widget");
    assert_eq!(p.filtered.len(), 1);
    assert_eq!(p.selected, 0);
}

#[test]
fn selected_commit_follows_the_cursor() {
    let mut p = picker(history(), &[], "ccc3333");
    p.move_selection(1);
    assert_eq!(p.selected_commit().map(|c| c.sha.as_str()), Some("bbb2222"));
}

fn branch_history() -> Vec<CommitInfo> {
    vec![commit("fff5555", "branch work"), commit("eee4444", "branch start")]
}

#[test]
fn refiltering_the_same_inputs_leaves_the_generation_alone() {
    let mut p = picker(history(), &[], "ccc3333");
    let settled = p.filter_generation;

    for _ in 0..5 {
        refilter(&mut p, "widget");
    }
    let after_query = p.filter_generation;
    assert_ne!(after_query, settled, "the first run with a new query filters");

    for _ in 0..5 {
        refilter(&mut p, "widget");
    }
    assert_eq!(p.filter_generation, after_query, "re-running an unchanged query changes nothing");

    refilter(&mut p, "gadget");
    assert_ne!(p.filter_generation, after_query, "a changed query filters again");
    assert!(p.filter_is_current("gadget"));
    assert!(!p.filter_is_current("widget"));
}

#[test]
fn a_scope_change_refilters_under_an_unchanged_query() {
    let mut p = picker(history(), &[], "ccc3333");
    refilter(&mut p, "");
    let before = p.filter_generation;

    p.push_scope(
        "merge ccc3333".to_string(),
        "fff5555".to_string(),
        branch_history(),
        String::new(),
    );

    assert_ne!(
        p.filter_generation, before,
        "the new list refilters despite the query staying empty"
    );
    assert_eq!(
        shown(&p),
        ["fff5555", "eee4444"],
        "the filter ran against the scope's own rows"
    );
}

#[test]
fn a_drilled_scope_installs_its_own_rows_at_the_top() {
    let mut p = picker(history(), &[], "ccc3333");
    p.filter_column = Some(CommitColumn::Title);
    p.move_selection(2);

    p.push_scope(
        "merge ccc3333".to_string(),
        "fff5555".to_string(),
        branch_history(),
        "gadget".to_string(),
    );

    assert_eq!(shown(&p), ["fff5555", "eee4444"], "the branch's own rows");
    assert_eq!(p.selected, 0, "a new scope starts at the top");
    assert_eq!(p.filter_column, None, "the column scope does not carry over");
    assert_eq!(p.scope_label.as_deref(), Some("merge ccc3333"));
    assert_eq!(p.ref_sha, "fff5555");
}

#[test]
fn popping_a_scope_restores_everything_the_drill_replaced() {
    let mut p = picker(history(), &[], "ccc3333");
    p.filter_column = Some(CommitColumn::Title);
    p.move_selection(2);

    p.push_scope(
        "merge ccc3333".to_string(),
        "fff5555".to_string(),
        branch_history(),
        "gadget".to_string(),
    );

    assert_eq!(pop_scope(&mut p).as_deref(), Some("gadget"), "the typed query");
    assert_eq!(shown(&p), ["bbb2222"], "restored rows, refiltered by it");
    assert_eq!(
        p.graph_lanes, None,
        "and the restored filter hides the graph, over the drilled scope's lanes"
    );
    assert_eq!(p.selected, 0);
    assert_eq!(p.filter_column, Some(CommitColumn::Title));
    assert_eq!(p.scope_label, None, "back to the role-titled root");
    assert_eq!(p.ref_sha, "ccc3333");
}

#[test]
fn nested_scopes_unwind_one_level_at_a_time() {
    let mut p = picker(history(), &[], "ccc3333");

    p.push_scope(
        "merge ccc3333".to_string(),
        "fff5555".to_string(),
        branch_history(),
        String::new(),
    );
    p.push_scope(
        "merge fff5555".to_string(),
        "ddd9999".to_string(),
        vec![commit("ddd9999", "inner work")],
        String::new(),
    );

    assert_eq!(shown(&p), ["ddd9999"]);
    assert_eq!(pop_scope(&mut p), Some(String::new()));
    assert_eq!(shown(&p), ["fff5555", "eee4444"], "one level back");
    assert_eq!(p.scope_label.as_deref(), Some("merge ccc3333"));

    assert_eq!(pop_scope(&mut p), Some(String::new()));
    assert_eq!(shown(&p), ["ccc3333", "bbb2222", "aaa1111"], "the root");
    assert_eq!(p.scope_label, None);
}

#[test]
fn popping_the_root_scope_reports_nothing_to_pop() {
    let mut p = picker(history(), &[], "ccc3333");
    assert_eq!(pop_scope(&mut p), None);
    assert_eq!(shown(&p), ["ccc3333", "bbb2222", "aaa1111"], "list untouched");
}

#[test]
fn a_column_sizes_to_the_whole_list_not_the_visible_rows() {
    let mut long = history();
    long.push(commit("ddd4444", "a summary long enough to widen its column"));
    let p = picker(long, &[], "ccc3333");

    let title = p.col_widest[CommitColumn::Title.index()];
    assert_eq!(
        title, 41,
        "the widest title sizes the column even though it is the last row"
    );
    assert!(
        p.window(0, 2)
            .iter()
            .all(|row| row.cells[CommitColumn::Title.index()].text.len() < title as usize),
        "and no row in the first window is that wide, so the measure is not local"
    );
}

#[test]
fn a_window_ends_with_the_list() {
    let p = picker(history(), &[], "ccc3333");
    let texts: Vec<String> = p.window(1, 9).iter().map(|row| row.cells[0].text.clone()).collect();
    assert_eq!(texts, ["bbb2222", "aaa1111"]);
    assert!(p.window(3, 2).is_empty());
    assert!(p.window(0, 0).is_empty());
}

#[test]
fn the_graph_hides_as_soon_as_a_filter_reorders_the_list() {
    let mut p = picker(history(), &[], "ccc3333");
    assert_eq!(p.graph_lanes, Some(1), "a linear history lays out one lane");

    refilter(&mut p, "gadget");
    assert_eq!(
        p.graph_lanes, None,
        "a filtered list is no longer the sequence the graph indexes"
    );

    refilter(&mut p, "");
    assert_eq!(p.graph_lanes, Some(1), "clearing the query restores it");
}

#[test]
fn moving_the_selection_drops_the_diff_scroll() {
    let mut p = picker(history(), &[], "ccc3333");
    p.preview_scroll = 4;
    p.move_selection(-1);
    assert_eq!(p.preview_scroll, 4, "nothing moved");
    p.move_selection(1);
    assert_eq!(
        p.preview_scroll, 0,
        "the scroll does not survive onto a different commit's diff"
    );
}

#[test]
fn a_walk_arrives_filtered_by_the_query_it_is_given() {
    let mut p = Picker::new(
        CommitPickerRole::PickBase,
        "/repo".to_string(),
        "c3d4e5f6".to_string(),
        1_700_000_000 + 3 * 86_400 + 3_600,
    );
    let commits = vec![
        commit("c3d4e5f6", "feat: add b.rs"),
        commit("b2c3d4e5", "chore: tweak a"),
        commit("a1b2c3d4", "feat: add a.rs"),
    ];
    let ranking = Ranking { order: vec![1], matches: vec![] };
    p.set_commits(commits, tips(&[("main", "c3d4e5f6"), ("feature", "b2c3d4e5")]), "tweak", ranking);

    assert_eq!(p.commits.len(), 3, "the whole walk is held");
    assert_eq!(p.filtered.len(), 1, "only the row the query names is listed");
    assert_eq!(
        p.selected_commit().map(|c| c.sha.clone()),
        Some("b2c3d4e5".to_string()),
        "and the selection starts on a row the query kept"
    );
}

#[test]
fn offsets_of_a_row_past_the_stored_ones_are_derived() {
    let mut p = picker(history(), &[("main", "ccc3333")], "ccc3333");
    p.filter_column = Some(CommitColumn::Title);
    p.refilter("e", Ranking { order: vec![1, 0], matches: vec![vec![1]] });
    assert_eq!(p.row_indices(0, vec![7]), [10]);
    assert_eq!(p.row_indices(1, vec![6]), [19]);
    assert_eq!(p.row_indices(2, vec![6]), Vec::<u32>::new());
    refilter(&mut p, " ");
    p.match_indices.clear();
    assert_eq!(p.row_indices(0, vec![6]), Vec::<u32>::new());
}
