use stoat::commit_list::{CommitListState, PreviewCache, PREVIEW_CACHE_CAP};
use stoat::host::CommitInfo;
use stoat::poll::Polled;

fn cache_session(cache: &mut PreviewCache<String>, sha: &str) {
    cache.insert(sha.to_owned(), format!("session {sha}"));
}

/// A cache holding `count` sessions, `sha0` the least recently used.
fn filled_cache(count: usize) -> PreviewCache<String> {
    let mut cache = PreviewCache::default();
    for n in 0..count {
        cache_session(&mut cache, &format!("sha{n}"));
    }
    cache
}

fn held(cache: &PreviewCache<String>, shas: &[&str]) -> Vec<bool> {
    shas.iter().map(|sha| cache.get(sha).is_some()).collect()
}

#[test]
fn caching_past_the_cap_drops_the_least_recently_used() {
    let mut cache = filled_cache(PREVIEW_CACHE_CAP);
    cache_session(&mut cache, "overflow");

    assert_eq!(
        held(&cache, &["sha0", "sha1", "overflow"]),
        [false, true, true],
        "the oldest goes, the rest and the newcomer stay"
    );
}

#[test]
fn marking_an_older_sha_used_spares_it_from_the_next_eviction() {
    let mut cache = filled_cache(PREVIEW_CACHE_CAP);

    assert!(cache.mark_used("sha0"), "the oldest is still cached");
    cache_session(&mut cache, "overflow");

    assert_eq!(
        held(&cache, &["sha0", "sha1", "overflow"]),
        [true, false, true],
        "the sha just used is spared and the one behind it goes instead"
    );
}

#[test]
fn marking_a_sha_that_was_never_cached_reports_it_missing() {
    let mut cache = filled_cache(1);
    assert_eq!(
        [cache.mark_used("sha0"), cache.mark_used("absent")],
        [true, false],
        "only a cached sha counts as a use"
    );
}

#[test]
fn clearing_drops_every_session() {
    let mut cache = filled_cache(3);
    cache.clear();
    assert_eq!(
        held(&cache, &["sha0", "sha1", "sha2"]),
        [false, false, false],
        "a restarted walk previews nothing it cached for the old one"
    );
}

#[test]
fn caching_a_sha_again_replaces_its_session() {
    let mut cache = filled_cache(2);
    cache.insert("sha0".to_string(), "anew".to_string());
    assert_eq!(cache.get("sha0"), Some(&"anew".to_string()));
    assert_eq!(cache.get("sha1"), Some(&"session sha1".to_string()));
}

fn commit(sha: &str) -> CommitInfo {
    CommitInfo {
        sha: sha.to_string(),
        short_sha: sha.to_string(),
        summary: String::new(),
        author_name: String::new(),
        author_email: String::new(),
        time: 0,
        parents: Vec::new(),
    }
}

/// The state after opening a history of three commits, newest first.
fn opened() -> CommitListState<String, String> {
    let mut state = CommitListState::new("/repo".to_string());
    state.pending_load = true;
    let page = vec![commit("c1000003"), commit("c1000002"), commit("c1000001")];
    assert!(state.poll_pending_load(Polled::Ready(page)));
    state.pending_load = true;
    assert!(state.poll_pending_load(Polled::Ready(Vec::new())));
    state
}

#[test]
fn open_commits_selects_head_by_default() {
    let state = opened();
    assert_eq!(state.selected, 0);
    assert_eq!(state.commits.first().map(|c| c.sha.as_str()), Some("c1000003"));
    assert_eq!(state.commits.len(), 3);
    assert!(state.reached_end);
}

#[test]
fn navigate_caches_selected_preview() {
    let mut state = opened();
    assert!(state.move_down(1));
    assert_eq!(state.selected, 1);
    let sha = state.commits[state.selected].sha.clone();
    state.pending_preview = Some(sha.clone());
    assert!(state.poll_pending_preview(Polled::Ready(Some("built".to_string()))));
    assert!(
        state.preview_sessions.get(&sha).is_some(),
        "preview for selected sha must be cached after settle"
    );
    assert!(!state.summaries.contains_key(&sha));
    state.summaries.insert(sha.clone(), vec!["a.rs".to_string()]);
    assert!(state.summaries.contains_key(&sha), "summary for selected sha must be cached");

    // What lands later leaves it there.
    state.pending_load = true;
    assert!(state.poll_pending_load(Polled::Ready(vec![commit("c1000000")])));
    state.pending_preview = Some("c1000001".to_string());
    assert!(state.poll_pending_preview(Polled::Ready(Some("more".to_string()))));
    assert_eq!(state.summaries.get(&sha), Some(&vec!["a.rs".to_string()]));
}

#[test]
fn a_load_in_flight_changes_nothing() {
    let mut state = opened();
    assert!(!state.poll_pending_load(Polled::Ready(vec![commit("x")])));
    state.pending_load = true;
    assert!(!state.poll_pending_load(Polled::Pending));
    assert_eq!(state.commits.len(), 3);
    assert!(state.pending_load);
    assert!(!state.poll_pending_preview(Polled::Ready(None)));
    state.pending_preview = Some("c1000001".to_string());
    assert!(!state.poll_pending_preview(Polled::Pending));
    assert!(state.poll_pending_preview(Polled::Ready(None)));
    assert_eq!(state.pending_preview, None);
    assert!(state.preview_sessions.get("c1000001").is_none());
}

#[test]
fn the_selection_stops_at_the_ends() {
    let mut state = opened();
    assert!(!state.move_up(1));
    assert!(state.move_down(9));
    assert_eq!(state.selected, 2);
    assert!(!state.move_to_last());
    assert!(state.move_to_first());
    assert!(state.move_to_last());
    assert_eq!(state.selected_sha(), Some("c1000001"));
    assert!(state.move_up(2));
    assert!(!state.move_to_first());
    let mut empty: CommitListState<String, String> = CommitListState::new("/repo".to_string());
    assert!(!empty.move_down(1));
    assert!(!empty.move_to_last());
    assert_eq!(empty.selected_sha(), None);
}

#[test]
fn the_window_follows_the_selection() {
    let mut state = opened();
    state.selected = 5;
    state.ensure_selected_visible(3);
    assert_eq!(state.scroll_top, 3);
    state.ensure_selected_visible(3);
    assert_eq!(state.scroll_top, 3);
    state.selected = 1;
    state.ensure_selected_visible(3);
    assert_eq!(state.scroll_top, 1);
    state.selected = 9;
    state.ensure_selected_visible(0);
    assert_eq!(state.scroll_top, 1);
}
