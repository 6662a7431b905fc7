//! The debounce arms and drains that turn bursts of filesystem noise into
//! work.
//!
//! A watcher reports every write a build makes, an editor's save reports
//! several events for one file, and a checkout reports thousands at once.
//! Reacting to each one directly would reindex, re-diff, and re-search far more
//! than the user changed, so each consumer here collects paths into a pending
//! set and arms a timer. The drains run from the app's update loop and hand
//! over whatever the window collected.
//!
//! An armed timer is the time it expires at. Times are in milliseconds.

use crate::paths::{
    components, has_name, is_named, join_path, joined_path, parent, parent_path, path_starts_with,
    same_path,
};
use crate::text::texts;
use vstd::prelude::*;

verus! {

/// Quiet window after the last filesystem-watch event before the work that
/// event triggers runs.
pub const FS_WATCH_DEBOUNCE: u64 = 50;

/// Quiet window after the last parse of a buffer before its symbols are
/// extracted again.
pub const INDEX_EDIT_DEBOUNCE: u64 = 500;

/// How long a session's work stays unpersisted before the active workspace is
/// written again.
///
/// A crash or a kill loses whatever happened inside the open window, so this is
/// the bound on that loss rather than a quiet period to wait out. It paces a
/// throttle, not a debounce. The window opens on the first input after a save
/// and later input does not push it back, because a reset-on-input debounce
/// never fires at all under sustained typing, which is when the loss costs
/// most.
pub const WORKSPACE_AUTOSAVE_THROTTLE: u64 = 5000;

/// External-change paths [`Debounce::drain_pending_index_edits`] hands over in
/// one pass.
pub const INDEX_EXTERNAL_DRAIN_CAP: usize = 256;

/// Edited paths above which [`Debounce::drain_pending_diff_warm_files`] gives
/// up on warming them one at a time and defers to the whole-changeset warm.
pub const DIFF_WARM_BATCH_MAX: usize = 64;

/// Directory verdicts the cache holds before dropping the lot. Far above the
/// directory count of any one build, so the bound is a backstop against a
/// pathological tree rather than a working limit.
pub const IGNORED_DIR_CACHE_MAX: usize = 8192;

/// Watch events drained in one turn, so a pathological burst cannot starve the
/// event loop.
pub const FS_WATCH_DRAIN_CAP: usize = 256;

/// Quiet window after the last code-search keystroke before the workspace scan
/// spawns.
pub const CODE_SEARCH_DEBOUNCE: u64 = 150;

/// Longer debounce for AST search, whose scan parses every same-language file
/// per query and so costs more than a regex sweep.
pub const CODE_SEARCH_AST_DEBOUNCE: u64 = 300;

/// What happened to a path.
#[derive(Debug, Clone, Copy, PartialEq, Eq, Structural)]
pub enum FsEventKind {
    Created,
    Modified,
    Removed,
    Renamed,
}

/// One event of the watch.
#[derive(Debug, PartialEq, Eq)]
pub struct FsWatchEvent {
    pub path: String,
    pub kind: FsEventKind,
}

/// What the host says about an event's path. Only what
/// [`Debounce::questions`] asks for is read.
#[derive(Debug, Clone, Copy, PartialEq, Eq, Structural)]
pub struct HostAnswers {
    /// Whether the repository ignores the directory that the path is in.
    pub parent_ignored: bool,
    /// Whether the repository ignores the path itself.
    pub path_ignored: bool,
    /// Whether a language is known for the path.
    pub has_language: bool,
    /// Whether the path is a directory.
    pub is_dir: bool,
}

/// What there is to ask the host about an event's path.
#[derive(Debug, PartialEq, Eq)]
pub struct Questions {
    /// The directory to ask the repository about, where no verdict is kept.
    pub parent: Option<String>,
    /// Whether to ask the repository about the path itself.
    pub path: bool,
    /// Whether to ask if the path is a directory.
    pub is_dir: bool,
}

/// What is to be done about an event besides waiting for the timers.
#[derive(Debug, Clone, Copy, PartialEq, Eq, Structural)]
pub struct Routed {
    /// Watch the path too: it is a directory that was created.
    pub watch: bool,
}

/// A directory, and whether the repository ignores it.
#[derive(Debug, PartialEq, Eq)]
pub struct DirVerdict {
    pub dir: String,
    pub ignored: bool,
}

/// What the index does about a file changed outside the editor.
#[derive(Debug, Clone, Copy, PartialEq, Eq, Structural)]
pub enum Reindex {
    /// The path lies outside the repository.
    Outside,
    /// The index already describes what is there.
    Unchanged,
    /// The file is read and indexed anew.
    Extract,
    /// The file is gone and leaves the index.
    Remove,
}

/// A code search that is open.
#[derive(Debug, Clone, Copy, PartialEq, Eq, Structural)]
pub struct CodeSearch {
    /// Whether it matches syntax trees rather than text.
    pub is_ast: bool,
    /// Whether the query is one that cannot be read.
    pub invalid_pattern: bool,
}

/// The pending sets and the timers.
pub struct Debounce {
    /// The root of the repository.
    pub git_root: String,
    /// Whether diffs are warmed in the background at all.
    pub diff_warm_auto: bool,
    /// The setting that switches the warming off.
    pub review_precompute: Option<bool>,
    /// The verdicts asked for so far.
    pub ignored_dir_cache: Vec<DirVerdict>,
    /// Bumped when a list of the files in the tree would come out different.
    pub finder_path_epoch: u64,
    pub pending_diff_refresh: Option<u64>,
    pub pending_workspace_autosave: Option<u64>,
    pub diff_warm_pending_paths: Vec<String>,
    pub diff_warm_file_timer: Option<u64>,
    pub index_pending_external_edits: Vec<String>,
    pub index_external_edit_timer: Option<u64>,
    /// Whether the diffs of the active workspace were warmed.
    pub diff_warmed: bool,
    pub code_search: Option<CodeSearch>,
    /// The query that waits, and the time it is due at.
    pub code_search_debounce: Option<(String, u64)>,
    /// Whether a scan is in flight.
    pub pending_code_search: bool,
}

// ---------------------------------------------------------------------------
// The model
// ---------------------------------------------------------------------------

/// The part of the state that watch events change, as plain values.
pub struct Watched {
    pub cache: Seq<(Seq<char>, bool)>,
    pub epoch: int,
    pub diff_refresh: Option<u64>,
    pub warm_paths: Seq<Seq<char>>,
    pub warm_timer: Option<u64>,
    pub index_paths: Seq<Seq<char>>,
    pub index_timer: Option<u64>,
}

pub open spec fn verdicts(cache: Seq<DirVerdict>) -> Seq<(Seq<char>, bool)> {
    Seq::new(cache.len(), |i: int| (cache[i].dir@, cache[i].ignored))
}

/// The path is in the directory, or is it.
pub open spec fn is_under(path: Seq<char>, dir: Seq<char>) -> bool {
    components(dir).is_prefix_of(components(path))
}

/// The verdict kept about a directory, among the first `n`.
pub open spec fn kept_verdict(cache: Seq<(Seq<char>, bool)>, dir: Seq<char>, n: nat) -> Option<bool>
    decreases n,
{
    if n == 0 {
        None
    } else {
        match kept_verdict(cache, dir, (n - 1) as nat) {
            Some(ignored) => Some(ignored),
            None => if components(cache[n - 1].0) == components(dir) {
                Some(cache[n - 1].1)
            } else {
                None
            },
        }
    }
}

/// The path stands in the set.
pub open spec fn holds_path(paths: Seq<Seq<char>>, path: Seq<char>) -> bool {
    exists|i: int| 0 <= i < paths.len() && components(#[trigger] paths[i]) == components(path)
}

/// The set with the path in it.
pub open spec fn with_path(paths: Seq<Seq<char>>, path: Seq<char>) -> Seq<Seq<char>> {
    if holds_path(paths, path) {
        paths
    } else {
        paths.push(path)
    }
}

/// The timer of a window: opened by the first path, left alone by later ones.
pub open spec fn window(paths: Seq<Seq<char>>, timer: Option<u64>, now: u64) -> Option<u64> {
    if paths.len() == 0 {
        Some((now + FS_WATCH_DEBOUNCE) as u64)
    } else {
        timer
    }
}

/// Whether the diffs of edited files are warmed.
pub open spec fn precomputes(auto: bool, setting: Option<bool>) -> bool {
    auto && setting != Some(false)
}

/// Whether `path` sits in an ignored directory, and the verdicts kept after
/// asking. `asked` is what the repository says of that directory, for when no
/// verdict is kept.
pub open spec fn parent_verdict(
    cache: Seq<(Seq<char>, bool)>,
    path: Seq<char>,
    root: Seq<char>,
    asked: bool,
) -> (bool, Seq<(Seq<char>, bool)>) {
    if !is_under(path, root) {
        (false, cache)
    } else {
        match parent(path) {
            None => (false, cache),
            Some(dir) => match kept_verdict(cache, dir, cache.len()) {
                Some(ignored) => (ignored, cache),
                None => {
                    let room = if cache.len() >= IGNORED_DIR_CACHE_MAX {
                        Seq::empty()
                    } else {
                        cache
                    };
                    (asked, room.push((dir, asked)))
                },
            },
        }
    }
}

/// The event adds a path to the tree or takes one from it.
pub open spec fn moves_paths(kind: FsEventKind) -> bool {
    kind == FsEventKind::Created || kind == FsEventKind::Removed || kind == FsEventKind::Renamed
}

/// The state once the rules that an event may have changed are forgotten.
pub open spec fn rules_noted(w: Watched, path: Seq<char>, root: Seq<char>) -> Watched {
    let in_git_dir = is_under(path, joined_path(root, ".git"@));
    let is_gitignore = is_named(path, ".gitignore"@);
    Watched {
        cache: if in_git_dir || is_gitignore {
            Seq::empty()
        } else {
            w.cache
        },
        epoch: if is_gitignore {
            w.epoch + 1
        } else {
            w.epoch
        },
        ..w
    }
}

/// The state after an event, and whether its path is to be watched.
///
/// A write in the git directory stales the diffs and does nothing else; an
/// edited file of the tree warms its own diff and is reindexed; what happens in an ignored directory
/// is build churn that nobody wants.
pub open spec fn after_event(
    w: Watched,
    path: Seq<char>,
    kind: FsEventKind,
    answers: HostAnswers,
    root: Seq<char>,
    precompute: bool,
    now: u64,
) -> (Watched, bool) {
    let in_git_dir = is_under(path, joined_path(root, ".git"@));
    let in_root = is_under(path, root);
    let noted = rules_noted(w, path, root);
    let (ignored, cache) = parent_verdict(noted.cache, path, root, answers.parent_ignored);
    if !in_git_dir && ignored {
        (Watched { cache, ..noted }, false)
    } else {
        let listed = !in_git_dir && in_root && moves_paths(kind);
        let warms = !in_git_dir && precompute && in_root && !answers.path_ignored;
        let indexes = !in_git_dir && in_root && answers.has_language;
        (
            Watched {
                cache: if in_git_dir {
                    noted.cache
                } else {
                    cache
                },
                epoch: if listed {
                    noted.epoch + 1
                } else {
                    noted.epoch
                },
                diff_refresh: if in_git_dir {
                    Some((now + FS_WATCH_DEBOUNCE) as u64)
                } else {
                    w.diff_refresh
                },
                warm_paths: if warms {
                    with_path(w.warm_paths, path)
                } else {
                    w.warm_paths
                },
                warm_timer: if warms {
                    window(w.warm_paths, w.warm_timer, now)
                } else {
                    w.warm_timer
                },
                index_paths: if indexes {
                    with_path(w.index_paths, path)
                } else {
                    w.index_paths
                },
                index_timer: if indexes {
                    window(w.index_paths, w.index_timer, now)
                } else {
                    w.index_timer
                },
            },
            listed && kind == FsEventKind::Created && answers.is_dir,
        )
    }
}

/// The state after the first `n` events.
pub open spec fn after_events(
    w: Watched,
    events: Seq<(FsWatchEvent, HostAnswers)>,
    root: Seq<char>,
    precompute: bool,
    now: u64,
    n: nat,
) -> Watched
    decreases n,
{
    if n == 0 {
        w
    } else {
        let before = after_events(w, events, root, precompute, now, (n - 1) as nat);
        let (event, answers) = events[n - 1];
        after_event(before, event.path@, event.kind, answers, root, precompute, now).0
    }
}

/// The autosave window after input: the one that is open, else a fresh one.
pub open spec fn save_window(pending: Option<u64>, now: u64) -> Option<u64> {
    match pending {
        Some(at) => Some(at),
        None => Some((now + WORKSPACE_AUTOSAVE_THROTTLE) as u64),
    }
}

/// The timer has expired.
pub open spec fn is_due(timer: Option<u64>, now: u64) -> bool {
    timer is Some && timer->0 <= now
}

fn due(timer: Option<u64>, now: u64) -> (r: bool)
    ensures
        r == is_due(timer, now),
{
    match timer {
        Some(at) => at <= now,
        None => false,
    }
}

// ---------------------------------------------------------------------------
// Watch events
// ---------------------------------------------------------------------------

fn insert_path(paths: &mut Vec<String>, path: &str)
    ensures
        texts(final(paths)@) == with_path(texts(old(paths)@), path@),
{
    let ghost before = texts(paths@);
    let mut i: usize = 0;
    while i < paths.len()
        invariant
            i <= paths.len(),
            before == texts(paths@),
            paths@ == old(paths)@,
            forall|k: int|
                0 <= k < i ==> components((#[trigger] paths@[k])@) != components(path@),
        decreases paths.len() - i,
    {
        if same_path(paths[i].as_str(), path) {
            assert(components(before[i as int]) == components(path@));
            return ;
        }
        i = i + 1;
    }
    assert(!holds_path(before, path@)) by {
        if holds_path(before, path@) {
            let k = choose|k: int|
                0 <= k < before.len() && components(#[trigger] before[k]) == components(path@);
            assert(before[k] == paths@[k]@);
        }
    }
    paths.push(path.to_owned());
    assert(texts(paths@) =~= before.push(path@));
}

impl Debounce {
    /// The part of the state that watch events change.
    pub open spec fn watched(&self) -> Watched {
        Watched {
            cache: verdicts(self.ignored_dir_cache@),
            epoch: self.finder_path_epoch as int,
            diff_refresh: self.pending_diff_refresh,
            warm_paths: texts(self.diff_warm_pending_paths@),
            warm_timer: self.diff_warm_file_timer,
            index_paths: texts(self.index_pending_external_edits@),
            index_timer: self.index_external_edit_timer,
        }
    }

    /// Apart from what watch events change, `self` is as `before`.
    pub open spec fn rest_is(&self, before: Self) -> bool {
        *self == (Debounce {
            ignored_dir_cache: self.ignored_dir_cache,
            finder_path_epoch: self.finder_path_epoch,
            pending_diff_refresh: self.pending_diff_refresh,
            diff_warm_pending_paths: self.diff_warm_pending_paths,
            diff_warm_file_timer: self.diff_warm_file_timer,
            index_pending_external_edits: self.index_pending_external_edits,
            index_external_edit_timer: self.index_external_edit_timer,
            ..before
        })
    }

    /// Nothing pending and no timer armed.
    pub fn new(git_root: String, diff_warm_auto: bool, review_precompute: Option<bool>) -> (d: Self)
        ensures
            d.git_root == git_root,
            d.diff_warm_auto == diff_warm_auto,
            d.review_precompute == review_precompute,
            d.watched().cache.len() == 0,
            d.finder_path_epoch == 0,
            d.pending_diff_refresh is None,
            d.pending_workspace_autosave is None,
            d.diff_warm_pending_paths@.len() == 0,
            d.diff_warm_file_timer is None,
            d.index_pending_external_edits@.len() == 0,
            d.index_external_edit_timer is None,
            !d.diff_warmed,
            d.code_search is None,
            d.code_search_debounce is None,
            !d.pending_code_search,
    {
        Debounce {
            git_root,
            diff_warm_auto,
            review_precompute,
            ignored_dir_cache: Vec::new(),
            finder_path_epoch: 0,
            pending_diff_refresh: None,
            pending_workspace_autosave: None,
            diff_warm_pending_paths: Vec::new(),
            diff_warm_file_timer: None,
            index_pending_external_edits: Vec::new(),
            index_external_edit_timer: None,
            diff_warmed: false,
            code_search: None,
            code_search_debounce: None,
            pending_code_search: false,
        }
    }

    fn kept(&self, dir: &str) -> (verdict: Option<bool>)
        ensures
            verdict == kept_verdict(
                verdicts(self.ignored_dir_cache@),
                dir@,
                self.ignored_dir_cache@.len(),
            ),
    {
        let mut verdict: Option<bool> = None;
        let mut n: usize = 0;
        while n < self.ignored_dir_cache.len()
            invariant
                n <= self.ignored_dir_cache@.len(),
                verdict == kept_verdict(verdicts(self.ignored_dir_cache@), dir@, n as nat),
            decreases self.ignored_dir_cache@.len() - n,
        {
            assert(verdicts(self.ignored_dir_cache@)[n as int] == (
                self.ignored_dir_cache@[n as int].dir@,
                self.ignored_dir_cache@[n as int].ignored,
            ));
            if verdict.is_none() && same_path(self.ignored_dir_cache[n].dir.as_str(), dir) {
                verdict = Some(self.ignored_dir_cache[n].ignored);
            }
            n = n + 1;
        }
        verdict
    }

    /// Whether `path` sits in a gitignored directory, answering from the cache
    /// when the directory has been asked about before. `asked` is what the
    /// repository says of the directory, for when it has not.
    ///
    /// Asks about the parent rather than `path` itself, which is what makes
    /// the answer reusable, since one query then covers every file a build
    /// writes into that directory. Paths outside the root have no verdict and
    /// report false.
    pub fn parent_dir_ignored(&mut self, path: &str, asked: bool) -> (ignored: bool)
        ensures
            ({
                let (verdict, cache) = parent_verdict(
                    old(self).watched().cache,
                    path@,
                    old(self).git_root@,
                    asked,
                );
                ignored == verdict && final(self).watched() == (Watched {
                    cache,
                    ..old(self).watched()
                })
            }),
            final(self).rest_is(*old(self)),
    {
        if !path_starts_with(path, self.git_root.as_str()) {
            return false;
        }
        let dir = match parent_path(path) {
            Some(dir) => dir,
            None => {
                return false;
            },
        };
        assert(verdicts(self.ignored_dir_cache@).len() == self.ignored_dir_cache@.len());
        match self.kept(dir.as_str()) {
            Some(ignored) => {
                return ignored;
            },
            None => {},
        }
        // A bound rather than an eviction policy, because the working set here
        // is the directories one build touches. Dropping all of it costs at
        // most one query per directory the next batch revisits.
        if self.ignored_dir_cache.len() >= IGNORED_DIR_CACHE_MAX {
            self.ignored_dir_cache.clear();
            assert(verdicts(self.ignored_dir_cache@) =~= Seq::empty());
        }
        let ghost room = verdicts(self.ignored_dir_cache@);
        self.ignored_dir_cache.push(DirVerdict { dir, ignored: asked });
        assert(verdicts(self.ignored_dir_cache@) =~= room.push((dir@, asked)));
        asked
    }

    /// Forget what an event at `path` may have changed, before any verdict is
    /// read: a `.gitignore` edit drained alongside later paths in the same
    /// batch cannot leave them resolving against the rules it just replaced.
    fn note_rules(&mut self, in_git_dir: bool, is_gitignore: bool)
        requires
            old(self).finder_path_epoch < u64::MAX,
        ensures
            final(self).watched() == (Watched {
                cache: if in_git_dir || is_gitignore {
                    Seq::empty()
                } else {
                    old(self).watched().cache
                },
                epoch: if is_gitignore {
                    old(self).watched().epoch + 1
                } else {
                    old(self).watched().epoch
                },
                ..old(self).watched()
            }),
            final(self).rest_is(*old(self)),
    {
        if in_git_dir || is_gitignore {
            self.ignored_dir_cache.clear();
            assert(verdicts(self.ignored_dir_cache@) =~= Seq::empty());
        }
        // The rules deciding which files a walk yields just moved, so the
        // cached list was built under different ones.
        if is_gitignore {
            self.finder_path_epoch = self.finder_path_epoch + 1;
        }
    }

    fn precompute(&self) -> (r: bool)
        ensures
            r == precomputes(self.diff_warm_auto, self.review_precompute),
    {
        self.diff_warm_auto && match self.review_precompute {
            Some(on) => on,
            None => true,
        }
    }

    /// What there is to ask the host about an event before it is routed.
    pub fn questions(&self, event: &FsWatchEvent) -> (q: Questions)
        ensures
            ({
                let path = event.path@;
                let root = self.git_root@;
                let in_git_dir = is_under(path, joined_path(root, ".git"@));
                let in_root = is_under(path, root);
                let cache = rules_noted(self.watched(), path, root).cache;
                &&& match q.parent {
                    Some(dir) => !in_git_dir && in_root && parent(path) == Some(dir@)
                        && kept_verdict(cache, dir@, cache.len()) is None,
                    None => in_git_dir || !in_root || parent(path) is None || kept_verdict(
                        cache,
                        parent(path)->0,
                        cache.len(),
                    ) is Some,
                }
                &&& q.path == (!in_git_dir && in_root && precomputes(
                    self.diff_warm_auto,
                    self.review_precompute,
                ))
                &&& q.is_dir == (!in_git_dir && in_root && event.kind == FsEventKind::Created)
            }),
    {
        let path = event.path.as_str();
        let git_dir = join_path(self.git_root.as_str(), ".git");
        let in_git_dir: bool = path_starts_with(path, git_dir.as_str());
        let in_root: bool = path_starts_with(path, self.git_root.as_str());
        let forgotten: bool = in_git_dir || has_name(path, ".gitignore");
        assert(verdicts(self.ignored_dir_cache@).len() == self.ignored_dir_cache@.len());
        let dir: Option<String> = if in_git_dir || !in_root {
            None
        } else {
            match parent_path(path) {
                Some(dir) => if !forgotten && self.kept(dir.as_str()).is_some() {
                    None
                } else {
                    Some(dir)
                },
                None => None,
            }
        };
        Questions {
            parent: dir,
            path: !in_git_dir && in_root && self.precompute(),
            is_dir: !in_git_dir && in_root && event.kind == FsEventKind::Created,
        }
    }

    /// Route one event of the watch to the debounce its path calls for.
    pub fn route_fs_watch_event(
        &mut self,
        event: &FsWatchEvent,
        answers: &HostAnswers,
        now: u64,
    ) -> (routed: Routed)
        requires
            old(self).finder_path_epoch + 2 <= u64::MAX,
            now + FS_WATCH_DEBOUNCE <= u64::MAX,
        ensures
            ({
                let (watched, watch) = after_event(
                    old(self).watched(),
                    event.path@,
                    event.kind,
                    *answers,
                    old(self).git_root@,
                    precomputes(old(self).diff_warm_auto, old(self).review_precompute),
                    now,
                );
                final(self).watched() == watched && routed.watch == watch
            }),
            final(self).rest_is(*old(self)),
            final(self).finder_path_epoch <= old(self).finder_path_epoch + 2,
    {
        let path = event.path.as_str();
        let git_dir = join_path(self.git_root.as_str(), ".git");
        let in_git_dir: bool = path_starts_with(path, git_dir.as_str());
        let is_gitignore: bool = has_name(path, ".gitignore");
        self.note_rules(in_git_dir, is_gitignore);

        // A whole ignored directory is build churn, so none of the arms below
        // want it.
        if !in_git_dir && self.parent_dir_ignored(path, answers.parent_ignored) {
            return Routed { watch: false };
        }
        let in_root: bool = path_starts_with(path, self.git_root.as_str());
        let mut watch: bool = false;

        // Anything that adds or removes a path makes a cached walk list wrong,
        // and a plain content edit does not.
        if !in_git_dir && in_root && (event.kind == FsEventKind::Created || event.kind
            == FsEventKind::Removed || event.kind == FsEventKind::Renamed) {
            self.finder_path_epoch = self.finder_path_epoch + 1;
            // Watches are per directory, so one created after startup is
            // invisible until it gets its own.
            watch = event.kind == FsEventKind::Created && answers.is_dir;
        }
        if in_git_dir {
            self.arm_diff_refresh_debounce(now);
        } else if in_root && self.precompute() {
            // An edited working-tree file warms its own diff, unless
            // gitignored so build churn cannot thrash the recompute.
            if !answers.path_ignored {
                self.arm_diff_warm_file_debounce(path, now);
            }
        }
        if !in_git_dir && in_root && answers.has_language {
            self.arm_index_external_edit_debounce(path, now);
        }
        Routed { watch }
    }

    /// Route a batch of events, each with what the host says about it. Returns
    /// the paths to watch too.
    pub fn drain_fs_watch_events(
        &mut self,
        events: &Vec<(FsWatchEvent, HostAnswers)>,
        now: u64,
    ) -> (watch: Vec<String>)
        requires
            events@.len() <= FS_WATCH_DRAIN_CAP,
            old(self).finder_path_epoch + 2 * FS_WATCH_DRAIN_CAP <= u64::MAX,
            now + FS_WATCH_DEBOUNCE <= u64::MAX,
        ensures
            final(self).watched() == after_events(
                old(self).watched(),
                events@,
                old(self).git_root@,
                precomputes(old(self).diff_warm_auto, old(self).review_precompute),
                now,
                events@.len(),
            ),
            final(self).rest_is(*old(self)),
            texts(watch@) == to_watch(
                old(self).watched(),
                events@,
                old(self).git_root@,
                precomputes(old(self).diff_warm_auto, old(self).review_precompute),
                now,
                events@.len(),
            ),
    {
        let mut watch: Vec<String> = Vec::new();
        assert(texts(watch@) =~= Seq::empty());
        for n in 0..events.len()
            invariant
                events@.len() <= FS_WATCH_DRAIN_CAP,
                old(self).finder_path_epoch + 2 * FS_WATCH_DRAIN_CAP <= u64::MAX,
                now + FS_WATCH_DEBOUNCE <= u64::MAX,
                self.finder_path_epoch <= old(self).finder_path_epoch + 2 * n,
                self.watched() == after_events(
                    old(self).watched(),
                    events@,
                    old(self).git_root@,
                    precomputes(old(self).diff_warm_auto, old(self).review_precompute),
                    now,
                    n as nat,
                ),
                self.rest_is(*old(self)),
                texts(watch@) == to_watch(
                    old(self).watched(),
                    events@,
                    old(self).git_root@,
                    precomputes(old(self).diff_warm_auto, old(self).review_precompute),
                    now,
                    n as nat,
                ),
        {
            let (event, answers) = &events[n];
            let ghost was = texts(watch@);
            let routed = self.route_fs_watch_event(event, answers, now);
            if routed.watch {
                watch.push(event.path.clone());
                assert(texts(watch@) =~= was.push(event.path@));
            }
        }
        watch
    }

    /// Schedule a debounced diff invalidation after a git-state change.
    ///
    /// The debounce is single-slot rather than per-path, so re-arming drops
    /// the prior timer. A burst of writes from one commit then fires a single
    /// invalidation once the window elapses.
    fn arm_diff_refresh_debounce(&mut self, now: u64)
        requires
            now + FS_WATCH_DEBOUNCE <= u64::MAX,
        ensures
            *final(self) == (Debounce {
                pending_diff_refresh: Some((now + FS_WATCH_DEBOUNCE) as u64),
                ..*old(self)
            }),
    {
        self.pending_diff_refresh = Some(now + FS_WATCH_DEBOUNCE);
    }

    /// Collect `path` for a debounced diff warm after an external change.
    ///
    /// A burst shares one window rather than getting a timer each. The window
    /// opens on the first path and covers every path that arrives before it
    /// closes, so a checkout costs one task however many files it touches.
    fn arm_diff_warm_file_debounce(&mut self, path: &str, now: u64)
        requires
            now + FS_WATCH_DEBOUNCE <= u64::MAX,
        ensures
            final(self).watched() == (Watched {
                warm_paths: with_path(old(self).watched().warm_paths, path@),
                warm_timer: window(
                    old(self).watched().warm_paths,
                    old(self).watched().warm_timer,
                    now,
                ),
                ..old(self).watched()
            }),
            final(self).rest_is(*old(self)),
            final(self).finder_path_epoch == old(self).finder_path_epoch,
    {
        let opening: bool = self.diff_warm_pending_paths.len() == 0;
        assert(texts(self.diff_warm_pending_paths@).len() == self.diff_warm_pending_paths@.len());
        insert_path(&mut self.diff_warm_pending_paths, path);
        if opening {
            self.diff_warm_file_timer = Some(now + FS_WATCH_DEBOUNCE);
        }
    }

    /// Collect `path` for a debounced reindex after an external change. The
    /// window opens on the first path and covers every path that arrives
    /// before it closes.
    fn arm_index_external_edit_debounce(&mut self, path: &str, now: u64)
        requires
            now + FS_WATCH_DEBOUNCE <= u64::MAX,
        ensures
            final(self).watched() == (Watched {
                index_paths: with_path(old(self).watched().index_paths, path@),
                index_timer: window(
                    old(self).watched().index_paths,
                    old(self).watched().index_timer,
                    now,
                ),
                ..old(self).watched()
            }),
            final(self).rest_is(*old(self)),
            final(self).finder_path_epoch == old(self).finder_path_epoch,
    {
        let opening: bool = self.index_pending_external_edits.len() == 0;
        assert(texts(self.index_pending_external_edits@).len()
            == self.index_pending_external_edits@.len());
        insert_path(&mut self.index_pending_external_edits, path);
        if opening {
            self.index_external_edit_timer = Some(now + FS_WATCH_DEBOUNCE);
        }
    }

    /// Open the autosave window if it is closed, so the active workspace is
    /// persisted [`WORKSPACE_AUTOSAVE_THROTTLE`] from now.
    ///
    /// Returns without touching an already-armed slot, which is what makes
    /// this a throttle rather than a debounce. Re-arming pushes the write back
    /// for as long as the user keeps typing, and a save that never lands under
    /// sustained work is the case this exists to cover.
    pub fn arm_workspace_autosave(&mut self, now: u64)
        requires
            now + WORKSPACE_AUTOSAVE_THROTTLE <= u64::MAX,
        ensures
            *final(self) == (Debounce {
                pending_workspace_autosave: save_window(
                    old(self).pending_workspace_autosave,
                    now,
                ),
                ..*old(self)
            }),
    {
        if self.pending_workspace_autosave.is_some() {
            return ;
        }
        self.pending_workspace_autosave = Some(now + WORKSPACE_AUTOSAVE_THROTTLE);
    }

    /// Whether the active workspace is to be saved now. If so the window
    /// closes, so the next input opens a fresh one.
    pub fn drain_pending_workspace_autosave(&mut self, now: u64) -> (save: bool)
        ensures
            save == is_due(old(self).pending_workspace_autosave, now),
            *final(self) == (Debounce {
                pending_workspace_autosave: if save {
                    None
                } else {
                    old(self).pending_workspace_autosave
                },
                ..*old(self)
            }),
    {
        if due(self.pending_workspace_autosave, now) {
            self.pending_workspace_autosave = None;
            true
        } else {
            false
        }
    }

    /// Whether every open diff is stale now, the head having moved under them.
    /// The background warm is owed with them, since every cached base moved.
    pub fn drain_pending_diff_refresh(&mut self, now: u64) -> (stale: bool)
        ensures
            stale == is_due(old(self).pending_diff_refresh, now),
            *final(self) == (if stale {
                (Debounce { pending_diff_refresh: None, diff_warmed: false, ..*old(self) })
            } else {
                *old(self)
            }),
    {
        if due(self.pending_diff_refresh, now) {
            self.pending_diff_refresh = None;
            self.diff_warmed = false;
            true
        } else {
            false
        }
    }

    /// The edited paths to warm now, their debounce window having closed.
    ///
    /// Two kinds of batch go to the whole-changeset warm instead. One is a
    /// batch past [`DIFF_WARM_BATCH_MAX`]. The other is a batch that arrives
    /// while the whole warm is already owed, which a git write in the same
    /// window causes and which also holds before the first warm of a workspace
    /// runs. Both drop the set and owe the whole warm.
    pub fn drain_pending_diff_warm_files(&mut self, now: u64) -> (warm: Option<Vec<String>>)
        ensures
            !is_due(old(self).diff_warm_file_timer, now) ==> warm is None && *final(self) == *old(
                self,
            ),
            is_due(old(self).diff_warm_file_timer, now) ==> {
                let on = precomputes(old(self).diff_warm_auto, old(self).review_precompute);
                let whole = old(self).pending_diff_refresh is Some || !old(self).diff_warmed
                    || old(self).diff_warm_pending_paths@.len() > DIFF_WARM_BATCH_MAX;
                &&& final(self).diff_warm_pending_paths@.len() == 0
                &&& *final(self) == (Debounce {
                    diff_warm_file_timer: None,
                    diff_warm_pending_paths: final(self).diff_warm_pending_paths,
                    diff_warmed: old(self).diff_warmed && !(on && whole),
                    ..*old(self)
                })
                &&& match warm {
                    Some(paths) => on && !whole && paths == old(self).diff_warm_pending_paths,
                    None => !on || whole,
                }
            },
    {
        if !due(self.diff_warm_file_timer, now) {
            return None;
        }
        self.diff_warm_file_timer = None;
        let mut paths: Vec<String> = Vec::new();
        std::mem::swap(&mut paths, &mut self.diff_warm_pending_paths);
        if !self.precompute() {
            return None;
        }
        let owed: bool = self.pending_diff_refresh.is_some() || !self.diff_warmed;
        if owed || paths.len() > DIFF_WARM_BATCH_MAX {
            self.diff_warmed = false;
            return None;
        }
        Some(paths)
    }

    /// The external-change paths to reindex now, their debounce window having
    /// closed.
    ///
    /// Takes at most [`INDEX_EXTERNAL_DRAIN_CAP`] paths per pass and re-arms
    /// the window on whatever is left, so a checkout's worth of files goes out
    /// in paced batches rather than all in one turn.
    pub fn drain_pending_index_edits(&mut self, now: u64) -> (batch: Option<Vec<String>>)
        requires
            now + FS_WATCH_DEBOUNCE <= u64::MAX,
        ensures
            !is_due(old(self).index_external_edit_timer, now) ==> batch is None && *final(self)
                == *old(self),
            is_due(old(self).index_external_edit_timer, now) ==> (batch matches Some(paths) && {
                let all = old(self).index_pending_external_edits@;
                let count = if all.len() <= INDEX_EXTERNAL_DRAIN_CAP {
                    all.len() as int
                } else {
                    INDEX_EXTERNAL_DRAIN_CAP as int
                };
                &&& paths@ == all.take(count)
                &&& final(self).index_pending_external_edits@ == all.skip(count)
                &&& *final(self) == (Debounce {
                    index_pending_external_edits: final(self).index_pending_external_edits,
                    index_external_edit_timer: if count < all.len() {
                        Some((now + FS_WATCH_DEBOUNCE) as u64)
                    } else {
                        None
                    },
                    ..*old(self)
                })
            }),
    {
        if !due(self.index_external_edit_timer, now) {
            return None;
        }
        let mut batch: Vec<String> = Vec::new();
        std::mem::swap(&mut batch, &mut self.index_pending_external_edits);
        let count: usize = if batch.len() <= INDEX_EXTERNAL_DRAIN_CAP {
            batch.len()
        } else {
            INDEX_EXTERNAL_DRAIN_CAP
        };
        let ghost all = batch@;
        self.index_pending_external_edits = batch.split_off(count);
        assert(batch@ =~= all.take(count as int));
        assert(self.index_pending_external_edits@ =~= all.skip(count as int));
        self.index_external_edit_timer = if self.index_pending_external_edits.len() > 0 {
            Some(now + FS_WATCH_DEBOUNCE)
        } else {
            None
        };
        Some(batch)
    }

    /// What to do about a file changed outside the editor. `recorded` is the
    /// content hash that the index holds for it, `on_disk` that of the file as
    /// it is, or `None` where it no longer exists.
    ///
    /// A file whose content is the recorded one is skipped, since the editor's
    /// own save already indexed it. A path outside the repository is none of
    /// the index's business.
    pub fn reindex_external_path(&self, path: &str, recorded: Option<u64>, on_disk: Option<u64>) -> (todo:
        Reindex)
        ensures
            todo == (if !components(self.git_root@).is_prefix_of(components(path@)) {
                Reindex::Outside
            } else {
                match on_disk {
                    None => Reindex::Remove,
                    Some(hash) => if recorded == Some(hash) {
                        Reindex::Unchanged
                    } else {
                        Reindex::Extract
                    },
                }
            }),
    {
        if !path_starts_with(path, self.git_root.as_str()) {
            return Reindex::Outside;
        }
        match on_disk {
            None => Reindex::Remove,
            Some(hash) => match recorded {
                Some(known) => if known == hash {
                    Reindex::Unchanged
                } else {
                    Reindex::Extract
                },
                None => Reindex::Extract,
            },
        }
    }

    /// Point the code-search scan at `query`, debounced. `valid` is whether the
    /// open search can read it as a pattern.
    ///
    /// Drops any in-flight scan and arms a timer, so a burst of typing spawns
    /// one scan. An empty or invalid pattern cancels without arming, since an
    /// empty one would match every position. AST mode surfaces a non-empty,
    /// unreadable query as a placeholder.
    pub fn set_code_search_query(&mut self, query: String, valid: bool, now: u64)
        requires
            now + CODE_SEARCH_AST_DEBOUNCE <= u64::MAX,
        ensures
            match old(self).code_search {
                None => *final(self) == (Debounce {
                    pending_code_search: false,
                    code_search_debounce: None,
                    ..*old(self)
                }),
                Some(search) => *final(self) == (Debounce {
                    pending_code_search: false,
                    code_search: Some(
                        CodeSearch {
                            invalid_pattern: if search.is_ast {
                                query@.len() > 0 && !valid
                            } else {
                                search.invalid_pattern
                            },
                            ..search
                        },
                    ),
                    code_search_debounce: if valid && query@.len() > 0 {
                        Some(
                            (
                                query,
                                (now + (if search.is_ast {
                                    CODE_SEARCH_AST_DEBOUNCE
                                } else {
                                    CODE_SEARCH_DEBOUNCE
                                })) as u64,
                            ),
                        )
                    } else {
                        None
                    },
                    ..*old(self)
                }),
            },
    {
        self.pending_code_search = false;
        let search = match self.code_search {
            Some(search) => search,
            None => {
                self.code_search_debounce = None;
                return ;
            },
        };
        if search.is_ast {
            self.code_search = Some(
                CodeSearch {
                    is_ast: search.is_ast,
                    invalid_pattern: !query.as_str().is_empty() && !valid,
                },
            );
        }
        if !valid || query.as_str().is_empty() {
            self.code_search_debounce = None;
            return ;
        }
        let wait: u64 = if search.is_ast {
            CODE_SEARCH_AST_DEBOUNCE
        } else {
            CODE_SEARCH_DEBOUNCE
        };
        self.code_search_debounce = Some((query, now + wait));
    }

    /// The query to scan for now, its window having closed. One that outlived
    /// its search is dropped.
    pub fn drain_pending_code_search(&mut self, now: u64) -> (query: Option<String>)
        ensures
            match old(self).code_search_debounce {
                Some((text, at)) => if at <= now {
                    *final(self) == (Debounce { code_search_debounce: None, ..*old(self) })
                        && query == (if old(self).code_search is Some {
                        Some(text)
                    } else {
                        None
                    })
                } else {
                    *final(self) == *old(self) && query is None
                },
                None => *final(self) == *old(self) && query is None,
            },
    {
        let (text, at): (String, u64) = match self.code_search_debounce.take() {
            Some(waiting) => waiting,
            None => {
                return None;
            },
        };
        if at > now {
            self.code_search_debounce = Some((text, at));
            return None;
        }
        if self.code_search.is_none() {
            return None;
        }
        Some(text)
    }
}

/// The paths to watch after the first `n` events.
pub open spec fn to_watch(
    w: Watched,
    events: Seq<(FsWatchEvent, HostAnswers)>,
    root: Seq<char>,
    precompute: bool,
    now: u64,
    n: nat,
) -> Seq<Seq<char>>
    decreases n,
{
    if n == 0 {
        Seq::empty()
    } else {
        let before = after_events(w, events, root, precompute, now, (n - 1) as nat);
        let (event, answers) = events[n - 1];
        let watched = to_watch(w, events, root, precompute, now, (n - 1) as nat);
        if after_event(before, event.path@, event.kind, answers, root, precompute, now).1 {
            watched.push(event.path@)
        } else {
            watched
        }
    }
}

// ---------------------------------------------------------------------------
// Laws
// ---------------------------------------------------------------------------

/// What happens under an ignored directory arms nothing, whatever else the
/// host says about it.
pub proof fn build_churn_arms_nothing(
    w: Watched,
    path: Seq<char>,
    kind: FsEventKind,
    answers: HostAnswers,
    root: Seq<char>,
    precompute: bool,
    now: u64,
)
    requires
        !is_under(path, joined_path(root, ".git"@)),
        parent_verdict(
            rules_noted(w, path, root).cache,
            path,
            root,
            answers.parent_ignored,
        ).0,
    ensures
        ({
            let after = after_event(w, path, kind, answers, root, precompute, now).0;
            after.warm_paths == w.warm_paths && after.warm_timer == w.warm_timer
                && after.index_paths == w.index_paths && after.index_timer == w.index_timer
                && after.diff_refresh == w.diff_refresh
        }),
{
}

/// An edit of the ignore rules drops every verdict that was kept, so the next
/// event in a directory asks about it anew.
pub proof fn a_rule_edit_drops_every_verdict(
    w: Watched,
    path: Seq<char>,
    root: Seq<char>,
    dir: Seq<char>,
)
    requires
        is_named(path, ".gitignore"@) || is_under(path, joined_path(root, ".git"@)),
    ensures
        kept_verdict(
            rules_noted(w, path, root).cache,
            dir,
            rules_noted(w, path, root).cache.len(),
        ) is None,
{
}

proof fn lemma_kept_verdict_stays(
    cache: Seq<(Seq<char>, bool)>,
    more: (Seq<char>, bool),
    dir: Seq<char>,
    n: nat,
)
    requires
        n <= cache.len(),
    ensures
        kept_verdict(cache.push(more), dir, n) == kept_verdict(cache, dir, n),
    decreases n,
{
    if n > 0 {
        lemma_kept_verdict_stays(cache, more, dir, (n - 1) as nat);
    }
}

/// Once a directory was asked about, every path in it has the same verdict,
/// and what the repository would say now no longer matters.
pub proof fn a_verdict_is_asked_for_once(
    cache: Seq<(Seq<char>, bool)>,
    path: Seq<char>,
    sibling: Seq<char>,
    root: Seq<char>,
    asked: bool,
    later: bool,
)
    requires
        is_under(path, root),
        is_under(sibling, root),
        parent(path) is Some,
        parent(sibling) is Some,
        components(parent(path)->0) == components(parent(sibling)->0),
    ensures
        ({
            let (first, kept) = parent_verdict(cache, path, root, asked);
            parent_verdict(kept, sibling, root, later) == (first, kept)
        }),
{
    let dir = parent(path)->0;
    let other = parent(sibling)->0;
    lemma_same_verdict(cache, dir, other, cache.len());
    if kept_verdict(cache, dir, cache.len()) is None {
        let room = if cache.len() >= IGNORED_DIR_CACHE_MAX {
            Seq::empty()
        } else {
            cache
        };
        lemma_same_verdict(room, dir, other, room.len());
        lemma_kept_verdict_stays(room, (dir, asked), other, room.len());
        assert(room.push((dir, asked))[room.len() as int] == (dir, asked));
    }
}

proof fn lemma_same_verdict(
    cache: Seq<(Seq<char>, bool)>,
    dir: Seq<char>,
    other: Seq<char>,
    n: nat,
)
    requires
        n <= cache.len(),
        components(dir) == components(other),
    ensures
        kept_verdict(cache, dir, n) == kept_verdict(cache, other, n),
    decreases n,
{
    if n > 0 {
        lemma_same_verdict(cache, dir, other, (n - 1) as nat);
    }
}

/// The cache never holds more than its bound.
pub proof fn the_cache_stays_bounded(
    cache: Seq<(Seq<char>, bool)>,
    path: Seq<char>,
    root: Seq<char>,
    asked: bool,
)
    requires
        cache.len() <= IGNORED_DIR_CACHE_MAX,
    ensures
        parent_verdict(cache, path, root, asked).1.len() <= IGNORED_DIR_CACHE_MAX,
{
}

/// A pending set holds a path once, however often it is reported.
pub proof fn a_path_is_collected_once(paths: Seq<Seq<char>>, path: Seq<char>)
    ensures
        holds_path(with_path(paths, path), path),
        with_path(with_path(paths, path), path) == with_path(paths, path),
{
    if !holds_path(paths, path) {
        assert(components(paths.push(path)[paths.len() as int]) == components(path));
    }
}

/// Sustained input does not push an autosave back: input while the window is
/// open leaves it to close when it would have.
pub proof fn typing_does_not_delay_the_save(pending: Option<u64>, first: u64, later: u64)
    ensures
        save_window(save_window(pending, first), later) == save_window(pending, first),
{
}

/// A change to git's own files refreshes the diffs fifty milliseconds after the
/// last one, and neither warms nor indexes anything.
pub proof fn a_change_to_git_refreshes_the_diffs(
    w: Watched,
    path: Seq<char>,
    kind: FsEventKind,
    answers: HostAnswers,
    root: Seq<char>,
    precompute: bool,
    now: u64,
)
    requires
        is_under(path, joined_path(root, ".git"@)),
        now + FS_WATCH_DEBOUNCE <= u64::MAX,
    ensures
        ({
            let (after, watch) = after_event(w, path, kind, answers, root, precompute, now);
            &&& after.diff_refresh is Some && after.diff_refresh->0 == now + 50
            &&& after.warm_paths == w.warm_paths && after.warm_timer == w.warm_timer
            &&& after.index_paths == w.index_paths && after.index_timer == w.index_timer
            &&& !watch
        }),
{
}

/// A change in the tree, in a directory that is not ignored, is collected: for
/// the diffs, where they are warmed and the path is not ignored, and for the
/// index, where it is of a language. A path that is there already, however it is
/// spelled, is not collected again. The first path opens the window, and those
/// after it come under the same one. The diffs are not refreshed as a whole.
pub proof fn a_change_in_the_tree_is_collected(
    w: Watched,
    path: Seq<char>,
    kind: FsEventKind,
    answers: HostAnswers,
    root: Seq<char>,
    precompute: bool,
    now: u64,
)
    requires
        !is_under(path, joined_path(root, ".git"@)),
        is_under(path, root),
        !parent_verdict(
            rules_noted(w, path, root).cache,
            path,
            root,
            answers.parent_ignored,
        ).0,
        now + FS_WATCH_DEBOUNCE <= u64::MAX,
    ensures
        ({
            let (after, watch) = after_event(w, path, kind, answers, root, precompute, now);
            let known_warm = exists|i: int|
                0 <= i < w.warm_paths.len() && components(#[trigger] w.warm_paths[i])
                    == components(path);
            let known_index = exists|i: int|
                0 <= i < w.index_paths.len() && components(#[trigger] w.index_paths[i])
                    == components(path);
            &&& after.diff_refresh == w.diff_refresh
            &&& precompute && !answers.path_ignored && !known_warm ==> after.warm_paths
                == w.warm_paths.push(path)
            &&& !precompute || answers.path_ignored || known_warm ==> after.warm_paths
                == w.warm_paths
            &&& precompute && !answers.path_ignored && w.warm_paths.len() == 0
                ==> after.warm_timer is Some && after.warm_timer->0 == now + 50
            &&& w.warm_paths.len() > 0 ==> after.warm_timer == w.warm_timer
            &&& !precompute || answers.path_ignored ==> after.warm_timer == w.warm_timer
            &&& answers.has_language && !known_index ==> after.index_paths == w.index_paths.push(
                path,
            )
            &&& !answers.has_language || known_index ==> after.index_paths == w.index_paths
            &&& answers.has_language && w.index_paths.len() == 0 ==> after.index_timer is Some
                && after.index_timer->0 == now + 50
            &&& w.index_paths.len() > 0 || !answers.has_language ==> after.index_timer
                == w.index_timer
            &&& watch <==> kind == FsEventKind::Created && answers.is_dir
        }),
{
}

/// A list of the files is made anew after a file came, went or was renamed, and
/// after the rules for ignoring files changed; an edit does not change it.
pub proof fn the_list_of_files_is_made_anew(
    w: Watched,
    path: Seq<char>,
    kind: FsEventKind,
    answers: HostAnswers,
    root: Seq<char>,
    precompute: bool,
    now: u64,
)
    requires
        !is_under(path, joined_path(root, ".git"@)),
        is_under(path, root),
        !parent_verdict(
            rules_noted(w, path, root).cache,
            path,
            root,
            answers.parent_ignored,
        ).0,
    ensures
        ({
            let after = after_event(w, path, kind, answers, root, precompute, now).0;
            let moved = kind is Created || kind is Removed || kind is Renamed;
            &&& after.epoch > w.epoch <==> moved || is_named(path, ".gitignore"@)
            &&& after.epoch >= w.epoch
        }),
{
}

/// What happens outside the tree is nobody's business here.
pub proof fn what_is_outside_the_tree_does_not_matter(
    w: Watched,
    path: Seq<char>,
    kind: FsEventKind,
    answers: HostAnswers,
    root: Seq<char>,
    precompute: bool,
    now: u64,
)
    requires
        !is_under(path, joined_path(root, ".git"@)),
        !is_under(path, root),
        !is_named(path, ".gitignore"@),
    ensures
        after_event(w, path, kind, answers, root, precompute, now) == (w, false),
{
}

/// The events of a batch are routed one after the other, each from where the
/// one before left off, and each created directory among them is watched.
pub proof fn events_are_routed_in_turn(
    w: Watched,
    events: Seq<(FsWatchEvent, HostAnswers)>,
    root: Seq<char>,
    precompute: bool,
    now: u64,
    n: nat,
)
    requires
        n < events.len(),
    ensures
        after_events(w, events, root, precompute, now, 0) == w,
        to_watch(w, events, root, precompute, now, 0).len() == 0,
        ({
            let before = after_events(w, events, root, precompute, now, n);
            let (after, watch) = after_event(
                before,
                events[n as int].0.path@,
                events[n as int].0.kind,
                events[n as int].1,
                root,
                precompute,
                now,
            );
            let watched = to_watch(w, events, root, precompute, now, n);
            &&& after_events(w, events, root, precompute, now, n + 1) == after
            &&& to_watch(w, events, root, precompute, now, n + 1) == (if watch {
                watched.push(events[n as int].0.path@)
            } else {
                watched
            })
        }),
{
}

/// A verdict is kept for a directory exactly where one was asked for, under
/// whatever spelling, and it is the one that was given.
pub proof fn a_kept_verdict_is_the_one_given(cache: Seq<(Seq<char>, bool)>, dir: Seq<char>)
    ensures
        match kept_verdict(cache, dir, cache.len()) {
            Some(ignored) => exists|i: int|
                0 <= i < cache.len() && components((#[trigger] cache[i]).0) == components(dir)
                    && cache[i].1 == ignored,
            None => forall|i: int|
                0 <= i < cache.len() ==> components((#[trigger] cache[i]).0) != components(dir),
        },
{
    lemma_kept_verdict(cache, dir, cache.len());
}

proof fn lemma_kept_verdict(cache: Seq<(Seq<char>, bool)>, dir: Seq<char>, n: nat)
    requires
        n <= cache.len(),
    ensures
        match kept_verdict(cache, dir, n) {
            Some(ignored) => exists|i: int|
                0 <= i < n && components((#[trigger] cache[i]).0) == components(dir) && cache[i].1
                    == ignored,
            None => forall|i: int|
                0 <= i < n ==> components((#[trigger] cache[i]).0) != components(dir),
        },
    decreases n,
{
    if n > 0 {
        lemma_kept_verdict(cache, dir, (n - 1) as nat);
        match kept_verdict(cache, dir, (n - 1) as nat) {
            Some(ignored) => {
                let i = choose|i: int|
                    0 <= i < n - 1 && components((#[trigger] cache[i]).0) == components(dir)
                        && cache[i].1 == ignored;
                assert(components(cache[i].0) == components(dir));
            },
            None => {
                if components(cache[n - 1].0) == components(dir) {
                    assert(cache[n - 1].1 == kept_verdict(cache, dir, n)->0);
                }
            },
        }
    }
}

/// Whether the directory of a path is ignored is what the repository said of
/// it, now or when it was asked before.
pub proof fn the_repository_says_what_is_ignored(
    cache: Seq<(Seq<char>, bool)>,
    path: Seq<char>,
    root: Seq<char>,
    asked: bool,
)
    requires
        is_under(path, root),
        parent(path) is Some,
        forall|i: int|
            0 <= i < cache.len() ==> components((#[trigger] cache[i]).0) != components(
                parent(path)->0,
            ),
    ensures
        parent_verdict(cache, path, root, asked).0 == asked,
        parent_verdict(cache, path, root, asked).1.contains((parent(path)->0, asked)),
{
    lemma_kept_verdict(cache, parent(path)->0, cache.len());
    let kept = parent_verdict(cache, path, root, asked).1;
    if kept_verdict(cache, parent(path)->0, cache.len()) is Some {
        let i = choose|i: int|
            0 <= i < cache.len() && components((#[trigger] cache[i]).0) == components(
                parent(path)->0,
            ) && cache[i].1 == kept_verdict(cache, parent(path)->0, cache.len())->0;
        assert(components(cache[i].0) != components(parent(path)->0));
    }
    assert(kept[kept.len() - 1] == (parent(path)->0, asked));
}

/// Diffs are warmed unless that is switched off, here or in the settings.
pub proof fn warming_can_be_switched_off(auto: bool, setting: Option<bool>)
    ensures
        !auto ==> !precomputes(auto, setting),
        setting == Some(false) ==> !precomputes(auto, setting),
        auto && setting != Some(false) ==> precomputes(auto, setting),
{
}

/// The workspace is saved five seconds after the first change that was not
/// saved.
pub proof fn the_save_is_due_after_its_window(now: u64, at: u64, pending: Option<u64>)
    requires
        now + WORKSPACE_AUTOSAVE_THROTTLE <= u64::MAX,
    ensures
        pending is None ==> save_window(pending, now) is Some && save_window(pending, now)->0 == now
            + 5000,
        pending is Some ==> save_window(pending, now) == pending,
        is_due(pending, at) <==> pending is Some && pending->0 <= at,
{
}

} // verus!
