//! The commits view: the pages of the log fetched so far, where the selection
//! stands in them, and the previews built for the commits it rested on.

use crate::host::CommitInfo;
use crate::poll::Polled;
use crate::strmap::StrMap;
use crate::text::same;
use vstd::prelude::*;

verus! {

/// Commits whose built preview a surface keeps around.
pub const PREVIEW_CACHE_CAP: usize = 8;

// ---------------------------------------------------------------------------
// The preview cache
// ---------------------------------------------------------------------------

/// Built previews for the commits a surface's selection has rested on, capped
/// so a long history cannot grow one without bound. Past
/// [`PREVIEW_CACHE_CAP`] the least recently used is dropped.
pub struct PreviewCache<S> {
    /// Cached sessions by sha, least recently used first, so eviction takes
    /// the front.
    recent: Vec<(String, S)>,
}

/// Where `sha` stands in a list of cached sessions, counting from `from`.
pub open spec fn position<S>(entries: Seq<(Seq<char>, S)>, sha: Seq<char>, from: int) -> Option<int>
    decreases entries.len() - from,
{
    if from >= entries.len() {
        None
    } else if entries[from].0 == sha {
        Some(from)
    } else {
        position(entries, sha, from + 1)
    }
}

/// `entries` without the session of `sha`.
pub open spec fn without<S>(entries: Seq<(Seq<char>, S)>, sha: Seq<char>) -> Seq<(Seq<char>, S)> {
    match position(entries, sha, 0) {
        Some(at) => entries.remove(at),
        None => entries,
    }
}

/// The newest `cap` of `entries`.
pub open spec fn newest<S>(entries: Seq<(Seq<char>, S)>, cap: nat) -> Seq<(Seq<char>, S)> {
    if entries.len() > cap {
        entries.skip(entries.len() - cap)
    } else {
        entries
    }
}

proof fn lemma_position<S>(entries: Seq<(Seq<char>, S)>, sha: Seq<char>, from: int)
    requires
        0 <= from,
    ensures
        match position(entries, sha, from) {
            Some(at) => from <= at < entries.len() && entries[at].0 == sha && forall|i: int|
                from <= i < at ==> (#[trigger] entries[i]).0 != sha,
            None => forall|i: int| from <= i < entries.len() ==> (#[trigger] entries[i]).0 != sha,
        },
    decreases entries.len() - from,
{
    if from < entries.len() && entries[from].0 != sha {
        lemma_position(entries, sha, from + 1);
    }
}

impl<S> View for PreviewCache<S> {
    type V = Seq<(Seq<char>, S)>;

    /// The cached sessions by sha, least recently used first.
    closed spec fn view(&self) -> Seq<(Seq<char>, S)> {
        Seq::new(self.recent@.len(), |i: int| (self.recent@[i].0@, self.recent@[i].1))
    }
}

impl<S> PreviewCache<S> {
    /// No sha is cached twice, and the cap holds.
    pub open spec fn wf(&self) -> bool {
        &&& self@.len() <= PREVIEW_CACHE_CAP
        &&& forall|i: int, j: int|
            0 <= i < j < self@.len() ==> (#[trigger] self@[i]).0 != (#[trigger] self@[j]).0
    }

    pub fn new() -> (cache: Self)
        ensures
            cache.wf(),
            cache@.len() == 0,
    {
        PreviewCache { recent: Vec::new() }
    }

    fn find(&self, sha: &str) -> (at: Option<usize>)
        ensures
            match at {
                Some(i) => position(self@, sha@, 0) == Some(i as int),
                None => position(self@, sha@, 0) is None,
            },
    {
        let mut i: usize = 0;
        while i < self.recent.len()
            invariant
                i <= self.recent.len(),
                position(self@, sha@, 0) == position(self@, sha@, i as int),
            decreases self.recent.len() - i,
        {
            assert(self@[i as int].0 == self.recent@[i as int].0@);
            if same(self.recent[i].0.as_str(), sha) {
                return Some(i);
            }
            i = i + 1;
        }
        None
    }

    /// Whether `sha` is cached, marking it most recently used when it is.
    ///
    /// This is the call a preview sync makes to decide whether to build, so
    /// asking and recording are the same act.
    pub fn mark_used(&mut self, sha: &str) -> (cached: bool)
        requires
            old(self).wf(),
        ensures
            final(self).wf(),
            cached == (position(old(self)@, sha@, 0) is Some),
            match position(old(self)@, sha@, 0) {
                Some(at) => final(self)@ == old(self)@.remove(at).push(old(self)@[at]),
                None => final(self)@ == old(self)@,
            },
    {
        proof {
            lemma_position(self@, sha@, 0);
        }
        match self.find(sha) {
            Some(at) => {
                let entry = self.recent.remove(at);
                self.recent.push(entry);
                assert(self@ =~= old(self)@.remove(at as int).push(old(self)@[at as int]));
                true
            },
            None => false,
        }
    }

    /// The session built for `sha`, without counting as a use.
    pub fn get(&self, sha: &str) -> (session: Option<&S>)
        ensures
            match position(self@, sha@, 0) {
                Some(at) => session == Some(&self@[at].1),
                None => session is None,
            },
    {
        match self.find(sha) {
            Some(at) => {
                proof {
                    lemma_position(self@, sha@, 0);
                }
                Some(&self.recent[at].1)
            },
            None => None,
        }
    }

    /// Cache `session` as the most recently used, dropping the least recently
    /// used when that puts the cache over the cap.
    pub fn insert(&mut self, sha: String, session: S)
        requires
            old(self).wf(),
        ensures
            final(self).wf(),
            final(self)@ == newest(
                without(old(self)@, sha@).push((sha@, session)),
                PREVIEW_CACHE_CAP as nat,
            ),
    {
        proof {
            lemma_position(self@, sha@, 0);
        }
        match self.find(sha.as_str()) {
            Some(at) => {
                self.recent.remove(at);
            },
            None => {},
        }
        assert(self@ =~= without(old(self)@, sha@));
        assert(forall|i: int| 0 <= i < self@.len() ==> (#[trigger] self@[i]).0 != sha@);
        let ghost kept = self@;
        self.recent.push((sha, session));
        assert(self@ =~= kept.push((sha@, session)));
        let ghost grown = self@;
        if self.recent.len() > PREVIEW_CACHE_CAP {
            self.recent.remove(0);
            assert(self@ =~= grown.skip(1));
        }
    }

    /// Drop every cached session, for a walk starting over on different
    /// commits.
    pub fn clear(&mut self)
        ensures
            final(self).wf(),
            final(self)@.len() == 0,
    {
        self.recent.clear();
    }
}

impl<S> Default for PreviewCache<S> {
    fn default() -> (cache: Self)
        ensures
            cache.wf(),
            cache@.len() == 0,
    {
        Self::new()
    }
}

/// A session just cached is the one that a read gives back.
pub proof fn inserted_session_is_read_back<S>(
    before: Seq<(Seq<char>, S)>,
    sha: Seq<char>,
    session: S,
)
    requires
        before.len() <= PREVIEW_CACHE_CAP,
        forall|i: int, j: int|
            0 <= i < j < before.len() ==> (#[trigger] before[i]).0 != (#[trigger] before[j]).0,
    ensures
        ({
            let after = newest(
                without(before, sha).push((sha, session)),
                PREVIEW_CACHE_CAP as nat,
            );
            position(after, sha, 0) matches Some(at) && after[at].1 == session
        }),
{
    lemma_position(before, sha, 0);
    let kept = without(before, sha);
    assert(forall|i: int| 0 <= i < kept.len() ==> (#[trigger] kept[i]).0 != sha);
    let after = newest(kept.push((sha, session)), PREVIEW_CACHE_CAP as nat);
    assert(after.last() == (sha, session));
    lemma_position(after, sha, 0);
    assert(forall|i: int| 0 <= i < after.len() - 1 ==> (#[trigger] after[i]).0 != sha);
}

/// A sha marked used survives the next insertion of another one, even into a
/// full cache.
pub proof fn used_session_survives_the_next_insertion<S>(
    before: Seq<(Seq<char>, S)>,
    at: int,
    other: Seq<char>,
    session: S,
)
    requires
        before.len() <= PREVIEW_CACHE_CAP,
        0 <= at < before.len(),
        before[at].0 != other,
    ensures
        ({
            let used = before.remove(at).push(before[at]);
            let after = newest(
                without(used, other).push((other, session)),
                PREVIEW_CACHE_CAP as nat,
            );
            after.contains(before[at])
        }),
{
    let used = before.remove(at).push(before[at]);
    lemma_position(used, other, 0);
    let kept = without(used, other);
    assert(kept.last() == before[at]);
    let after = newest(kept.push((other, session)), PREVIEW_CACHE_CAP as nat);
    assert(after[after.len() - 2] == before[at]);
}

// ---------------------------------------------------------------------------
// The list
// ---------------------------------------------------------------------------

/// State of the commits view.
///
/// The log is virtualized: `commits` holds only the pages fetched so far, and
/// a load is in flight when the cursor approaches the tail. Previews are lazy
/// too: each selected sha has one built in the background.
pub struct CommitListState<S, C> {
    pub workdir: String,
    pub commits: Vec<CommitInfo>,
    /// True once the walk behind the list hit a root commit.
    pub reached_end: bool,
    pub selected: usize,
    pub scroll_top: usize,
    /// Rows visible in the list on the most recent render, zero until then.
    pub viewport_rows: usize,
    /// Whether a page is being loaded.
    pub pending_load: bool,
    /// The files that each commit changed, by sha, as far as they are known.
    pub summaries: StrMap<Vec<C>>,
    pub preview_sessions: PreviewCache<S>,
    /// The sha whose preview is being built.
    pub pending_preview: Option<String>,
    /// Last sha a preview was requested for.
    pub requested_preview: Option<String>,
}

/// The topmost row that shows `selected` in a window of `height` rows, moving
/// as little as possible from `top`.
pub open spec fn top_showing(selected: int, top: int, height: int) -> int {
    if height == 0 {
        top
    } else if selected < top {
        selected
    } else if selected >= top + height {
        selected + 1 - height
    } else {
        top
    }
}

/// The window that [`top_showing`] gives holds the selection, and asking
/// again moves nothing.
pub proof fn selection_stays_in_the_window(selected: int, top: int, height: int)
    requires
        0 <= selected,
        0 <= top,
        0 < height,
    ensures
        0 <= top_showing(selected, top, height),
        top_showing(selected, top, height) <= selected < top_showing(selected, top, height)
            + height,
        top_showing(selected, top_showing(selected, top, height), height) == top_showing(
            selected,
            top,
            height,
        ),
{
}

impl<S, C> CommitListState<S, C> {
    /// Everything but the selection and the scroll position is as in `other`.
    pub open spec fn same_content(&self, other: &Self) -> bool {
        &&& self.workdir == other.workdir
        &&& self.commits == other.commits
        &&& self.reached_end == other.reached_end
        &&& self.viewport_rows == other.viewport_rows
        &&& self.pending_load == other.pending_load
        &&& self.summaries == other.summaries
        &&& self.preview_sessions == other.preview_sessions
        &&& self.pending_preview == other.pending_preview
        &&& self.requested_preview == other.requested_preview
    }

    pub fn new(workdir: String) -> (state: Self)
        ensures
            state.workdir == workdir,
            state.commits@.len() == 0,
            !state.reached_end,
            state.selected == 0,
            state.scroll_top == 0,
            state.viewport_rows == 0,
            !state.pending_load,
            state.summaries@ == Map::<Seq<char>, Vec<C>>::empty(),
            state.preview_sessions.wf(),
            state.preview_sessions@.len() == 0,
            state.pending_preview is None,
            state.requested_preview is None,
    {
        CommitListState {
            workdir,
            commits: Vec::new(),
            reached_end: false,
            selected: 0,
            scroll_top: 0,
            viewport_rows: 0,
            pending_load: false,
            summaries: StrMap::new(),
            preview_sessions: PreviewCache::new(),
            pending_preview: None,
            requested_preview: None,
        }
    }

    pub fn selected_sha(&self) -> (sha: Option<&str>)
        ensures
            match sha {
                Some(s) => self.selected < self.commits@.len() && s@
                    == self.commits@[self.selected as int].sha@,
                None => self.selected >= self.commits@.len(),
            },
    {
        if self.selected < self.commits.len() {
            Some(self.commits[self.selected].sha.as_str())
        } else {
            None
        }
    }

    /// Keep `selected` within `[scroll_top, scroll_top + height)`.
    pub fn ensure_selected_visible(&mut self, height: usize)
        requires
            old(self).scroll_top + height <= usize::MAX,
        ensures
            final(self).scroll_top == top_showing(
                old(self).selected as int,
                old(self).scroll_top as int,
                height as int,
            ),
            final(self).selected == old(self).selected,
            final(self).same_content(old(self)),
    {
        if height == 0 {
            return ;
        }
        if self.selected < self.scroll_top {
            self.scroll_top = self.selected;
        } else if self.selected >= self.scroll_top + height {
            self.scroll_top = self.selected - height + 1;
        }
    }

    /// Move selection down by `step`, clamping at the last loaded commit.
    /// Returns true if the position changed.
    pub fn move_down(&mut self, step: usize) -> (moved: bool)
        requires
            old(self).selected + step <= usize::MAX,
        ensures
            old(self).commits@.len() == 0 ==> final(self).selected == old(self).selected,
            old(self).commits@.len() > 0 ==> final(self).selected == (if old(self).selected + step
                < old(self).commits@.len() {
                old(self).selected + step
            } else {
                old(self).commits@.len() - 1
            }),
            moved == (final(self).selected != old(self).selected),
            final(self).scroll_top == old(self).scroll_top,
            final(self).same_content(old(self)),
    {
        if self.commits.len() == 0 {
            return false;
        }
        let max: usize = self.commits.len() - 1;
        let prev: usize = self.selected;
        let target: usize = self.selected + step;
        self.selected = if target < max { target } else { max };
        self.selected != prev
    }

    /// Move selection up by `step`, stopping at the first commit. Returns true
    /// if the position changed.
    pub fn move_up(&mut self, step: usize) -> (moved: bool)
        ensures
            final(self).selected == (if old(self).selected >= step {
                old(self).selected - step
            } else {
                0
            }),
            moved == (final(self).selected != old(self).selected),
            final(self).scroll_top == old(self).scroll_top,
            final(self).same_content(old(self)),
    {
        let prev: usize = self.selected;
        self.selected = self.selected.saturating_sub(step);
        self.selected != prev
    }

    /// Select the first commit. Returns true if the position changed.
    pub fn move_to_first(&mut self) -> (moved: bool)
        ensures
            final(self).selected == 0,
            moved == (old(self).selected != 0),
            final(self).scroll_top == old(self).scroll_top,
            final(self).same_content(old(self)),
    {
        let prev: usize = self.selected;
        self.selected = 0;
        self.selected != prev
    }

    /// Select the last loaded commit. Returns true if the position changed.
    pub fn move_to_last(&mut self) -> (moved: bool)
        ensures
            final(self).selected == (if old(self).commits@.len() == 0 {
                old(self).selected as int
            } else {
                old(self).commits@.len() - 1
            }),
            moved == (final(self).selected != old(self).selected),
            final(self).scroll_top == old(self).scroll_top,
            final(self).same_content(old(self)),
    {
        if self.commits.len() == 0 {
            return false;
        }
        let prev: usize = self.selected;
        self.selected = self.commits.len() - 1;
        self.selected != prev
    }

    /// Take what polling the log load gave. A page joins the list, an empty
    /// one means that the walk is at its end. Returns true when a result
    /// landed.
    pub fn poll_pending_load(&mut self, polled: Polled<Vec<CommitInfo>>) -> (landed: bool)
        ensures
            landed == (old(self).pending_load && polled is Ready),
            !landed ==> *final(self) == *old(self),
            landed ==> !final(self).pending_load && final(self).commits@ == old(self).commits@
                + polled->0@ && final(self).reached_end == (old(self).reached_end
                || polled->0@.len() == 0) && final(self).workdir == old(self).workdir
                && final(self).selected == old(self).selected && final(self).scroll_top
                == old(self).scroll_top && final(self).viewport_rows == old(self).viewport_rows
                && final(self).preview_sessions == old(self).preview_sessions
                && final(self).pending_preview == old(self).pending_preview
                && final(self).requested_preview == old(self).requested_preview
                && final(self).summaries == old(self).summaries,
    {
        if !self.pending_load {
            return false;
        }
        match polled {
            Polled::Ready(page) => {
                let mut page = page;
                self.pending_load = false;
                if page.len() == 0 {
                    self.reached_end = true;
                    assert(self.commits@ =~= old(self).commits@ + page@);
                } else {
                    self.commits.append(&mut page);
                }
                true
            },
            Polled::Pending => false,
        }
    }

    /// Take what polling the preview build gave. A session is cached under the
    /// sha it was built for; a build that came to nothing only clears the
    /// slot. Returns true when a result landed.
    pub fn poll_pending_preview(&mut self, polled: Polled<Option<S>>) -> (landed: bool)
        requires
            old(self).preview_sessions.wf(),
        ensures
            final(self).preview_sessions.wf(),
            landed == (old(self).pending_preview is Some && polled is Ready),
            !landed ==> *final(self) == *old(self),
            landed ==> final(self).pending_preview is None && final(self).preview_sessions@ == (
            match polled->0 {
                Some(session) => newest(
                    without(
                        old(self).preview_sessions@,
                        old(self).pending_preview->0@,
                    ).push((old(self).pending_preview->0@, session)),
                    PREVIEW_CACHE_CAP as nat,
                ),
                None => old(self).preview_sessions@,
            }),
            final(self).workdir == old(self).workdir,
            final(self).commits == old(self).commits,
            final(self).reached_end == old(self).reached_end,
            final(self).selected == old(self).selected,
            final(self).scroll_top == old(self).scroll_top,
            final(self).viewport_rows == old(self).viewport_rows,
            final(self).pending_load == old(self).pending_load,
            final(self).requested_preview == old(self).requested_preview,
            final(self).summaries == old(self).summaries,
    {
        if self.pending_preview.is_none() {
            return false;
        }
        match polled {
            Polled::Ready(built) => {
                let pending: Option<String> = self.pending_preview.take();
                match (pending, built) {
                    (Some(sha), Some(session)) => {
                        self.preview_sessions.insert(sha, session);
                    },
                    _ => {},
                }
                true
            },
            Polled::Pending => false,
        }
    }
}

// ---------------------------------------------------------------------------
// Laws
// ---------------------------------------------------------------------------

/// A session is found exactly where one is kept for the commit, and it is that
/// one.
pub proof fn a_kept_session_is_found<S>(entries: Seq<(Seq<char>, S)>, sha: Seq<char>)
    ensures
        match position(entries, sha, 0) {
            Some(at) => 0 <= at < entries.len() && entries[at].0 == sha,
            None => forall|i: int| 0 <= i < entries.len() ==> (#[trigger] entries[i]).0 != sha,
        },
{
    lemma_position(entries, sha, 0);
}

/// Keeping a session gives up at most the one used longest ago, and only where
/// there is no room: every other session is still kept.
pub proof fn only_the_oldest_session_makes_room<S>(
    before: Seq<(Seq<char>, S)>,
    sha: Seq<char>,
    session: S,
    i: int,
)
    requires
        before.len() <= 8,
        forall|a: int, b: int|
            0 <= a < b < before.len() ==> (#[trigger] before[a]).0 != (#[trigger] before[b]).0,
        0 <= i < before.len(),
        before[i].0 != sha,
        i > 0 || before.len() < 8 || exists|k: int|
            0 <= k < before.len() && (#[trigger] before[k]).0 == sha,
    ensures
        newest(
            without(before, sha).push((sha, session)),
            PREVIEW_CACHE_CAP as nat,
        ).contains(before[i]),
        newest(without(before, sha).push((sha, session)), PREVIEW_CACHE_CAP as nat).len()
            <= 8,
{
    let cap = PREVIEW_CACHE_CAP as nat;
    lemma_position(before, sha, 0);
    let rest = without(before, sha);
    let all = rest.push((sha, session));
    let after = newest(all, cap);
    match position(before, sha, 0) {
        Some(at) => {
            let j = if i < at { i } else { i - 1 };
            assert(all[j] == before[i]);
            assert(all.len() <= cap);
            assert(after[j] == before[i]);
        },
        None => {
            assert(all[i] == before[i]);
            if all.len() > cap {
                assert(after[i - 1] == before[i]);
            } else {
                assert(after[i] == before[i]);
            }
        },
    }
}

/// The list scrolls no further than it has to: not at all while the selection
/// is in view, else until it is the first or the last row.
pub proof fn the_list_scrolls_no_further_than_needed(selected: int, top: int, height: int)
    requires
        0 <= selected,
        0 <= top,
        0 <= height,
    ensures
        height == 0 ==> top_showing(selected, top, height) == top,
        height > 0 && top <= selected < top + height ==> top_showing(selected, top, height) == top,
        height > 0 && selected < top ==> top_showing(selected, top, height) == selected,
        height > 0 && selected >= top + height ==> top_showing(selected, top, height) + height - 1
            == selected,
{
}

} // verus!
