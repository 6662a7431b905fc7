//! A live three-way conflict resolution across a repository's conflicted
//! files.

use crate::diagnostic_spans::Anchor;
use std::collections::{HashMap, HashSet};
use vstd::prelude::*;
use vstd::std_specs::hash::group_hash_axioms;

verus! {

broadcast use group_hash_axioms;

/// The picks that decide a chunk.
#[derive(Debug, Clone, Copy, PartialEq, Eq, Structural)]
pub enum ConflictPick {
    Ours,
    Theirs,
    Both,
}

/// The in-progress resolution of one conflicted file, where `D` is the
/// three-way merge of its index stages and `P` the pick of a row.
pub struct FileResolveState<D, P> {
    /// Absolute path of the conflicted file.
    pub path: String,
    /// The three-way merge of the file's index stages.
    pub doc: D,
    /// Per-chunk row picks, one entry per chunk sized to its row count.
    pub picks: Vec<Vec<P>>,
    /// Start and end anchors of each chunk's region in the center buffer.
    pub chunk_anchors: Vec<(Anchor, Anchor)>,
    /// The center (result) buffer holding the editable merged text.
    pub buffer_id: u64,
    /// The center editor swapped into the pane.
    pub editor_id: u64,
}

/// A live three-way conflict resolution across a repository's conflicted files.
///
/// Owns the swapped-in center editor and the editor displaced from the
/// pane, so closing the view restores the plain file.
pub struct ConflictSession<D, P> {
    /// Repository work directory the conflicted paths sit under.
    pub workdir: String,
    /// Every conflicted path in the repository, in discovery order.
    pub files: Vec<String>,
    /// Index into [`Self::files`] of the file currently shown.
    pub current: usize,
    /// Resolve state of the file currently shown.
    pub file: FileResolveState<D, P>,
    /// The editor displaced from the focused pane when the view opened,
    /// restored there on close.
    pub saved_editor: u64,
    /// Arms the two-press guard that protects a hand-edited chunk from being
    /// silently overwritten by a whole-side pick.
    pub pending_clobber: Option<(usize, ConflictPick)>,
    /// In-progress resolve state of files visited and stepped away from, keyed
    /// by their index in [`Self::files`].
    ///
    /// Stepping to another file parks the outgoing [`Self::file`] here rather
    /// than rebuilding it, so returning restores its picks and scratch buffer.
    pub parked: HashMap<usize, FileResolveState<D, P>>,
    /// Indices in [`Self::files`] whose resolution has been written and marked
    /// resolved in the index.
    pub applied: HashSet<usize>,
}

/// Per-editor render cache for the three-column conflict view.
#[derive(Clone)]
pub struct ConflictViewState<D, P> {
    pub doc: D,
    /// Start and end anchors of each chunk's center region, so the renderer
    /// can resolve the current row span of a chunk and align the side columns
    /// to it.
    pub chunk_anchors: Vec<(Anchor, Anchor)>,
    /// Per-chunk row picks mirrored from the session.
    pub picks: Vec<Vec<P>>,
    pub file_index: usize,
    pub file_count: usize,
    pub rel_path: String,
}

/// What a pick does.
#[derive(Debug, Clone, Copy, PartialEq, Eq, Structural)]
pub enum PickOutcome {
    /// Warn that the chunk was edited by hand and leave it alone.
    Warn,
    /// Put the pick in the place of the chunk.
    Overwrite,
}

/// What a whole-side pick over `chunk` comes to where the guard is armed for
/// `armed`, and what it is armed for afterwards.
pub open spec fn guarded(
    armed: Option<(usize, ConflictPick)>,
    chunk: usize,
    pick: ConflictPick,
    hand_edited: bool,
) -> (PickOutcome, Option<(usize, ConflictPick)>) {
    if hand_edited && armed != Some((chunk, pick)) {
        (PickOutcome::Warn, Some((chunk, pick)))
    } else {
        (PickOutcome::Overwrite, None)
    }
}

/// A hand-edited chunk gives way only to the same pick made twice in a row: the
/// first press warns, its repeat overwrites and leaves the guard disarmed, and
/// another pick in between has to be repeated itself.
pub proof fn overwriting_a_hand_edit_takes_two_presses(
    armed: Option<(usize, ConflictPick)>,
    chunk: usize,
    pick: ConflictPick,
    other_chunk: usize,
    other: ConflictPick,
)
    requires
        armed != Some((chunk, pick)),
        (other_chunk, other) != (chunk, pick),
    ensures
        guarded(armed, chunk, pick, true).0 == PickOutcome::Warn,
        guarded(guarded(armed, chunk, pick, true).1, chunk, pick, true) == (
            PickOutcome::Overwrite,
            None::<(usize, ConflictPick)>,
        ),
        guarded(guarded(armed, chunk, pick, true).1, other_chunk, other, true).0
            == PickOutcome::Warn,
        guarded(None, chunk, pick, true).0 == PickOutcome::Warn,
{
}

impl<D, P> ConflictSession<D, P> {
    /// The file shown is one of the files, and is not parked.
    pub open spec fn wf(&self) -> bool {
        &&& self.current < self.files@.len()
        &&& !self.parked@.contains_key(self.current)
    }

    /// Decide a whole-side pick over `chunk`. `hand_edited` is whether its
    /// current text matches no pick.
    ///
    /// A pick over a hand-edited chunk arms the guard for that chunk and pick,
    /// and warns instead of editing. An immediate repeat of the identical pick
    /// clears it and overwrites. Any different pick re-arms for the new
    /// target.
    pub fn guard_pick(&mut self, chunk: usize, pick: ConflictPick, hand_edited: bool) -> (outcome:
        PickOutcome)
        ensures
            outcome == guarded(old(self).pending_clobber, chunk, pick, hand_edited).0,
            *final(self) == (ConflictSession {
                pending_clobber: guarded(old(self).pending_clobber, chunk, pick, hand_edited).1,
                ..*old(self)
            }),
    {
        let repeated: bool = match self.pending_clobber {
            Some((armed_chunk, armed_pick)) => armed_chunk == chunk && armed_pick == pick,
            None => false,
        };
        if hand_edited && !repeated {
            self.pending_clobber = Some((chunk, pick));
            PickOutcome::Warn
        } else {
            self.pending_clobber = None;
            PickOutcome::Overwrite
        }
    }

    /// Disarm the guard: another action came between two picks.
    pub fn disarm(&mut self)
        ensures
            *final(self) == (ConflictSession { pending_clobber: None, ..*old(self) }),
    {
        self.pending_clobber = None;
    }

    /// The file that stepping forward, or back, leads to. Stepping does not
    /// wrap.
    pub fn neighbour(&self, forward: bool) -> (index: Option<usize>)
        requires
            self.wf(),
        ensures
            index == (if forward {
                if self.current + 1 < self.files@.len() {
                    Some((self.current + 1) as usize)
                } else {
                    None
                }
            } else if self.current > 0 {
                Some((self.current - 1) as usize)
            } else {
                None
            }),
    {
        if forward {
            if self.current < self.files.len() - 1 {
                Some(self.current + 1)
            } else {
                None
            }
        } else if self.current > 0 {
            Some(self.current - 1)
        } else {
            None
        }
    }

    /// Whether a file was visited and stepped away from.
    pub fn is_parked(&self, index: usize) -> (r: bool)
        ensures
            r == self.parked@.contains_key(index),
    {
        self.parked.contains_key(&index)
    }

    /// Show another file: the one parked under `index`, else `fresh`. The file
    /// shown so far is parked.
    pub fn step_to(&mut self, index: usize, fresh: Option<FileResolveState<D, P>>)
        requires
            old(self).wf(),
            index < old(self).files@.len(),
            index != old(self).current,
            old(self).parked@.contains_key(index) || fresh is Some,
        ensures
            final(self).wf(),
            final(self).current == index,
            final(self).file == (if old(self).parked@.contains_key(index) {
                old(self).parked@[index]
            } else {
                fresh->0
            }),
            final(self).parked@ == old(self).parked@.remove(index).insert(
                old(self).current,
                old(self).file,
            ),
            final(self).pending_clobber is None,
            final(self).applied == old(self).applied,
            final(self).files == old(self).files,
            final(self).workdir == old(self).workdir,
            final(self).saved_editor == old(self).saved_editor,
    {
        let incoming: FileResolveState<D, P> = match self.parked.remove(&index) {
            Some(file) => file,
            None => match fresh {
                Some(file) => file,
                None => {
                    assert(false);
                    return ;
                },
            },
        };
        let mut outgoing = incoming;
        std::mem::swap(&mut outgoing, &mut self.file);
        self.parked.insert(self.current, outgoing);
        self.current = index;
        self.pending_clobber = None;
    }

    /// Record that the file shown was applied, and tell which file to show
    /// next: the first behind it, or else from the start, that is not applied.
    /// `None` once every file is, which closes the view.
    pub fn apply_current(&mut self) -> (next: Option<usize>)
        requires
            old(self).wf(),
        ensures
            final(self).wf(),
            final(self).applied@ == old(self).applied@.insert(old(self).current),
            final(self).pending_clobber is None,
            final(self).current == old(self).current,
            final(self).file == old(self).file,
            final(self).parked == old(self).parked,
            final(self).files == old(self).files,
            final(self).workdir == old(self).workdir,
            final(self).saved_editor == old(self).saved_editor,
            next == first_open(
                final(self).applied@,
                final(self).files@.len() as int,
                final(self).current as int,
                1,
            ),
    {
        self.applied.insert(self.current);
        self.pending_clobber = None;
        self.next_open()
    }

    fn next_open(&self) -> (next: Option<usize>)
        requires
            self.current < self.files@.len(),
        ensures
            next == first_open(
                self.applied@,
                self.files@.len() as int,
                self.current as int,
                1,
            ),
    {
        let count: usize = self.files.len();
        let mut step: usize = 1;
        while step < count
            invariant
                1 <= step <= count,
                count == self.files@.len(),
                self.current < count,
                first_open(self.applied@, count as int, self.current as int, 1) == first_open(
                    self.applied@,
                    count as int,
                    self.current as int,
                    step as int,
                ),
            decreases count - step,
        {
            let index: usize = if self.current < count - step {
                self.current + step
            } else {
                self.current - (count - step)
            };
            if !self.applied.contains(&index) {
                return Some(index);
            }
            step = step + 1;
        }
        None
    }
}

/// The file `step` behind the current one, the first coming after the last.
pub open spec fn file_behind(count: int, current: int, step: int) -> int {
    if current + step < count {
        current + step
    } else {
        current + step - count
    }
}

/// The first file from `step` behind the current one on that is not applied.
pub open spec fn first_open(applied: Set<usize>, count: int, current: int, step: int) -> Option<
    usize,
>
    decreases count - step,
{
    if step >= count {
        None
    } else if !applied.contains(file_behind(count, current, step) as usize) {
        Some(file_behind(count, current, step) as usize)
    } else {
        first_open(applied, count, current, step + 1)
    }
}

proof fn lemma_first_open(applied: Set<usize>, count: int, current: int, step: int)
    requires
        0 <= current < count <= usize::MAX,
        1 <= step <= count,
    ensures
        first_open(applied, count, current, step) matches Some(i) ==> i < count
            && !applied.contains(i),
        first_open(applied, count, current, step) is None ==> forall|k: int|
            step <= k < count ==> applied.contains(#[trigger] file_behind(count, current, k) as usize),
    decreases count - step,
{
    if step < count && applied.contains(file_behind(count, current, step) as usize) {
        lemma_first_open(applied, count, current, step + 1);
    }
}

/// The view closes exactly when every file is applied; until then it moves on
/// to one that is not.
pub proof fn the_view_closes_when_all_is_applied(applied: Set<usize>, count: int, current: int)
    requires
        0 <= current < count <= usize::MAX,
        applied.contains(current as usize),
    ensures
        first_open(applied, count, current, 1) is None <==> forall|i: usize|
            i < count ==> #[trigger] applied.contains(i),
        first_open(applied, count, current, 1) matches Some(i) ==> i < count && !applied.contains(i),
{
    lemma_first_open(applied, count, current, 1);
    if first_open(applied, count, current, 1) is None {
        assert forall|i: usize| i < count implies #[trigger] applied.contains(i) by {
            if i > current {
                assert(file_behind(count, current, i - current) == i);
            } else if i < current {
                assert(file_behind(count, current, i - current + count) == i);
            }
        }
    }
}

/// Stepping away from a file and back restores it as it was left.
pub proof fn stepping_back_restores_the_file<D, P>(
    parked: Map<usize, FileResolveState<D, P>>,
    current: usize,
    file: FileResolveState<D, P>,
    index: usize,
)
    requires
        index != current,
        !parked.contains_key(current),
    ensures
        ({
            let away = parked.remove(index).insert(current, file);
            away.contains_key(current) && away[current] == file && away.remove(current)
                == parked.remove(index)
        }),
{
    let away = parked.remove(index).insert(current, file);
    assert(away.remove(current) =~= parked.remove(index));
}

proof fn lemma_nearest_open(applied: Set<usize>, count: int, current: int, step: int)
    requires
        0 <= current < count <= usize::MAX,
        1 <= step,
    ensures
        match first_open(applied, count, current, step) {
            Some(i) => exists|s: int|
                step <= s < count && i == #[trigger] file_behind(count, current, s)
                    && !applied.contains(i) && forall|t: int|
                    step <= t < s ==> applied.contains(
                        #[trigger] file_behind(count, current, t) as usize,
                    ),
            None => forall|t: int|
                step <= t < count ==> applied.contains(
                    #[trigger] file_behind(count, current, t) as usize,
                ),
        },
    decreases count - step,
{
    if step < count {
        let at = file_behind(count, current, step);
        if applied.contains(at as usize) {
            lemma_nearest_open(applied, count, current, step + 1);
            match first_open(applied, count, current, step) {
                Some(i) => {
                    let s = choose|s: int|
                        step + 1 <= s < count && i == #[trigger] file_behind(count, current, s)
                            && !applied.contains(i) && forall|t: int|
                            step + 1 <= t < s ==> applied.contains(
                                #[trigger] file_behind(count, current, t) as usize,
                            );
                    assert(i == file_behind(count, current, s));
                },
                None => {},
            }
        } else {
            assert(at as usize == file_behind(count, current, step));
        }
    }
}

/// Once a file is resolved, the next one shown is the nearest behind it that is
/// not, going round at the end of the list.
pub proof fn the_nearest_open_file_comes_next(
    applied: Set<usize>,
    count: int,
    current: int,
    next: Option<usize>,
)
    requires
        0 <= current < count <= usize::MAX,
        next == first_open(applied, count, current, 1),
    ensures
        forall|i: int| current < i < count && !applied.contains(#[trigger] (i as usize)) ==> next
            is Some && current < next->0 <= i,
        (forall|i: int| current < i < count ==> applied.contains(#[trigger] (i as usize))) ==> forall|
            i: int,
        |
            0 <= i < current && !applied.contains(#[trigger] (i as usize)) ==> next is Some
                && next->0 <= i,
        next is Some ==> next->0 < count && next->0 != current && !applied.contains(next->0),
{
    lemma_nearest_open(applied, count, current, 1);
    assert forall|i: int| current < i < count && !applied.contains(#[trigger] (i as usize)) implies next
        is Some && current < next->0 <= i by {
        assert(file_behind(count, current, i - current) == i);
        match next {
            Some(n) => {
                let s = choose|s: int|
                    1 <= s < count && n == #[trigger] file_behind(count, current, s)
                        && !applied.contains(n) && forall|t: int|
                        1 <= t < s ==> applied.contains(
                            #[trigger] file_behind(count, current, t) as usize,
                        );
                if i - current < s {
                    assert(applied.contains(file_behind(count, current, i - current) as usize));
                }
            },
            None => {},
        }
    }
    if forall|i: int| current < i < count ==> applied.contains(#[trigger] (i as usize)) {
        assert forall|i: int| 0 <= i < current && !applied.contains(#[trigger] (i as usize)) implies next
            is Some && next->0 <= i by {
            let u = i + count - current;
            assert(file_behind(count, current, u) == i);
            match next {
                Some(n) => {
                    let s = choose|s: int|
                        1 <= s < count && n == #[trigger] file_behind(count, current, s)
                            && !applied.contains(n) && forall|t: int|
                            1 <= t < s ==> applied.contains(
                                #[trigger] file_behind(count, current, t) as usize,
                            );
                    if u < s {
                        assert(applied.contains(file_behind(count, current, u) as usize));
                    }
                    if current + s < count {
                        assert(applied.contains((current + s) as usize));
                    }
                },
                None => {},
            }
        }
    }
}

/// A pick goes through at once where nothing was edited by hand.
pub proof fn an_untouched_chunk_is_picked_at_once(
    armed: Option<(usize, ConflictPick)>,
    chunk: usize,
    pick: ConflictPick,
)
    ensures
        guarded(armed, chunk, pick, false).0 == PickOutcome::Overwrite,
        guarded(armed, chunk, pick, false).1 is None,
{
}

} // verus!
