//! What every list that filters and selects has in common: how a selection
//! moves, and what a matcher hands back for a query.

use vstd::prelude::*;

verus! {

/// What ranking a list against a query gave.
#[derive(Debug, Clone, PartialEq, Eq)]
pub struct Ranking {
    /// Places in the list, best match first.
    pub order: Vec<usize>,
    /// Matched character offsets for the rows at the top of `order`.
    pub matches: Vec<Vec<u32>>,
}

/// The place nearest to `at` in a list of `len` rows; the top of an empty one.
pub open spec fn clamped(len: int, at: int) -> int {
    if len <= 0 || at < 0 {
        0
    } else if at >= len {
        len - 1
    } else {
        at
    }
}

/// The selection moved by `delta`, stopping at the ends of a list of `len`
/// rows.
pub fn nav_move(len: usize, selected: usize, delta: i32) -> (next: usize)
    ensures
        next == clamped(len as int, selected as int + delta as int),
{
    if len == 0 {
        return 0;
    }
    if delta < 0 {
        let up: i64 = -(delta as i64);
        let step: usize = up as usize;
        let back: usize = selected.saturating_sub(step);
        if back >= len {
            len - 1
        } else {
            back
        }
    } else {
        let step: usize = delta as usize;
        if selected >= len || step >= len - selected {
            len - 1
        } else {
            selected + step
        }
    }
}

/// The selection, brought back into a list of `len` rows.
pub fn nav_clamp(len: usize, selected: usize) -> (next: usize)
    ensures
        next == clamped(len as int, selected as int),
{
    if len == 0 {
        0
    } else if selected >= len {
        len - 1
    } else {
        selected
    }
}

/// Half of a list's rendered height, one row at least; a single row before
/// the first render.
pub open spec fn page_step(viewport: Option<usize>) -> int {
    match viewport {
        Some(rows) => if rows < 4 {
            1
        } else if rows / 2 > i32::MAX {
            i32::MAX as int
        } else {
            rows as int / 2
        },
        None => 1,
    }
}

/// The number of rows that paging moves by.
pub fn nav_page_step(viewport: Option<usize>) -> (step: i32)
    ensures
        step == page_step(viewport),
{
    match viewport {
        Some(rows) => {
            let half: usize = rows / 2;
            if half < 2 {
                1
            } else if half > 0x7fff_ffff {
                0x7fff_ffff
            } else {
                half as i32
            }
        },
        None => 1,
    }
}

/// A list of targets, filtered by a query, with one row selected.
pub struct TargetPicker<T> {
    pub entries: Vec<T>,
    /// What a query is matched against, one for each entry.
    pub haystacks: Vec<String>,
    /// The rows shown, as places in `entries`.
    pub filtered: Vec<usize>,
    /// The selected row.
    pub selected: usize,
    /// The height the list was rendered at last.
    pub viewport_rows: Option<usize>,
}

impl<T> TargetPicker<T> {
    /// Every entry has its haystack, every row names an entry, and the
    /// selection is one of the rows.
    pub open spec fn wf(&self) -> bool {
        &&& self.haystacks@.len() == self.entries@.len()
        &&& forall|i: int|
            0 <= i < self.filtered@.len() ==> #[trigger] self.filtered@[i] < self.entries@.len()
        &&& self.selected == clamped(self.filtered@.len() as int, self.selected as int)
    }

    /// A picker that shows every entry, the first one selected.
    pub fn new(entries: Vec<T>, haystacks: Vec<String>) -> (picker: Self)
        requires
            entries@.len() == haystacks@.len(),
        ensures
            picker.wf(),
            picker.entries == entries,
            picker.haystacks == haystacks,
            picker.filtered@ == Seq::new(entries@.len(), |i: int| i as usize),
            picker.selected == 0,
            picker.viewport_rows is None,
    {
        let mut filtered: Vec<usize> = Vec::new();
        for i in 0..entries.len()
            invariant
                filtered@ == Seq::new(i as nat, |k: int| k as usize),
        {
            filtered.push(i);
            assert(filtered@ =~= Seq::new((i + 1) as nat, |k: int| k as usize));
        }
        TargetPicker { entries, haystacks, filtered, selected: 0, viewport_rows: None }
    }

    /// Show the rows that ranking the haystacks against a query gave, keeping
    /// the selection in them.
    pub fn refilter(&mut self, order: Vec<usize>)
        requires
            old(self).wf(),
            forall|i: int| 0 <= i < order@.len() ==> #[trigger] order@[i] < old(self).entries@.len(),
        ensures
            final(self).wf(),
            final(self).filtered == order,
            final(self).selected == clamped(order@.len() as int, old(self).selected as int),
            *final(self) == (TargetPicker {
                filtered: order,
                selected: final(self).selected,
                ..*old(self)
            }),
    {
        self.selected = nav_clamp(order.len(), self.selected);
        self.filtered = order;
    }

    /// Move the selection by `delta`, stopping at the ends of the list.
    pub fn move_selection(&mut self, delta: i32)
        requires
            old(self).wf(),
        ensures
            final(self).wf(),
            final(self).selected == clamped(
                old(self).filtered@.len() as int,
                old(self).selected + delta,
            ),
            *final(self) == (TargetPicker { selected: final(self).selected, ..*old(self) }),
    {
        self.selected = nav_move(self.filtered.len(), self.selected, delta);
    }

    /// Page the selection by half the rendered height in `dir`.
    pub fn page(&mut self, dir: i32)
        requires
            old(self).wf(),
            i32::MIN <= dir * page_step(old(self).viewport_rows) <= i32::MAX,
        ensures
            final(self).wf(),
            final(self).selected == clamped(
                old(self).filtered@.len() as int,
                old(self).selected + dir * page_step(old(self).viewport_rows),
            ),
            *final(self) == (TargetPicker { selected: final(self).selected, ..*old(self) }),
    {
        let step: i32 = nav_page_step(self.viewport_rows);
        self.move_selection(dir * step);
    }

    /// The entry of the selected row, or `None` when there are no rows.
    pub fn selected_entry(&self) -> (entry: Option<&T>)
        requires
            self.wf(),
        ensures
            match entry {
                Some(e) => self.filtered@.len() > 0 && *e
                    == self.entries@[self.filtered@[self.selected as int] as int],
                None => self.filtered@.len() == 0,
            },
    {
        if self.selected < self.filtered.len() {
            let at: usize = self.filtered[self.selected];
            Some(&self.entries[at])
        } else {
            None
        }
    }
}

/// The selection stays on the list: on the row that is meant where there is
/// one, else on the first or the last, whichever is nearer.
pub proof fn the_selection_stays_on_the_list(len: int, at: int)
    requires
        0 <= len,
    ensures
        0 <= at < len ==> clamped(len, at) == at,
        at < 0 ==> clamped(len, at) == 0,
        0 < len <= at ==> clamped(len, at) == len - 1,
        len == 0 ==> clamped(len, at) == 0,
{
}

/// A page is half of what is shown, and at least one row.
pub proof fn a_page_is_half_the_view(rows: usize)
    ensures
        page_step(None) == 1,
        rows >= 4 && rows / 2 <= i32::MAX ==> page_step(Some(rows)) == rows as int / 2,
        rows < 4 ==> page_step(Some(rows)) == 1,
        1 <= page_step(Some(rows)) <= i32::MAX,
{
}

} // verus!
