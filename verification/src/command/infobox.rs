//! The box that lists what the keys at hand do.

use crate::text::{join, separated, texts};
use vstd::prelude::*;

verus! {

/// One line of an infobox: keys, and what they do.
#[derive(Debug, PartialEq, Eq)]
pub struct InfoboxEntry {
    pub keys: Vec<String>,
    pub description: String,
}

/// A titled list of keys and what they do.
#[derive(Debug, PartialEq, Eq)]
pub struct Infobox {
    pub title: String,
    pub entries: Vec<InfoboxEntry>,
}

/// Entries that a box which is not expanded shows.
pub const COLLAPSED_ENTRIES: usize = 10;

/// An infobox as it is shown.
#[derive(Debug, PartialEq, Eq)]
pub struct InfoboxView {
    pub infobox: Infobox,
    pub expanded: bool,
}

impl InfoboxView {
    pub fn new(infobox: Infobox, expanded: bool) -> (view: Self)
        ensures
            view.infobox == infobox,
            view.expanded == expanded,
    {
        InfoboxView { infobox, expanded }
    }

    /// The number of entries that are shown: all of them when expanded, else
    /// the first few.
    pub open spec fn shown(&self) -> nat {
        if self.expanded || self.infobox.entries@.len() <= COLLAPSED_ENTRIES {
            self.infobox.entries@.len()
        } else {
            COLLAPSED_ENTRIES as nat
        }
    }

    /// The rows of the box: the keys of each entry shown, with commas between,
    /// and its description.
    pub fn rows(&self) -> (rows: Vec<(String, String)>)
        ensures
            rows@.len() == self.shown(),
            forall|i: int|
                0 <= i < rows@.len() ==> (#[trigger] rows@[i]).0@ == separated(
                    texts(self.infobox.entries@[i].keys@),
                    ", "@,
                ) && rows@[i].1@ == self.infobox.entries@[i].description@,
    {
        let mut rows: Vec<(String, String)> = Vec::new();
        let mut i: usize = 0;
        while i < self.infobox.entries.len() && (self.expanded || i < COLLAPSED_ENTRIES)
            invariant
                rows@.len() == i,
                i <= self.shown(),
                forall|k: int|
                    0 <= k < rows@.len() ==> (#[trigger] rows@[k]).0@ == separated(
                        texts(self.infobox.entries@[k].keys@),
                        ", "@,
                    ) && rows@[k].1@ == self.infobox.entries@[k].description@,
            decreases self.infobox.entries.len() - i,
        {
            let entry = &self.infobox.entries[i];
            rows.push((join(&entry.keys, ", "), entry.description.clone()));
            i = i + 1;
        }
        rows
    }
}

/// A box that is expanded shows all its entries; one that is not shows its
/// first ten, or all where it has no more.
pub proof fn a_collapsed_box_shows_ten(view: InfoboxView)
    ensures
        view.expanded ==> view.shown() == view.infobox.entries@.len(),
        !view.expanded && view.infobox.entries@.len() <= 10 ==> view.shown()
            == view.infobox.entries@.len(),
        !view.expanded && view.infobox.entries@.len() > 10 ==> view.shown() == 10,
{
}

} // verus!
