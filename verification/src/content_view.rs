//! What a pane can show.

use vstd::prelude::*;

verus! {

/// Enumeration of all supported view types.
#[derive(Debug, Clone, Copy, PartialEq, Eq, Hash, Structural)]
pub enum ViewType {
    Editor,
    Static,
    Claude,
}

/// Wrapper for the different views that can be stored in panes, over the
/// handles to the views themselves.
#[derive(Debug, Clone, PartialEq, Eq)]
pub enum PaneContent<E, S, C> {
    Editor(E),
    Static(S),
    Claude(C),
}

impl<E, S, C> PaneContent<E, S, C> {
    /// Returns the type of view contained in this pane.
    pub fn view_type(&self) -> (t: ViewType)
        ensures
            t == (match *self {
                PaneContent::Editor(_) => ViewType::Editor,
                PaneContent::Static(_) => ViewType::Static,
                PaneContent::Claude(_) => ViewType::Claude,
            }),
    {
        match self {
            PaneContent::Editor(_) => ViewType::Editor,
            PaneContent::Static(_) => ViewType::Static,
            PaneContent::Claude(_) => ViewType::Claude,
        }
    }

    /// The contained editor view if this is an editor pane.
    pub fn as_editor(&self) -> (view: Option<&E>)
        ensures
            view == (match *self {
                PaneContent::Editor(entity) => Some(&entity),
                _ => None,
            }),
    {
        match self {
            PaneContent::Editor(entity) => Some(entity),
            _ => None,
        }
    }

    /// The contained static view if this is a static pane.
    pub fn as_static(&self) -> (view: Option<&S>)
        ensures
            view == (match *self {
                PaneContent::Static(entity) => Some(&entity),
                _ => None,
            }),
    {
        match self {
            PaneContent::Static(entity) => Some(entity),
            _ => None,
        }
    }

    /// The contained chat view if this is a chat pane.
    pub fn as_claude(&self) -> (view: Option<&C>)
        ensures
            view == (match *self {
                PaneContent::Claude(entity) => Some(&entity),
                _ => None,
            }),
    {
        match self {
            PaneContent::Claude(entity) => Some(entity),
            _ => None,
        }
    }
}

} // verus!
