//! Editor autocomplete (LSP, path, word): the shared [`CompletionSource`]
//! enum, the [`CompletionItem`] shape every source produces, and the question
//! whether the current cursor context invites a source.

pub mod accept;
pub mod lsp;
pub mod path;
pub mod request;
pub mod snippet;
pub mod word;

use crate::lists::{copied, copied_strings};
use crate::text::{chars_of, is_letter, is_letter_or_number};
use std::ops::Range;
use vstd::prelude::*;

verus! {

/// Identifies which subsystem produced a completion item.
#[derive(Debug, Clone, Copy, PartialEq, Eq, Hash, Structural)]
pub enum CompletionSource {
    /// Items returned by the active LSP servers.
    Lsp,
    /// Filesystem entries when the cursor sits on a path-like prefix.
    Path,
    /// Word-shaped tokens scraped from the focused buffer.
    Word,
}

/// High-level category badge shared across sources.
#[derive(Debug, Clone, Copy, PartialEq, Eq, Structural)]
pub enum CompletionItemKind {
    Function,
    Method,
    Variable,
    Field,
    Module,
    Class,
    Struct,
    Enum,
    Constant,
    Keyword,
    File,
    Folder,
    Snippet,
    Other,
}

/// What an LSP server said of its item beyond what every source says.
#[derive(Debug, PartialEq, Eq)]
pub struct LspExtras {
    /// The text the item is matched against in place of its label.
    pub filter_text: Option<String>,
    /// The text the server orders its items by.
    pub sort_text: Option<String>,
    /// Whether the item already carries the edits it makes besides its own.
    pub has_additional_edits: bool,
}

/// One row in the completion popup. The unified shape lets the popup renderer
/// and the acceptance handler treat every source identically.
#[derive(Debug, PartialEq, Eq)]
pub struct CompletionItem {
    /// The text the popup renders for this row.
    pub label: String,
    /// Which source produced the item.
    pub source: CompletionSource,
    /// Optional badge category.
    pub kind: Option<CompletionItemKind>,
    /// Single-line summary painted dimmed beside the label.
    pub detail: Option<String>,
    /// Byte range in the buffer that acceptance replaces.
    pub replace_range: Range<usize>,
    /// Text inserted into the buffer when the user accepts this row.
    pub insert_text: String,
    /// Whether `insert_text` is a snippet body.
    pub is_snippet: bool,
    /// Longer text about the item.
    pub documentation: Option<String>,
    /// What the server said of it, for an item of an LSP server.
    pub lsp_item: Option<LspExtras>,
    /// The name of the server that answered with it.
    pub server: Option<String>,
}

impl Clone for LspExtras {
    fn clone(&self) -> (c: Self)
        ensures
            c == *self,
    {
        LspExtras {
            filter_text: self.filter_text.clone(),
            sort_text: self.sort_text.clone(),
            has_additional_edits: self.has_additional_edits,
        }
    }
}

impl Clone for CompletionItem {
    fn clone(&self) -> (c: Self)
        ensures
            c == *self,
    {
        CompletionItem {
            label: self.label.clone(),
            source: self.source,
            kind: self.kind,
            detail: self.detail.clone(),
            replace_range: self.replace_range.start..self.replace_range.end,
            insert_text: self.insert_text.clone(),
            is_snippet: self.is_snippet,
            documentation: self.documentation.clone(),
            lsp_item: self.lsp_item.clone(),
            server: self.server.clone(),
        }
    }
}

/// In-flight completion popup.
#[derive(Debug, PartialEq, Eq)]
pub struct CompletionPopup {
    /// What the sources answered, in the order they answered it.
    pub items: Vec<CompletionItem>,
    /// The rows the popup paints, in display order: a place in
    /// [`Self::items`], and what the item there scored.
    pub matches: Vec<(u32, u32)>,
    /// Index of the highlighted row in [`Self::matches`].
    pub selected_idx: usize,
    /// Byte offset in the buffer the popup is anchored to.
    pub anchor_offset: usize,
    /// Byte range the popup matches against.
    pub prefix_range: Range<usize>,
    /// The text in that range when the popup was filled.
    pub prefix: String,
    /// The servers that stopped early and have more to say.
    pub incomplete: Vec<String>,
}

impl Clone for CompletionPopup {
    fn clone(&self) -> (c: Self)
        ensures
            c.items@ == self.items@,
            c.matches@ == self.matches@,
            c.selected_idx == self.selected_idx,
            c.anchor_offset == self.anchor_offset,
            c.prefix_range == self.prefix_range,
            c.prefix == self.prefix,
            c.incomplete@ == self.incomplete@,
    {
        let items = self.items.clone();
        assert(items@ =~= self.items@);
        CompletionPopup {
            items,
            matches: copied(&self.matches),
            selected_idx: self.selected_idx,
            anchor_offset: self.anchor_offset,
            prefix_range: self.prefix_range.start..self.prefix_range.end,
            prefix: self.prefix.clone(),
            incomplete: copied_strings(&self.incomplete),
        }
    }
}

/// State handed to each source so it can decide whether to fire and what to
/// match against.
pub struct CompletionContext<'a> {
    /// Byte offset of the cursor in the buffer.
    pub cursor_offset: usize,
    /// Substring immediately preceding the cursor that completions should
    /// match against.
    pub prefix: &'a str,
    /// Byte range of [`Self::prefix`] in the buffer.
    pub prefix_range: Range<usize>,
    /// Buffer text up to the cursor that sources may look at.
    pub text_before_cursor: &'a str,
}

impl CompletionPopup {
    /// Every row names an item.
    pub open spec fn wf(&self) -> bool {
        forall|i: int| 0 <= i < self.matches@.len() ==> (#[trigger] self.matches@[i]).0 < self.items@.len()
    }

    /// A popup that shows all of `items`, in their own order, for no prefix.
    pub fn showing(items: Vec<CompletionItem>) -> (popup: CompletionPopup)
        requires
            items@.len() <= u32::MAX,
        ensures
            popup.wf(),
            popup.items == items,
            popup.matches@ == Seq::new(items@.len(), |i: int| (i as u32, 0u32)),
            popup.selected_idx == 0,
            popup.anchor_offset == 0,
            popup.prefix_range == (Range { start: 0usize, end: 0usize }),
            popup.prefix@.len() == 0,
            popup.incomplete@.len() == 0,
    {
        let mut matches: Vec<(u32, u32)> = Vec::new();
        for i in 0..items.len()
            invariant
                items@.len() <= u32::MAX,
                matches@ == Seq::new(i as nat, |k: int| (k as u32, 0u32)),
        {
            matches.push((i as u32, 0));
            assert(matches@ =~= Seq::new((i + 1) as nat, |k: int| (k as u32, 0u32)));
        }
        CompletionPopup {
            items,
            matches,
            selected_idx: 0,
            anchor_offset: 0,
            prefix_range: 0..0,
            prefix: String::new(),
            incomplete: Vec::new(),
        }
    }

    /// The items of the rows, in display order.
    pub fn rows(&self) -> (rows: Vec<&CompletionItem>)
        requires
            self.wf(),
        ensures
            rows@.len() == self.matches@.len(),
            forall|i: int|
                0 <= i < rows@.len() ==> *(#[trigger] rows@[i])
                    == self.items@[self.matches@[i].0 as int],
    {
        let mut rows: Vec<&CompletionItem> = Vec::new();
        for i in 0..self.matches.len()
            invariant
                self.wf(),
                rows@.len() == i,
                forall|k: int|
                    0 <= k < rows@.len() ==> *(#[trigger] rows@[k])
                        == self.items@[self.matches@[k].0 as int],
        {
            let at: usize = self.matches[i].0 as usize;
            rows.push(&self.items[at]);
        }
        rows
    }

    /// The item of the highlighted row.
    pub fn selected(&self) -> (item: Option<&CompletionItem>)
        requires
            self.wf(),
        ensures
            match item {
                Some(item) => self.selected_idx < self.matches@.len() && *item
                    == self.items@[self.matches@[self.selected_idx as int].0 as int],
                None => self.selected_idx >= self.matches@.len(),
            },
    {
        if self.selected_idx < self.matches.len() {
            let at: usize = self.matches[self.selected_idx].0 as usize;
            Some(&self.items[at])
        } else {
            None
        }
    }
}

// ---------------------------------------------------------------------------
// Which sources apply
// ---------------------------------------------------------------------------

/// A prefix with a `/` in it, or a cursor that stands just after a `/` or `~`.
pub open spec fn path_like(prefix: Seq<char>, before: Seq<char>) -> bool {
    prefix.contains('/') || (before.len() > 0 && (before.last() == '/' || before.last() == '~'))
}

/// A prefix that starts with a letter or `_` and goes on with letters, digits
/// or `_`.
pub open spec fn identifier_like(prefix: Seq<char>) -> bool {
    &&& prefix.len() > 0
    &&& is_letter(prefix[0]) || prefix[0] == '_'
    &&& forall|i: int|
        1 <= i < prefix.len() ==> is_letter_or_number(#[trigger] prefix[i]) || prefix[i] == '_'
}

pub open spec fn source_applies(source: CompletionSource, prefix: Seq<char>, before: Seq<char>) -> bool {
    match source {
        CompletionSource::Path => path_like(prefix, before),
        CompletionSource::Lsp => identifier_like(prefix),
        CompletionSource::Word => identifier_like(prefix),
    }
}

/// The sources that apply, Path first, then Lsp, then Word.
pub open spec fn sources_for(prefix: Seq<char>, before: Seq<char>) -> Seq<CompletionSource> {
    (if path_like(prefix, before) {
        seq![CompletionSource::Path]
    } else {
        Seq::empty()
    }) + (if identifier_like(prefix) {
        seq![CompletionSource::Lsp, CompletionSource::Word]
    } else {
        Seq::empty()
    })
}

/// A prefix with a `/` in it goes to the path source alone.
pub proof fn slashed_prefix_is_a_path(prefix: Seq<char>, before: Seq<char>)
    requires
        prefix.contains('/'),
    ensures
        sources_for(prefix, before) == seq![CompletionSource::Path],
{
    let i = choose|i: int| 0 <= i < prefix.len() && prefix[i] == '/';
    assert(!is_letter_or_number('/') && !is_letter('/'));
    assert(!identifier_like(prefix));
    assert(sources_for(prefix, before) =~= seq![CompletionSource::Path]);
}

/// Path-like prefix detection: the prefix contains a `/`, or the text before
/// the cursor ends in one of `/`, `./`, `../`, `~`.
pub fn is_path_like(ctx: &CompletionContext<'_>) -> (r: bool)
    ensures
        r == path_like(ctx.prefix@, ctx.text_before_cursor@),
{
    let prefix = chars_of(ctx.prefix);
    let mut i: usize = 0;
    while i < prefix.len()
        invariant
            i <= prefix.len(),
            prefix@ == ctx.prefix@,
            forall|k: int| 0 <= k < i ==> #[trigger] prefix@[k] != '/',
        decreases prefix.len() - i,
    {
        if prefix[i] == '/' {
            assert(ctx.prefix@[i as int] == '/');
            return true;
        }
        i = i + 1;
    }
    let trail = chars_of(ctx.text_before_cursor);
    if trail.len() == 0 {
        return false;
    }
    let last: char = trail[trail.len() - 1];
    last == '/' || last == '~'
}

/// Identifier-like prefix detection.
pub fn is_identifier_like(ctx: &CompletionContext<'_>) -> (r: bool)
    ensures
        r == identifier_like(ctx.prefix@),
{
    let prefix = chars_of(ctx.prefix);
    if prefix.len() == 0 {
        return false;
    }
    let first: char = prefix[0];
    if !(first.is_alphabetic() || first == '_') {
        return false;
    }
    let mut i: usize = 1;
    while i < prefix.len()
        invariant
            1 <= i <= prefix.len(),
            prefix@ == ctx.prefix@,
            forall|k: int|
                1 <= k < i ==> is_letter_or_number(#[trigger] prefix@[k]) || prefix@[k] == '_',
        decreases prefix.len() - i,
    {
        let c: char = prefix[i];
        if !(c.is_alphanumeric() || c == '_') {
            assert(!is_letter_or_number(ctx.prefix@[i as int]));
            return false;
        }
        i = i + 1;
    }
    true
}

impl CompletionSource {
    /// Whether this source should fire given the current cursor context. The
    /// path source triggers on path-shaped prefixes; the others trigger on
    /// identifier-shaped ones.
    pub fn applies(&self, ctx: &CompletionContext<'_>) -> (r: bool)
        ensures
            r == source_applies(*self, ctx.prefix@, ctx.text_before_cursor@),
    {
        match self {
            CompletionSource::Path => is_path_like(ctx),
            CompletionSource::Lsp => is_identifier_like(ctx),
            CompletionSource::Word => is_identifier_like(ctx),
        }
    }
}

/// Returns the sources that apply, in priority order (Path, then Lsp, then
/// Word).
pub fn applicable_sources(ctx: &CompletionContext<'_>) -> (sources: Vec<CompletionSource>)
    ensures
        sources@ == sources_for(ctx.prefix@, ctx.text_before_cursor@),
{
    let mut sources: Vec<CompletionSource> = Vec::new();
    if CompletionSource::Path.applies(ctx) {
        sources.push(CompletionSource::Path);
    }
    if CompletionSource::Lsp.applies(ctx) {
        sources.push(CompletionSource::Lsp);
    }
    if CompletionSource::Word.applies(ctx) {
        sources.push(CompletionSource::Word);
    }
    assert(sources@ =~= sources_for(ctx.prefix@, ctx.text_before_cursor@));
    sources
}

// ---------------------------------------------------------------------------
// Laws
// ---------------------------------------------------------------------------

/// Which sources are asked. Paths: where the prefix has a `/` in it, or the
/// cursor stands just behind a `/` or `~`. Servers and words: where the prefix
/// could be a name. They come in that order, none twice.
pub proof fn the_prefix_says_which_sources_apply(
    sources: Seq<CompletionSource>,
    prefix: Seq<char>,
    before: Seq<char>,
)
    requires
        sources == sources_for(prefix, before),
    ensures
        sources.contains(CompletionSource::Path) <==> prefix.contains('/') || before.len() > 0 && (
        before.last() == '/' || before.last() == '~'),
        sources.contains(CompletionSource::Lsp) <==> prefix.len() > 0 && (is_letter(prefix[0])
            || prefix[0] == '_') && forall|i: int|
            1 <= i < prefix.len() ==> is_letter_or_number(#[trigger] prefix[i]) || prefix[i] == '_',
        sources.contains(CompletionSource::Word) <==> sources.contains(CompletionSource::Lsp),
        sources.no_duplicates(),
        forall|i: int, j: int|
            0 <= i < j < sources.len() ==> (#[trigger] sources[i]) != CompletionSource::Word && (
            #[trigger] sources[j]) != CompletionSource::Path,
{
    let p = path_like(prefix, before);
    let id = identifier_like(prefix);
    if p {
        assert(sources[0] == CompletionSource::Path);
        if id {
            assert(sources[1] == CompletionSource::Lsp && sources[2] == CompletionSource::Word);
        }
    } else if id {
        assert(sources[0] == CompletionSource::Lsp && sources[1] == CompletionSource::Word);
    }
}

} // verus!
