//! A list of diagnostics to jump to: those of the focused buffer, or those of
//! every path in the workspace.

use crate::diagnostics::{all_attributions, Diagnostic, DiagnosticSet, DiagnosticSeverity};
use crate::order::{
    arranged, arranging_keeps_every_entry, every_list_has_an_order, lemma_the_order, stable_order, Ranked,
};
use crate::paths::{
    path_before, path_comes_before, path_order_is_asymmetric, path_order_is_negatively_transitive,
};
use crate::picker::{clamped, page_step, TargetPicker};
use crate::strmap::StrMap;
use crate::text::{chars_of, decimal, decimal_digits};
use crate::host::OffsetEncoding;
use vstd::prelude::*;
use vstd::string::StringExecFns;

verus! {

/// Whether the picker lists the focused buffer's diagnostics only (`Local`) or
/// every workspace path (`Workspace`). The renderer paints a path column when
/// scope is `Workspace`, and selecting a `Workspace` entry opens its file
/// before jumping.
///
/// A local entry carries no path of its own, which is what marks it local to
/// the jump. The scope holds the one path they all share, so the preview still
/// knows which file to read.
#[derive(Debug, Clone, PartialEq, Eq)]
pub enum PickerScope {
    Local(String),
    Workspace,
}

/// One row of the picker.
#[derive(Debug, PartialEq, Eq)]
pub struct DiagnosticsEntry {
    /// Byte offset in the entry's source buffer. Meaningful only for local
    /// entries: the target of a workspace entry may not be open, so it holds
    /// 0, and the select handler recomputes the offset from `(line, column)`
    /// after opening the file.
    pub offset: usize,
    pub line: u32,
    pub column: u32,
    pub severity: Option<DiagnosticSeverity>,
    pub message: String,
    /// Absolute path of the file the diagnostic comes from. `None` for local
    /// entries.
    pub path: Option<String>,
    /// How the server that published the diagnostic counts columns. The select
    /// handler converts `(line, column)` back to a byte offset through it.
    pub encoding: OffsetEncoding,
}

impl Clone for DiagnosticsEntry {
    fn clone(&self) -> (c: Self)
        ensures
            c == *self,
    {
        DiagnosticsEntry {
            offset: self.offset,
            line: self.line,
            column: self.column,
            severity: self.severity,
            message: self.message.clone(),
            path: self.path.clone(),
            encoding: self.encoding,
        }
    }
}

/// A diagnostic of the focused buffer, with how its server counts columns and
/// the byte offset that its start has in the buffer.
pub struct LocatedDiagnostic {
    pub encoding: OffsetEncoding,
    pub diagnostic: Diagnostic,
    pub offset: usize,
}

/// Where the preview of an entry reads from.
#[derive(Debug, PartialEq, Eq)]
pub enum PreviewSource {
    Buffer(u64),
    File(String),
}

pub const MESSAGE_MAX_CHARS: usize = 80;

/// A message on one row: without line breaks, and not longer than
/// [`MESSAGE_MAX_CHARS`].
pub open spec fn one_row(raw: Seq<char>) -> Seq<char> {
    Seq::new(
        if raw.len() <= MESSAGE_MAX_CHARS {
            raw.len()
        } else {
            MESSAGE_MAX_CHARS as nat
        },
        |i: int|
            if raw[i] == '\n' {
                ' '
            } else {
                raw[i]
            },
    )
}

/// A message on one row.
pub fn render_message(raw: &str) -> (message: String)
    ensures
        message@ == one_row(raw@),
{
    let s = chars_of(raw);
    let n: usize = if s.len() <= MESSAGE_MAX_CHARS {
        s.len()
    } else {
        MESSAGE_MAX_CHARS
    };
    let mut message = String::new();
    assert(message@ =~= one_row(raw@).take(0));
    for i in 0..n
        invariant
            n == one_row(raw@).len(),
            n <= s@.len(),
            s@ == raw@,
            message@ == one_row(raw@).take(i as int),
    {
        if s[i] == '\n' {
            message.push(' ');
        } else {
            message.push(s[i]);
        }
        assert(message@ =~= one_row(raw@).take(i + 1));
    }
    assert(message@ =~= one_row(raw@));
    message
}

/// What the haystack puts ahead of the message: where the diagnostic is.
pub open spec fn haystack_prefix(entry: DiagnosticsEntry) -> Seq<char> {
    match entry.path {
        Some(path) => path@.push(':') + decimal_digits(entry.line as nat).push(' '),
        None => decimal_digits(entry.line as nat).push(' '),
    }
}

/// What a query matches a diagnostic against.
pub open spec fn haystack(entry: DiagnosticsEntry) -> Seq<char> {
    haystack_prefix(entry) + entry.message@
}

/// What a query matches a diagnostic against. The haystack names where it is
/// and what it says, which is what the row shows.
pub fn diagnostic_haystack(entry: &DiagnosticsEntry) -> (text: String)
    ensures
        text@ == haystack(*entry),
{
    let mut text = match &entry.path {
        Some(path) => {
            let mut t = path.clone();
            t.push(':');
            t
        },
        None => String::new(),
    };
    let line = decimal(entry.line as u64);
    text.append(line.as_str());
    text.push(' ');
    assert(text@ =~= haystack_prefix(*entry));
    text.append(entry.message.as_str());
    text
}

/// Characters of [`diagnostic_haystack`] that come before the message.
///
/// The renderer highlights only the matched characters that fall in the
/// message column, so it subtracts this from every match offset.
pub fn haystack_prefix_len(entry: &DiagnosticsEntry) -> (len: u32)
    requires
        haystack_prefix(*entry).len() <= u32::MAX,
    ensures
        len == haystack_prefix(*entry).len(),
{
    let text = diagnostic_haystack(entry);
    let whole = chars_of(text.as_str());
    let message = chars_of(entry.message.as_str());
    (whole.len() - message.len()) as u32
}

/// The 0-based line and the file that the preview of an entry shows. A
/// workspace entry names its own file; for a local one the scope's path stands
/// in.
pub open spec fn target_path(scope: PickerScope, entry: DiagnosticsEntry) -> Option<Seq<char>> {
    match (entry.path, scope) {
        (Some(path), _) => Some(path@),
        (None, PickerScope::Local(path)) => Some(path@),
        (None, PickerScope::Workspace) => None,
    }
}

/// Where a diagnostic's preview reads from and which 0-based line it centres
/// on. `buffers` are the open buffers by their path.
///
/// An open buffer wins over the file, so a diagnostic in edited text previews
/// what the reader has on screen.
pub fn diagnostic_target(
    buffers: &StrMap<u64>,
    scope: &PickerScope,
    entry: &DiagnosticsEntry,
) -> (target: Option<(PreviewSource, u32)>)
    ensures
        match target_path(*scope, *entry) {
            Some(path) => target matches Some((source, line)) && line == (if entry.line == 0 {
                0
            } else {
                entry.line - 1
            }) && (if buffers@.contains_key(path) {
                source == PreviewSource::Buffer(buffers@[path])
            } else {
                source matches PreviewSource::File(file) && file@ == path
            }),
            None => target is None,
        },
{
    let path: &String = match &entry.path {
        Some(path) => path,
        None => match scope {
            PickerScope::Local(path) => path,
            PickerScope::Workspace => {
                return None;
            },
        },
    };
    let source = match buffers.get(path.as_str()) {
        Some(id) => PreviewSource::Buffer(*id),
        None => PreviewSource::File(path.clone()),
    };
    Some((source, entry.line.saturating_sub(1)))
}

/// Orders entries by their position.
pub struct ByPosition {
    pub line: u32,
    pub column: u32,
}

pub open spec fn position_before(line: u32, column: u32, line2: u32, column2: u32) -> bool {
    line < line2 || (line == line2 && column < column2)
}

impl Ranked for ByPosition {
    open spec fn ranks_before(self, other: Self) -> bool {
        position_before(self.line, self.column, other.line, other.column)
    }

    proof fn asymmetric(a: Self, b: Self) {
    }

    proof fn negatively_transitive(a: Self, b: Self, c: Self) {
    }

    fn before(&self, other: &Self) -> (r: bool) {
        self.line < other.line || (self.line == other.line && self.column < other.column)
    }
}

/// Orders entries by their path, then their position.
pub struct ByPlace {
    pub path: String,
    pub line: u32,
    pub column: u32,
}

impl Ranked for ByPlace {
    open spec fn ranks_before(self, other: Self) -> bool {
        path_before(self.path@, other.path@) || (!path_before(other.path@, self.path@)
            && position_before(self.line, self.column, other.line, other.column))
    }

    proof fn asymmetric(a: Self, b: Self) {
        if path_before(a.path@, b.path@) {
            path_order_is_asymmetric(a.path@, b.path@);
        }
    }

    proof fn negatively_transitive(a: Self, b: Self, c: Self) {
        path_order_is_negatively_transitive(a.path@, b.path@, c.path@);
        if !path_before(c.path@, a.path@) {
            if path_before(b.path@, a.path@) {
                if !path_before(c.path@, b.path@) {
                    path_order_is_negatively_transitive(b.path@, c.path@, a.path@);
                }
                path_order_is_negatively_transitive(c.path@, a.path@, b.path@);
            } else if path_before(c.path@, b.path@) {
                path_order_is_negatively_transitive(c.path@, a.path@, b.path@);
            }
        }
    }

    fn before(&self, other: &Self) -> (r: bool) {
        if path_comes_before(self.path.as_str(), other.path.as_str()) {
            return true;
        }
        if path_comes_before(other.path.as_str(), self.path.as_str()) {
            return false;
        }
        self.line < other.line || (self.line == other.line && self.column < other.column)
    }
}

/// `e` is the row of a diagnostic that starts at `offset`, of the file `path`.
pub open spec fn is_entry(
    e: DiagnosticsEntry,
    diagnostic: Diagnostic,
    offset: usize,
    path: Option<Seq<char>>,
    encoding: OffsetEncoding,
) -> bool {
    &&& e.offset == offset
    &&& e.line == diagnostic.start.line + 1
    &&& e.column == diagnostic.start.character + 1
    &&& e.severity == diagnostic.severity
    &&& e.message@ == one_row(diagnostic.message@)
    &&& match (e.path, path) {
        (Some(a), Some(b)) => a@ == b,
        (None, None) => true,
        _ => false,
    }
    &&& e.encoding == encoding
}

/// The diagnostic's line and column can be counted from one.
pub open spec fn is_countable(d: Diagnostic) -> bool {
    d.start.line < u32::MAX && d.start.character < u32::MAX
}

/// `entries` are the rows of `diagnostics`, in the same order.
pub open spec fn are_local_entries(
    entries: Seq<DiagnosticsEntry>,
    diagnostics: Seq<LocatedDiagnostic>,
) -> bool {
    &&& entries.len() == diagnostics.len()
    &&& forall|i: int|
        0 <= i < entries.len() ==> is_entry(
            #[trigger] entries[i],
            diagnostics[i].diagnostic,
            diagnostics[i].offset,
            None,
            diagnostics[i].encoding,
        )
}

pub open spec fn position_keys(entries: Seq<DiagnosticsEntry>) -> Seq<ByPosition> {
    Seq::new(
        entries.len(),
        |i: int| ByPosition { line: entries[i].line, column: entries[i].column },
    )
}

/// `sorted` are the rows of `diagnostics`, sorted by line and column; those at
/// one position keep their order.
pub open spec fn are_sorted_by_position(
    sorted: Seq<DiagnosticsEntry>,
    diagnostics: Seq<LocatedDiagnostic>,
) -> bool {
    exists|plain: Seq<DiagnosticsEntry>| #[trigger]
        are_local_entries(plain, diagnostics) && sorted == arranged(position_keys(plain), plain)
}

/// How the server counts columns; UTF-16 unless it is known to do otherwise.
pub open spec fn encoding_of(
    encodings: Map<Seq<char>, OffsetEncoding>,
    server: Seq<char>,
) -> OffsetEncoding {
    if encodings.contains_key(server) {
        encodings[server]
    } else {
        OffsetEncoding::Utf16
    }
}

/// `entries` are the rows of the `(path, server, diagnostic)` triples, in the
/// same order.
pub open spec fn are_workspace_entries(
    entries: Seq<DiagnosticsEntry>,
    triples: Seq<(Seq<char>, Seq<char>, Diagnostic)>,
    encodings: Map<Seq<char>, OffsetEncoding>,
) -> bool {
    &&& entries.len() == triples.len()
    &&& forall|i: int|
        0 <= i < entries.len() ==> is_entry(
            #[trigger] entries[i],
            triples[i].2,
            0,
            Some(triples[i].0),
            encoding_of(encodings, triples[i].1),
        )
}

pub open spec fn place_keys(entries: Seq<DiagnosticsEntry>) -> Seq<ByPlace> {
    Seq::new(
        entries.len(),
        |i: int|
            ByPlace {
                path: entries[i].path->0,
                line: entries[i].line,
                column: entries[i].column,
            },
    )
}

/// `sorted` are the rows of the triples, sorted by path, line and column;
/// those at one place keep their order.
pub open spec fn are_sorted_by_place(
    sorted: Seq<DiagnosticsEntry>,
    triples: Seq<(Seq<char>, Seq<char>, Diagnostic)>,
    encodings: Map<Seq<char>, OffsetEncoding>,
) -> bool {
    exists|plain: Seq<DiagnosticsEntry>| #[trigger]
        are_workspace_entries(plain, triples, encodings) && sorted == arranged(
            place_keys(plain),
            plain,
        )
}

/// The entries in the order that `order` names.
fn in_order(entries: &Vec<DiagnosticsEntry>, order: &Vec<usize>) -> (sorted: Vec<DiagnosticsEntry>)
    requires
        forall|i: int| 0 <= i < order@.len() ==> #[trigger] order@[i] < entries@.len(),
    ensures
        sorted@ == Seq::new(order@.len(), |i: int| entries@[order@[i] as int]),
{
    let mut sorted: Vec<DiagnosticsEntry> = Vec::new();
    for k in 0..order.len()
        invariant
            forall|i: int| 0 <= i < order@.len() ==> #[trigger] order@[i] < entries@.len(),
            sorted@ == Seq::new(k as nat, |i: int| entries@[order@[i] as int]),
    {
        sorted.push(entries[order[k]].clone());
        assert(sorted@ =~= Seq::new((k + 1) as nat, |i: int| entries@[order@[i] as int]));
    }
    sorted
}

/// Modal listing diagnostics in either the focused buffer or every path of the
/// workspace, built from a snapshot of the diagnostic set.
pub struct DiagnosticsPicker {
    /// The filter and selection every target list shares.
    pub picker: TargetPicker<DiagnosticsEntry>,
    /// Which diagnostics the list was built from. Two open commands set this,
    /// and the title and the jump both read it.
    pub scope: PickerScope,
}

impl DiagnosticsPicker {
    /// Every entry has the haystack that belongs to it.
    pub open spec fn wf(&self) -> bool {
        &&& self.picker.wf()
        &&& forall|i: int|
            0 <= i < self.picker.entries@.len() ==> (#[trigger] self.picker.haystacks@[i])@
                == haystack(self.picker.entries@[i])
    }

    /// Wrap `entries`, tagged with `scope`.
    pub fn from_entries(entries: Vec<DiagnosticsEntry>, scope: PickerScope) -> (picker: Self)
        ensures
            picker.wf(),
            picker.picker.entries == entries,
            picker.picker.filtered@ == Seq::new(entries@.len(), |i: int| i as usize),
            picker.picker.selected == 0,
            picker.scope == scope,
    {
        let mut haystacks: Vec<String> = Vec::new();
        for i in 0..entries.len()
            invariant
                haystacks@.len() == i,
                forall|k: int|
                    0 <= k < i ==> (#[trigger] haystacks@[k])@ == haystack(entries@[k]),
        {
            haystacks.push(diagnostic_haystack(&entries[i]));
        }
        DiagnosticsPicker { picker: TargetPicker::new(entries, haystacks), scope }
    }

    pub fn scope(&self) -> (scope: &PickerScope)
        ensures
            *scope == self.scope,
    {
        &self.scope
    }

    pub fn entries(&self) -> (entries: &[DiagnosticsEntry])
        ensures
            entries@ == self.picker.entries@,
    {
        self.picker.entries.as_slice()
    }

    /// The rows shown, as places in the entries.
    pub fn filtered(&self) -> (rows: &[usize])
        ensures
            rows@ == self.picker.filtered@,
    {
        self.picker.filtered.as_slice()
    }

    /// The diagnostic under the selection, or [`None`] when the filter matched
    /// nothing.
    pub fn selected_entry(&self) -> (entry: Option<&DiagnosticsEntry>)
        requires
            self.wf(),
        ensures
            match entry {
                Some(e) => self.picker.filtered@.len() > 0 && *e
                    == self.picker.entries@[self.picker.filtered@[self.picker.selected as int] as int],
                None => self.picker.filtered@.len() == 0,
            },
    {
        self.picker.selected_entry()
    }

    /// Cursor into the filtered rows, not into the entries. A caller wanting
    /// the entry itself takes [`Self::selected_entry`].
    pub fn selected(&self) -> (row: usize)
        ensures
            row == self.picker.selected,
    {
        self.picker.selected
    }

    /// Page the selection by half the rendered height in `dir`.
    pub fn page(&mut self, dir: i32)
        requires
            old(self).wf(),
            i32::MIN <= dir * page_step(old(self).picker.viewport_rows) <= i32::MAX,
        ensures
            final(self).wf(),
            final(self).picker.selected == clamped(
                old(self).picker.filtered@.len() as int,
                old(self).picker.selected + dir * page_step(old(self).picker.viewport_rows),
            ),
            final(self).picker == (TargetPicker {
                selected: final(self).picker.selected,
                ..old(self).picker
            }),
            final(self).scope == old(self).scope,
    {
        self.picker.page(dir);
    }

    /// One entry per diagnostic in a buffer, each paired with how the server
    /// that published it counts columns.
    ///
    /// The message is truncated to [`MESSAGE_MAX_CHARS`] and stripped of
    /// embedded newlines so it fits a single row. Entries are sorted by
    /// `(line, column)` ascending.
    pub fn local_entries(diagnostics: &Vec<LocatedDiagnostic>) -> (sorted: Vec<DiagnosticsEntry>)
        requires
            forall|i: int|
                0 <= i < diagnostics@.len() ==> is_countable((#[trigger] diagnostics@[i]).diagnostic),
        ensures
            are_sorted_by_position(sorted@, diagnostics@),
    {
        let mut entries: Vec<DiagnosticsEntry> = Vec::new();
        let mut keys: Vec<ByPosition> = Vec::new();
        for i in 0..diagnostics.len()
            invariant
                forall|k: int|
                    0 <= k < diagnostics@.len() ==> is_countable(
                        (#[trigger] diagnostics@[k]).diagnostic,
                    ),
                are_local_entries(entries@, diagnostics@.take(i as int)),
                keys@ == position_keys(entries@),
        {
            let located = &diagnostics[i];
            let diag = &located.diagnostic;
            let line: u32 = diag.start.line + 1;
            let column: u32 = diag.start.character + 1;
            let ghost before = entries@;
            entries.push(
                DiagnosticsEntry {
                    offset: located.offset,
                    line,
                    column,
                    severity: diag.severity,
                    message: render_message(diag.message.as_str()),
                    path: None,
                    encoding: located.encoding,
                },
            );
            keys.push(ByPosition { line, column });
            assert(keys@ =~= position_keys(entries@));
            assert forall|k: int| 0 <= k < entries@.len() implies is_entry(
                #[trigger] entries@[k],
                diagnostics@.take(i + 1)[k].diagnostic,
                diagnostics@.take(i + 1)[k].offset,
                None,
                diagnostics@.take(i + 1)[k].encoding,
            ) by {
                if k < i {
                    assert(entries@[k] == before[k]);
                    assert(diagnostics@.take(i + 1)[k] == diagnostics@.take(i as int)[k]);
                }
            }
        }
        assert(diagnostics@.take(diagnostics@.len() as int) =~= diagnostics@);
        let order = stable_order(&keys);
        proof {
            lemma_the_order(keys@, order@);
        }
        let sorted = in_order(&entries, &order);
        assert(are_local_entries(entries@, diagnostics@));
        assert(sorted@ =~= arranged(position_keys(entries@), entries@));
        sorted
    }

    /// One entry per `(path, diagnostic)` pair in the workspace's diagnostic
    /// set.
    ///
    /// Every `offset` is a sentinel `0`, because the target file need not be
    /// open yet. The select handler recomputes the real byte offset after
    /// opening it. Entries are sorted by `(path, line, column)` so the list
    /// reads predictably.
    pub fn workspace_entries(
        diagnostics: &DiagnosticSet,
        encodings: &StrMap<OffsetEncoding>,
    ) -> (sorted: Vec<DiagnosticsEntry>)
        requires
            diagnostics.wf(),
            forall|i: int|
                0 <= i < all_attributions(
                    diagnostics@,
                    diagnostics.paths(),
                    diagnostics.paths().len(),
                ).len() ==> is_countable(
                    (#[trigger] all_attributions(
                        diagnostics@,
                        diagnostics.paths(),
                        diagnostics.paths().len(),
                    )[i]).2,
                ),
        ensures
            are_sorted_by_place(
                sorted@,
                all_attributions(diagnostics@, diagnostics.paths(), diagnostics.paths().len()),
                encodings@,
            ),
    {
        let triples = diagnostics.iter_attributed();
        let ghost all = all_attributions(
            diagnostics@,
            diagnostics.paths(),
            diagnostics.paths().len(),
        );
        let mut entries: Vec<DiagnosticsEntry> = Vec::new();
        let mut keys: Vec<ByPlace> = Vec::new();
        for i in 0..triples.len()
            invariant
                triples@.len() == all.len(),
                forall|k: int| 0 <= k < all.len() ==> is_countable((#[trigger] all[k]).2),
                forall|k: int|
                    0 <= k < triples@.len() ==> (#[trigger] triples@[k]).path@ == all[k].0
                        && triples@[k].server@ == all[k].1 && *triples@[k].diagnostic == all[k].2,
                are_workspace_entries(entries@, all.take(i as int), encodings@),
                keys@ == place_keys(entries@),
        {
            let triple = &triples[i];
            let diag = triple.diagnostic;
            assert(is_countable(all[i as int].2));
            let line: u32 = diag.start.line + 1;
            let column: u32 = diag.start.character + 1;
            let encoding = match encodings.get(triple.server) {
                Some(encoding) => *encoding,
                None => OffsetEncoding::Utf16,
            };
            let path: String = triple.path.to_owned();
            let ghost before = entries@;
            keys.push(ByPlace { path: path.clone(), line, column });
            entries.push(
                DiagnosticsEntry {
                    offset: 0,
                    line,
                    column,
                    severity: diag.severity,
                    message: render_message(diag.message.as_str()),
                    path: Some(path),
                    encoding,
                },
            );
            assert(keys@ =~= place_keys(entries@));
            assert forall|k: int| 0 <= k < entries@.len() implies is_entry(
                #[trigger] entries@[k],
                all.take(i + 1)[k].2,
                0,
                Some(all.take(i + 1)[k].0),
                encoding_of(encodings@, all.take(i + 1)[k].1),
            ) by {
                if k < i {
                    assert(entries@[k] == before[k]);
                    assert(all.take(i + 1)[k] == all.take(i as int)[k]);
                }
            }
        }
        assert(all.take(all.len() as int) =~= all);
        let order = stable_order(&keys);
        proof {
            lemma_the_order(keys@, order@);
        }
        let sorted = in_order(&entries, &order);
        assert(are_workspace_entries(entries@, all, encodings@));
        assert(sorted@ =~= arranged(place_keys(entries@), entries@));
        sorted
    }
}

// ---------------------------------------------------------------------------
// Laws
// ---------------------------------------------------------------------------

/// A message is shown on one row: it keeps its characters, up to eighty of
/// them, and has a space for each line break.
pub proof fn a_message_fits_on_a_row(raw: Seq<char>, shown: Seq<char>)
    requires
        shown == one_row(raw),
    ensures
        raw.len() <= 80 ==> shown.len() == raw.len(),
        raw.len() > 80 ==> shown.len() == 80,
        forall|i: int| 0 <= i < shown.len() && raw[i] != '\n' ==> #[trigger] shown[i] == raw[i],
        forall|i: int| 0 <= i < shown.len() && raw[i] == '\n' ==> #[trigger] shown[i] == ' ',
{
}

/// A query is matched against the path, where the row names one, the line and
/// the message.
pub proof fn a_row_is_found_by_place_and_message(entry: DiagnosticsEntry, text: Seq<char>)
    requires
        text == haystack(entry),
    ensures
        entry.path is Some ==> text == entry.path->0@ + seq![':'] + decimal_digits(entry.line as nat)
            + seq![' '] + entry.message@,
        entry.path is None ==> text == decimal_digits(entry.line as nat) + seq![' '] + entry.message@,
{
    if entry.path is Some {
        assert(text =~= entry.path->0@ + seq![':'] + decimal_digits(entry.line as nat) + seq![' ']
            + entry.message@);
    } else {
        assert(text =~= decimal_digits(entry.line as nat) + seq![' '] + entry.message@);
    }
}

/// `e` shows the diagnostic: its place counted from one, its severity and its
/// message.
pub open spec fn shows(e: DiagnosticsEntry, d: Diagnostic) -> bool {
    &&& e.line == d.start.line + 1
    &&& e.column == d.start.character + 1
    &&& e.severity == d.severity
    &&& e.message@ == one_row(d.message@)
}

/// The list of a file has a row for each of its diagnostics, at the offset where
/// it starts, and no other row. They come by line and then by column.
pub proof fn every_local_diagnostic_has_a_row(
    sorted: Seq<DiagnosticsEntry>,
    diagnostics: Seq<LocatedDiagnostic>,
    k: int,
)
    requires
        are_sorted_by_position(sorted, diagnostics),
        diagnostics.len() <= usize::MAX,
        0 <= k < diagnostics.len(),
    ensures
        sorted.len() == diagnostics.len(),
        exists|i: int|
            0 <= i < sorted.len() && shows(#[trigger] sorted[i], diagnostics[k].diagnostic)
                && sorted[i].offset == diagnostics[k].offset && sorted[i].path is None,
        forall|i: int, j: int|
            0 <= i < j < sorted.len() ==> (#[trigger] sorted[i]).line < (#[trigger] sorted[j]).line
                || sorted[i].line == sorted[j].line && sorted[i].column <= sorted[j].column,
{
    let plain = choose|plain: Seq<DiagnosticsEntry>| #[trigger]
        are_local_entries(plain, diagnostics) && sorted == arranged(position_keys(plain), plain);
    let keys = position_keys(plain);
    arranging_keeps_every_entry(keys, plain);
    every_list_has_an_order(keys);
    assert(plain.contains(plain[k]));
    assert(sorted.contains(plain[k]));
    let i = choose|i: int| 0 <= i < sorted.len() && sorted[i] == plain[k];
    assert(shows(sorted[i], diagnostics[k].diagnostic));
    let order = crate::order::the_order(keys);
    assert forall|i: int, j: int| 0 <= i < j < sorted.len() implies (#[trigger] sorted[i]).line < (
    #[trigger] sorted[j]).line || sorted[i].line == sorted[j].line && sorted[i].column
        <= sorted[j].column by {
        assert(!keys[order[j] as int].ranks_before(keys[order[i] as int]));
        assert(sorted[i] == plain[order[i] as int] && sorted[j] == plain[order[j] as int]);
    }
}

/// The list of the workspace has a row for each diagnostic of each path, named
/// with its path, and no other row. They come by path, then by line and column.
pub proof fn every_workspace_diagnostic_has_a_row(
    sorted: Seq<DiagnosticsEntry>,
    triples: Seq<(Seq<char>, Seq<char>, Diagnostic)>,
    encodings: Map<Seq<char>, OffsetEncoding>,
    k: int,
)
    requires
        are_sorted_by_place(sorted, triples, encodings),
        triples.len() <= usize::MAX,
        0 <= k < triples.len(),
    ensures
        sorted.len() == triples.len(),
        exists|i: int|
            0 <= i < sorted.len() && shows(#[trigger] sorted[i], triples[k].2) && sorted[i].path
                is Some && sorted[i].path->0@ == triples[k].0 && (if encodings.contains_key(
                triples[k].1,
            ) {
                sorted[i].encoding == encodings[triples[k].1]
            } else {
                sorted[i].encoding == OffsetEncoding::Utf16
            }),
        forall|i: int, j: int|
            0 <= i < j < sorted.len() ==> !path_before(
                (#[trigger] sorted[j]).path->0@,
                (#[trigger] sorted[i]).path->0@,
            ),
        forall|i: int, j: int|
            0 <= i < j < sorted.len() && !path_before(
                (#[trigger] sorted[i]).path->0@,
                (#[trigger] sorted[j]).path->0@,
            ) ==> sorted[i].line < sorted[j].line || sorted[i].line == sorted[j].line
                && sorted[i].column <= sorted[j].column,
{
    let plain = choose|plain: Seq<DiagnosticsEntry>| #[trigger]
        are_workspace_entries(plain, triples, encodings) && sorted == arranged(
            place_keys(plain),
            plain,
        );
    let keys = place_keys(plain);
    arranging_keeps_every_entry(keys, plain);
    every_list_has_an_order(keys);
    assert(plain.contains(plain[k]));
    assert(sorted.contains(plain[k]));
    let i = choose|i: int| 0 <= i < sorted.len() && sorted[i] == plain[k];
    assert(shows(sorted[i], triples[k].2));
    let order = crate::order::the_order(keys);
    assert forall|i: int, j: int| 0 <= i < j < sorted.len() implies !path_before(
        (#[trigger] sorted[j]).path->0@,
        (#[trigger] sorted[i]).path->0@,
    ) && (path_before(sorted[i].path->0@, sorted[j].path->0@) || sorted[i].line < sorted[j].line
        || sorted[i].line == sorted[j].line && sorted[i].column <= sorted[j].column) by {
        assert(!keys[order[j] as int].ranks_before(keys[order[i] as int]));
        assert(sorted[i] == plain[order[i] as int] && sorted[j] == plain[order[j] as int]);
    }
}

/// A row leads to its own path, and one that names none to the file that the
/// list is of.
pub proof fn a_row_leads_to_its_path(scope: PickerScope, entry: DiagnosticsEntry)
    ensures
        entry.path is Some ==> target_path(scope, entry) == Some(entry.path->0@),
        entry.path is None ==> (scope matches PickerScope::Local(path) ==> target_path(scope, entry)
            == Some(path@)),
        entry.path is None && scope is Workspace ==> target_path(scope, entry) is None,
{
}

} // verus!
