//! Acceptance of a row of the completion popup.
//!
//! The highlighted item's range is replaced by its text in the focused buffer,
//! the cursor goes to the inserted end, and the popup goes away. An item's
//! range is tracked from the text that its source read to the text as it is
//! now, so both the wide range of a server's edit and the prefix range of the
//! other sources work uniformly.

use crate::completion::request::{record_dismiss, CompletionState};
use crate::completion::snippet::{
    is_rendering, parse, pieces, tabstops_lie_in_the_text, Rendered, TabstopGroup,
};
use crate::completion::CompletionItem;
use crate::text::{
    byte_len, bytes_in, chars_before, chars_from, encoding_is_additive, is_boundary, same,
    string_of, text_before, text_before_is_a_prefix, text_from,
};
use std::ops::Range;
use vstd::prelude::*;
use vstd::string::StringExecFns;
use vstd::utf8::{encode_utf8, encode_utf8_decode_utf8};

verus! {

/// How long the answer of a server about an accepted item is waited for.
pub const RESOLVE_TIMEOUT_MS: u64 = 300;

/// A server, and what it said of resolving items: nothing, or whether it does.
pub struct ResolvingServer {
    pub name: String,
    /// What its completion options say, where it has any.
    pub resolve_provider: Option<Option<bool>>,
}

/// The servers of a buffer.
pub struct Servers {
    /// Those known by name.
    pub named: Vec<ResolvingServer>,
    /// What the primary server said of resolving items.
    pub primary: Option<Option<bool>>,
}

/// The server that an accepted item is resolved by.
#[derive(Debug, PartialEq, Eq)]
pub enum ResolveHost {
    Named(String),
    Primary,
}

/// What is to be done about the edits besides the main one.
#[derive(Debug, PartialEq, Eq)]
pub enum AdditionalEdits {
    Nothing,
    /// Apply those the item carries, counted as the server counts.
    Apply(ResolveHost),
    /// Ask the server for them.
    Resolve(ResolveHost),
}

/// The edits that a server gave for an accepted item, and the buffer they
/// apply to.
#[derive(Debug, PartialEq, Eq)]
pub struct AcceptedImports<E> {
    pub buffer_id: u64,
    pub edits: Vec<E>,
}

/// What acceptance finds in the editor.
pub struct FocusedEditor {
    /// Buffer, the version that it has once the edit is made, and cursor.
    pub probe: (u64, u64, usize),
    /// The text of the buffer.
    pub text: String,
    /// The two ends of the highlighted item's range, as they stand in the text
    /// now. An edit that collapsed the text between them may have crossed
    /// them.
    pub ends: (usize, usize),
}

/// What an acceptance does.
#[derive(Debug, PartialEq, Eq)]
pub struct Accepted {
    /// The range that is replaced.
    pub edit_range: Range<usize>,
    /// The text put in its place.
    pub inserted: String,
    /// The text of the buffer afterwards.
    pub text: String,
    /// The selections afterwards.
    pub selections: Vec<Range<usize>>,
    /// The tabstop groups still to be visited, in visit order, where they
    /// stand in the text.
    pub remaining: Vec<TabstopGroup>,
    /// The edits besides the main one.
    pub additional: AdditionalEdits,
}

/// The server known as `name`, by its place.
pub open spec fn server_at(named: Seq<ResolvingServer>, name: Seq<char>, n: nat) -> Option<int>
    decreases n,
{
    if n == 0 {
        None
    } else {
        match server_at(named, name, (n - 1) as nat) {
            Some(i) => Some(i),
            None => if named[n - 1].name@ == name {
                Some(n - 1)
            } else {
                None
            },
        }
    }
}

/// Where the server that produced the item is known, its place.
pub open spec fn producer(item: CompletionItem, servers: Servers) -> Option<int> {
    match item.server {
        Some(name) => server_at(servers.named@, name@, servers.named@.len()),
        None => None,
    }
}

/// `host` is the server that produced the item when known, else the primary.
pub open spec fn is_resolve_host(host: ResolveHost, item: CompletionItem, servers: Servers) -> bool {
    match producer(item, servers) {
        Some(i) => host matches ResolveHost::Named(name) && name@ == servers.named@[i].name@,
        None => host is Primary,
    }
}

/// Whether a server said that it resolves items.
pub open spec fn advertised(provider: Option<Option<bool>>) -> bool {
    provider == Some(Some(true))
}

/// Whether the item's server said that it resolves items.
pub open spec fn host_resolves(item: CompletionItem, servers: Servers) -> bool {
    match producer(item, servers) {
        Some(i) => advertised(servers.named@[i].resolve_provider),
        None => advertised(servers.primary),
    }
}

fn find_server(named: &Vec<ResolvingServer>, name: &str) -> (at: Option<usize>)
    ensures
        match at {
            Some(i) => i < named@.len() && server_at(named@, name@, named@.len()) == Some(i as int),
            None => server_at(named@, name@, named@.len()) is None,
        },
{
    let mut found: Option<usize> = None;
    let mut n: usize = 0;
    while n < named.len()
        invariant
            n <= named.len(),
            match found {
                Some(i) => i < named@.len() && server_at(named@, name@, n as nat) == Some(
                    i as int,
                ),
                None => server_at(named@, name@, n as nat) is None,
            },
        decreases named.len() - n,
    {
        if found.is_none() && same(named[n].name.as_str(), name) {
            found = Some(n);
        }
        n = n + 1;
    }
    found
}

/// The server to ask about `item`: the one that produced it when known, else
/// the buffer's primary.
pub fn resolve_host(item: &CompletionItem, servers: &Servers) -> (host: ResolveHost)
    ensures
        is_resolve_host(host, *item, *servers),
{
    match &item.server {
        Some(name) => match find_server(&servers.named, name.as_str()) {
            Some(i) => ResolveHost::Named(servers.named[i].name.clone()),
            None => ResolveHost::Primary,
        },
        None => ResolveHost::Primary,
    }
}

/// Whether a server said that it resolves items.
pub fn resolve_advertised(provider: Option<Option<bool>>) -> (r: bool)
    ensures
        r == advertised(provider),
{
    match provider {
        Some(Some(resolves)) => resolves,
        _ => false,
    }
}

/// What is done about the edits besides the main one: those the item carries
/// are applied; else an LSP item whose server resolves is resolved. Items of
/// other sources have none.
pub open spec fn is_additional(
    edits: AdditionalEdits,
    item: CompletionItem,
    servers: Servers,
) -> bool {
    match item.lsp_item {
        None => edits is Nothing,
        Some(lsp) => if lsp.has_additional_edits {
            edits matches AdditionalEdits::Apply(host) && is_resolve_host(host, item, servers)
        } else if host_resolves(item, servers) {
            edits matches AdditionalEdits::Resolve(host) && is_resolve_host(host, item, servers)
        } else {
            edits is Nothing
        },
    }
}

/// What to do about the edits besides the main one.
pub fn apply_or_resolve_additional_edits(item: &CompletionItem, servers: &Servers) -> (edits:
    AdditionalEdits)
    ensures
        is_additional(edits, *item, *servers),
{
    match &item.lsp_item {
        None => AdditionalEdits::Nothing,
        Some(lsp) => {
            let host = resolve_host(item, servers);
            if lsp.has_additional_edits {
                return AdditionalEdits::Apply(host);
            }
            let provider: Option<Option<bool>> = match &item.server {
                Some(name) => match find_server(&servers.named, name.as_str()) {
                    Some(i) => servers.named[i].resolve_provider,
                    None => servers.primary,
                },
                None => servers.primary,
            };
            if resolve_advertised(provider) {
                AdditionalEdits::Resolve(host)
            } else {
                AdditionalEdits::Nothing
            }
        },
    }
}

/// What comes of asking a server: the edits of the item it answered with, when
/// there are any. `None` stands for an error or an answer after
/// [`RESOLVE_TIMEOUT_MS`].
pub fn resolved_imports<E>(buffer_id: u64, reply: Option<Option<Vec<E>>>) -> (imports: Option<
    AcceptedImports<E>,
>)
    ensures
        imports == (match reply {
            Some(Some(edits)) => if edits@.len() > 0 {
                Some(AcceptedImports { buffer_id, edits })
            } else {
                None
            },
            _ => None,
        }),
{
    match reply {
        Some(Some(edits)) => if edits.len() > 0 {
            Some(AcceptedImports { buffer_id, edits })
        } else {
            None
        },
        _ => None,
    }
}

/// The edits to apply once the answer about an accepted item has landed.
/// `landed` holds whether the document is still as it was when asked, and what
/// came of asking.
///
/// Imports name lines in the text the acceptance left behind. Typing since
/// then moves them, and an import landing mid-line is worse than none.
pub fn pump_completion_accept<E>(landed: Option<(bool, Option<AcceptedImports<E>>)>) -> (apply:
    Option<AcceptedImports<E>>)
    ensures
        apply == (match landed {
            Some((true, imports)) => imports,
            _ => None,
        }),
{
    match landed {
        Some((is_current, imports)) => if is_current {
            imports
        } else {
            None
        },
        None => None,
    }
}

/// `text` with the bytes from `start` to `end` replaced.
pub open spec fn spliced(text: Seq<char>, start: int, end: int, insert: Seq<char>) -> Seq<char> {
    text_before(text, start) + insert + text_from(text, end)
}

/// `text` with a range replaced.
pub fn splice(text: &str, start: usize, end: usize, insert: &str) -> (new: String)
    requires
        start <= end,
        is_boundary(text@, start as int),
        is_boundary(text@, end as int),
    ensures
        new@ == spliced(text@, start as int, end as int, insert@),
        start + byte_len(insert@) <= byte_len(new@),
{
    let head = chars_before(text, start);
    let tail = chars_from(text, end);
    let mut new = string_of(head.as_slice());
    new.append(insert);
    let rest = string_of(tail.as_slice());
    new.append(rest.as_str());
    proof {
        text_before_is_a_prefix(text@, start as int);
        encoding_is_additive(head@, insert@);
        encoding_is_additive(head@ + insert@, tail@);
    }
    new
}

/// The text that accepting the item inserts.
pub open spec fn insertion(item: CompletionItem, rendered: Rendered) -> Seq<char> {
    if item.is_snippet {
        rendered.text@
    } else {
        item.insert_text@
    }
}

/// `ranges` are those of a snippet, where they stand once it went in at
/// `start`.
pub open spec fn are_shifted(ranges: Seq<Range<usize>>, own: Seq<Range<usize>>, start: int) -> bool {
    &&& ranges.len() == own.len()
    &&& forall|i: int|
        0 <= i < ranges.len() ==> (#[trigger] ranges[i]).start == start + own[i].start
            && ranges[i].end == start + own[i].end
}

/// `remaining` are the groups behind the first, where they stand once the
/// snippet went in at `start`.
pub open spec fn are_remaining(
    remaining: Seq<TabstopGroup>,
    groups: Seq<TabstopGroup>,
    start: int,
) -> bool {
    &&& remaining.len() + 1 == groups.len()
    &&& forall|g: int|
        0 <= g < remaining.len() ==> (#[trigger] remaining[g]).idx == groups[g + 1].idx
            && are_shifted(remaining[g].ranges@, groups[g + 1].ranges@, start)
}

/// The ranges of a snippet that went in at `start`.
fn shift_ranges(own: &Vec<Range<usize>>, start: usize, Ghost(len): Ghost<int>) -> (ranges: Vec<
    Range<usize>,
>)
    requires
        start + len <= usize::MAX,
        forall|i: int|
            0 <= i < own@.len() ==> (#[trigger] own@[i]).start <= own@[i].end <= len,
    ensures
        are_shifted(ranges@, own@, start as int),
{
    let mut ranges: Vec<Range<usize>> = Vec::new();
    for i in 0..own.len()
        invariant
            start + len <= usize::MAX,
            forall|k: int|
                0 <= k < own@.len() ==> (#[trigger] own@[k]).start <= own@[k].end <= len,
            ranges@.len() == i,
            forall|k: int|
                0 <= k < i ==> (#[trigger] ranges@[k]).start == start + own@[k].start
                    && ranges@[k].end == start + own@[k].end,
    {
        let range = &own[i];
        assert(own@[i as int].start <= own@[i as int].end <= len);
        ranges.push(start + range.start..start + range.end);
    }
    ranges
}

/// `accepted` is what accepting `item` does, where its body renders to
/// `rendered` if it is a snippet.
pub open spec fn is_acceptance(
    accepted: Accepted,
    item: CompletionItem,
    rendered: Rendered,
    editor: FocusedEditor,
    servers: Servers,
) -> bool {
    let start = if editor.ends.0 <= editor.ends.1 { editor.ends.0 } else { editor.ends.1 };
    let end = if editor.ends.0 <= editor.ends.1 { editor.ends.1 } else { editor.ends.0 };
    &&& item.is_snippet ==> is_rendering(rendered, pieces(item.insert_text@, 0, Seq::empty()))
    &&& accepted.edit_range == (Range { start, end })
    &&& accepted.inserted@ == insertion(item, rendered)
    &&& accepted.text@ == spliced(editor.text@, start as int, end as int, insertion(item, rendered))
    &&& if item.is_snippet {
        are_shifted(accepted.selections@, rendered.groups@[0].ranges@, start as int)
            && are_remaining(accepted.remaining@, rendered.groups@, start as int)
    } else {
        let at = start + byte_len(item.insert_text@);
        accepted.selections@.len() == 1 && accepted.selections@[0].start == at
            && accepted.selections@[0].end == at && accepted.remaining@.len() == 0
    }
    &&& is_additional(accepted.additional, item, servers)
}

/// The completion state after an acceptance: the popup and the request are
/// gone, the buffer counts as looked at, and a snippet with a tabstop besides
/// the exit stays to be filled in.
pub open spec fn accepted_state(
    before: CompletionState,
    item: CompletionItem,
    rendered: Rendered,
    editor: FocusedEditor,
) -> CompletionState {
    CompletionState {
        pending_completion: None,
        pending_completion_request: false,
        last_completion_signature: Some((editor.probe.0, editor.probe.1)),
        active_snippet: item.is_snippet && rendered.groups@.len() > 1,
        ..before
    }
}

/// The highlighted item of the open popup.
pub open spec fn highlighted(state: CompletionState) -> Option<CompletionItem> {
    match state.pending_completion {
        Some(popup) => if popup.selected_idx < popup.matches@.len() {
            Some(popup.items@[popup.matches@[popup.selected_idx as int].0 as int])
        } else {
            None
        },
        None => None,
    }
}

/// `done` is what accepting the highlighted item does, and it takes the
/// completion state from `before` to `after`.
pub open spec fn accepts(
    done: Accepted,
    before: CompletionState,
    after: CompletionState,
    editor: FocusedEditor,
    servers: Servers,
) -> bool {
    let item = highlighted(before)->0;
    exists|rendered: Rendered|
        #[trigger] is_acceptance(done, item, rendered, editor, servers) && after == accepted_state(
            before,
            item,
            rendered,
            editor,
        )
}

/// Accept the highlighted item of the open popup. Nothing is accepted when the
/// popup is not showing or has no rows, or `editor` is `None`, no editor being
/// focused; everything is then left as it was.
///
/// A snippet is rendered, its first tabstop group selected, and the others
/// kept to be visited. The text of another item goes in verbatim, and the
/// cursor stands at its end.
pub fn execute(
    state: &mut CompletionState,
    editor: Option<&FocusedEditor>,
    servers: &Servers,
) -> (accepted: Option<Accepted>)
    requires
        old(state).pending_completion matches Some(popup) ==> popup.wf(),
        editor matches Some(e) ==> is_boundary(e.text@, e.ends.0 as int) && is_boundary(
            e.text@,
            e.ends.1 as int,
        ),
    ensures
        accepted is Some <==> highlighted(*old(state)) is Some && editor is Some,
        accepted is None ==> *final(state) == *old(state),
        accepted matches Some(done) ==> accepts(
            done,
            *old(state),
            *final(state),
            *editor->0,
            *servers,
        ),
{
    let editor: &FocusedEditor = match editor {
        Some(editor) => editor,
        None => {
            return None;
        },
    };
    let item: CompletionItem = match &state.pending_completion {
        Some(popup) => match popup.selected() {
            Some(item) => item.clone(),
            None => {
                return None;
            },
        },
        None => {
            return None;
        },
    };
    state.pending_completion = None;
    let (a, b): (usize, usize) = editor.ends;
    let start: usize = if a <= b { a } else { b };
    let end: usize = if a <= b { b } else { a };

    let rendered: Rendered = if item.is_snippet {
        parse(item.insert_text.as_str()).render()
    } else {
        Rendered { text: String::new(), groups: Vec::new() }
    };
    let inserted: String = if item.is_snippet {
        rendered.text.clone()
    } else {
        item.insert_text.clone()
    };
    let text = splice(editor.text.as_str(), start, end, inserted.as_str());
    let whole: usize = bytes_in(text.as_str());
    let mut selections: Vec<Range<usize>> = Vec::new();
    let mut remaining: Vec<TabstopGroup> = Vec::new();
    if item.is_snippet {
        let ghost len = byte_len(rendered.text@) as int;
        proof {
            tabstops_lie_in_the_text(rendered, pieces(item.insert_text@, 0, Seq::empty()));
            assert forall|g: int, i: int|
                0 <= g < rendered.groups@.len() && 0 <= i < rendered.groups@[g].ranges@.len() implies (
            #[trigger] rendered.groups@[g].ranges@[i]).start <= rendered.groups@[g].ranges@[i].end
                <= len by {}
        }
        assert(start + len <= whole);
        selections = shift_ranges(&rendered.groups[0].ranges, start, Ghost(len));
        for g in 1..rendered.groups.len()
            invariant
                rendered.groups@.len() > 0,
                start + len <= usize::MAX,
                forall|g: int, i: int|
                    0 <= g < rendered.groups@.len() && 0 <= i < rendered.groups@[g].ranges@.len()
                        ==> (#[trigger] rendered.groups@[g].ranges@[i]).start
                        <= rendered.groups@[g].ranges@[i].end <= len,
                remaining@.len() + 1 == g,
                forall|k: int|
                    0 <= k < remaining@.len() ==> (#[trigger] remaining@[k]).idx
                        == rendered.groups@[k + 1].idx && are_shifted(
                        remaining@[k].ranges@,
                        rendered.groups@[k + 1].ranges@,
                        start as int,
                    ),
        {
            let group = &rendered.groups[g];
            assert forall|i: int| 0 <= i < group.ranges@.len() implies (
            #[trigger] group.ranges@[i]).start <= group.ranges@[i].end <= len by {
                assert(rendered.groups@[g as int].ranges@[i] == group.ranges@[i]);
            }
            let ranges = shift_ranges(&group.ranges, start, Ghost(len));
            remaining.push(TabstopGroup { idx: group.idx, ranges });
        }
    } else {
        let at: usize = start + bytes_in(inserted.as_str());
        selections.push(at..at);
    }

    state.pending_completion_request = false;
    record_dismiss(state, Some(editor.probe));
    state.active_snippet = item.is_snippet && rendered.groups.len() > 1;

    let additional = apply_or_resolve_additional_edits(&item, servers);
    let done = Accepted {
        edit_range: start..end,
        inserted,
        text,
        selections,
        remaining,
        additional,
    };
    assert(highlighted(*old(state)) == Some(item));
    assert(*state == accepted_state(*old(state), item, rendered, *editor));
    assert(is_acceptance(done, item, rendered, *editor, *servers));
    Some(done)
}

/// An edit leaves the text before its range and the text after it as they
/// were.
pub proof fn the_rest_of_the_text_stays(text: Seq<char>, start: int, end: int, insert: Seq<char>)
    requires
        start <= end,
        is_boundary(text, start),
        is_boundary(text, end),
    ensures
        text_before(spliced(text, start, end, insert), start) == text_before(text, start),
        text_from(spliced(text, start, end, insert), (start + byte_len(insert)) as int)
            == text_from(text, end),
{
    let before = text_before(text, start);
    let after = text_from(text, end);
    let new = spliced(text, start, end, insert);
    let bytes = encode_utf8(text);
    text_before_is_a_prefix(text, start);
    encoding_is_additive(before, insert);
    encoding_is_additive(before + insert, after);
    encode_utf8_decode_utf8(before);
    encode_utf8_decode_utf8(after);
    assert(encode_utf8(new).take(start) =~= encode_utf8(before));
    assert(encode_utf8(new).skip((start + byte_len(insert)) as int) =~= encode_utf8(after));
}

// ---------------------------------------------------------------------------
// What accepting does
// ---------------------------------------------------------------------------

/// Accepting an item changes the range of the item and nothing else: the bytes
/// before it and behind it stay, and the inserted text stands between. The item
/// is the one in the highlighted row.
pub proof fn accepting_replaces_the_items_range(
    done: Accepted,
    before: CompletionState,
    after: CompletionState,
    editor: FocusedEditor,
    servers: Servers,
)
    requires
        accepts(done, before, after, editor, servers),
        is_boundary(editor.text@, editor.ends.0 as int),
        is_boundary(editor.text@, editor.ends.1 as int),
    ensures
        ({
            let (a, b) = editor.ends;
            let lo = if a <= b { a } else { b };
            let hi = if a <= b { b } else { a };
            let bytes = encode_utf8(editor.text@);
            &&& encode_utf8(done.text@) == bytes.take(lo as int) + encode_utf8(done.inserted@)
                + bytes.skip(hi as int)
            &&& done.edit_range.start == lo
            &&& done.edit_range.end == hi
        }),
{
    let (a, b) = editor.ends;
    let lo = if a <= b { a as int } else { b as int };
    let hi = if a <= b { b as int } else { a as int };
    let text = editor.text@;
    let item = highlighted(before)->0;
    let rendered = choose|rendered: Rendered|
        #[trigger] is_acceptance(done, item, rendered, editor, servers) && after == accepted_state(
            before,
            item,
            rendered,
            editor,
        );
    let insert = done.inserted@;
    lemma_parts(text, lo);
    lemma_parts(text, hi);
    encoding_is_additive(text_before(text, lo), insert);
    encoding_is_additive(text_before(text, lo) + insert, text_from(text, hi));
    assert(done.text@ == text_before(text, lo) + insert + text_from(text, hi));
}

/// The parts of a text before and behind a character boundary are its bytes
/// there.
proof fn lemma_parts(text: Seq<char>, at: int)
    requires
        is_boundary(text, at),
    ensures
        encode_utf8(text_before(text, at)) == encode_utf8(text).take(at),
        encode_utf8(text_from(text, at)) == encode_utf8(text).skip(at),
{
    let bytes = encode_utf8(text);
    vstd::utf8::encode_utf8_valid_utf8(text);
    vstd::utf8::valid_utf8_split(bytes, at);
    vstd::utf8::decode_utf8_encode_utf8(bytes.take(at));
    vstd::utf8::decode_utf8_encode_utf8(bytes.skip(at));
    assert(bytes.subrange(0, at) =~= bytes.take(at));
    assert(bytes.subrange(at, bytes.len() as int) =~= bytes.skip(at));
}

/// Plain text goes in as it is, and the cursor stands behind it, with nothing
/// left to visit.
pub proof fn plain_text_goes_in_as_it_is(
    done: Accepted,
    before: CompletionState,
    after: CompletionState,
    editor: FocusedEditor,
    servers: Servers,
    popup: crate::completion::CompletionPopup,
    item: CompletionItem,
)
    requires
        accepts(done, before, after, editor, servers),
        before.pending_completion == Some(popup),
        popup.selected_idx < popup.matches@.len(),
        item == popup.items@[popup.matches@[popup.selected_idx as int].0 as int],
        !item.is_snippet,
    ensures
        done.inserted@ == item.insert_text@,
        done.selections@.len() == 1,
        done.selections@[0].start == done.edit_range.start + byte_len(item.insert_text@),
        done.selections@[0].end == done.selections@[0].start,
        done.remaining@.len() == 0,
        !after.active_snippet,
{
}

/// A snippet goes in rendered. Its first group of tabstops is selected, each
/// where it stands in the text, and the others are left to visit in order; it
/// stays active as long as there is one.
pub proof fn a_snippet_goes_in_rendered(
    done: Accepted,
    before: CompletionState,
    after: CompletionState,
    editor: FocusedEditor,
    servers: Servers,
    popup: crate::completion::CompletionPopup,
    item: CompletionItem,
)
    requires
        accepts(done, before, after, editor, servers),
        before.pending_completion == Some(popup),
        popup.selected_idx < popup.matches@.len(),
        item == popup.items@[popup.matches@[popup.selected_idx as int].0 as int],
        item.is_snippet,
    ensures
        exists|r: Rendered| #[trigger]
            is_rendering(r, pieces(item.insert_text@, 0, Seq::empty())) && done.inserted@
                == r.text@ && visits(done, r) && after.active_snippet == (done.remaining@.len()
                > 0),
{
    let rendered = choose|rendered: Rendered|
        #[trigger] is_acceptance(done, item, rendered, editor, servers) && after == accepted_state(
            before,
            item,
            rendered,
            editor,
        );
    assert(is_rendering(rendered, pieces(item.insert_text@, 0, Seq::empty())));
    assert forall|g: int, i: int|
        0 <= g < done.remaining@.len() && 0 <= i < done.remaining@[g].ranges@.len() implies (
    #[trigger] done.remaining@[g].ranges@[i]).start == done.edit_range.start + rendered.groups@[g
        + 1].ranges@[i].start && done.remaining@[g].ranges@[i].end == done.edit_range.start
        + rendered.groups@[g + 1].ranges@[i].end by {
        assert(are_shifted(
            done.remaining@[g].ranges@,
            rendered.groups@[g + 1].ranges@,
            done.edit_range.start as int,
        ));
    }
    assert(visits(done, rendered));
}

/// The selections are the first group of `r` and what remains the others, all
/// moved to where the text went in.
pub open spec fn visits(done: Accepted, r: Rendered) -> bool {
    let at = done.edit_range.start;
    &&& done.selections@.len() == r.groups@[0].ranges@.len()
    &&& forall|i: int|
        0 <= i < done.selections@.len() ==> (#[trigger] done.selections@[i]).start == at
            + r.groups@[0].ranges@[i].start && done.selections@[i].end == at
            + r.groups@[0].ranges@[i].end
    &&& done.remaining@.len() + 1 == r.groups@.len()
    &&& forall|g: int|
        0 <= g < done.remaining@.len() ==> (#[trigger] done.remaining@[g]).idx == r.groups@[g
            + 1].idx && done.remaining@[g].ranges@.len() == r.groups@[g + 1].ranges@.len()
    &&& forall|g: int, i: int|
        0 <= g < done.remaining@.len() && 0 <= i < done.remaining@[g].ranges@.len() ==> (
        #[trigger] done.remaining@[g].ranges@[i]).start == at + r.groups@[g + 1].ranges@[i].start
            && done.remaining@[g].ranges@[i].end == at + r.groups@[g + 1].ranges@[i].end
}

/// Accepting closes the popup, gives up the request, and counts the buffer, as
/// the edit leaves it, as looked at.
pub proof fn accepting_closes_the_popup(
    done: Accepted,
    before: CompletionState,
    after: CompletionState,
    editor: FocusedEditor,
    servers: Servers,
)
    requires
        accepts(done, before, after, editor, servers),
    ensures
        after.pending_completion is None,
        !after.pending_completion_request,
        after.last_completion_signature == Some((editor.probe.0, editor.probe.1)),
        after.completion_context == before.completion_context,
{
}

proof fn lemma_server_at(named: Seq<ResolvingServer>, name: Seq<char>, n: nat)
    requires
        n <= named.len(),
    ensures
        match server_at(named, name, n) {
            Some(i) => 0 <= i < n && named[i].name@ == name && forall|j: int|
                0 <= j < i ==> (#[trigger] named[j]).name@ != name,
            None => forall|j: int| 0 <= j < n ==> (#[trigger] named[j]).name@ != name,
        },
    decreases n,
{
    if n > 0 {
        lemma_server_at(named, name, (n - 1) as nat);
    }
}

/// What is done about the edits besides the main one. An item that no server
/// answered has none. Those that the item carries are applied. Else they are
/// asked for, where the server says that it resolves items: the one that
/// answered with the item, if it is still known by its name, else the primary.
pub proof fn the_items_own_server_is_asked(
    edits: AdditionalEdits,
    item: CompletionItem,
    servers: Servers,
)
    requires
        is_additional(edits, item, servers),
    ensures
        item.lsp_item is None ==> edits is Nothing,
        item.lsp_item is Some && item.lsp_item->0.has_additional_edits ==> edits is Apply,
        item.lsp_item is Some && !item.lsp_item->0.has_additional_edits ==> !(edits is Apply),
        forall|i: int|
            #![trigger servers.named@[i]]
            item.lsp_item is Some && item.server is Some && 0 <= i < servers.named@.len()
                && servers.named@[i].name@ == item.server->0@ && (forall|j: int|
                0 <= j < i ==> (#[trigger] servers.named@[j]).name@ != item.server->0@) ==> (match edits {
                AdditionalEdits::Nothing => servers.named@[i].resolve_provider != Some(Some(true)),
                AdditionalEdits::Apply(host) => host matches ResolveHost::Named(name) && name@
                    == item.server->0@,
                AdditionalEdits::Resolve(host) => servers.named@[i].resolve_provider == Some(
                    Some(true),
                ) && (host matches ResolveHost::Named(name) && name@ == item.server->0@),
            }),
        item.lsp_item is Some && (item.server is None || forall|j: int|
            0 <= j < servers.named@.len() ==> (#[trigger] servers.named@[j]).name@
                != item.server->0@) ==> (match edits {
            AdditionalEdits::Nothing => servers.primary != Some(Some(true)),
            AdditionalEdits::Apply(host) => host is Primary,
            AdditionalEdits::Resolve(host) => servers.primary == Some(Some(true)) && host is Primary,
        }),
{
    match item.server {
        Some(name) => {
            lemma_server_at(servers.named@, name@, servers.named@.len());
        },
        None => {},
    }
}

} // verus!
