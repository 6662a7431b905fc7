//! LSP completion source: turns what a server offers into the shape that the
//! popup, the trigger pipeline and the acceptance handler share.

use crate::completion::{
    CompletionContext, CompletionItem, CompletionItemKind, CompletionSource, LspExtras,
};
use std::ops::Range;
use vstd::prelude::*;

verus! {

/// What one server offered, and whether that is all of it.
#[derive(Debug, PartialEq, Eq)]
pub struct Answer {
    pub items: Vec<CompletionItem>,
    /// `false` where the server marked its list incomplete, meaning it stopped
    /// early and wants asking again as the prefix grows.
    pub complete: bool,
}

impl Default for Answer {
    fn default() -> (a: Self)
        ensures
            a.items@.len() == 0,
            !a.complete,
    {
        Answer { items: Vec::new(), complete: false }
    }
}

/// The kinds of item that the protocol knows.
#[derive(Debug, Clone, Copy, PartialEq, Eq, Structural)]
pub enum LspKind {
    Text,
    Method,
    Function,
    Constructor,
    Field,
    Variable,
    Class,
    Interface,
    Module,
    Property,
    Unit,
    Value,
    Enum,
    Keyword,
    Snippet,
    Color,
    File,
    Reference,
    Folder,
    EnumMember,
    Constant,
    Struct,
    Event,
    Operator,
    TypeParameter,
    /// A kind that the protocol does not list.
    Unlisted,
}

/// What a server has to say about an item.
#[derive(Debug, PartialEq, Eq)]
pub enum Documentation {
    /// Plain text.
    PlainText(String),
    /// Text in a markup language, which stays as it is.
    MarkupContent(String),
}

/// The edit that accepting an item makes, over byte ranges of the buffer.
#[derive(Debug, PartialEq, Eq)]
pub enum TextEdit {
    Edit { range: Range<usize>, new_text: String },
    InsertAndReplace { insert: Range<usize>, replace: Range<usize>, new_text: String },
}

/// One item of a server's answer.
#[derive(Debug, PartialEq, Eq)]
pub struct LspItem {
    pub label: String,
    pub kind: Option<LspKind>,
    pub detail: Option<String>,
    pub documentation: Option<Documentation>,
    pub text_edit: Option<TextEdit>,
    pub insert_text: Option<String>,
    /// Whether the text to insert is a snippet body.
    pub is_snippet: bool,
    pub filter_text: Option<String>,
    pub sort_text: Option<String>,
    /// Whether the item carries edits besides its own.
    pub has_additional_edits: bool,
}

/// A server's answer.
#[derive(Debug, PartialEq, Eq)]
pub enum LspResponse {
    Array(Vec<LspItem>),
    List { items: Vec<LspItem>, is_incomplete: bool },
}

/// Split a response into its items and whether the server called the list
/// complete. A bare array carries no such flag, and the protocol reads that as
/// complete.
pub fn extract_items(response: LspResponse) -> (r: (Vec<LspItem>, bool))
    ensures
        r == (match response {
            LspResponse::Array(items) => (items, true),
            LspResponse::List { items, is_incomplete } => (items, !is_incomplete),
        }),
{
    match response {
        LspResponse::Array(items) => (items, true),
        LspResponse::List { items, is_incomplete } => (items, !is_incomplete),
    }
}

/// The items of a reply. A server that errors or answers nothing yields none,
/// and is reported incomplete so nothing is narrowed from an answer that never
/// came.
pub fn fetched(reply: Option<LspResponse>) -> (r: (Vec<LspItem>, bool))
    ensures
        match reply {
            Some(LspResponse::Array(items)) => r == (items, true),
            Some(LspResponse::List { items, is_incomplete }) => r == (items, !is_incomplete),
            None => r.0@.len() == 0 && !r.1,
        },
{
    match reply {
        Some(response) => extract_items(response),
        None => (Vec::new(), false),
    }
}

/// The badge of a kind.
pub open spec fn kind_badge(kind: LspKind) -> CompletionItemKind {
    match kind {
        LspKind::Method => CompletionItemKind::Method,
        LspKind::Function => CompletionItemKind::Function,
        LspKind::Constructor => CompletionItemKind::Function,
        LspKind::Field => CompletionItemKind::Field,
        LspKind::Property => CompletionItemKind::Field,
        LspKind::Variable => CompletionItemKind::Variable,
        LspKind::Value => CompletionItemKind::Variable,
        LspKind::Class => CompletionItemKind::Class,
        LspKind::Interface => CompletionItemKind::Class,
        LspKind::Module => CompletionItemKind::Module,
        LspKind::Enum => CompletionItemKind::Enum,
        LspKind::EnumMember => CompletionItemKind::Enum,
        LspKind::Struct => CompletionItemKind::Struct,
        LspKind::Constant => CompletionItemKind::Constant,
        LspKind::Keyword => CompletionItemKind::Keyword,
        LspKind::File => CompletionItemKind::File,
        LspKind::Folder => CompletionItemKind::Folder,
        LspKind::Snippet => CompletionItemKind::Snippet,
        _ => CompletionItemKind::Other,
    }
}

/// The badge of a kind.
pub fn map_kind(kind: LspKind) -> (badge: Option<CompletionItemKind>)
    ensures
        badge == Some(kind_badge(kind)),
{
    Some(
        match kind {
            LspKind::Method => CompletionItemKind::Method,
            LspKind::Function | LspKind::Constructor => CompletionItemKind::Function,
            LspKind::Field | LspKind::Property => CompletionItemKind::Field,
            LspKind::Variable | LspKind::Value => CompletionItemKind::Variable,
            LspKind::Class | LspKind::Interface => CompletionItemKind::Class,
            LspKind::Module => CompletionItemKind::Module,
            LspKind::Enum | LspKind::EnumMember => CompletionItemKind::Enum,
            LspKind::Struct => CompletionItemKind::Struct,
            LspKind::Constant => CompletionItemKind::Constant,
            LspKind::Keyword => CompletionItemKind::Keyword,
            LspKind::File => CompletionItemKind::File,
            LspKind::Folder => CompletionItemKind::Folder,
            LspKind::Snippet => CompletionItemKind::Snippet,
            _ => CompletionItemKind::Other,
        },
    )
}

/// Flatten what a server says about an item into plain text. Markup is kept
/// verbatim.
pub fn documentation_string(doc: Option<Documentation>) -> (text: Option<String>)
    ensures
        text == (match doc {
            Some(Documentation::PlainText(t)) => Some(t),
            Some(Documentation::MarkupContent(t)) => Some(t),
            None => None,
        }),
{
    match doc {
        Some(Documentation::PlainText(t)) => Some(t),
        Some(Documentation::MarkupContent(t)) => Some(t),
        None => None,
    }
}

/// The text that accepting the item inserts: that of its edit, else its insert
/// text, else its label.
pub open spec fn text_to_insert(item: LspItem) -> Seq<char> {
    match item.text_edit {
        Some(TextEdit::Edit { new_text, .. }) => new_text@,
        Some(TextEdit::InsertAndReplace { new_text, .. }) => new_text@,
        None => match item.insert_text {
            Some(text) => text@,
            None => item.label@,
        },
    }
}

/// The range that accepting the item replaces: that of its edit, else the
/// prefix.
pub open spec fn range_to_replace(item: LspItem, prefix_range: Range<usize>) -> Range<usize> {
    match item.text_edit {
        Some(TextEdit::Edit { range, .. }) => range,
        Some(TextEdit::InsertAndReplace { replace, .. }) => replace,
        None => prefix_range,
    }
}

/// `out` is what `item`, answered by `server`, becomes in the popup.
pub open spec fn is_translation(
    out: CompletionItem,
    item: LspItem,
    server: Seq<char>,
    prefix_range: Range<usize>,
) -> bool {
    &&& out.label == item.label
    &&& out.source == CompletionSource::Lsp
    &&& out.kind == (match item.kind {
        Some(kind) => Some(kind_badge(kind)),
        None => None,
    })
    &&& out.detail == item.detail
    &&& out.documentation == (match item.documentation {
        Some(Documentation::PlainText(t)) => Some(t),
        Some(Documentation::MarkupContent(t)) => Some(t),
        None => None,
    })
    &&& out.replace_range == range_to_replace(item, prefix_range)
    &&& out.insert_text@ == text_to_insert(item)
    &&& out.is_snippet == item.is_snippet
    &&& out.lsp_item == Some(
        LspExtras {
            filter_text: item.filter_text,
            sort_text: item.sort_text,
            has_additional_edits: item.has_additional_edits,
        },
    )
    &&& out.server matches Some(name) && name@ == server
}

/// Turn a server's item into the popup's own.
pub fn translate(item: LspItem, server: &str, ctx: &CompletionContext<'_>) -> (out: CompletionItem)
    ensures
        is_translation(out, item, server@, ctx.prefix_range),
{
    let insert_text: Option<String> = item.insert_text;
    let (replace_range, edit_text): (Range<usize>, Option<String>) = match item.text_edit {
        Some(TextEdit::Edit { range, new_text }) => (range, Some(new_text)),
        Some(TextEdit::InsertAndReplace { insert: _, replace, new_text }) => (
            replace,
            Some(new_text),
        ),
        None => (ctx.prefix_range.start..ctx.prefix_range.end, None),
    };
    let insert_text: String = match edit_text {
        Some(text) => text,
        None => match insert_text {
            Some(text) => text,
            None => item.label.clone(),
        },
    };
    CompletionItem {
        label: item.label,
        source: CompletionSource::Lsp,
        kind: match item.kind {
            Some(kind) => map_kind(kind),
            None => None,
        },
        detail: item.detail,
        replace_range,
        insert_text,
        is_snippet: item.is_snippet,
        documentation: documentation_string(item.documentation),
        lsp_item: Some(
            LspExtras {
                filter_text: item.filter_text,
                sort_text: item.sort_text,
                has_additional_edits: item.has_additional_edits,
            },
        ),
        server: Some(server.to_owned()),
    }
}

/// Turn a server's items into the popup's own, in their order.
pub fn translate_all(items: Vec<LspItem>, server: &str, ctx: &CompletionContext<'_>) -> (out: Vec<
    CompletionItem,
>)
    ensures
        out@.len() == items@.len(),
        forall|i: int|
            0 <= i < out@.len() ==> is_translation(
                #[trigger] out@[i],
                items@[i],
                server@,
                ctx.prefix_range,
            ),
{
    let mut out: Vec<CompletionItem> = Vec::new();
    for item in it: items
        invariant
            out@.len() == it.index(),
            it.seq() == items@,
            forall|i: int|
                0 <= i < out@.len() ==> is_translation(
                    #[trigger] out@[i],
                    items@[i],
                    server@,
                    ctx.prefix_range,
                ),
    {
        out.push(translate(item, server, ctx));
    }
    out
}

/// What the popup shows of a server's item is what the server said: its label,
/// its detail, its documentation. Accepting it makes the server's own edit,
/// over the range that replaces; without one the insert text goes in place of
/// the prefix, and without that the label.
pub proof fn an_item_is_as_the_server_said(
    out: CompletionItem,
    item: LspItem,
    server: Seq<char>,
    prefix_range: Range<usize>,
)
    requires
        is_translation(out, item, server, prefix_range),
    ensures
        out.label == item.label,
        out.detail == item.detail,
        out.is_snippet == item.is_snippet,
        out.source == CompletionSource::Lsp,
        out.server is Some && out.server->0@ == server,
        item.kind is None ==> out.kind is None,
        item.text_edit matches Some(TextEdit::Edit { range, new_text }) ==> out.replace_range == range
            && out.insert_text@ == new_text@,
        item.text_edit matches Some(TextEdit::InsertAndReplace { insert, replace, new_text })
            ==> out.replace_range == replace && out.insert_text@ == new_text@,
        item.text_edit is None ==> out.replace_range == prefix_range,
        item.text_edit is None && item.insert_text is Some ==> out.insert_text@
            == item.insert_text->0@,
        item.text_edit is None && item.insert_text is None ==> out.insert_text@ == item.label@,
        item.documentation is None ==> out.documentation is None,
        item.documentation matches Some(Documentation::PlainText(t)) ==> out.documentation == Some(
            t,
        ),
        item.documentation matches Some(Documentation::MarkupContent(t)) ==> out.documentation
            == Some(t),
        out.lsp_item is Some,
        out.lsp_item->0.filter_text == item.filter_text,
        out.lsp_item->0.sort_text == item.sort_text,
        out.lsp_item->0.has_additional_edits == item.has_additional_edits,
{
}

/// Kinds that have a badge of their own name get it; of the others a
/// constructor counts as a function, a property as a field, a value as a
/// variable, an interface as a class and an enum's member as an enum. What is
/// left has the badge for the rest.
pub proof fn kinds_have_their_badges()
    ensures
        kind_badge(LspKind::Method) == CompletionItemKind::Method,
        kind_badge(LspKind::Function) == CompletionItemKind::Function,
        kind_badge(LspKind::Field) == CompletionItemKind::Field,
        kind_badge(LspKind::Variable) == CompletionItemKind::Variable,
        kind_badge(LspKind::Class) == CompletionItemKind::Class,
        kind_badge(LspKind::Module) == CompletionItemKind::Module,
        kind_badge(LspKind::Enum) == CompletionItemKind::Enum,
        kind_badge(LspKind::Struct) == CompletionItemKind::Struct,
        kind_badge(LspKind::Constant) == CompletionItemKind::Constant,
        kind_badge(LspKind::Keyword) == CompletionItemKind::Keyword,
        kind_badge(LspKind::File) == CompletionItemKind::File,
        kind_badge(LspKind::Folder) == CompletionItemKind::Folder,
        kind_badge(LspKind::Snippet) == CompletionItemKind::Snippet,
        kind_badge(LspKind::Constructor) == kind_badge(LspKind::Function),
        kind_badge(LspKind::Property) == kind_badge(LspKind::Field),
        kind_badge(LspKind::Value) == kind_badge(LspKind::Variable),
        kind_badge(LspKind::Interface) == kind_badge(LspKind::Class),
        kind_badge(LspKind::EnumMember) == kind_badge(LspKind::Enum),
        forall|kind: LspKind|
            (kind is Text || kind is Unit || kind is Color || kind is Reference || kind is Event
                || kind is Operator || kind is TypeParameter || kind is Unlisted)
                ==> #[trigger] kind_badge(kind) == CompletionItemKind::Other,
{
}

} // verus!
