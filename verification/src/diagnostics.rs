//! Workspace-wide store of diagnostics, with a per-path summary that the
//! status bar consumes.
//!
//! Each path's diagnostics are kept by the reporting server, so several
//! servers on one file (rust-analyzer plus a linter) contribute layered
//! diagnostics that merge on read rather than clobbering each other.

use crate::pathmap::{all_components, distinct_paths, PathMap};
use crate::paths::components;
use crate::text::{
    comes_before, lex_asymmetric, lex_before, lex_negatively_transitive, lex_total, same,
};
use std::ops::Range;
use vstd::prelude::*;

verus! {

/// How bad a diagnostic is.
#[derive(Debug, Clone, Copy, PartialEq, Eq, Structural)]
pub enum DiagnosticSeverity {
    Error,
    Warning,
    Information,
    Hint,
    /// A severity that the protocol does not list.
    Unlisted,
}

/// A place in a document, as the protocol names it.
#[derive(Debug, Clone, Copy, PartialEq, Eq, Structural)]
pub struct Position {
    pub line: u32,
    pub character: u32,
}

/// What a diagnostic is marked with.
#[derive(Debug, Clone, Copy, PartialEq, Eq, Structural)]
pub struct DiagnosticTags {
    /// Dead or inactive code.
    pub unnecessary: bool,
    /// Deprecated code.
    pub deprecated: bool,
}

/// One diagnostic of a server.
#[derive(Debug, PartialEq, Eq)]
pub struct Diagnostic {
    pub start: Position,
    pub end: Position,
    pub severity: Option<DiagnosticSeverity>,
    pub message: String,
    pub tags: DiagnosticTags,
}

impl Clone for Diagnostic {
    fn clone(&self) -> (c: Self)
        ensures
            c == *self,
    {
        Diagnostic {
            start: self.start,
            end: self.end,
            severity: self.severity,
            message: self.message.clone(),
            tags: self.tags,
        }
    }
}

/// Where a diagnostic sat in the buffer when its publish landed.
///
/// A server measures a diagnostic against a document version and names it by
/// line and column. Converting that against the current text puts the mark
/// wherever those coordinates now point, which after an edit above it is the
/// wrong place. Resolving once, when the publish arrives and the coordinates
/// still mean what the server meant, gives a span that later edits can be
/// carried through instead.
#[derive(Debug, PartialEq, Eq)]
pub struct PublishedSpan {
    pub range: Range<usize>,
    /// The buffer version [`Self::range`] is in the coordinates of.
    ///
    /// [`u64::MAX`] means the span was never resolved against a buffer, so
    /// there is no history to carry it through and a reader leaves it alone.
    pub base_version: u64,
}

impl Clone for PublishedSpan {
    fn clone(&self) -> (c: Self)
        ensures
            c == *self,
    {
        PublishedSpan {
            range: self.range.start..self.range.end,
            base_version: self.base_version,
        }
    }
}

impl PublishedSpan {
    /// A span for a diagnostic nothing could resolve, because the path has no
    /// open buffer to measure against. Carried through no edits.
    pub fn unresolved() -> (span: Self)
        ensures
            span.range == (Range { start: 0usize, end: 0usize }),
            span.base_version == u64::MAX,
    {
        PublishedSpan { range: 0..0, base_version: u64::MAX }
    }
}

// ---------------------------------------------------------------------------
// Severity counts
// ---------------------------------------------------------------------------

/// Severity-bucketed counts for a single document plus the worst severity
/// present, used by the status bar to paint a compact badge.
#[derive(Debug, Clone, Copy, PartialEq, Eq, Structural)]
pub struct DiagnosticSummary {
    pub error: usize,
    pub warning: usize,
    pub information: usize,
    pub hint: usize,
    pub worst: Option<DiagnosticSeverity>,
}

impl Default for DiagnosticSummary {
    fn default() -> (s: Self)
        ensures
            is_summary(s, Seq::empty()),
            s.is_zero(),
    {
        DiagnosticSummary { error: 0, warning: 0, information: 0, hint: 0, worst: None }
    }
}

impl DiagnosticSummary {
    /// No diagnostic was counted.
    pub open spec fn is_zero(&self) -> bool {
        self.error == 0 && self.warning == 0 && self.information == 0 && self.hint == 0
    }

    /// True when no diagnostics are present (all severity counts zero). The
    /// status bar uses this to decide whether to paint a badge.
    pub fn is_empty(&self) -> (r: bool)
        ensures
            r == self.is_zero(),
    {
        self.error == 0 && self.warning == 0 && self.information == 0 && self.hint == 0
    }
}

/// The bucket that a diagnostic counts in. One with no severity, or one that
/// is not listed, is counted as an error, since a server that omits it is
/// reporting something it could not classify rather than nothing.
pub open spec fn bucket(d: Diagnostic) -> DiagnosticSeverity {
    match d.severity {
        Some(DiagnosticSeverity::Warning) => DiagnosticSeverity::Warning,
        Some(DiagnosticSeverity::Information) => DiagnosticSeverity::Information,
        Some(DiagnosticSeverity::Hint) => DiagnosticSeverity::Hint,
        _ => DiagnosticSeverity::Error,
    }
}

/// How many of the first `n` diagnostics count in a bucket.
pub open spec fn counted(diagnostics: Seq<Diagnostic>, n: nat, severity: DiagnosticSeverity) -> nat
    decreases n,
{
    if n == 0 {
        0
    } else {
        counted(diagnostics, (n - 1) as nat, severity) + (if bucket(diagnostics[n - 1]) == severity {
            1nat
        } else {
            0nat
        })
    }
}

/// `s` counts each bucket of `diagnostics` and names the worst one present.
pub open spec fn is_summary(s: DiagnosticSummary, diagnostics: Seq<Diagnostic>) -> bool {
    let n = diagnostics.len();
    &&& s.error == counted(diagnostics, n, DiagnosticSeverity::Error)
    &&& s.warning == counted(diagnostics, n, DiagnosticSeverity::Warning)
    &&& s.information == counted(diagnostics, n, DiagnosticSeverity::Information)
    &&& s.hint == counted(diagnostics, n, DiagnosticSeverity::Hint)
    &&& s.worst == (if s.error > 0 {
        Some(DiagnosticSeverity::Error)
    } else if s.warning > 0 {
        Some(DiagnosticSeverity::Warning)
    } else if s.information > 0 {
        Some(DiagnosticSeverity::Information)
    } else if s.hint > 0 {
        Some(DiagnosticSeverity::Hint)
    } else {
        None
    })
}

/// Bucket `diagnostics` by severity and name the worst one present.
pub fn summarize_diagnostics(diagnostics: &[Diagnostic]) -> (summary: DiagnosticSummary)
    ensures
        is_summary(summary, diagnostics@),
{
    let mut error: usize = 0;
    let mut warning: usize = 0;
    let mut information: usize = 0;
    let mut hint: usize = 0;
    let mut i: usize = 0;
    while i < diagnostics.len()
        invariant
            i <= diagnostics@.len(),
            error == counted(diagnostics@, i as nat, DiagnosticSeverity::Error),
            warning == counted(diagnostics@, i as nat, DiagnosticSeverity::Warning),
            information == counted(diagnostics@, i as nat, DiagnosticSeverity::Information),
            hint == counted(diagnostics@, i as nat, DiagnosticSeverity::Hint),
            error + warning + information + hint == i,
        decreases diagnostics@.len() - i,
    {
        match diagnostics[i].severity {
            Some(DiagnosticSeverity::Warning) => {
                warning = warning + 1;
            },
            Some(DiagnosticSeverity::Information) => {
                information = information + 1;
            },
            Some(DiagnosticSeverity::Hint) => {
                hint = hint + 1;
            },
            _ => {
                error = error + 1;
            },
        }
        i = i + 1;
    }
    let worst = if error > 0 {
        Some(DiagnosticSeverity::Error)
    } else if warning > 0 {
        Some(DiagnosticSeverity::Warning)
    } else if information > 0 {
        Some(DiagnosticSeverity::Information)
    } else if hint > 0 {
        Some(DiagnosticSeverity::Hint)
    } else {
        None
    };
    DiagnosticSummary { error, warning, information, hint, worst }
}

proof fn lemma_counts_add_up(diagnostics: Seq<Diagnostic>, n: nat)
    ensures
        counted(diagnostics, n, DiagnosticSeverity::Error) + counted(
            diagnostics,
            n,
            DiagnosticSeverity::Warning,
        ) + counted(diagnostics, n, DiagnosticSeverity::Information) + counted(
            diagnostics,
            n,
            DiagnosticSeverity::Hint,
        ) == n,
    decreases n,
{
    if n > 0 {
        lemma_counts_add_up(diagnostics, (n - 1) as nat);
    }
}

/// The counts of a summary add up to the number of diagnostics, so it is empty
/// exactly when there are none.
pub proof fn counts_add_up(s: DiagnosticSummary, diagnostics: Seq<Diagnostic>)
    requires
        is_summary(s, diagnostics),
    ensures
        s.error + s.warning + s.information + s.hint == diagnostics.len(),
        s.is_zero() <==> diagnostics.len() == 0,
        s.worst is None <==> diagnostics.len() == 0,
{
    lemma_counts_add_up(diagnostics, diagnostics.len());
}

// ---------------------------------------------------------------------------
// The diagnostics of one path
// ---------------------------------------------------------------------------

/// What one server published for a path.
pub struct Published {
    pub server: Seq<char>,
    pub diagnostics: Seq<Diagnostic>,
    pub spans: Seq<PublishedSpan>,
}

/// The servers stand in the order of their names, each once; each has
/// something to report, and a span for all of it.
pub open spec fn is_layered(list: Seq<Published>) -> bool {
    &&& forall|i: int, j: int|
        0 <= i < j < list.len() ==> lex_before(
            (#[trigger] list[i]).server,
            (#[trigger] list[j]).server,
        )
    &&& forall|i: int|
        0 <= i < list.len() ==> (#[trigger] list[i]).diagnostics.len() > 0
            && list[i].diagnostics.len() == list[i].spans.len()
}

/// The place of `server` among the names from `i` on.
pub open spec fn place_of(list: Seq<Published>, server: Seq<char>, i: int) -> int
    decreases list.len() - i,
{
    if 0 <= i < list.len() && lex_before(list[i].server, server) {
        place_of(list, server, i + 1)
    } else {
        i
    }
}

/// The list after a publish: `new` stands for what its server said before, and
/// a server with nothing to report leaves the list.
pub open spec fn republished(list: Seq<Published>, new: Published) -> Seq<Published> {
    let k = place_of(list, new.server, 0);
    let known = k < list.len() && list[k].server == new.server;
    if new.diagnostics.len() == 0 {
        if known {
            list.remove(k)
        } else {
            list
        }
    } else if known {
        list.update(k, new)
    } else {
        list.insert(k, new)
    }
}

/// The diagnostics of the first `n` servers, one after another.
pub open spec fn merged_diagnostics(list: Seq<Published>, n: nat) -> Seq<Diagnostic>
    decreases n,
{
    if n == 0 {
        Seq::empty()
    } else {
        merged_diagnostics(list, (n - 1) as nat) + list[n - 1].diagnostics
    }
}

/// The spans of the first `n` servers, one after another.
pub open spec fn merged_spans(list: Seq<Published>, n: nat) -> Seq<PublishedSpan>
    decreases n,
{
    if n == 0 {
        Seq::empty()
    } else {
        merged_spans(list, (n - 1) as nat) + list[n - 1].spans
    }
}

/// Every diagnostic of the list.
pub open spec fn all_diagnostics(list: Seq<Published>) -> Seq<Diagnostic> {
    merged_diagnostics(list, list.len())
}

/// Every span of the list.
pub open spec fn all_spans(list: Seq<Published>) -> Seq<PublishedSpan> {
    merged_spans(list, list.len())
}

/// What a server contributes to the list.
pub open spec fn contribution(list: Seq<Published>, server: Seq<char>) -> Option<Published> {
    let k = place_of(list, server, 0);
    if k < list.len() && list[k].server == server {
        Some(list[k])
    } else {
        None
    }
}

/// One server's published diagnostics for a path, with each one's span.
#[derive(Debug)]
struct ServerPublish {
    server: String,
    diagnostics: Vec<Diagnostic>,
    /// One per entry of `diagnostics`, in the same order.
    spans: Vec<PublishedSpan>,
}

impl Clone for ServerPublish {
    fn clone(&self) -> (c: Self)
        ensures
            c@ == self@,
    {
        let mut diagnostics: Vec<Diagnostic> = Vec::new();
        let mut spans: Vec<PublishedSpan> = Vec::new();
        append_diagnostics(&mut diagnostics, &self.diagnostics);
        append_spans(&mut spans, &self.spans);
        assert(diagnostics@ =~= self.diagnostics@);
        assert(spans@ =~= self.spans@);
        ServerPublish { server: self.server.clone(), diagnostics, spans }
    }
}

impl View for ServerPublish {
    type V = Published;

    closed spec fn view(&self) -> Published {
        Published {
            server: self.server@,
            diagnostics: self.diagnostics@,
            spans: self.spans@,
        }
    }
}

/// A path's diagnostics grouped by the server that published them, plus their
/// merged list cached so reads hand out a borrow without re-merging.
#[derive(Debug)]
struct PathDiagnostics {
    by_server: Vec<ServerPublish>,
    merged: Vec<Diagnostic>,
    /// Spans for `merged`, in the same order.
    merged_spans: Vec<PublishedSpan>,
    /// Severity counts over the merged list, refreshed whenever a server
    /// republishes for this path.
    ///
    /// The status bar asks for this every frame while diagnostics change only
    /// when a server speaks, so counting on read would walk the list for an
    /// answer that almost never moves.
    summary: DiagnosticSummary,
}

spec fn viewed(list: Seq<ServerPublish>) -> Seq<Published> {
    Seq::new(list.len(), |i: int| list[i]@)
}

impl View for PathDiagnostics {
    type V = Seq<Published>;

    closed spec fn view(&self) -> Seq<Published> {
        viewed(self.by_server@)
    }
}

impl Clone for PathDiagnostics {
    fn clone(&self) -> (c: Self)
        ensures
            c@ == self@,
            self.wf() ==> c.wf(),
    {
        let mut by_server: Vec<ServerPublish> = Vec::new();
        for n in 0..self.by_server.len()
            invariant
                viewed(by_server@) == viewed(self.by_server@).take(n as int),
        {
            let ghost before = viewed(by_server@);
            by_server.push(self.by_server[n].clone());
            assert(viewed(by_server@) =~= before.push(self.by_server@[n as int]@));
            assert(viewed(self.by_server@).take(n + 1) =~= before.push(
                self.by_server@[n as int]@,
            ));
        }
        assert(viewed(self.by_server@).take(self.by_server@.len() as int) =~= viewed(
            self.by_server@,
        ));
        let mut merged: Vec<Diagnostic> = Vec::new();
        let mut merged_spans: Vec<PublishedSpan> = Vec::new();
        append_diagnostics(&mut merged, &self.merged);
        append_spans(&mut merged_spans, &self.merged_spans);
        assert(merged@ =~= self.merged@);
        assert(merged_spans@ =~= self.merged_spans@);
        PathDiagnostics { by_server, merged, merged_spans, summary: self.summary }
    }
}

impl PathDiagnostics {
    pub closed spec fn wf(&self) -> bool {
        &&& self@.len() > 0
        &&& is_layered(self@)
        &&& self@.len() > 1 ==> self.merged@ == all_diagnostics(self@)
        &&& self@.len() > 1 ==> self.merged_spans@ == all_spans(self@)
        &&& is_summary(self.summary, all_diagnostics(self@))
    }

    /// The merged diagnostic list for this path.
    ///
    /// A single server's slice is its own merge, so it is read straight from
    /// `by_server`; `merged` is materialized only while more than one server
    /// contributes, sparing a full clone on the common single-server publish.
    fn merged(&self) -> (list: &[Diagnostic])
        requires
            self@.len() > 1 ==> self.merged@ == all_diagnostics(self@),
            self@.len() > 0,
        ensures
            list@ == all_diagnostics(self@),
    {
        if self.by_server.len() == 1 {
            proof {
                reveal_with_fuel(merged_diagnostics, 2);
                assert(all_diagnostics(self@) =~= self@[0].diagnostics);
            }
            self.by_server[0].diagnostics.as_slice()
        } else {
            self.merged.as_slice()
        }
    }

    /// Spans for [`Self::merged`], in the same order, read the same way.
    fn merged_spans(&self) -> (list: &[PublishedSpan])
        requires
            self.wf(),
        ensures
            list@ == all_spans(self@),
    {
        if self.by_server.len() == 1 {
            proof {
                reveal_with_fuel(merged_spans, 2);
                assert(all_spans(self@) =~= self@[0].spans);
            }
            self.by_server[0].spans.as_slice()
        } else {
            self.merged_spans.as_slice()
        }
    }
}

proof fn lemma_lex_transitive(a: Seq<char>, b: Seq<char>, c: Seq<char>)
    requires
        lex_before(a, b),
        lex_before(b, c),
    ensures
        lex_before(a, c),
{
    if !lex_before(a, c) {
        lex_asymmetric(b, c);
        lex_negatively_transitive(a, c, b);
    }
}

proof fn lemma_place(list: Seq<Published>, server: Seq<char>, i: int)
    requires
        0 <= i <= list.len(),
        forall|j: int| 0 <= j < i ==> lex_before((#[trigger] list[j]).server, server),
    ensures
        i <= place_of(list, server, i) <= list.len(),
        place_of(list, server, i) == place_of(list, server, 0),
        forall|j: int|
            0 <= j < place_of(list, server, i) ==> lex_before((#[trigger] list[j]).server, server),
        place_of(list, server, i) < list.len() ==> !lex_before(
            list[place_of(list, server, i)].server,
            server,
        ),
    decreases list.len() - i,
{
    if i < list.len() && lex_before(list[i].server, server) {
        lemma_place(list, server, i + 1);
    }
    lemma_place_skips(list, server, 0, i);
}

proof fn lemma_place_skips(list: Seq<Published>, server: Seq<char>, i: int, k: int)
    requires
        0 <= i <= k <= list.len(),
        forall|j: int| i <= j < k ==> lex_before((#[trigger] list[j]).server, server),
    ensures
        place_of(list, server, i) == place_of(list, server, k),
    decreases k - i,
{
    if i < k {
        assert(lex_before(list[i].server, server));
        lemma_place_skips(list, server, i + 1, k);
    }
}

/// In a layered list, what stands at or after the place of a name does not
/// come before it.
proof fn lemma_after_place(list: Seq<Published>, server: Seq<char>, j: int)
    requires
        is_layered(list),
        place_of(list, server, 0) <= j < list.len(),
    ensures
        !lex_before(list[j].server, server),
        list[j].server == server ==> j == place_of(list, server, 0),
        j > place_of(list, server, 0) ==> lex_before(server, list[j].server),
{
    lemma_place(list, server, 0);
    let k = place_of(list, server, 0);
    if j > k {
        assert(lex_before(list[k].server, list[j].server));
        if lex_before(server, list[k].server) {
            lemma_lex_transitive(server, list[k].server, list[j].server);
        } else {
            lex_total(list[k].server, server);
        }
        lex_asymmetric(server, list[j].server);
    }
    if list[j].server == server && j > k {
        lex_asymmetric(server, list[j].server);
    }
}

proof fn lemma_republished_is_layered(list: Seq<Published>, new: Published)
    requires
        is_layered(list),
        new.diagnostics.len() == new.spans.len(),
    ensures
        is_layered(republished(list, new)),
{
    let k = place_of(list, new.server, 0);
    let out = republished(list, new);
    lemma_place(list, new.server, 0);
    assert forall|i: int, j: int| 0 <= i < j < out.len() implies lex_before(
        (#[trigger] out[i]).server,
        (#[trigger] out[j]).server,
    ) by {
        if out.len() > list.len() {
            let a = if i < k { i } else { i - 1 };
            let b = if j < k { j } else { j - 1 };
            if i == k {
                lemma_after_place(list, new.server, b);
                if !lex_before(new.server, list[b].server) {
                    lex_total(new.server, list[b].server);
                }
            } else if j == k {
                assert(lex_before(list[a].server, new.server));
            } else {
                assert(lex_before(list[a].server, list[b].server));
            }
        } else if out.len() < list.len() {
            let a = if i < k { i } else { i + 1 };
            let b = if j < k { j } else { j + 1 };
            assert(out[i] == list[a] && out[j] == list[b]);
            assert(lex_before(list[a].server, list[b].server));
        } else {
            assert(lex_before(list[i].server, list[j].server));
        }
    }
    assert forall|i: int| 0 <= i < out.len() implies (#[trigger] out[i]).diagnostics.len() > 0
        && out[i].diagnostics.len() == out[i].spans.len() by {
        if out.len() > list.len() {
            if i < k {
                assert(out[i] == list[i]);
            } else if i > k {
                assert(out[i] == list[i - 1]);
            }
        } else if out.len() < list.len() {
            if i < k {
                assert(out[i] == list[i]);
            } else {
                assert(out[i] == list[i + 1]);
            }
        } else if out != list && i != k {
            assert(out[i] == list[i]);
        }
    }
}

proof fn lemma_contribution_at(list: Seq<Published>, server: Seq<char>, i: int)
    requires
        is_layered(list),
        0 <= i < list.len(),
        list[i].server == server,
    ensures
        contribution(list, server) == Some(list[i]),
{
    lemma_place(list, server, 0);
    let k = place_of(list, server, 0);
    if i < k {
        assert(lex_before(list[i].server, server));
        lex_asymmetric(server, server);
    } else {
        lemma_after_place(list, server, i);
    }
}

proof fn lemma_no_contribution(list: Seq<Published>, server: Seq<char>)
    requires
        is_layered(list),
        forall|i: int| 0 <= i < list.len() ==> (#[trigger] list[i]).server != server,
    ensures
        contribution(list, server) is None,
{
    lemma_place(list, server, 0);
}

/// What a server published last is what it contributes; once it published
/// nothing it contributes nothing.
pub proof fn last_publish_stands(list: Seq<Published>, new: Published)
    requires
        is_layered(list),
        new.diagnostics.len() == new.spans.len(),
    ensures
        contribution(republished(list, new), new.server) == (if new.diagnostics.len() > 0 {
            Some(new)
        } else {
            None
        }),
{
    let k = place_of(list, new.server, 0);
    let out = republished(list, new);
    lemma_place(list, new.server, 0);
    lemma_republished_is_layered(list, new);
    if new.diagnostics.len() > 0 {
        assert(out[k] == new);
        lemma_contribution_at(out, new.server, k);
    } else {
        assert forall|i: int| 0 <= i < out.len() implies (#[trigger] out[i]).server
            != new.server by {
            let a = if out.len() < list.len() && i >= k { i + 1 } else { i };
            assert(out[i] == list[a]);
            if list[a].server == new.server {
                lemma_contribution_at(list, new.server, a);
                assert(a >= k) by {
                    if a < k {
                        assert(lex_before(list[a].server, new.server));
                        lex_asymmetric(new.server, new.server);
                    }
                }
                lemma_after_place(list, new.server, a);
            }
        }
        lemma_no_contribution(out, new.server);
    }
}

/// A publish leaves what the other servers contribute as it was.
pub proof fn other_servers_are_left_alone(list: Seq<Published>, new: Published, other: Seq<char>)
    requires
        is_layered(list),
        new.diagnostics.len() == new.spans.len(),
        other != new.server,
    ensures
        contribution(republished(list, new), other) == contribution(list, other),
{
    let k = place_of(list, new.server, 0);
    let out = republished(list, new);
    lemma_place(list, new.server, 0);
    lemma_republished_is_layered(list, new);
    let p = place_of(list, other, 0);
    lemma_place(list, other, 0);
    if p < list.len() && list[p].server == other {
        let q = if out.len() > list.len() {
            if p < k { p } else { p + 1 }
        } else if out.len() < list.len() {
            if p < k { p } else { p - 1 }
        } else {
            p
        };
        assert(out[q] == list[p]);
        lemma_contribution_at(out, other, q);
        lemma_contribution_at(list, other, p);
    } else {
        assert forall|i: int| 0 <= i < list.len() implies (#[trigger] list[i]).server != other by {
            if list[i].server == other {
                lemma_contribution_at(list, other, i);
            }
        }
        assert forall|i: int| 0 <= i < out.len() implies (#[trigger] out[i]).server != other by {
            if out.len() > list.len() {
                if i < k {
                    assert(out[i] == list[i]);
                } else if i > k {
                    assert(out[i] == list[i - 1]);
                }
            } else if out.len() < list.len() {
                if i < k {
                    assert(out[i] == list[i]);
                } else {
                    assert(out[i] == list[i + 1]);
                }
            } else if out != list && i != k {
                assert(out[i] == list[i]);
            }
        }
        lemma_no_contribution(out, other);
        lemma_no_contribution(list, other);
    }
}

/// Two ordered lists in which every server contributes the same are the same.
proof fn lemma_contributions_decide(x: Seq<Published>, y: Seq<Published>)
    requires
        is_layered(x),
        is_layered(y),
        forall|server: Seq<char>| #[trigger] contribution(x, server) == contribution(y, server),
    ensures
        x == y,
{
    lemma_same_upto(x, y, x.len());
    lemma_same_upto(y, x, y.len());
    assert(x =~= y);
}

proof fn lemma_same_upto(x: Seq<Published>, y: Seq<Published>, n: nat)
    requires
        is_layered(x),
        is_layered(y),
        forall|server: Seq<char>| #[trigger] contribution(x, server) == contribution(y, server),
        n <= x.len(),
    ensures
        n <= y.len(),
        forall|i: int| 0 <= i < n ==> x[i] == #[trigger] y[i],
    decreases n,
{
    if n > 0 {
        lemma_same_upto(x, y, (n - 1) as nat);
        let i = n - 1;
        let server = x[i].server;
        lemma_contribution_at(x, server, i);
        let j = place_of(y, server, 0);
        assert(contribution(x, server) == contribution(y, server));
        lemma_place(y, server, 0);
        assert(0 <= j < y.len() && y[j] == x[i]);
        if j < i {
            assert(x[j] == y[j]);
            assert(lex_before(x[j].server, x[i].server));
            lex_asymmetric(server, server);
        }
        if j > i {
            let other = y[i].server;
            assert(lex_before(other, server));
            lemma_contribution_at(y, other, i);
            assert(contribution(x, other) == contribution(y, other));
            let k = place_of(x, other, 0);
            lemma_place(x, other, 0);
            assert(0 <= k < x.len() && x[k] == y[i]);
            lex_asymmetric(other, server);
            if k < i {
                assert(x[k] == y[k]);
                assert(lex_before(y[k].server, y[i].server));
                lex_asymmetric(other, other);
            } else if k > i {
                assert(lex_before(x[i].server, x[k].server));
            }
        }
    }
}

proof fn lemma_publishes_commute(list: Seq<Published>, a: Published, b: Published)
    requires
        is_layered(list),
        a.diagnostics.len() == a.spans.len(),
        b.diagnostics.len() == b.spans.len(),
        a.server != b.server,
    ensures
        republished(republished(list, a), b) == republished(republished(list, b), a),
{
    let first = republished(list, a);
    let second = republished(list, b);
    lemma_republished_is_layered(list, a);
    lemma_republished_is_layered(list, b);
    lemma_republished_is_layered(first, b);
    lemma_republished_is_layered(second, a);
    let x = republished(first, b);
    let y = republished(second, a);
    assert forall|server: Seq<char>| #[trigger] contribution(x, server) == contribution(
        y,
        server,
    ) by {
        last_publish_stands(list, a);
        last_publish_stands(list, b);
        last_publish_stands(first, b);
        last_publish_stands(second, a);
        if server != a.server {
            other_servers_are_left_alone(list, a, server);
            other_servers_are_left_alone(second, a, server);
        }
        if server != b.server {
            other_servers_are_left_alone(list, b, server);
            other_servers_are_left_alone(first, b, server);
        }
    }
    lemma_contributions_decide(x, y);
}

// ---------------------------------------------------------------------------
// The store
// ---------------------------------------------------------------------------

/// Maps each known file path, however it is spelled, to its per-server
/// diagnostics. Each server publishes a full snapshot at a time, replacing only its own slice for the
/// path. An empty slice clears that server's contribution.
#[derive(Debug)]
pub struct DiagnosticSet {
    by_path: PathMap<PathDiagnostics>,
    /// Bumped on every mutation so render-side caches keyed off the set can
    /// detect a change without comparing the diagnostics themselves.
    version: u64,
}

impl View for DiagnosticSet {
    type V = Map<Seq<Seq<char>>, Seq<Published>>;

    closed spec fn view(&self) -> Map<Seq<Seq<char>>, Seq<Published>> {
        Map::new(
            |p: Seq<Seq<char>>| self.by_path@.contains_key(p),
            |p: Seq<Seq<char>>| self.by_path@[p]@,
        )
    }
}

impl Clone for DiagnosticSet {
    fn clone(&self) -> (c: Self)
        ensures
            c@ == self@,
            c.paths() == self.paths(),
            c.changes() == self.changes(),
            self.wf() ==> c.wf(),
    {
        let c = DiagnosticSet { by_path: self.by_path.clone(), version: self.version };
        assert forall|p: Seq<Seq<char>>| #[trigger] self.by_path@.contains_key(p) implies (
        c.by_path@[p]@ == self.by_path@[p]@ && (self.by_path@[p].wf() ==> c.by_path@[p].wf())) by {
            let i = all_components(self.by_path.paths()).index_of(p);
            assert(all_components(self.by_path.paths())[i] == p);
            assert(cloned(self.by_path.values()[i], c.by_path.values()[i]));
        }
        assert(c@ =~= self@);
        c
    }
}

impl Default for DiagnosticSet {
    fn default() -> (set: Self)
        ensures
            set.wf(),
            set@ == Map::<Seq<Seq<char>>, Seq<Published>>::empty(),
            set.changes() == 0,
    {
        let set = DiagnosticSet { by_path: PathMap::new(), version: 0 };
        assert(set@ =~= Map::<Seq<Seq<char>>, Seq<Published>>::empty());
        set
    }
}

/// The list published for `path`, the empty one where nothing is known of it.
pub open spec fn published_for(set: Map<Seq<Seq<char>>, Seq<Published>>, path: Seq<char>) -> Seq<
    Published,
> {
    if set.contains_key(components(path)) {
        set[components(path)]
    } else {
        Seq::empty()
    }
}

/// The set after a publish for `path`. A path of which no server has anything
/// to report is dropped.
pub open spec fn after_publish(
    set: Map<Seq<Seq<char>>, Seq<Published>>,
    path: Seq<char>,
    new: Published,
) -> Map<Seq<Seq<char>>, Seq<Published>> {
    let list = republished(published_for(set, path), new);
    if list.len() == 0 {
        set.remove(components(path))
    } else {
        set.insert(components(path), list)
    }
}

/// Two servers may publish in either order, for one file or for two, and one
/// server for two files: the set comes out the same.
pub proof fn the_order_of_publishes_does_not_matter(
    set: Map<Seq<Seq<char>>, Seq<Published>>,
    path: Seq<char>,
    a: Published,
    other_path: Seq<char>,
    b: Published,
)
    requires
        is_layered(published_for(set, path)),
        a.diagnostics.len() == a.spans.len(),
        b.diagnostics.len() == b.spans.len(),
        a.server != b.server || components(path) != components(other_path),
    ensures
        after_publish(after_publish(set, path, a), other_path, b) == after_publish(
            after_publish(set, other_path, b),
            path,
            a,
        ),
{
    let x = after_publish(after_publish(set, path, a), other_path, b);
    let y = after_publish(after_publish(set, other_path, b), path, a);
    if components(path) == components(other_path) {
        let list = published_for(set, path);
        lemma_publishes_commute(list, a, b);
        assert(published_for(after_publish(set, path, a), path) =~= republished(list, a));
        assert(published_for(after_publish(set, path, b), path) =~= republished(list, b));
    }
    assert(x =~= y);
}

/// The pairs of a server and one of its diagnostics, for the first `n`
/// servers.
pub open spec fn attributions(list: Seq<Published>, n: nat) -> Seq<(Seq<char>, Diagnostic)>
    decreases n,
{
    if n == 0 {
        Seq::empty()
    } else {
        let publish = list[n - 1];
        attributions(list, (n - 1) as nat) + Seq::new(
            publish.diagnostics.len(),
            |i: int| (publish.server, publish.diagnostics[i]),
        )
    }
}

/// `pairs` are the diagnostics of `list`, each with its server.
pub open spec fn are_attributions(pairs: Seq<(&str, &Diagnostic)>, list: Seq<Published>) -> bool {
    let all = attributions(list, list.len());
    &&& pairs.len() == all.len()
    &&& forall|i: int|
        0 <= i < pairs.len() ==> (#[trigger] pairs[i]).0@ == all[i].0 && *pairs[i].1 == all[i].1
}

/// A diagnostic with the path it is of and the server it is from.
pub struct Attributed<'a> {
    pub path: &'a str,
    pub server: &'a str,
    pub diagnostic: &'a Diagnostic,
}

/// The diagnostics of the first `n` of the paths, each with its server.
pub open spec fn all_attributions(
    set: Map<Seq<Seq<char>>, Seq<Published>>,
    paths: Seq<Seq<char>>,
    n: nat,
) -> Seq<(Seq<char>, Seq<char>, Diagnostic)>
    decreases n,
{
    if n == 0 {
        Seq::empty()
    } else {
        let path = paths[n - 1];
        let list = set[components(path)];
        let here = attributions(list, list.len());
        all_attributions(set, paths, (n - 1) as nat) + Seq::new(
            here.len(),
            |i: int| (path, here[i].0, here[i].1),
        )
    }
}

/// `paths` names every path of the set once, in one of its spellings.
pub open spec fn are_its_paths(paths: Seq<Seq<char>>, set: Map<Seq<Seq<char>>, Seq<Published>>) -> bool {
    &&& distinct_paths(paths)
    &&& forall|p: Seq<Seq<char>>| #[trigger]
        set.contains_key(p) <==> all_components(paths).contains(p)
}

impl DiagnosticSet {
    /// Every path has something to report, and its servers stand in order.
    pub closed spec fn wf(&self) -> bool {
        forall|p: Seq<Seq<char>>| #[trigger]
            self.by_path@.contains_key(p) ==> self.by_path@[p].wf()
    }

    /// How often the set was changed.
    pub closed spec fn changes(&self) -> u64 {
        self.version
    }

    /// The paths, in the order they are walked.
    pub closed spec fn paths(&self) -> Seq<Seq<char>> {
        self.by_path.paths()
    }

    pub fn new() -> (set: Self)
        ensures
            set.wf(),
            set@ == Map::<Seq<Seq<char>>, Seq<Published>>::empty(),
            set.changes() == 0,
    {
        DiagnosticSet::default()
    }

    /// Replaces `server`'s diagnostics for `path`, leaving other servers'
    /// contributions intact.
    ///
    /// A server publishes a full snapshot at a time, so its prior slice for
    /// the path is dropped. An empty slice clears its contribution. When the
    /// last server clears its slice, the path is dropped.
    ///
    /// `spans` is one entry per diagnostic, resolved by the caller against the
    /// text the publish was measured for.
    pub fn replace_from_server(
        &mut self,
        path: String,
        server: String,
        diagnostics: Vec<Diagnostic>,
        spans: Vec<PublishedSpan>,
    )
        requires
            old(self).wf(),
            old(self).changes() < u64::MAX,
            diagnostics@.len() == spans@.len(),
        ensures
            final(self).wf(),
            final(self).changes() == old(self).changes() + 1,
            final(self)@ == after_publish(
                old(self)@,
                path@,
                (Published { server: server@, diagnostics: diagnostics@, spans: spans@ }),
            ),
    {
        let ghost new = Published { server: server@, diagnostics: diagnostics@, spans: spans@ };
        let ghost list = published_for(old(self)@, path@);
        let ghost was = self.by_path@;
        self.version = self.version + 1;
        let ghost at = components(path@);
        let (spelled, by_server): (String, Vec<ServerPublish>) = match self.by_path.remove(
            path.as_str(),
        ) {
            Some((spelled, entry)) => (spelled, entry.by_server),
            None => (path, Vec::new()),
        };
        let mut by_server = by_server;
        assert(viewed(by_server@) =~= list);
        assert(is_layered(list));
        proof {
            lemma_republished_is_layered(list, new);
        }
        publish_in(&mut by_server, ServerPublish { server, diagnostics, spans });
        if by_server.len() == 0 {
            assert(self@ =~= old(self)@.remove(at));
            return ;
        }
        let entry = path_diagnostics(by_server);
        self.by_path.add_path(spelled, entry);
        assert(self@ =~= old(self)@.insert(at, republished(list, new)));
    }

    /// Each diagnostic's span for `path`, in the same order [`Self::get`]
    /// yields. Empty when the path is unknown.
    ///
    /// The span is where the diagnostic sat when its publish landed. A caller
    /// painting it against text that has moved since carries it through the
    /// edits, which is what [`PublishedSpan::base_version`] names the start
    /// of.
    pub fn spans(&self, path: &str) -> (spans: &[PublishedSpan])
        requires
            self.wf(),
        ensures
            spans@ == all_spans(published_for(self@, path@)),
    {
        match self.by_path.get(path) {
            Some(entry) => entry.merged_spans(),
            None => {
                let none: &[PublishedSpan] = &[];
                none
            },
        }
    }

    /// The merged diagnostic list currently stored for `path` across all
    /// servers, or an empty slice when the path is unknown.
    pub fn get(&self, path: &str) -> (diagnostics: &[Diagnostic])
        requires
            self.wf(),
        ensures
            diagnostics@ == all_diagnostics(published_for(self@, path@)),
    {
        match self.by_path.get(path) {
            Some(entry) => entry.merged(),
            None => {
                let none: &[Diagnostic] = &[];
                none
            },
        }
    }

    /// `path`'s diagnostics paired with the server that published each, in the
    /// same order [`Self::get`] yields.
    ///
    /// A consumer converting a position to a byte offset needs the encoding
    /// the publishing server negotiated, which [`Self::get`] discards. Empty
    /// when the path is unknown.
    pub fn attributed(&self, path: &str) -> (pairs: Vec<(&str, &Diagnostic)>)
        requires
            self.wf(),
        ensures
            are_attributions(pairs@, published_for(self@, path@)),
    {
        match self.by_path.get(path) {
            Some(entry) => entry.attributed(),
            None => Vec::new(),
        }
    }

    /// Every `(path, server, diagnostic)` triple in the set, attributing each
    /// diagnostic to its publishing server.
    pub fn iter_attributed(&self) -> (triples: Vec<Attributed<'_>>)
        requires
            self.wf(),
        ensures
            are_its_paths(self.paths(), self@),
            triples@.len() == all_attributions(self@, self.paths(), self.paths().len()).len(),
            forall|i: int|
                0 <= i < triples@.len() ==> {
                    let t = all_attributions(self@, self.paths(), self.paths().len())[i];
                    (#[trigger] triples@[i]).path@ == t.0 && triples@[i].server@ == t.1
                        && *triples@[i].diagnostic == t.2
                },
    {
        let mut triples: Vec<Attributed<'_>> = Vec::new();
        let count: usize = self.by_path.len();
        proof {
            self.lemma_paths();
        }
        for n in 0..count
            invariant
                self.wf(),
                count == self.paths().len(),
                triples@.len() == all_attributions(self@, self.paths(), n as nat).len(),
                forall|i: int|
                    0 <= i < triples@.len() ==> {
                        let t = all_attributions(self@, self.paths(), n as nat)[i];
                        (#[trigger] triples@[i]).path@ == t.0 && triples@[i].server@ == t.1
                            && *triples@[i].diagnostic == t.2
                    },
        {
            let path = self.by_path.path_at(n).as_str();
            let pairs = self.by_path.value_at(n).attributed();
            let ghost before = all_attributions(self@, self.paths(), n as nat);
            let ghost at = components(path@);
            assert(self@[at] == self.by_path@[at]@);
            for k in 0..pairs.len()
                invariant
                    n < self.paths().len(),
                    path@ == self.paths()[n as int],
                    before == all_attributions(self@, self.paths(), n as nat),
                    at == components(path@),
                    are_attributions(pairs@, self@[at]),
                    triples@.len() == before.len() + k,
                    forall|i: int|
                        0 <= i < triples@.len() ==> {
                            let t = all_attributions(self@, self.paths(), (n + 1) as nat)[i];
                            (#[trigger] triples@[i]).path@ == t.0 && triples@[i].server@ == t.1
                                && *triples@[i].diagnostic == t.2
                        },
            {
                assert(pairs@[k as int].0@ == attributions(
                    self@[at],
                    self@[at].len(),
                )[k as int].0);
                triples.push(
                    Attributed { path, server: pairs[k].0, diagnostic: pairs[k].1 },
                );
            }
        }
        triples
    }

    /// Every path in the set with its merged diagnostics, by their places.
    pub fn iter(&self) -> (pairs: Vec<(&str, &[Diagnostic])>)
        requires
            self.wf(),
        ensures
            are_its_paths(self.paths(), self@),
            pairs@.len() == self.paths().len(),
            forall|i: int|
                0 <= i < pairs@.len() ==> (#[trigger] pairs@[i]).0@ == self.paths()[i]
                    && pairs@[i].1@ == all_diagnostics(self@[components(self.paths()[i])]),
    {
        let mut pairs: Vec<(&str, &[Diagnostic])> = Vec::new();
        let count: usize = self.by_path.len();
        proof {
            self.lemma_paths();
        }
        for n in 0..count
            invariant
                self.wf(),
                count == self.paths().len(),
                pairs@.len() == n,
                forall|i: int|
                    0 <= i < pairs@.len() ==> (#[trigger] pairs@[i]).0@ == self.paths()[i]
                        && pairs@[i].1@ == all_diagnostics(self@[components(self.paths()[i])]),
        {
            let path = self.by_path.path_at(n);
            let entry = self.by_path.value_at(n);
            let ghost at = components(path@);
            assert(self@[at] == self.by_path@[at]@);
            pairs.push((path.as_str(), entry.merged()));
        }
        pairs
    }

    proof fn lemma_paths(&self)
        requires
            distinct_paths(self.paths()),
        ensures
            are_its_paths(self.paths(), self@),
    {
        assert forall|p: Seq<Seq<char>>| #[trigger] self@.contains_key(p) <==> all_components(
            self.paths(),
        ).contains(p) by {
            assert(self@.contains_key(p) <==> self.by_path@.contains_key(p));
        }
    }

    /// Counter bumped on every [`Self::replace_from_server`]. A render-side
    /// cache keyed off this can skip recomputing while the diagnostics are
    /// unchanged.
    pub fn version(&self) -> (version: u64)
        ensures
            version == self.changes(),
    {
        self.version
    }

    /// Severity counts plus the worst severity for `path`.
    ///
    /// Read from what the last publish for `path` computed rather than counted
    /// here, so a status bar can ask per frame.
    pub fn summarize(&self, path: &str) -> (summary: DiagnosticSummary)
        requires
            self.wf(),
        ensures
            is_summary(summary, all_diagnostics(published_for(self@, path@))),
    {
        match self.by_path.get(path) {
            Some(entry) => entry.summary,
            None => DiagnosticSummary::default(),
        }
    }
}

impl PathDiagnostics {
    fn attributed(&self) -> (pairs: Vec<(&str, &Diagnostic)>)
        ensures
            are_attributions(pairs@, self@),
    {
        let mut pairs: Vec<(&str, &Diagnostic)> = Vec::new();
        for n in 0..self.by_server.len()
            invariant
                pairs@.len() == attributions(self@, n as nat).len(),
                forall|i: int|
                    0 <= i < pairs@.len() ==> (#[trigger] pairs@[i]).0@ == attributions(
                        self@,
                        n as nat,
                    )[i].0 && *pairs@[i].1 == attributions(self@, n as nat)[i].1,
        {
            let publish = &self.by_server[n];
            assert(self@[n as int] == publish@);
            for k in 0..publish.diagnostics.len()
                invariant
                    n < self.by_server@.len(),
                    *publish == self.by_server@[n as int],
                    self@[n as int] == publish@,
                    pairs@.len() == attributions(self@, n as nat).len() + k,
                    forall|i: int|
                        0 <= i < pairs@.len() ==> (#[trigger] pairs@[i]).0@ == attributions(
                            self@,
                            (n + 1) as nat,
                        )[i].0 && *pairs@[i].1 == attributions(self@, (n + 1) as nat)[i].1,
            {
                pairs.push((publish.server.as_str(), &publish.diagnostics[k]));
            }
        }
        pairs
    }
}

/// Puts what a server published in the place of what it published before.
fn publish_in(by_server: &mut Vec<ServerPublish>, new: ServerPublish)
    ensures
        viewed(final(by_server)@) == republished(viewed(old(by_server)@), new@),
{
    let ghost list = viewed(by_server@);
    let mut k: usize = 0;
    while k < by_server.len() && comes_before(
        by_server[k].server.as_str(),
        new.server.as_str(),
    )
        invariant
            k <= by_server.len(),
            list == viewed(by_server@),
            by_server@ == old(by_server)@,
            place_of(list, new@.server, 0) == place_of(list, new@.server, k as int),
        decreases by_server.len() - k,
    {
        assert(list[k as int] == by_server@[k as int]@);
        k = k + 1;
    }
    assert(k < by_server.len() ==> list[k as int] == by_server@[k as int]@);
    assert(k == place_of(list, new@.server, 0));
    let known: bool = k < by_server.len() && same(
        by_server[k].server.as_str(),
        new.server.as_str(),
    );
    if new.diagnostics.len() == 0 {
        if known {
            by_server.remove(k);
            assert(viewed(by_server@) =~= list.remove(k as int));
        }
    } else if known {
        by_server.set(k, new);
        assert(viewed(by_server@) =~= list.update(k as int, new@));
    } else {
        by_server.insert(k, new);
        assert(viewed(by_server@) =~= list.insert(k as int, new@));
    }
}

/// The entry of a path, with its merged lists and its summary.
fn path_diagnostics(by_server: Vec<ServerPublish>) -> (entry: PathDiagnostics)
    requires
        by_server@.len() > 0,
        is_layered(viewed(by_server@)),
    ensures
        entry.wf(),
        entry@ == viewed(by_server@),
{
    let mut merged: Vec<Diagnostic> = Vec::new();
    let mut merged_spans: Vec<PublishedSpan> = Vec::new();
    // A single server's slice is read directly, so the clone is skipped.
    if by_server.len() > 1 {
        for n in 0..by_server.len()
            invariant
                merged@ == merged_diagnostics(viewed(by_server@), n as nat),
                merged_spans@ == self::merged_spans(viewed(by_server@), n as nat),
        {
            let publish = &by_server[n];
            assert(viewed(by_server@)[n as int] == publish@);
            append_diagnostics(&mut merged, &publish.diagnostics);
            append_spans(&mut merged_spans, &publish.spans);
        }
    }
    let mut entry = PathDiagnostics {
        by_server,
        merged,
        merged_spans,
        summary: DiagnosticSummary::default(),
    };
    let summary = summarize_diagnostics(entry.merged());
    entry.summary = summary;
    entry
}

fn append_diagnostics(to: &mut Vec<Diagnostic>, from: &Vec<Diagnostic>)
    ensures
        final(to)@ == old(to)@ + from@,
{
    let ghost before = to@;
    for i in 0..from.len()
        invariant
            to@ == before + from@.take(i as int),
    {
        to.push(from[i].clone());
        assert(to@ =~= before + from@.take(i + 1));
    }
    assert(from@.take(from@.len() as int) =~= from@);
}

fn append_spans(to: &mut Vec<PublishedSpan>, from: &Vec<PublishedSpan>)
    ensures
        final(to)@ == old(to)@ + from@,
{
    let ghost before = to@;
    for i in 0..from.len()
        invariant
            to@ == before + from@.take(i as int),
    {
        to.push(from[i].clone());
        assert(to@ =~= before + from@.take(i + 1));
    }
    assert(from@.take(from@.len() as int) =~= from@);
}

proof fn lemma_merged_lengths(list: Seq<Published>, n: nat)
    requires
        is_layered(list),
        n <= list.len(),
    ensures
        merged_spans(list, n).len() == merged_diagnostics(list, n).len(),
        n > 0 ==> merged_diagnostics(list, n).len() > 0,
    decreases n,
{
    if n > 0 {
        lemma_merged_lengths(list, (n - 1) as nat);
        assert(list[n - 1].diagnostics.len() == list[n - 1].spans.len());
    }
}

/// Every diagnostic of a path has its span, and a path that the set knows has
/// a diagnostic.
pub proof fn one_span_per_diagnostic(set: DiagnosticSet, path: Seq<char>)
    requires
        set.wf(),
    ensures
        is_layered(published_for(set@, path)),
        all_spans(published_for(set@, path)).len() == all_diagnostics(
            published_for(set@, path),
        ).len(),
        set@.contains_key(components(path)) <==> all_diagnostics(
            published_for(set@, path),
        ).len() > 0,
{
    let list = published_for(set@, path);
    let at = components(path);
    if set@.contains_key(at) {
        assert(set.by_path@.contains_key(at));
        assert(set.by_path@[at].wf());
    }
    lemma_merged_lengths(list, list.len());
}

// ---------------------------------------------------------------------------
// Carrying an offset through edits
// ---------------------------------------------------------------------------

/// One edit: what was replaced, and where what replaced it stands.
#[derive(Debug, PartialEq, Eq)]
pub struct Edit {
    pub old: Range<usize>,
    pub new: Range<usize>,
}

/// The length of a range; one that ends before it starts has none.
pub open spec fn extent(r: Range<usize>) -> int {
    if r.start <= r.end {
        r.end - r.start
    } else {
        0
    }
}

/// Where an offset goes, from the edit at `i` on, `at` being where the edits
/// before brought it. An edit that starts at or after the offset leaves it; an
/// offset inside what an edit replaced lands at the start of what replaced it.
pub open spec fn carried(edits: Seq<Edit>, offset: int, i: int, at: int) -> int
    decreases edits.len() - i,
{
    if 0 <= i < edits.len() && edits[i].old.start < offset {
        if edits[i].old.end > offset {
            edits[i].new.start as int
        } else {
            carried(edits, offset, i + 1, at + extent(edits[i].new) - extent(edits[i].old))
        }
    } else if at < 0 {
        0
    } else {
        at
    }
}

/// The lengths that carry the offset along fit in 64 bits.
pub open spec fn carry_fits(edits: Seq<Edit>, offset: int, i: int, at: int) -> bool
    decreases edits.len() - i,
{
    &&& i64::MIN <= at <= i64::MAX
    &&& at <= usize::MAX
    &&& 0 <= i < edits.len() && edits[i].old.start < offset && edits[i].old.end <= offset ==> {
        &&& extent(edits[i].new) <= i64::MAX
        &&& extent(edits[i].old) <= i64::MAX
        &&& carry_fits(edits, offset, i + 1, at + extent(edits[i].new) - extent(edits[i].old))
    }
}

fn extent_of(r: &Range<usize>) -> (n: usize)
    ensures
        n == extent(*r),
{
    if r.start <= r.end {
        r.end - r.start
    } else {
        0
    }
}

/// Move `offset` from the coordinates `patch` starts in into the ones it ends
/// in.
///
/// An offset inside a range an edit replaced has no position of its own in the
/// new text, so it lands at the start of what replaced it. Edits are disjoint
/// and ascending, so one pass accumulating the length each one added or
/// removed answers the rest.
pub fn shift_offset(offset: usize, patch: &Vec<Edit>) -> (shifted: usize)
    requires
        carry_fits(patch@, offset as int, 0, offset as int),
    ensures
        shifted == carried(patch@, offset as int, 0, offset as int),
{
    let mut at: i64 = offset as i64;
    let mut i: usize = 0;
    while i < patch.len() && patch[i].old.start < offset
        invariant
            i <= patch.len(),
            carry_fits(patch@, offset as int, i as int, at as int),
            carried(patch@, offset as int, 0, offset as int) == carried(
                patch@,
                offset as int,
                i as int,
                at as int,
            ),
        decreases patch.len() - i,
    {
        if patch[i].old.end > offset {
            return patch[i].new.start;
        }
        let added: i64 = extent_of(&patch[i].new) as i64;
        let removed: i64 = extent_of(&patch[i].old) as i64;
        proof {
            reveal_with_fuel(carry_fits, 2);
        }
        at = at + (added - removed);
        i = i + 1;
    }
    if at < 0 {
        0
    } else {
        at as usize
    }
}

/// `edits` are disjoint and ascending on both sides, and the text between them
/// is as long in the new text as it was in the old.
pub open spec fn is_patch(edits: Seq<Edit>) -> bool {
    &&& forall|i: int|
        0 <= i < edits.len() ==> (#[trigger] edits[i]).old.start <= edits[i].old.end
            && edits[i].new.start <= edits[i].new.end
    &&& forall|i: int, j: int|
        0 <= i < j < edits.len() ==> (#[trigger] edits[i]).old.end <= (
        #[trigger] edits[j]).old.start && edits[i].new.end <= edits[j].new.start
    &&& edits.len() > 0 ==> edits[0].new.start == edits[0].old.start
    &&& forall|i: int, j: int|
        0 <= i && j == i + 1 && j < edits.len() ==> (#[trigger] edits[j]).new.start - (
        #[trigger] edits[i]).new.end == edits[j].old.start - edits[i].old.end
}

/// How many of the edits from `i` on start before the offset.
spec fn starting_before(edits: Seq<Edit>, offset: int, i: int) -> int
    decreases edits.len() - i,
{
    if 0 <= i < edits.len() && edits[i].old.start < offset {
        starting_before(edits, offset, i + 1)
    } else {
        i
    }
}

proof fn lemma_starting_before(edits: Seq<Edit>, offset: int, i: int)
    requires
        is_patch(edits),
        0 <= i <= edits.len(),
        forall|j: int| 0 <= j < i ==> (#[trigger] edits[j]).old.start < offset,
    ensures
        i <= starting_before(edits, offset, i) <= edits.len(),
        forall|j: int|
            0 <= j < starting_before(edits, offset, i) ==> (#[trigger] edits[j]).old.start < offset,
        forall|j: int|
            starting_before(edits, offset, i) <= j < edits.len() ==> (#[trigger] edits[j]).old.start
                >= offset,
    decreases edits.len() - i,
{
    if i < edits.len() && edits[i].old.start < offset {
        lemma_starting_before(edits, offset, i + 1);
    } else {
        assert forall|j: int| i <= j < edits.len() implies (#[trigger] edits[j]).old.start
            >= offset by {
            if j > i {
                assert(edits[i].old.end <= edits[j].old.start);
            }
        }
    }
}

/// Where the edits before place `k` bring an offset that lies behind them.
spec fn brought(edits: Seq<Edit>, offset: int, k: int) -> int {
    if k <= 0 {
        offset
    } else {
        edits[k - 1].new.end + (offset - edits[k - 1].old.end)
    }
}

proof fn lemma_carried(edits: Seq<Edit>, offset: int, i: int)
    requires
        is_patch(edits),
        0 <= offset,
        0 <= i <= starting_before(edits, offset, 0),
        i > 0 ==> edits[i - 1].old.end <= offset,
    ensures
        carried(edits, offset, i, brought(edits, offset, i)) == {
            let k = starting_before(edits, offset, 0);
            if k > 0 && edits[k - 1].old.end > offset {
                edits[k - 1].new.start as int
            } else {
                brought(edits, offset, k)
            }
        },
    decreases edits.len() - i,
{
    lemma_starting_before(edits, offset, 0);
    let k = starting_before(edits, offset, 0);
    if i < k {
        assert(edits[i].old.start < offset);
        if edits[i].old.end > offset {
            if i < k - 1 {
                assert(edits[i].old.end <= edits[k - 1].old.start);
            }
        } else {
            if i > 0 {
                assert(edits[i].new.start - edits[i - 1].new.end == edits[i].old.start
                    - edits[i - 1].old.end);
            }
            lemma_carried(edits, offset, i + 1);
        }
    } else if k < edits.len() {
        assert(edits[k].old.start >= offset);
    }
}

/// Text that no edit touched keeps its distance from the edit before it.
pub proof fn untouched_text_moves_along(edits: Seq<Edit>, offset: int, i: int)
    requires
        is_patch(edits),
        0 <= offset,
        0 <= i < edits.len(),
        edits[i].old.start < offset,
        edits[i].old.end <= offset,
        i + 1 < edits.len() ==> offset <= edits[i + 1].old.start,
    ensures
        carried(edits, offset, 0, offset) == edits[i].new.end + (offset - edits[i].old.end),
{
    lemma_starting_before(edits, offset, 0);
    lemma_carried(edits, offset, 0);
    let k = starting_before(edits, offset, 0);
    if k < i + 1 {
        assert(edits[i].old.start >= offset);
    }
    if k > i + 1 {
        assert(edits[i + 1].old.start < offset);
    }
}

/// Carrying two offsets through the same edits keeps their order.
pub proof fn carrying_keeps_order(edits: Seq<Edit>, a: int, b: int)
    requires
        is_patch(edits),
        0 <= a <= b,
    ensures
        carried(edits, a, 0, a) <= carried(edits, b, 0, b),
{
    lemma_starting_before(edits, a, 0);
    lemma_starting_before(edits, b, 0);
    lemma_carried(edits, a, 0);
    lemma_carried(edits, b, 0);
    let ka = starting_before(edits, a, 0);
    let kb = starting_before(edits, b, 0);
    if ka > kb {
        assert(edits[kb].old.start < a);
    }
    if ka < kb {
        assert(edits[ka].old.start >= a);
        assert(edits[ka].new.start <= edits[kb - 1].new.start) by {
            if ka < kb - 1 {
                assert(edits[ka].new.end <= edits[kb - 1].new.start);
            }
        }
        if ka > 0 {
            assert(edits[ka].new.start - edits[ka - 1].new.end == edits[ka].old.start
                - edits[ka - 1].old.end);
        }
    }
}

/// An empty patch moves nothing.
pub proof fn an_empty_patch_moves_nothing(offset: int)
    requires
        0 <= offset,
    ensures
        carried(Seq::empty(), offset, 0, offset) == offset,
{
}

/// What lies at or before the start of every edit stays where it is.
pub proof fn text_before_the_edits_stays(edits: Seq<Edit>, offset: int)
    requires
        0 <= offset,
        forall|i: int| 0 <= i < edits.len() ==> offset <= (#[trigger] edits[i]).old.start,
    ensures
        carried(edits, offset, 0, offset) == offset,
{
    if edits.len() > 0 {
        assert(offset <= edits[0].old.start);
    }
}

/// An offset inside what an edit replaced lands at the start of what replaced
/// it.
pub proof fn replaced_text_lands_at_its_replacement(edits: Seq<Edit>, offset: int, i: int)
    requires
        is_patch(edits),
        0 <= i < edits.len(),
        edits[i].old.start < offset < edits[i].old.end,
    ensures
        carried(edits, offset, 0, offset) == edits[i].new.start,
{
    lemma_starting_before(edits, offset, 0);
    lemma_carried(edits, offset, 0);
    let k = starting_before(edits, offset, 0);
    if k < i + 1 {
        assert(edits[i].old.start >= offset);
    }
    if k > i + 1 {
        assert(edits[i].old.end <= edits[i + 1].old.start);
        assert(edits[i + 1].old.start < offset);
    }
}

// ---------------------------------------------------------------------------
// What is read back
// ---------------------------------------------------------------------------

proof fn lemma_counted(diagnostics: Seq<Diagnostic>, n: nat, severity: DiagnosticSeverity)
    requires
        n <= diagnostics.len(),
    ensures
        counted(diagnostics, n, severity) == diagnostics.take(n as int).filter(
            |d: Diagnostic| bucket(d) == severity,
        ).len(),
    decreases n,
{
    let f = |d: Diagnostic| bucket(d) == severity;
    reveal(Seq::filter);
    if n > 0 {
        lemma_counted(diagnostics, (n - 1) as nat, severity);
        assert(diagnostics.take(n as int).drop_last() =~= diagnostics.take(n - 1));
        assert(diagnostics.take(n as int).last() == diagnostics[n - 1]);
    }
}

/// A summary counts each diagnostic under its own severity, one without a
/// severity, or with none that the protocol lists, as an error. The worst is
/// the first of error, warning, information and hint of which there is one.
pub proof fn a_summary_counts_each_severity(s: DiagnosticSummary, diagnostics: Seq<Diagnostic>)
    requires
        is_summary(s, diagnostics),
    ensures
        s.warning == diagnostics.filter(
            |d: Diagnostic| d.severity == Some(DiagnosticSeverity::Warning),
        ).len(),
        s.information == diagnostics.filter(
            |d: Diagnostic| d.severity == Some(DiagnosticSeverity::Information),
        ).len(),
        s.hint == diagnostics.filter(
            |d: Diagnostic| d.severity == Some(DiagnosticSeverity::Hint),
        ).len(),
        s.error == diagnostics.len() - s.warning - s.information - s.hint,
        s.error > 0 ==> s.worst == Some(DiagnosticSeverity::Error),
        s.error == 0 && s.warning > 0 ==> s.worst == Some(DiagnosticSeverity::Warning),
        s.error == 0 && s.warning == 0 && s.information > 0 ==> s.worst == Some(
            DiagnosticSeverity::Information,
        ),
        s.error == 0 && s.warning == 0 && s.information == 0 && s.hint > 0 ==> s.worst == Some(
            DiagnosticSeverity::Hint,
        ),
        diagnostics.len() == 0 ==> s.worst is None,
{
    let n = diagnostics.len();
    assert(diagnostics.take(n as int) =~= diagnostics);
    counts_add_up(s, diagnostics);
    lemma_counted(diagnostics, n, DiagnosticSeverity::Warning);
    lemma_counted(diagnostics, n, DiagnosticSeverity::Information);
    lemma_counted(diagnostics, n, DiagnosticSeverity::Hint);
    assert((|d: Diagnostic| bucket(d) == DiagnosticSeverity::Warning) =~= (|d: Diagnostic|
        d.severity == Some(DiagnosticSeverity::Warning)));
    assert((|d: Diagnostic| bucket(d) == DiagnosticSeverity::Information) =~= (|d: Diagnostic|
        d.severity == Some(DiagnosticSeverity::Information)));
    assert((|d: Diagnostic| bucket(d) == DiagnosticSeverity::Hint) =~= (|d: Diagnostic|
        d.severity == Some(DiagnosticSeverity::Hint)));
}

/// A publish takes the place of what its server published before: afterwards
/// the list holds what the other servers published, as it was, and the publish
/// itself, unless it is empty.
pub proof fn a_publish_replaces_its_servers_own(
    list: Seq<Published>,
    new: Published,
    after: Seq<Published>,
    p: Published,
)
    requires
        is_layered(list),
        new.diagnostics.len() == new.spans.len(),
        after == republished(list, new),
    ensures
        after.contains(p) <==> p == new && new.diagnostics.len() > 0 || p.server != new.server
            && list.contains(p),
{
    let k = place_of(list, new.server, 0);
    lemma_place(list, new.server, 0);
    let known = k < list.len() && list[k].server == new.server;
    assert forall|j: int| 0 <= j < list.len() && (#[trigger] list[j]).server == new.server implies j
        == k by {
        if j < k {
            assert(lex_before(list[j].server, new.server));
            lex_asymmetric(new.server, new.server);
        } else {
            lemma_after_place(list, new.server, j);
        }
    }
    if after.contains(p) {
        let i = choose|i: int| 0 <= i < after.len() && after[i] == p;
        if new.diagnostics.len() == 0 {
            let j = if known && i >= k { i + 1 } else { i };
            assert(list[j] == p);
        } else if known {
            if i != k {
                assert(list[i] == p);
            }
        } else {
            if i < k {
                assert(list[i] == p);
            } else if i > k {
                assert(list[i - 1] == p);
            }
        }
    }
    if p == new && new.diagnostics.len() > 0 {
        assert(after[k] == p);
    }
    if p.server != new.server && list.contains(p) {
        let j = choose|j: int| 0 <= j < list.len() && list[j] == p;
        if new.diagnostics.len() == 0 {
            if known {
                assert(after[if j < k { j } else { j - 1 }] == p);
            } else {
                assert(after[j] == p);
            }
        } else if known {
            assert(after[j] == p);
        } else {
            assert(after[if j < k { j } else { j + 1 }] == p);
        }
    }
}

/// A publish for one path leaves every other path as it was, however the paths
/// are spelled.
pub proof fn other_paths_are_left_alone(
    set: Map<Seq<Seq<char>>, Seq<Published>>,
    path: Seq<char>,
    new: Published,
    other: Seq<char>,
)
    ensures
        components(other) != components(path) ==> published_for(
            after_publish(set, path, new),
            other,
        ) == published_for(set, other),
        components(other) == components(path) ==> published_for(
            after_publish(set, path, new),
            other,
        ) == republished(published_for(set, path), new),
{
    let list = republished(published_for(set, path), new);
    if list.len() == 0 {
        assert(list =~= Seq::empty());
    }
}

proof fn lemma_merged(list: Seq<Published>, n: nat)
    requires
        is_layered(list),
        n <= list.len(),
    ensures
        merged_spans(list, n).len() == merged_diagnostics(list, n).len(),
        forall|i: int, k: int|
            0 <= i < n && 0 <= k < list[i].diagnostics.len() ==> stands_in(
                merged_diagnostics(list, n),
                merged_spans(list, n),
                #[trigger] list[i].diagnostics[k],
                list[i].spans[k],
            ),
        forall|m: int|
            0 <= m < merged_diagnostics(list, n).len() ==> came_from(
                list,
                n,
                #[trigger] merged_diagnostics(list, n)[m],
                merged_spans(list, n)[m],
            ),
    decreases n,
{
    if n > 0 {
        let p = (n - 1) as nat;
        lemma_merged(list, p);
        let before = merged_diagnostics(list, p);
        let all = merged_diagnostics(list, n);
        let spans_before = merged_spans(list, p);
        let spans = merged_spans(list, n);
        let here = list[n - 1];
        assert(here.diagnostics.len() == here.spans.len());
        assert forall|i: int, k: int| 0 <= i < n && 0 <= k < list[i].diagnostics.len() implies stands_in(
            all,
            spans,
            #[trigger] list[i].diagnostics[k],
            list[i].spans[k],
        ) by {
            if i < p {
                assert(stands_in(before, spans_before, list[i].diagnostics[k], list[i].spans[k]));
                let m = choose|m: int|
                    0 <= m < before.len() && #[trigger] before[m] == list[i].diagnostics[k]
                        && spans_before[m] == list[i].spans[k];
                assert(all[m] == before[m] && spans[m] == spans_before[m]);
            } else {
                let m = before.len() + k;
                assert(all[m] == here.diagnostics[k] && spans[m] == here.spans[k]);
            }
        }
        assert forall|m: int| 0 <= m < all.len() implies came_from(
            list,
            n,
            #[trigger] all[m],
            spans[m],
        ) by {
            if m < before.len() {
                assert(all[m] == before[m] && spans[m] == spans_before[m]);
                assert(came_from(list, p, before[m], spans_before[m]));
                let (i, k) = choose|i: int, k: int|
                    0 <= i < p && 0 <= k < list[i].diagnostics.len() && (
                    #[trigger] list[i].diagnostics[k]) == before[m] && list[i].spans[k]
                        == spans_before[m];
                assert(list[i].diagnostics[k] == all[m]);
            } else {
                let k = m - before.len();
                assert(list[n - 1].diagnostics[k] == all[m]);
            }
        }
    }
}

/// The diagnostic stands in the list, with its span at the same place.
pub open spec fn stands_in(
    diagnostics: Seq<Diagnostic>,
    spans: Seq<PublishedSpan>,
    d: Diagnostic,
    span: PublishedSpan,
) -> bool {
    exists|m: int| 0 <= m < diagnostics.len() && #[trigger] diagnostics[m] == d && spans[m] == span
}

/// One of the first `n` publishes holds the diagnostic with that span.
pub open spec fn came_from(
    list: Seq<Published>,
    n: nat,
    d: Diagnostic,
    span: PublishedSpan,
) -> bool {
    exists|i: int, k: int|
        0 <= i < n && 0 <= k < list[i].diagnostics.len() && (#[trigger] list[i].diagnostics[k]) == d
            && list[i].spans[k] == span
}

/// What is read of a path is what its servers published: every diagnostic of
/// every server, with its own span, and nothing else.
pub proof fn every_published_diagnostic_is_read(list: Seq<Published>)
    requires
        is_layered(list),
    ensures
        all_diagnostics(list).len() == all_spans(list).len(),
        forall|i: int, k: int|
            0 <= i < list.len() && 0 <= k < list[i].diagnostics.len() ==> stands_in(
                all_diagnostics(list),
                all_spans(list),
                #[trigger] list[i].diagnostics[k],
                list[i].spans[k],
            ),
        forall|m: int|
            0 <= m < all_diagnostics(list).len() ==> came_from(
                list,
                list.len(),
                #[trigger] all_diagnostics(list)[m],
                all_spans(list)[m],
            ),
        list.len() == 1 ==> all_diagnostics(list) == list[0].diagnostics && all_spans(list)
            == list[0].spans,
{
    lemma_merged(list, list.len());
    if list.len() == 1 {
        reveal_with_fuel(merged_diagnostics, 2);
        reveal_with_fuel(merged_spans, 2);
        assert(all_diagnostics(list) =~= list[0].diagnostics);
        assert(all_spans(list) =~= list[0].spans);
    }
}

proof fn lemma_attributions(list: Seq<Published>, n: nat)
    requires
        n <= list.len(),
    ensures
        attributions(list, n).len() == merged_diagnostics(list, n).len(),
        forall|m: int|
            0 <= m < attributions(list, n).len() ==> (#[trigger] attributions(list, n)[m]).1
                == merged_diagnostics(list, n)[m] && is_by(
                attributions(list, n)[m].0,
                attributions(list, n)[m].1,
                list,
                n,
            ),
    decreases n,
{
    if n > 0 {
        let p = (n - 1) as nat;
        lemma_attributions(list, p);
        let before = attributions(list, p);
        let all = attributions(list, n);
        assert forall|m: int| 0 <= m < all.len() implies (#[trigger] all[m]).1 == merged_diagnostics(
            list,
            n,
        )[m] && is_by(all[m].0, all[m].1, list, n) by {
            if m < before.len() {
                assert(all[m] == before[m]);
                assert(is_by(before[m].0, before[m].1, list, p));
                let (i, k) = choose|i: int, k: int|
                    0 <= i < p && 0 <= k < list[i].diagnostics.len() && (
                    #[trigger] list[i].diagnostics[k]) == before[m].1 && list[i].server
                        == before[m].0;
                assert(list[i].diagnostics[k] == all[m].1);
            } else {
                let k = m - before.len();
                assert(list[n - 1].diagnostics[k] == all[m].1);
            }
        }
    }
}

/// One of the first `n` publishes, by this server, holds the diagnostic.
pub open spec fn is_by(server: Seq<char>, d: Diagnostic, list: Seq<Published>, n: nat) -> bool {
    exists|i: int, k: int|
        0 <= i < n && 0 <= k < list[i].diagnostics.len() && (#[trigger] list[i].diagnostics[k]) == d
            && list[i].server == server
}

/// Each diagnostic of a path is named with a server that published it, in the
/// order in which the path's diagnostics are read.
pub proof fn diagnostics_are_attributed_to_their_servers(
    pairs: Seq<(&str, &Diagnostic)>,
    list: Seq<Published>,
)
    requires
        are_attributions(pairs, list),
    ensures
        pairs.len() == all_diagnostics(list).len(),
        forall|m: int|
            0 <= m < pairs.len() ==> *(#[trigger] pairs[m]).1 == all_diagnostics(list)[m] && is_by(
                pairs[m].0@,
                *pairs[m].1,
                list,
                list.len(),
            ),
{
    lemma_attributions(list, list.len());
}

/// What is read of a path comes server by server, in the order of their names,
/// and what one server published in the order it published it.
pub proof fn diagnostics_come_server_by_server(list: Seq<Published>, n: nat)
    requires
        n < list.len(),
        is_layered(list),
    ensures
        merged_diagnostics(list, 0).len() == 0,
        merged_diagnostics(list, n + 1) == merged_diagnostics(list, n) + list[n as int].diagnostics,
        merged_spans(list, 0).len() == 0,
        merged_spans(list, n + 1) == merged_spans(list, n) + list[n as int].spans,
        all_diagnostics(list) == merged_diagnostics(list, list.len()),
        all_spans(list) == merged_spans(list, list.len()),
        n + 1 < list.len() ==> lex_before(list[n as int].server, list[n as int + 1].server),
{
}

/// What is read of all paths comes path by path, each diagnostic with its path
/// and its server.
pub proof fn diagnostics_come_path_by_path(
    set: Map<Seq<Seq<char>>, Seq<Published>>,
    paths: Seq<Seq<char>>,
    n: nat,
)
    requires
        n < paths.len(),
    ensures
        all_attributions(set, paths, 0).len() == 0,
        ({
            let list = set[components(paths[n as int])];
            let here = attributions(list, list.len());
            let before = all_attributions(set, paths, n);
            let after = all_attributions(set, paths, n + 1);
            &&& after.len() == before.len() + here.len()
            &&& after.take(before.len() as int) == before
            &&& forall|i: int|
                0 <= i < here.len() ==> (#[trigger] after[before.len() + i]) == (
                    paths[n as int],
                    here[i].0,
                    here[i].1,
                )
        }),
{
    let before = all_attributions(set, paths, n);
    let after = all_attributions(set, paths, n + 1);
    assert(after.take(before.len() as int) =~= before);
}

} // verus!
