//! Diagnostics resolved from what a language server published to where the
//! text is now, and the queries the editor asks of them.
//!
//! A server publishes a diagnostic against the text it last saw, and the
//! reader edits that text afterward. Each published range is anchored so it
//! follows its text. The anchors are sorted once per publish and kept, so the
//! per-frame paint and the mouse both binary-search a settled slice, and
//! resolve the few spans they return.
//!
//! The paint is one caller among several. Nothing here draws.

use crate::diagnostics::{Diagnostic, DiagnosticSeverity};
use crate::order::{arranged, every_list_has_an_order, lemma_the_order, stable_order, is_stable_order, Ranked};
use std::ops::Range;
use vstd::prelude::*;

verus! {

/// A place in a buffer that moves with the text around it.
#[derive(Debug, Clone, Copy, PartialEq, Eq, Structural)]
pub struct Anchor {
    pub buffer_id: u64,
    /// The number of the anchor among those of its buffer.
    pub place: usize,
}

/// A buffer at one version.
pub struct BufferSnapshot {
    pub buffer_id: u64,
    pub version: u64,
    /// The offset each anchor of the buffer stands at.
    pub places: Vec<usize>,
    /// The number of an anchor at the start of the buffer.
    pub origin: usize,
    /// The offset each line starts at.
    pub line_starts: Vec<usize>,
    /// The length in bytes.
    pub len: usize,
}

/// The row of an offset, among the first `n` lines.
pub open spec fn row_among(starts: Seq<usize>, offset: int, n: int) -> int
    decreases n,
{
    if n <= 1 || starts[n - 1] <= offset {
        n - 1
    } else {
        row_among(starts, offset, n - 1)
    }
}

impl BufferSnapshot {
    /// There is a first line, each line starts after the one before it, and
    /// every anchor stands in the text.
    pub open spec fn wf(&self) -> bool {
        &&& 0 < self.line_starts@.len() <= u32::MAX
        &&& self.line_starts@[0] == 0
        &&& forall|i: int, j: int|
            0 <= i < j < self.line_starts@.len() ==> (#[trigger] self.line_starts@[i]) < (
            #[trigger] self.line_starts@[j])
        &&& forall|i: int|
            0 <= i < self.line_starts@.len() ==> #[trigger] self.line_starts@[i] <= self.len
        &&& forall|i: int| 0 <= i < self.places@.len() ==> #[trigger] self.places@[i] <= self.len
        &&& self.origin < self.places@.len()
        &&& self.places@[self.origin as int] == 0
        &&& self.len < usize::MAX
    }

    /// The anchor is one of this buffer.
    pub open spec fn holds(&self, anchor: Anchor) -> bool {
        anchor.buffer_id == self.buffer_id && anchor.place < self.places@.len()
    }

    /// The offset that an anchor stands at.
    pub open spec fn offset_of(&self, anchor: Anchor) -> usize {
        self.places@[anchor.place as int]
    }

    /// The row of an offset.
    pub open spec fn row_of(&self, offset: int) -> int {
        row_among(self.line_starts@, offset, self.line_starts@.len() as int)
    }

    /// The offset just behind the text of a line.
    pub open spec fn line_end(&self, line: int) -> int {
        if line + 1 < self.line_starts@.len() {
            self.line_starts@[line + 1] - 1
        } else {
            self.len as int
        }
    }

    /// The offset that an anchor stands at.
    pub fn resolve_anchor(&self, anchor: &Anchor) -> (offset: usize)
        requires
            self.holds(*anchor),
        ensures
            offset == self.offset_of(*anchor),
    {
        self.places[anchor.place]
    }

    /// The row of an offset.
    pub fn offset_to_row(&self, offset: usize) -> (row: u32)
        requires
            self.wf(),
        ensures
            row == self.row_of(offset as int),
            row < self.line_starts@.len(),
    {
        let mut n: usize = self.line_starts.len();
        while n > 1 && self.line_starts[n - 1] > offset
            invariant
                1 <= n <= self.line_starts@.len() <= u32::MAX,
                self.row_of(offset as int) == row_among(
                    self.line_starts@,
                    offset as int,
                    n as int,
                ),
            decreases n,
        {
            n = n - 1;
        }
        (n - 1) as u32
    }
}

proof fn lemma_row(starts: Seq<usize>, offset: int, n: int)
    requires
        1 <= n <= starts.len(),
        starts[0] == 0,
        0 <= offset,
        forall|i: int, j: int|
            0 <= i < j < starts.len() ==> (#[trigger] starts[i]) < (#[trigger] starts[j]),
        n < starts.len() ==> offset < starts[n],
    ensures
        0 <= row_among(starts, offset, n) < n,
        starts[row_among(starts, offset, n)] <= offset,
        row_among(starts, offset, n) + 1 < starts.len() ==> offset < starts[row_among(
            starts,
            offset,
            n,
        ) + 1],
    decreases n,
{
    if n > 1 && starts[n - 1] > offset {
        lemma_row(starts, offset, n - 1);
    }
}

/// A diagnostic resolved to byte offsets.
///
/// `index` is its position in the path's list, so a consumer can recover the
/// diagnostic itself (its message, tags) after locating a span. `start_line`
/// and `end_line` are rows, kept so the cursor-line query stays line-based
/// rather than reinterpreting byte ranges at line boundaries.
#[derive(Debug, Clone, Copy, PartialEq, Eq, Structural)]
pub struct ResolvedDiag {
    pub start: usize,
    pub end: usize,
    pub severity: DiagnosticSeverity,
    pub unnecessary: bool,
    pub start_line: u32,
    pub end_line: u32,
    pub index: usize,
}

/// A diagnostic still in the anchors it was published with.
///
/// Held instead of byte offsets so an edit does not stale the cache. Anchors
/// follow their text, so the same pair answers for every buffer version, and a
/// query resolves the few it actually returns.
#[derive(Debug, Clone, Copy, PartialEq, Eq, Structural)]
pub struct AnchoredDiag {
    pub start: Anchor,
    pub end: Anchor,
    pub severity: DiagnosticSeverity,
    pub unnecessary: bool,
    /// The position in the path's list, so a caller recovers the diagnostic's
    /// message and tags after locating it.
    pub index: usize,
}

/// Per-editor cache of the diagnostics for one path, in publish anchors.
///
/// Keyed on the path's own diagnostic version alone. A buffer edit leaves it
/// standing, because anchors already describe where the text went, so typing
/// in a file full of diagnostics costs nothing here.
pub struct DiagnosticSpanCache {
    pub set_version: u64,
    /// Sorted by start offset as resolved when the cache was built.
    ///
    /// One consistent resolve settles the order, and anchors move
    /// monotonically from there, so no later edit reorders them. That is what
    /// lets every query binary-search without resolving the whole list again.
    pub spans: Vec<AnchoredDiag>,
    /// Running argmax of the ends of [`Self::spans`], one entry per span.
    ///
    /// The spans are sorted by start, so their ends are not, and a viewport's
    /// lower bound is not searchable directly. Entry `i` names the span with
    /// the greatest end among `0..=i`, which is enough to prove every span up
    /// to `i` ends at or before an offset. An index rather than an offset,
    /// since the end it stands for has to be resolved against the snapshot the
    /// query asks about rather than the one that built this.
    pub prefix_max_end: Vec<u32>,
    /// The cursor line the readout last answered for, the buffer version it
    /// was of, and the diagnostic it found there.
    pub cursor_line_diag: Option<(u32, u64, Option<ResolvedDiag>)>,
}

/// `diag` with its ends where they stand in `snapshot`.
pub open spec fn resolved(diag: AnchoredDiag, snapshot: BufferSnapshot) -> ResolvedDiag {
    let start = snapshot.offset_of(diag.start);
    let end = snapshot.offset_of(diag.end);
    ResolvedDiag {
        start,
        end,
        severity: diag.severity,
        unnecessary: diag.unnecessary,
        start_line: snapshot.row_of(start as int) as u32,
        end_line: snapshot.row_of(end as int) as u32,
        index: diag.index,
    }
}

pub open spec fn all_resolved(spans: Seq<AnchoredDiag>, snapshot: BufferSnapshot) -> Seq<
    ResolvedDiag,
> {
    Seq::new(spans.len(), |i: int| resolved(spans[i], snapshot))
}

/// `indices[i]` names a span among `0..=i` with the greatest end there.
pub open spec fn is_running_argmax(
    indices: Seq<u32>,
    spans: Seq<AnchoredDiag>,
    snapshot: BufferSnapshot,
) -> bool {
    &&& indices.len() == spans.len()
    &&& forall|i: int| 0 <= i < indices.len() ==> (#[trigger] indices[i]) as int <= i
    &&& forall|i: int, j: int|
        #![trigger indices[i], spans[j]]
        0 <= j <= i < indices.len() ==> snapshot.offset_of(spans[j].end) <= snapshot.offset_of(
            spans[indices[i] as int].end,
        )
}

/// The spans are of this buffer and sorted by where they start in `snapshot`.
pub open spec fn are_sorted(spans: Seq<AnchoredDiag>, snapshot: BufferSnapshot) -> bool {
    &&& forall|i: int|
        0 <= i < spans.len() ==> snapshot.holds((#[trigger] spans[i]).start) && snapshot.holds(
            spans[i].end,
        )
    &&& forall|i: int, j: int|
        0 <= i < j < spans.len() ==> snapshot.offset_of((#[trigger] spans[i]).start)
            <= snapshot.offset_of((#[trigger] spans[j]).start)
}

/// What a query looks for.
#[derive(Debug, Clone, Copy, PartialEq, Eq, Structural)]
pub enum Wanted {
    /// A diagnostic whose bytes contain the offset.
    Offset(usize),
    /// A diagnostic whose rows straddle the line.
    Line(u32),
}

pub open spec fn is_wanted(d: ResolvedDiag, wanted: Wanted) -> bool {
    match wanted {
        Wanted::Offset(offset) => d.start < d.end && d.start <= offset && offset < d.end,
        Wanted::Line(line) => d.start_line <= line && line <= d.end_line,
    }
}

/// How a severity ranks, the worst first.
pub open spec fn rank(severity: DiagnosticSeverity) -> int {
    match severity {
        DiagnosticSeverity::Error => 0,
        DiagnosticSeverity::Warning => 1,
        DiagnosticSeverity::Information => 2,
        DiagnosticSeverity::Hint => 3,
        DiagnosticSeverity::Unlisted => 0,
    }
}

/// The worst of the first `n` that are wanted, the earliest of equals.
pub open spec fn worst(diags: Seq<ResolvedDiag>, wanted: Wanted, n: nat) -> Option<ResolvedDiag>
    decreases n,
{
    if n == 0 {
        None
    } else {
        let before = worst(diags, wanted, (n - 1) as nat);
        let d = diags[n - 1];
        if is_wanted(d, wanted) && (before is None || rank(d.severity) < rank(
            before->0.severity,
        )) {
            Some(d)
        } else {
            before
        }
    }
}

pub fn severity_rank(sev: DiagnosticSeverity) -> (r: u8)
    ensures
        r == rank(sev),
{
    match sev {
        DiagnosticSeverity::Error => 0,
        DiagnosticSeverity::Warning => 1,
        DiagnosticSeverity::Information => 2,
        DiagnosticSeverity::Hint => 3,
        DiagnosticSeverity::Unlisted => 0,
    }
}

/// Whether a diagnostic marks dead or inactive code (e.g. a `#[cfg]`-excluded
/// region), which renders muted rather than underlined.
pub fn is_unnecessary(diag: &Diagnostic) -> (r: bool)
    ensures
        r == diag.tags.unnecessary,
{
    diag.tags.unnecessary
}

fn worst_of(diags: &Vec<ResolvedDiag>, wanted: Wanted) -> (found: Option<ResolvedDiag>)
    ensures
        found == worst(diags@, wanted, diags@.len()),
{
    let mut found: Option<ResolvedDiag> = None;
    let mut n: usize = 0;
    while n < diags.len()
        invariant
            n <= diags@.len(),
            found == worst(diags@, wanted, n as nat),
        decreases diags@.len() - n,
    {
        let d: ResolvedDiag = diags[n];
        let fits: bool = match wanted {
            Wanted::Offset(offset) => d.start < d.end && d.start <= offset && offset < d.end,
            Wanted::Line(line) => d.start_line <= line && line <= d.end_line,
        };
        let better: bool = match found {
            Some(best) => severity_rank(d.severity) < severity_rank(best.severity),
            None => true,
        };
        if fits && better {
            found = Some(d);
        }
        n = n + 1;
    }
    found
}

/// The endpoints of `spans` resolved against `snapshot`, from place `from` to
/// place `to`.
pub fn resolve_span_range(
    spans: &Vec<AnchoredDiag>,
    from: usize,
    to: usize,
    snapshot: &BufferSnapshot,
) -> (out: Vec<ResolvedDiag>)
    requires
        from <= to <= spans@.len(),
        snapshot.wf(),
        forall|i: int|
            from <= i < to ==> snapshot.holds((#[trigger] spans@[i]).start) && snapshot.holds(
                spans@[i].end,
            ),
    ensures
        out@ == all_resolved(spans@.subrange(from as int, to as int), *snapshot),
{
    let mut out: Vec<ResolvedDiag> = Vec::new();
    let mut i: usize = from;
    while i < to
        invariant
            from <= i <= to <= spans@.len(),
            snapshot.wf(),
            forall|k: int|
                from <= k < to ==> snapshot.holds((#[trigger] spans@[k]).start) && snapshot.holds(
                    spans@[k].end,
                ),
            out@ == all_resolved(spans@.subrange(from as int, i as int), *snapshot),
        decreases to - i,
    {
        let span: AnchoredDiag = spans[i];
        let start: usize = snapshot.resolve_anchor(&span.start);
        let end: usize = snapshot.resolve_anchor(&span.end);
        out.push(
            ResolvedDiag {
                start,
                end,
                severity: span.severity,
                unnecessary: span.unnecessary,
                start_line: snapshot.offset_to_row(start),
                end_line: snapshot.offset_to_row(end),
                index: span.index,
            },
        );
        i = i + 1;
        assert(out@ =~= all_resolved(spans@.subrange(from as int, i as int), *snapshot));
    }
    out
}

/// `bounds` holds the spans from the first up to which some span ends behind
/// `range.start`, to the first that starts at `range.end` or behind it.
pub open spec fn are_bounds(
    bounds: Range<usize>,
    range: Range<usize>,
    spans: Seq<AnchoredDiag>,
    snapshot: BufferSnapshot,
) -> bool {
    &&& bounds.start <= bounds.end <= spans.len()
    &&& forall|i: int|
        0 <= i < bounds.end ==> snapshot.offset_of((#[trigger] spans[i]).start) < range.end
    &&& forall|i: int|
        bounds.end <= i < spans.len() ==> snapshot.offset_of((#[trigger] spans[i]).start)
            >= range.end
    &&& forall|i: int|
        0 <= i < bounds.start ==> snapshot.offset_of((#[trigger] spans[i]).end) <= range.start
    &&& bounds.start < bounds.end ==> exists|i: int|
        0 <= i <= bounds.start && snapshot.offset_of((#[trigger] spans[i]).end) > range.start
}

impl DiagnosticSpanCache {
    /// The spans are sorted and the running argmax is theirs, as resolved
    /// against `snapshot`.
    pub open spec fn wf(&self, snapshot: BufferSnapshot) -> bool {
        &&& are_sorted(self.spans@, snapshot)
        &&& is_running_argmax(self.prefix_max_end@, self.spans@, snapshot)
    }

    /// The index range of [`Self::spans`] that bounds every overlap with
    /// `byte_range`.
    ///
    /// Resolves O(log n) probe anchors rather than every span.
    ///
    /// Spans in the range still need a per-span end check. Some end at or
    /// before `byte_range.start` and ride along under the max end of a span
    /// that encloses the range from earlier.
    pub fn overlapping(&self, byte_range: &Range<usize>, snapshot: &BufferSnapshot) -> (bounds:
        Range<usize>)
        requires
            snapshot.wf(),
            self.wf(*snapshot),
        ensures
            are_bounds(bounds, *byte_range, self.spans@, *snapshot),
    {
        let mut left: usize = 0;
        let mut right: usize = self.spans.len();
        while left < right
            invariant
                left <= right <= self.spans@.len(),
                self.wf(*snapshot),
                forall|i: int|
                    0 <= i < left ==> snapshot.offset_of((#[trigger] self.spans@[i]).start)
                        < byte_range.end,
                forall|i: int|
                    right <= i < self.spans@.len() ==> snapshot.offset_of(
                        (#[trigger] self.spans@[i]).start,
                    ) >= byte_range.end,
            decreases right - left,
        {
            let mid: usize = left + (right - left) / 2;
            if snapshot.resolve_anchor(&self.spans[mid].start) < byte_range.end {
                left = mid + 1;
            } else {
                right = mid;
            }
        }
        let hi: usize = left;

        let mut left: usize = 0;
        let mut right: usize = hi;
        while left < right
            invariant
                left <= right <= hi <= self.spans@.len(),
                self.wf(*snapshot),
                forall|i: int|
                    0 <= i < left ==> snapshot.offset_of((#[trigger] self.spans@[i]).end)
                        <= byte_range.start,
                right < hi ==> snapshot.offset_of(
                    self.spans@[self.prefix_max_end@[right as int] as int].end,
                ) > byte_range.start,
            decreases right - left,
        {
            let mid: usize = left + (right - left) / 2;
            let at: usize = self.prefix_max_end[mid] as usize;
            let max_end: &Anchor = &self.spans[at].end;
            if snapshot.resolve_anchor(max_end) > byte_range.start {
                right = mid;
            } else {
                assert forall|i: int| 0 <= i < mid + 1 implies snapshot.offset_of(
                    (#[trigger] self.spans@[i]).end,
                ) <= byte_range.start by {
                    assert(self.prefix_max_end@[mid as int] == at);
                }
                left = mid + 1;
            }
        }
        left..hi
    }

    /// The spans the bounds keep for `byte_range`, resolved to offsets.
    ///
    /// One batch resolve over the spans the bounds kept, so the cost follows
    /// what the viewport covers rather than what the file holds.
    pub fn resolve_overlapping(&self, byte_range: &Range<usize>, snapshot: &BufferSnapshot) -> (out:
        Vec<ResolvedDiag>)
        requires
            snapshot.wf(),
            self.wf(*snapshot),
        ensures
            out@ == kept(self.spans@, *byte_range, *snapshot),
    {
        let bounds = self.overlapping(byte_range, snapshot);
        proof {
            lemma_kept(self.spans@, *byte_range, *snapshot, bounds);
        }
        resolve_span_range(&self.spans, bounds.start, bounds.end, snapshot)
    }

    /// The worst-severity diagnostic whose rows straddle `line`.
    ///
    /// The answer for one line is kept, so a frame whose cursor has not
    /// changed line reads it back rather than searching again.
    ///
    /// Ties go to the earliest span, matching a scan of the whole slice, since
    /// the bounds preserve the order the spans are sorted in.
    pub fn cursor_line_diagnostic(&mut self, line: u32, snapshot: &BufferSnapshot) -> (found: Option<
        ResolvedDiag,
    >)
        requires
            snapshot.wf(),
            old(self).wf(*snapshot),
            line < snapshot.line_starts@.len(),
        ensures
            match old(self).cursor_line_diag {
                Some((l, v, answer)) if l == line && v == snapshot.version => found == answer
                    && *final(self) == *old(self),
                _ => found == readout(old(self).spans@, *snapshot, line) && *final(self) == (
                DiagnosticSpanCache {
                    cursor_line_diag: Some((line, snapshot.version, found)),
                    ..*old(self)
                }),
            },
            old(self).remembers(*snapshot) ==> found == readout(old(self).spans@, *snapshot, line)
                && final(self).remembers(*snapshot),
    {
        match self.cursor_line_diag {
            Some((cached_line, cached_version, answer)) => {
                if cached_line == line && cached_version == snapshot.version {
                    return answer;
                }
            },
            None => {},
        }
        // A diagnostic ending at column 0 of a line still counts as reaching
        // that line, so the probe covers the line's own bytes and the byte
        // before it. The first line has no byte before it: there nothing ends
        // too early to count.
        let row: usize = line as usize;
        let line_start: usize = snapshot.line_starts[row];
        let line_end: usize = if row + 1 < snapshot.line_starts.len() {
            assert(snapshot.line_starts@[row as int] < snapshot.line_starts@[row + 1]);
            snapshot.line_starts[row + 1] - 1
        } else {
            snapshot.len
        };
        let probe = line_start.saturating_sub(1)..line_end + 1;
        let bounds = self.overlapping(&probe, snapshot);
        let from: usize = if line_start == 0 {
            0
        } else {
            bounds.start
        };
        let diags = resolve_span_range(&self.spans, from, bounds.end, snapshot);
        let found = worst_of(&diags, Wanted::Line(line));
        proof {
            lemma_line_bounds(self.spans@, *snapshot, line, probe, bounds);
            lemma_part_suffices(
                self.spans@,
                *snapshot,
                from as int,
                bounds.end as int,
                Wanted::Line(line),
            );
        }
        self.cursor_line_diag = Some((line, snapshot.version, found));
        found
    }

    /// The answer kept for a line of this version is the one a search gives.
    pub open spec fn remembers(&self, snapshot: BufferSnapshot) -> bool {
        self.cursor_line_diag matches Some((line, version, answer)) ==> version == snapshot.version
            ==> answer == readout(self.spans@, snapshot, line)
    }
}

/// What the readout shows on `line`: of all diagnostics whose rows straddle it
/// the worst, the earliest of equals.
pub open spec fn readout(
    spans: Seq<AnchoredDiag>,
    snapshot: BufferSnapshot,
    line: u32,
) -> Option<ResolvedDiag> {
    worst(all_resolved(spans, snapshot), Wanted::Line(line), spans.len())
}

/// The spans that the bounds keep for `range`, resolved.
pub open spec fn kept(
    spans: Seq<AnchoredDiag>,
    range: Range<usize>,
    snapshot: BufferSnapshot,
) -> Seq<ResolvedDiag> {
    let bounds = choose|bounds: Range<usize>| are_bounds(bounds, range, spans, snapshot);
    all_resolved(spans.subrange(bounds.start as int, bounds.end as int), snapshot)
}

proof fn lemma_kept(
    spans: Seq<AnchoredDiag>,
    range: Range<usize>,
    snapshot: BufferSnapshot,
    bounds: Range<usize>,
)
    requires
        are_bounds(bounds, range, spans, snapshot),
    ensures
        kept(spans, range, snapshot) == all_resolved(
            spans.subrange(bounds.start as int, bounds.end as int),
            snapshot,
        ),
{
    let other = choose|other: Range<usize>| are_bounds(other, range, spans, snapshot);
    lemma_bounds_agree(spans, range, snapshot, bounds, other);
}

proof fn lemma_bounds_agree(
    spans: Seq<AnchoredDiag>,
    range: Range<usize>,
    snapshot: BufferSnapshot,
    a: Range<usize>,
    b: Range<usize>,
)
    requires
        are_bounds(a, range, spans, snapshot),
        are_bounds(b, range, spans, snapshot),
    ensures
        a == b,
{
    if a.end < b.end {
        assert(snapshot.offset_of(spans[a.end as int].start) < range.end);
    } else if b.end < a.end {
        assert(snapshot.offset_of(spans[b.end as int].start) < range.end);
    }
}

/// The first span, among the first `n`, that starts at `range.end` or behind
/// it.
proof fn lemma_upper_bound(
    spans: Seq<AnchoredDiag>,
    range: Range<usize>,
    snapshot: BufferSnapshot,
    n: nat,
) -> (hi: nat)
    requires
        are_sorted(spans, snapshot),
        n <= spans.len(),
    ensures
        hi <= n,
        forall|i: int| 0 <= i < hi ==> snapshot.offset_of((#[trigger] spans[i]).start) < range.end,
        forall|i: int|
            hi <= i < n ==> snapshot.offset_of((#[trigger] spans[i]).start) >= range.end,
    decreases n,
{
    if n == 0 {
        0
    } else {
        let hi = lemma_upper_bound(spans, range, snapshot, (n - 1) as nat);
        if hi < n - 1 {
            assert(snapshot.offset_of(spans[hi as int].start) <= snapshot.offset_of(
                spans[n - 1].start,
            ));
            hi
        } else if snapshot.offset_of(spans[n - 1].start) < range.end {
            n
        } else {
            hi
        }
    }
}

/// The first span, among the first `n`, that ends behind `range.start`.
proof fn lemma_lower_bound(
    spans: Seq<AnchoredDiag>,
    range: Range<usize>,
    snapshot: BufferSnapshot,
    n: nat,
) -> (lo: nat)
    requires
        n <= spans.len(),
    ensures
        lo <= n,
        forall|i: int| 0 <= i < lo ==> snapshot.offset_of((#[trigger] spans[i]).end) <= range.start,
        lo < n ==> snapshot.offset_of(spans[lo as int].end) > range.start,
    decreases n,
{
    if n == 0 {
        0
    } else {
        let lo = lemma_lower_bound(spans, range, snapshot, (n - 1) as nat);
        if lo == n - 1 && snapshot.offset_of(spans[n - 1].end) <= range.start {
            n
        } else {
            lo
        }
    }
}

/// Sorted spans have bounds for every range.
pub proof fn every_range_has_bounds(
    spans: Seq<AnchoredDiag>,
    range: Range<usize>,
    snapshot: BufferSnapshot,
)
    requires
        are_sorted(spans, snapshot),
        spans.len() <= usize::MAX,
    ensures
        exists|bounds: Range<usize>| #[trigger] are_bounds(bounds, range, spans, snapshot),
{
    let hi = lemma_upper_bound(spans, range, snapshot, spans.len());
    let lo = lemma_lower_bound(spans, range, snapshot, hi);
    let bounds = Range { start: lo as usize, end: hi as usize };
    if lo < hi {
        assert(snapshot.offset_of(spans[lo as int].end) > range.start);
    }
    assert(are_bounds(bounds, range, spans, snapshot));
}

/// Every span that has a byte in common with the range lies in the bounds.
pub proof fn bounds_keep_every_overlap(
    bounds: Range<usize>,
    range: Range<usize>,
    spans: Seq<AnchoredDiag>,
    snapshot: BufferSnapshot,
    i: int,
)
    requires
        are_bounds(bounds, range, spans, snapshot),
        0 <= i < spans.len(),
        snapshot.offset_of(spans[i].start) < range.end,
        range.start < snapshot.offset_of(spans[i].end),
    ensures
        bounds.start <= i < bounds.end,
{
}

proof fn lemma_worst_skips(
    diags: Seq<ResolvedDiag>,
    wanted: Wanted,
    n: nat,
    k: nat,
)
    requires
        n <= k <= diags.len(),
        forall|i: int| n <= i < k ==> !is_wanted(#[trigger] diags[i], wanted),
    ensures
        worst(diags, wanted, k) == worst(diags, wanted, n),
    decreases k - n,
{
    if n < k {
        lemma_worst_skips(diags, wanted, n, (k - 1) as nat);
        assert(!is_wanted(diags[k - 1], wanted));
    }
}

proof fn lemma_worst_of_part(
    diags: Seq<ResolvedDiag>,
    wanted: Wanted,
    from: int,
    to: int,
    k: nat,
)
    requires
        0 <= from <= to <= diags.len(),
        k <= to - from,
        forall|i: int| 0 <= i < from ==> !is_wanted(#[trigger] diags[i], wanted),
    ensures
        worst(diags.subrange(from, to), wanted, k) == worst(diags, wanted, (from + k) as nat),
    decreases k,
{
    if k == 0 {
        lemma_worst_skips(diags, wanted, 0, from as nat);
    } else {
        lemma_worst_of_part(diags, wanted, from, to, (k - 1) as nat);
        assert(diags.subrange(from, to)[k - 1] == diags[from + k - 1]);
    }
}

/// Where all that is wanted lies between two places, what lies between them
/// answers as a scan of the whole list does.
proof fn lemma_part_suffices(
    spans: Seq<AnchoredDiag>,
    snapshot: BufferSnapshot,
    from: int,
    to: int,
    wanted: Wanted,
)
    requires
        0 <= from <= to <= spans.len(),
        forall|i: int|
            0 <= i < spans.len() && is_wanted(resolved(#[trigger] spans[i], snapshot), wanted)
                ==> from <= i < to,
    ensures
        worst(
            all_resolved(spans.subrange(from, to), snapshot),
            wanted,
            all_resolved(spans.subrange(from, to), snapshot).len(),
        ) == worst(all_resolved(spans, snapshot), wanted, spans.len()),
{
    let all = all_resolved(spans, snapshot);
    assert(all_resolved(spans.subrange(from, to), snapshot) =~= all.subrange(from, to));
    assert forall|i: int| 0 <= i < spans.len() && !(from <= i < to) implies !is_wanted(
        #[trigger] all[i],
        wanted,
    ) by {
        assert(all[i] == resolved(spans[i], snapshot));
    }
    lemma_worst_of_part(all, wanted, from, to, (to - from) as nat);
    lemma_worst_skips(all, wanted, to as nat, spans.len());
}

/// A diagnostic whose rows straddle a line starts before the probe of the line
/// ends and, unless the line is the first, ends behind where the probe starts.
proof fn lemma_line_bounds(
    spans: Seq<AnchoredDiag>,
    snapshot: BufferSnapshot,
    line: u32,
    probe: Range<usize>,
    bounds: Range<usize>,
)
    requires
        snapshot.wf(),
        are_sorted(spans, snapshot),
        line < snapshot.line_starts@.len(),
        probe.end == snapshot.line_end(line as int) + 1,
        snapshot.line_starts@[line as int] > 0 ==> probe.start
            == snapshot.line_starts@[line as int] - 1,
        are_bounds(bounds, probe, spans, snapshot),
    ensures
        forall|i: int|
            0 <= i < spans.len() && is_wanted(
                resolved(#[trigger] spans[i], snapshot),
                Wanted::Line(line),
            ) ==> i < bounds.end && (snapshot.line_starts@[line as int] > 0 ==> bounds.start <= i),
{
    let starts = snapshot.line_starts@;
    if line + 1 < starts.len() {
        assert(starts[line as int] < starts[line + 1]);
    }
    assert forall|i: int|
        0 <= i < spans.len() && is_wanted(
            resolved(#[trigger] spans[i], snapshot),
            Wanted::Line(line),
        ) implies i < bounds.end && (starts[line as int] > 0 ==> bounds.start <= i) by {
        let span = spans[i];
        let start = snapshot.offset_of(span.start) as int;
        let end = snapshot.offset_of(span.end) as int;
        lemma_row(starts, start, starts.len() as int);
        lemma_row(starts, end, starts.len() as int);
        let first = snapshot.row_of(start);
        let last = snapshot.row_of(end);
        if first < line {
            assert(start < starts[first + 1]);
            if first + 1 < line {
                assert(starts[first + 1] < starts[line as int]);
            }
        } else if line + 1 < starts.len() {
            assert(start < starts[line + 1]);
        }
        assert(start <= snapshot.line_end(line as int));
        if line < last {
            assert(starts[line as int] < starts[last]);
        }
        assert(end >= starts[line as int]);
    }
}

/// An edit moves anchors without changing their order, so a cache built
/// against one version of a buffer serves every later one.
pub proof fn edits_leave_the_cache_standing(
    cache: DiagnosticSpanCache,
    built: BufferSnapshot,
    later: BufferSnapshot,
)
    requires
        cache.wf(built),
        built.buffer_id == later.buffer_id,
        built.places@.len() <= later.places@.len(),
        forall|a: int, b: int|
            0 <= a < built.places@.len() && 0 <= b < built.places@.len() && (
            #[trigger] built.places@[a]) <= (#[trigger] built.places@[b]) ==> later.places@[a]
                <= later.places@[b],
    ensures
        cache.wf(later),
{
    let spans = cache.spans@;
    let indices = cache.prefix_max_end@;
    assert forall|i: int, j: int| 0 <= i < j < spans.len() implies later.offset_of(
        (#[trigger] spans[i]).start,
    ) <= later.offset_of((#[trigger] spans[j]).start) by {
        assert(built.offset_of(spans[i].start) <= built.offset_of(spans[j].start));
    }
    assert forall|i: int, j: int|
        #![trigger indices[i], spans[j]]
        0 <= j <= i < indices.len() implies later.offset_of(spans[j].end) <= later.offset_of(
        spans[indices[i] as int].end,
    ) by {
        assert(built.offset_of(spans[j].end) <= built.offset_of(spans[indices[i] as int].end));
        assert(built.holds(spans[indices[i] as int].start));
    }
}

/// The highest-severity diagnostic whose byte range contains `offset`, or
/// `None` when none do. The earliest span wins among equals.
///
/// Resolves only the spans the cache's bounds keep for the byte `offset` sits
/// on, rather than every span before it.
///
/// The resolved span comes back with the answer, so a caller that needs the
/// diagnostic's position reads it here rather than searching for it again.
pub fn diagnostic_at_offset(
    cache: &DiagnosticSpanCache,
    offset: usize,
    snapshot: &BufferSnapshot,
) -> (found: Option<ResolvedDiag>)
    requires
        snapshot.wf(),
        cache.wf(*snapshot),
        offset < usize::MAX,
    ensures
        found == worst(
            all_resolved(cache.spans@, *snapshot),
            Wanted::Offset(offset),
            cache.spans@.len(),
        ),
{
    let range = offset..offset + 1;
    let diags = cache.resolve_overlapping(&range, snapshot);
    let found = worst_of(&diags, Wanted::Offset(offset));
    proof {
        assert(cache.spans@.len() == cache.spans.len());
        every_range_has_bounds(cache.spans@, range, *snapshot);
        let bounds = choose|bounds: Range<usize>| #[trigger]
            are_bounds(bounds, range, cache.spans@, *snapshot);
        assert forall|i: int|
            0 <= i < cache.spans@.len() && is_wanted(
                resolved(#[trigger] cache.spans@[i], *snapshot),
                Wanted::Offset(offset),
            ) implies bounds.start <= i < bounds.end by {
            bounds_keep_every_overlap(bounds, range, cache.spans@, *snapshot, i);
        }
        lemma_kept(cache.spans@, range, *snapshot, bounds);
        lemma_part_suffices(
            cache.spans@,
            *snapshot,
            bounds.start as int,
            bounds.end as int,
            Wanted::Offset(offset),
        );
    }
    found
}

// ---------------------------------------------------------------------------
// Building the cache
// ---------------------------------------------------------------------------

/// The endpoints of a span when they anchor into the buffer `snapshot` is for.
pub open spec fn anchors_here(
    published: Seq<Option<(Anchor, Anchor)>>,
    index: int,
    snapshot: BufferSnapshot,
) -> Option<(Anchor, Anchor)> {
    if index < published.len() {
        match published[index] {
            Some((start, end)) => if start.buffer_id == snapshot.buffer_id {
                Some((start, end))
            } else {
                None
            },
            None => None,
        }
    } else {
        None
    }
}

/// The anchor of what has no place of its own.
pub open spec fn origin_of(snapshot: BufferSnapshot) -> Anchor {
    Anchor { buffer_id: snapshot.buffer_id, place: snapshot.origin }
}

/// The diagnostic at `index`, in its anchors.
pub open spec fn anchored(
    diagnostics: Seq<Diagnostic>,
    published: Seq<Option<(Anchor, Anchor)>>,
    index: int,
    snapshot: BufferSnapshot,
) -> AnchoredDiag {
    let ends = anchors_here(published, index, snapshot);
    let diag = diagnostics[index];
    AnchoredDiag {
        start: match ends {
            Some((start, _)) => start,
            None => origin_of(snapshot),
        },
        end: match ends {
            Some((_, end)) => end,
            None => origin_of(snapshot),
        },
        severity: match diag.severity {
            Some(severity) => severity,
            None => DiagnosticSeverity::Error,
        },
        unnecessary: diag.tags.unnecessary,
        index: index as usize,
    }
}

/// Orders spans by where they start.
pub struct ByStart {
    pub start: usize,
}

impl Ranked for ByStart {
    open spec fn ranks_before(self, other: Self) -> bool {
        self.start < other.start
    }

    proof fn asymmetric(a: Self, b: Self) {
    }

    proof fn negatively_transitive(a: Self, b: Self, c: Self) {
    }

    fn before(&self, other: &Self) -> (r: bool) {
        self.start < other.start
    }
}

pub open spec fn start_keys(spans: Seq<AnchoredDiag>, snapshot: BufferSnapshot) -> Seq<ByStart> {
    Seq::new(spans.len(), |i: int| ByStart { start: snapshot.offset_of(spans[i].start) })
}

/// The diagnostics in their anchors, in publish order.
pub open spec fn in_publish_order(
    diagnostics: Seq<Diagnostic>,
    published: Seq<Option<(Anchor, Anchor)>>,
    snapshot: BufferSnapshot,
) -> Seq<AnchoredDiag> {
    Seq::new(diagnostics.len(), |i: int| anchored(diagnostics, published, i, snapshot))
}

/// The diagnostics in their anchors, sorted by where they start; those that
/// start together keep the order they were published in.
pub open spec fn sorted_spans(
    diagnostics: Seq<Diagnostic>,
    published: Seq<Option<(Anchor, Anchor)>>,
    snapshot: BufferSnapshot,
) -> Seq<AnchoredDiag> {
    let spans = in_publish_order(diagnostics, published, snapshot);
    arranged(start_keys(spans, snapshot), spans)
}

/// The anchors that were published for this buffer are ones it knows.
pub open spec fn are_known(
    published: Seq<Option<(Anchor, Anchor)>>,
    snapshot: BufferSnapshot,
) -> bool {
    forall|i: int|
        0 <= i < published.len() ==> ((#[trigger] published[i]) matches Some((start, end))
            ==> start.buffer_id == snapshot.buffer_id ==> snapshot.holds(start) && snapshot.holds(
            end,
        ))
}

/// The endpoints of a span when they anchor into the buffer `snapshot` is for.
///
/// A span published against a different buffer resolves to a meaningless
/// offset rather than an error, so the buffer has to be checked before the
/// anchors are used.
pub fn anchors_in(
    published: &Vec<Option<(Anchor, Anchor)>>,
    index: usize,
    snapshot: &BufferSnapshot,
) -> (ends: Option<(Anchor, Anchor)>)
    ensures
        ends == anchors_here(published@, index as int, *snapshot),
{
    if index >= published.len() {
        return None;
    }
    match published[index] {
        Some((start, end)) => if start.buffer_id == snapshot.buffer_id {
            Some((start, end))
        } else {
            None
        },
        None => None,
    }
}

/// Every diagnostic of a path in its publish anchors, sorted by start.
///
/// One consistent resolve settles the order, which the anchors then carry
/// through every later edit unchanged, so this runs once per publish rather
/// than once per keystroke.
///
/// A diagnostic whose anchors are missing, or belong to another buffer, takes
/// an anchor at the buffer start. It has no position of its own, and one at
/// the start is what every downstream filter already expects.
pub fn anchored_diagnostics(
    diagnostics: &[Diagnostic],
    published: &Vec<Option<(Anchor, Anchor)>>,
    snapshot: &BufferSnapshot,
) -> (sorted: Vec<AnchoredDiag>)
    requires
        snapshot.wf(),
        are_known(published@, *snapshot),
    ensures
        sorted@ == sorted_spans(diagnostics@, published@, *snapshot),
        sorted@.len() == diagnostics@.len(),
        are_sorted(sorted@, *snapshot),
{
    let origin = Anchor { buffer_id: snapshot.buffer_id, place: snapshot.origin };
    let mut spans: Vec<AnchoredDiag> = Vec::new();
    let mut keys: Vec<ByStart> = Vec::new();
    let ghost plain = in_publish_order(diagnostics@, published@, *snapshot);
    for index in 0..diagnostics.len()
        invariant
            snapshot.wf(),
            are_known(published@, *snapshot),
            origin == origin_of(*snapshot),
            plain == in_publish_order(diagnostics@, published@, *snapshot),
            spans@ == plain.take(index as int),
            keys@.len() == index,
            forall|i: int|
                0 <= i < index ==> snapshot.holds((#[trigger] plain[i]).start) && snapshot.holds(
                    plain[i].end,
                ) && keys@[i].start == snapshot.offset_of(plain[i].start),
    {
        let diag = &diagnostics[index];
        let (start, end): (Anchor, Anchor) = match anchors_in(published, index, snapshot) {
            Some(ends) => ends,
            None => (origin, origin),
        };
        let severity = match diag.severity {
            Some(severity) => severity,
            None => DiagnosticSeverity::Error,
        };
        let span = AnchoredDiag { start, end, severity, unnecessary: is_unnecessary(diag), index };
        assert(span == plain[index as int]);
        keys.push(ByStart { start: snapshot.resolve_anchor(&start) });
        spans.push(span);
        assert(spans@ =~= plain.take(index + 1));
    }
    assert(spans@ =~= plain);
    assert(keys@ =~= start_keys(plain, *snapshot));
    let order = stable_order(&keys);
    proof {
        lemma_the_order(keys@, order@);
    }
    let mut sorted: Vec<AnchoredDiag> = Vec::new();
    for k in 0..order.len()
        invariant
            is_stable_order(keys@, order@),
            keys@.len() == spans@.len(),
            sorted@.len() == k,
            forall|i: int| 0 <= i < k ==> sorted@[i] == spans@[#[trigger] order@[i] as int],
    {
        sorted.push(spans[order[k]]);
    }
    assert(sorted@ =~= arranged(keys@, spans@));
    proof {
        assert forall|i: int| 0 <= i < sorted@.len() implies snapshot.holds(
            (#[trigger] sorted@[i]).start,
        ) && snapshot.holds(sorted@[i].end) by {
            assert(sorted@[i] == plain[order@[i] as int]);
        }
        assert forall|i: int, j: int| 0 <= i < j < sorted@.len() implies snapshot.offset_of(
            (#[trigger] sorted@[i]).start,
        ) <= snapshot.offset_of((#[trigger] sorted@[j]).start) by {
            assert(crate::order::read_before(keys@, order@[i] as int, order@[j] as int));
            assert(keys@[order@[i] as int].start == snapshot.offset_of(sorted@[i].start));
            assert(keys@[order@[j] as int].start == snapshot.offset_of(sorted@[j].start));
        }
    }
    sorted
}

/// The running argmax of `spans`' ends, for
/// [`DiagnosticSpanCache::prefix_max_end`].
///
/// Entry `i` is the index of the greatest end among `0..=i`. Ties keep the
/// earlier index, which is not observable: both name a span with the same end,
/// so a search reads the same bound either way.
pub fn prefix_max_end_indices(spans: &Vec<AnchoredDiag>, snapshot: &BufferSnapshot) -> (indices: Vec<
    u32,
>)
    requires
        spans@.len() <= u32::MAX,
        forall|i: int| 0 <= i < spans@.len() ==> snapshot.holds((#[trigger] spans@[i]).end),
    ensures
        is_running_argmax(indices@, spans@, *snapshot),
        forall|i: int, j: int|
            #![trigger indices@[i], spans@[j]]
            0 <= j < indices@[i] && i < indices@.len() && 0 <= i ==> snapshot.offset_of(
                spans@[j].end,
            ) < snapshot.offset_of(spans@[indices@[i] as int].end),
{
    let mut indices: Vec<u32> = Vec::new();
    let mut max_end: usize = 0;
    let mut max_idx: u32 = 0;
    for i in 0..spans.len()
        invariant
            spans@.len() <= u32::MAX,
            forall|k: int| 0 <= k < spans@.len() ==> snapshot.holds((#[trigger] spans@[k]).end),
            indices@.len() == i,
            i > 0 ==> max_idx < i && max_end == snapshot.offset_of(spans@[max_idx as int].end),
            forall|j: int|
                0 <= j < i ==> snapshot.offset_of((#[trigger] spans@[j]).end) <= max_end,
            i > 0 ==> forall|j: int|
                0 <= j < max_idx ==> snapshot.offset_of((#[trigger] spans@[j]).end) < max_end,
            forall|k: int| 0 <= k < indices@.len() ==> (#[trigger] indices@[k]) as int <= k,
            forall|k: int, j: int|
                #![trigger indices@[k], spans@[j]]
                0 <= j <= k < indices@.len() ==> snapshot.offset_of(spans@[j].end)
                    <= snapshot.offset_of(spans@[indices@[k] as int].end),
            forall|k: int, j: int|
                #![trigger indices@[k], spans@[j]]
                0 <= j < indices@[k] && k < indices@.len() && 0 <= k ==> snapshot.offset_of(
                    spans@[j].end,
                ) < snapshot.offset_of(spans@[indices@[k] as int].end),
    {
        let end: usize = snapshot.resolve_anchor(&spans[i].end);
        if i == 0 || end > max_end {
            max_end = end;
            max_idx = i as u32;
        }
        indices.push(max_idx);
    }
    indices
}

/// The cache is of this version of the path's diagnostics.
pub open spec fn is_fresh(cache: Option<DiagnosticSpanCache>, set_version: u64) -> bool {
    cache is Some && cache->0.set_version == set_version
}

/// The cache was built anew over `spans`.
pub open spec fn is_built(
    cache: Option<DiagnosticSpanCache>,
    set_version: u64,
    spans: Seq<AnchoredDiag>,
    snapshot: BufferSnapshot,
) -> bool {
    &&& cache is Some
    &&& cache->0.set_version == set_version
    &&& cache->0.spans@ == spans
    &&& cache->0.cursor_line_diag is None
    &&& cache->0.wf(snapshot)
}

/// Rebuild the cache when the diagnostics of the path have changed since it
/// was last resolved. `set_version` is the version they are at.
///
/// The paint is not the only caller. Mouse motion warms the same cache to
/// answer what the pointer is over, so a sweep across a diagnostic-heavy
/// buffer resolves the spans once rather than once per motion event.
pub fn build_diagnostic_span_cache(
    cache: &mut Option<DiagnosticSpanCache>,
    set_version: u64,
    diagnostics: &[Diagnostic],
    published: &Vec<Option<(Anchor, Anchor)>>,
    snapshot: &BufferSnapshot,
)
    requires
        snapshot.wf(),
        are_known(published@, *snapshot),
        diagnostics@.len() <= u32::MAX,
    ensures
        is_fresh(*old(cache), set_version) ==> *final(cache) == *old(cache),
        !is_fresh(*old(cache), set_version) ==> is_built(
            *final(cache),
            set_version,
            sorted_spans(diagnostics@, published@, *snapshot),
            *snapshot,
        ),
{
    let stale: bool = match cache {
        Some(c) => c.set_version != set_version,
        None => true,
    };
    if stale {
        let spans = anchored_diagnostics(diagnostics, published, snapshot);
        let prefix_max_end = prefix_max_end_indices(&spans, snapshot);
        *cache = Some(
            DiagnosticSpanCache { set_version, spans, prefix_max_end, cursor_line_diag: None },
        );
    }
}

// ---------------------------------------------------------------------------
// What the queries answer
// ---------------------------------------------------------------------------

/// The row of an offset is the line that it lies in: it starts there or before,
/// and the next one starts behind it.
pub proof fn a_row_holds_its_offset(snapshot: BufferSnapshot, offset: int)
    requires
        snapshot.wf(),
        0 <= offset,
    ensures
        0 <= snapshot.row_of(offset) < snapshot.line_starts@.len(),
        snapshot.line_starts@[snapshot.row_of(offset)] <= offset,
        snapshot.row_of(offset) + 1 < snapshot.line_starts@.len() ==> offset
            < snapshot.line_starts@[snapshot.row_of(offset) + 1],
{
    lemma_row(snapshot.line_starts@, offset, snapshot.line_starts@.len() as int);
}

/// Severities from the worst on: errors, warnings, information, hints. One that
/// is none of these counts as an error.
pub proof fn errors_rank_first()
    ensures
        rank(DiagnosticSeverity::Error) < rank(DiagnosticSeverity::Warning),
        rank(DiagnosticSeverity::Warning) < rank(DiagnosticSeverity::Information),
        rank(DiagnosticSeverity::Information) < rank(DiagnosticSeverity::Hint),
        rank(DiagnosticSeverity::Unlisted) == rank(DiagnosticSeverity::Error),
{
}

/// The worst of those wanted is one of them, none is worse, and none before it
/// is as bad. Tells where it stands.
proof fn lemma_worst(diags: Seq<ResolvedDiag>, wanted: Wanted, n: nat) -> (k: int)
    requires
        n <= diags.len(),
    ensures
        match worst(diags, wanted, n) {
            None => forall|i: int| 0 <= i < n ==> !is_wanted(#[trigger] diags[i], wanted),
            Some(d) => 0 <= k < n && diags[k] == d && is_wanted(d, wanted) && forall|i: int|
                0 <= i < n && is_wanted(#[trigger] diags[i], wanted) ==> rank(d.severity) <= rank(
                    diags[i].severity,
                ) && (i < k ==> rank(d.severity) < rank(diags[i].severity)),
        },
    decreases n,
{
    if n == 0 {
        0
    } else {
        let p = (n - 1) as nat;
        let k = lemma_worst(diags, wanted, p);
        let before = worst(diags, wanted, p);
        let d = diags[n - 1];
        if is_wanted(d, wanted) && (before is None || rank(d.severity) < rank(
            before->0.severity,
        )) {
            n - 1
        } else {
            k
        }
    }
}

/// What is under an offset: nothing exactly where no diagnostic's bytes contain
/// it, else a diagnostic whose bytes do, than which none that contains the
/// offset is worse, the first of those as bad.
pub proof fn the_worst_under_an_offset_is_found(
    spans: Seq<AnchoredDiag>,
    snapshot: BufferSnapshot,
    offset: usize,
    found: Option<ResolvedDiag>,
)
    requires
        found == worst(all_resolved(spans, snapshot), Wanted::Offset(offset), spans.len()),
    ensures
        found is None <==> forall|i: int|
            0 <= i < spans.len() ==> !(snapshot.offset_of((#[trigger] spans[i]).start) <= offset
                < snapshot.offset_of(spans[i].end)),
        found matches Some(d) ==> exists|k: int|
            0 <= k < spans.len() && (#[trigger] spans[k]).index == d.index && spans[k].severity
                == d.severity && spans[k].unnecessary == d.unnecessary && snapshot.offset_of(
                spans[k].start,
            ) == d.start && snapshot.offset_of(spans[k].end) == d.end && d.start <= offset < d.end
                && (forall|i: int|
                0 <= i < spans.len() && snapshot.offset_of((#[trigger] spans[i]).start) <= offset
                    < snapshot.offset_of(spans[i].end) ==> rank(d.severity) <= rank(
                    spans[i].severity,
                ) && (i < k ==> rank(d.severity) < rank(spans[i].severity))),
{
    let diags = all_resolved(spans, snapshot);
    let wanted = Wanted::Offset(offset);
    let k = lemma_worst(diags, wanted, spans.len());
    assert forall|i: int| 0 <= i < spans.len() implies is_wanted(diags[i], wanted) == (
    snapshot.offset_of((#[trigger] spans[i]).start) <= offset < snapshot.offset_of(
        spans[i].end,
    )) by {
        assert(diags[i] == resolved(spans[i], snapshot));
    }
    match found {
        Some(d) => {
            assert(diags[k] == resolved(spans[k], snapshot));
            assert(spans[k].index == d.index);
            assert forall|i: int|
                0 <= i < spans.len() && snapshot.offset_of((#[trigger] spans[i]).start) <= offset
                    < snapshot.offset_of(spans[i].end) implies rank(d.severity) <= rank(
                spans[i].severity,
            ) && (i < k ==> rank(d.severity) < rank(spans[i].severity)) by {
                assert(diags[i] == resolved(spans[i], snapshot));
                assert(is_wanted(diags[i], wanted));
            }
        },
        None => {
            assert forall|i: int| 0 <= i < spans.len() implies !(snapshot.offset_of(
                (#[trigger] spans[i]).start,
            ) <= offset < snapshot.offset_of(spans[i].end)) by {
                assert(!is_wanted(diags[i], wanted));
            }
        },
    }
    if forall|i: int|
        0 <= i < spans.len() ==> !(snapshot.offset_of((#[trigger] spans[i]).start) <= offset
            < snapshot.offset_of(spans[i].end)) {
        assert forall|i: int| 0 <= i < spans.len() implies !is_wanted(#[trigger] diags[i], wanted) by {
            assert(spans[i] == spans[i]);
        }
    }
}

/// A diagnostic reaches a line: it starts on it or before, and ends on it or
/// behind.
pub open spec fn reaches(span: AnchoredDiag, snapshot: BufferSnapshot, line: u32) -> bool {
    &&& line + 1 < snapshot.line_starts@.len() ==> snapshot.offset_of(span.start)
        < snapshot.line_starts@[line + 1]
    &&& snapshot.line_starts@[line as int] <= snapshot.offset_of(span.end)
}

proof fn lemma_reaches(span: AnchoredDiag, snapshot: BufferSnapshot, line: u32)
    requires
        snapshot.wf(),
        line < snapshot.line_starts@.len(),
    ensures
        is_wanted(resolved(span, snapshot), Wanted::Line(line)) == reaches(span, snapshot, line),
{
    let starts = snapshot.line_starts@;
    let start = snapshot.offset_of(span.start) as int;
    let end = snapshot.offset_of(span.end) as int;
    a_row_holds_its_offset(snapshot, start);
    a_row_holds_its_offset(snapshot, end);
    let first = snapshot.row_of(start);
    let last = snapshot.row_of(end);
    if first <= line {
        if line + 1 < starts.len() && first < line {
            assert(starts[first + 1] <= starts[line + 1]) by {
                if first + 1 < line + 1 {
                    assert(starts[first + 1] < starts[line + 1]);
                }
            }
        }
    } else {
        assert(starts[line + 1] <= starts[first]) by {
            if line + 1 < first {
                assert(starts[line + 1] < starts[first]);
            }
        }
    }
    if line <= last {
        if line < last {
            assert(starts[line as int] < starts[last]);
        }
    } else {
        assert(starts[last + 1] <= starts[line as int]) by {
            if last + 1 < line {
                assert(starts[last + 1] < starts[line as int]);
            }
        }
    }
}

/// What the readout shows on a line: nothing exactly where no diagnostic
/// reaches it, else one that does, than which none that reaches the line is
/// worse, the first of those as bad.
pub proof fn the_worst_on_a_line_is_shown(
    spans: Seq<AnchoredDiag>,
    snapshot: BufferSnapshot,
    line: u32,
    found: Option<ResolvedDiag>,
)
    requires
        snapshot.wf(),
        line < snapshot.line_starts@.len(),
        found == readout(spans, snapshot, line),
    ensures
        found is None <==> forall|i: int|
            0 <= i < spans.len() ==> !reaches(#[trigger] spans[i], snapshot, line),
        found matches Some(d) ==> exists|k: int|
            0 <= k < spans.len() && (#[trigger] spans[k]).index == d.index && spans[k].severity
                == d.severity && snapshot.offset_of(spans[k].start) == d.start
                && snapshot.offset_of(spans[k].end) == d.end && reaches(spans[k], snapshot, line)
                && (forall|i: int|
                0 <= i < spans.len() && reaches(#[trigger] spans[i], snapshot, line) ==> rank(
                    d.severity,
                ) <= rank(spans[i].severity) && (i < k ==> rank(d.severity) < rank(
                    spans[i].severity,
                ))),
{
    let diags = all_resolved(spans, snapshot);
    let wanted = Wanted::Line(line);
    let k = lemma_worst(diags, wanted, spans.len());
    assert forall|i: int| 0 <= i < spans.len() implies is_wanted(diags[i], wanted) == reaches(
        #[trigger] spans[i],
        snapshot,
        line,
    ) by {
        assert(diags[i] == resolved(spans[i], snapshot));
        lemma_reaches(spans[i], snapshot, line);
    }
    match found {
        Some(d) => {
            assert(diags[k] == resolved(spans[k], snapshot));
            assert(spans[k].index == d.index);
            assert forall|i: int|
                0 <= i < spans.len() && reaches(#[trigger] spans[i], snapshot, line) implies rank(
                d.severity,
            ) <= rank(spans[i].severity) && (i < k ==> rank(d.severity) < rank(
                spans[i].severity,
            )) by {
                assert(diags[i] == resolved(spans[i], snapshot));
                assert(is_wanted(diags[i], wanted));
            }
        },
        None => {
            assert forall|i: int| 0 <= i < spans.len() implies !reaches(
                #[trigger] spans[i],
                snapshot,
                line,
            ) by {
                assert(!is_wanted(diags[i], wanted));
            }
        },
    }
    if forall|i: int| 0 <= i < spans.len() ==> !reaches(#[trigger] spans[i], snapshot, line) {
        assert forall|i: int| 0 <= i < spans.len() implies !is_wanted(#[trigger] diags[i], wanted) by {
            assert(spans[i] == spans[i]);
        }
    }
}

/// `out` are the spans from `from` on at the offsets where their ends stand
/// now. All start before the range's end, and every span that has a byte in
/// common with the range is among them.
pub open spec fn covers(
    out: Seq<ResolvedDiag>,
    from: int,
    spans: Seq<AnchoredDiag>,
    range: Range<usize>,
    snapshot: BufferSnapshot,
) -> bool {
    &&& 0 <= from <= from + out.len() <= spans.len()
    &&& forall|i: int|
        0 <= i < out.len() ==> (#[trigger] out[i]).start == snapshot.offset_of(
            spans[from + i].start,
        ) && out[i].end == snapshot.offset_of(spans[from + i].end) && out[i].severity == spans[from
            + i].severity && out[i].unnecessary == spans[from + i].unnecessary && out[i].index
            == spans[from + i].index && out[i].start < range.end
    &&& forall|i: int|
        0 <= i < spans.len() && snapshot.offset_of((#[trigger] spans[i]).start) < range.end
            && range.start < snapshot.offset_of(spans[i].end) ==> from <= i < from + out.len()
}

/// What a viewport gets: every diagnostic that has a byte in common with it, at
/// the offsets where its ends stand now, in the order of the cache, and none
/// that starts behind it.
pub proof fn a_viewport_gets_every_overlap(
    spans: Seq<AnchoredDiag>,
    range: Range<usize>,
    snapshot: BufferSnapshot,
    out: Seq<ResolvedDiag>,
)
    requires
        are_sorted(spans, snapshot),
        spans.len() <= usize::MAX,
        out == kept(spans, range, snapshot),
    ensures
        exists|from: int| #[trigger] covers(out, from, spans, range, snapshot),
{
    every_range_has_bounds(spans, range, snapshot);
    let bounds = choose|bounds: Range<usize>| #[trigger]
        are_bounds(bounds, range, spans, snapshot);
    lemma_kept(spans, range, snapshot, bounds);
    let from = bounds.start as int;
    assert forall|i: int| 0 <= i < out.len() implies (#[trigger] out[i]).start
        == snapshot.offset_of(spans[from + i].start) && out[i].end == snapshot.offset_of(
        spans[from + i].end,
    ) && out[i].severity == spans[from + i].severity && out[i].unnecessary == spans[from
        + i].unnecessary && out[i].index == spans[from + i].index && out[i].start < range.end by {
        assert(spans.subrange(bounds.start as int, bounds.end as int)[i] == spans[from + i]);
    }
    assert(covers(out, from, spans, range, snapshot));
}

/// What the cache is built of: each diagnostic of the path once, under its own
/// place in the list, with the anchors it was published with, or at the start
/// of the buffer where it has none of this buffer; without a severity it is an
/// error.
pub proof fn every_diagnostic_gets_a_span(
    diagnostics: Seq<Diagnostic>,
    published: Seq<Option<(Anchor, Anchor)>>,
    snapshot: BufferSnapshot,
    spans: Seq<AnchoredDiag>,
    index: int,
)
    requires
        spans == sorted_spans(diagnostics, published, snapshot),
        0 <= index < diagnostics.len() <= usize::MAX,
    ensures
        spans.len() == diagnostics.len(),
        exists|k: int|
            0 <= k < spans.len() && (#[trigger] spans[k]).index == index && spans[k].unnecessary
                == diagnostics[index].tags.unnecessary && spans[k].severity == (
            match diagnostics[index].severity {
                Some(severity) => severity,
                None => DiagnosticSeverity::Error,
            }) && (match (if index < published.len() {
                published[index]
            } else {
                None
            }) {
                Some((start, end)) if start.buffer_id == snapshot.buffer_id => spans[k].start
                    == start && spans[k].end == end,
                _ => spans[k].start == spans[k].end && spans[k].start.buffer_id
                    == snapshot.buffer_id && spans[k].start.place == snapshot.origin,
            }),
        forall|j: int, k: int|
            0 <= j < k < spans.len() ==> (#[trigger] spans[j]).index != (#[trigger] spans[k]).index,
{
    let plain = in_publish_order(diagnostics, published, snapshot);
    let keys = start_keys(plain, snapshot);
    let order = crate::order::the_order(keys);
    every_list_has_an_order(keys);
    assert(spans =~= Seq::new(order.len(), |i: int| plain[order[i] as int]));
    assert(order.contains(index as usize));
    let k = choose|k: int| 0 <= k < order.len() && order[k] == index;
    assert(spans[k] == anchored(diagnostics, published, index, snapshot));
    assert(spans[k].index == index);
    assert forall|i: int, j: int| 0 <= i < j < spans.len() implies (#[trigger] spans[i]).index != (
    #[trigger] spans[j]).index by {
        assert(crate::order::read_before(keys, order[i] as int, order[j] as int));
        assert(spans[i] == plain[order[i] as int] && spans[j] == plain[order[j] as int]);
    }
}

/// A cache is built anew exactly where it is of another version of the path's
/// diagnostics, and then has forgotten the cursor's line.
pub proof fn an_old_cache_is_built_anew(
    cache: Option<DiagnosticSpanCache>,
    set_version: u64,
    spans: Seq<AnchoredDiag>,
    snapshot: BufferSnapshot,
)
    ensures
        is_fresh(cache, set_version) <==> cache is Some && cache->0.set_version == set_version,
        is_built(cache, set_version, spans, snapshot) ==> is_fresh(cache, set_version)
            && cache->0.spans@ == spans && cache->0.cursor_line_diag is None,
{
}

} // verus!
