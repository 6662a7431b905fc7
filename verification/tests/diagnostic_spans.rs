use stoat::diagnostic_spans::{
    anchored_diagnostics, build_diagnostic_span_cache, diagnostic_at_offset,
    prefix_max_end_indices, resolve_span_range, severity_rank, Anchor, AnchoredDiag,
    BufferSnapshot, DiagnosticSpanCache,
};
use stoat::diagnostics::{
    Diagnostic, DiagnosticSeverity, DiagnosticTags, Position,
};

/// A snapshot of `text` in which the anchor of each number stands at that
/// offset.
fn snapshot_over(text: &str) -> BufferSnapshot {
    snapshot_of(0, text, (0..=text.len()).collect())
}

fn snapshot_of(buffer_id: u64, text: &str, places: Vec<usize>) -> BufferSnapshot {
    let mut line_starts = vec![0];
    for (i, c) in text.char_indices() {
        if c == '\n' {
            line_starts.push(i + 1);
        }
    }
    BufferSnapshot { buffer_id, version: 0, places, origin: 0, line_starts, len: text.len() }
}

fn at(snapshot: &BufferSnapshot, offset: usize) -> Anchor {
    Anchor { buffer_id: snapshot.buffer_id, place: offset }
}

fn diag(severity: DiagnosticSeverity) -> Diagnostic {
    Diagnostic {
        start: Position { line: 0, character: 0 },
        end: Position { line: 0, character: 0 },
        severity: Some(severity),
        message: String::new(),
        tags: DiagnosticTags { unnecessary: false, deprecated: false },
    }
}

fn published(snapshot: &BufferSnapshot, range: (usize, usize)) -> Option<(Anchor, Anchor)> {
    Some((at(snapshot, range.0), at(snapshot, range.1)))
}

/// Each resolved diagnostic as `(index, start, end, start_line)`.
fn resolved(
    diagnostics: &[Diagnostic],
    published: &Vec<Option<(Anchor, Anchor)>>,
    snapshot: &BufferSnapshot,
) -> Vec<(usize, usize, usize, u32)> {
    let spans = anchored_diagnostics(diagnostics, published, snapshot);
    resolve_span_range(&spans, 0, spans.len(), snapshot)
        .iter()
        .map(|s| (s.index, s.start, s.end, s.start_line))
        .collect()
}

fn cache_over(snapshot: &BufferSnapshot, spans: Vec<AnchoredDiag>) -> DiagnosticSpanCache {
    DiagnosticSpanCache {
        set_version: 0,
        prefix_max_end: prefix_max_end_indices(&spans, snapshot),
        cursor_line_diag: None,
        spans,
    }
}

#[test]
fn a_diagnostic_without_an_anchored_span_resolves_to_zero() {
    let snapshot = snapshot_over("alpha\nbravo\n");
    assert_eq!(
        resolved(
            &[diag(DiagnosticSeverity::Error), diag(DiagnosticSeverity::Warning)],
            &vec![None, published(&snapshot, (6, 11))],
            &snapshot
        ),
        [(0, 0, 0, 0), (1, 6, 11, 1)],
        "the unanchored one sits at zero and the anchored one keeps its span",
    );
}

#[test]
fn a_span_anchored_in_another_buffer_resolves_to_zero() {
    let other = snapshot_of(7, "elsewhere\n", (0..=10).collect());
    let snapshot = snapshot_over("alpha\nbravo\n");
    assert_eq!(
        resolved(
            &[diag(DiagnosticSeverity::Error)],
            &vec![published(&other, (2, 6))],
            &snapshot
        ),
        [(0, 0, 0, 0)]
    );
}

#[test]
fn diagnostic_at_offset_finds_worst_containing_span() {
    let snapshot = snapshot_over("let x = 1;\n");
    // A warning over just `x` [4,5) and an error over `x = 1` [4,9).
    let diagnostics = [diag(DiagnosticSeverity::Warning), diag(DiagnosticSeverity::Error)];
    let anchors = vec![published(&snapshot, (4, 5)), published(&snapshot, (4, 9))];
    let cache = cache_over(&snapshot, anchored_diagnostics(&diagnostics, &anchors, &snapshot));
    let found = |offset| diagnostic_at_offset(&cache, offset, &snapshot).map(|d| d.index);

    // Offset 4 is in both, so the worse severity (the error) wins.
    assert_eq!(found(4), Some(1));
    // Offset 7 is inside only the error span.
    assert_eq!(found(7), Some(1));
    // Offset 0 is outside both.
    assert_eq!(found(0), None);
}

fn span_cache(ranges: &[(usize, usize)]) -> (DiagnosticSpanCache, BufferSnapshot) {
    let len = ranges.iter().map(|&(_, end)| end).max().unwrap_or(0);
    let snapshot = snapshot_over(&"a".repeat(len + 1));
    let spans = ranges
        .iter()
        .enumerate()
        .map(|(index, &(start, end))| AnchoredDiag {
            start: at(&snapshot, start),
            end: at(&snapshot, end),
            severity: DiagnosticSeverity::Warning,
            unnecessary: false,
            index,
        })
        .collect();
    (cache_over(&snapshot, spans), snapshot)
}

#[test]
fn the_overlap_bound_keeps_a_span_reaching_in_from_above() {
    let (cache, snapshot) =
        span_cache(&[(0, 5), (10, 400), (20, 25), (30, 35), (200, 205), (500, 505)]);
    assert_eq!(
        cache.overlapping(&(100..300), &snapshot),
        1..5,
        "the walk opens at the long span and closes before the one below",
    );
    assert_eq!(
        cache.overlapping(&(600..700), &snapshot),
        6..6,
        "a viewport past every span walks nothing",
    );
    assert_eq!(cache.prefix_max_end, [0, 1, 1, 1, 1, 5]);
    assert_eq!(cache.resolve_overlapping(&(100..300), &snapshot).len(), 4);
}

#[test]
fn the_overlap_bound_survives_a_zero_width_span_at_the_viewport_start() {
    let (cache, snapshot) = span_cache(&[(5, 5)]);
    assert!(cache.spans[cache.overlapping(&(5..5), &snapshot)].is_empty());
}

fn line_span_cache(rows: &[(u32, u32, DiagnosticSeverity)]) -> (DiagnosticSpanCache, BufferSnapshot) {
    let last = rows.iter().map(|&(_, end, _)| end).max().unwrap_or(0);
    let text: String = (0..=last + 1).map(|_| "aaaaaaaaa\n").collect();
    let snapshot = snapshot_over(&text);
    let spans = rows
        .iter()
        .enumerate()
        .map(|(index, &(start_line, end_line, severity))| AnchoredDiag {
            start: at(&snapshot, start_line as usize * 10),
            end: at(&snapshot, end_line as usize * 10),
            severity,
            unnecessary: false,
            index,
        })
        .collect();
    (cache_over(&snapshot, spans), snapshot)
}

#[test]
fn the_line_bound_keeps_a_span_ending_at_the_line_start() {
    let (mut cache, snapshot) = line_span_cache(&[
        (0, 3, DiagnosticSeverity::Warning),
        (5, 5, DiagnosticSeverity::Error),
    ]);
    assert_eq!(
        cache.cursor_line_diagnostic(3, &snapshot).map(|d| d.index),
        Some(0),
        "the span reaching line 3 from line 0 wins it",
    );
    assert_eq!(
        cache.cursor_line_diagnostic(4, &snapshot).map(|d| d.index),
        None,
        "and the line below it is inside nothing",
    );
}

#[test]
fn the_first_line_reads_out_a_span_without_width() {
    let (mut cache, snapshot) = line_span_cache(&[
        (0, 0, DiagnosticSeverity::Error),
        (0, 2, DiagnosticSeverity::Warning),
    ]);
    assert_eq!(cache.cursor_line_diagnostic(0, &snapshot).map(|d| d.index), Some(0));
    assert_eq!(cache.cursor_line_diagnostic(1, &snapshot).map(|d| d.index), Some(1));
}

#[test]
fn the_worst_severity_wins_the_cursor_line() {
    let (mut cache, snapshot) = line_span_cache(&[
        (2, 2, DiagnosticSeverity::Warning),
        (2, 2, DiagnosticSeverity::Error),
        (2, 2, DiagnosticSeverity::Error),
    ]);
    assert_eq!(
        cache.cursor_line_diagnostic(2, &snapshot).map(|d| d.index),
        Some(1),
        "the first of the two errors wins over the warning",
    );
}

#[test]
fn a_cursor_that_stays_on_its_line_answers_from_the_memo() {
    let (mut cache, snapshot) = line_span_cache(&[(1, 1, DiagnosticSeverity::Error)]);
    assert_eq!(cache.cursor_line_diagnostic(1, &snapshot).map(|d| d.index), Some(0));

    // Emptied together, since the bound indexes the spans through the prefix
    // maximums and a real cache never holds one without the other.
    cache.spans.clear();
    cache.prefix_max_end.clear();

    assert_eq!(
        cache.cursor_line_diagnostic(1, &snapshot).map(|d| d.index),
        Some(0),
        "the same line answers from the memo rather than searching again",
    );
    assert_eq!(
        cache.cursor_line_diagnostic(2, &snapshot).map(|d| d.index),
        None,
        "and a moved cursor searches, over the spans that are there now",
    );
}

#[test]
fn an_edit_above_a_diagnostic_carries_it_down() {
    // `bravo` is [6, 11), on the second line.
    let before = snapshot_over("alpha\nbravo\n");
    let diagnostics = [diag(DiagnosticSeverity::Error)];
    let anchors = vec![published(&before, (6, 11))];
    assert_eq!(
        resolved(&diagnostics, &anchors, &before),
        [(0, 6, 11, 1)],
        "over the word it was published on",
    );

    // Nine bytes and a line inserted ahead of it, with no republish behind.
    let mut places: Vec<usize> = (0..=12).map(|i| i + 9).collect();
    places.push(0);
    let mut after = snapshot_of(0, "inserted\nalpha\nbravo\n", places);
    after.origin = 13;
    assert_eq!(
        resolved(&diagnostics, &anchors, &after),
        [(0, 15, 20, 2)],
        "and still over that word, a line further down",
    );
}

#[test]
fn the_cache_is_rebuilt_when_the_diagnostics_changed() {
    let snapshot = snapshot_over("alpha\nbravo\n");
    let mut cache = None;
    let one = [diag(DiagnosticSeverity::Hint)];
    build_diagnostic_span_cache(&mut cache, 1, &one, &vec![published(&snapshot, (6, 11))], &snapshot);
    assert_eq!(cache.as_ref().map(|c| c.spans.len()), Some(1));
    build_diagnostic_span_cache(&mut cache, 1, &[], &Vec::new(), &snapshot);
    assert_eq!(cache.as_ref().map(|c| c.spans.len()), Some(1), "the same version stands");
    build_diagnostic_span_cache(&mut cache, 2, &[], &Vec::new(), &snapshot);
    assert_eq!(cache.as_ref().map(|c| c.spans.len()), Some(0));
}

#[test]
fn severities_rank_from_the_worst() {
    let ranks: Vec<u8> = [
        DiagnosticSeverity::Error,
        DiagnosticSeverity::Warning,
        DiagnosticSeverity::Information,
        DiagnosticSeverity::Hint,
        DiagnosticSeverity::Unlisted,
    ]
    .iter()
    .map(|s| severity_rank(*s))
    .collect();
    assert_eq!(ranks, [0, 1, 2, 3, 0]);
}
