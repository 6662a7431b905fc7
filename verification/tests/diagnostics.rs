use stoat::diagnostics::{
    shift_offset, summarize_diagnostics, Diagnostic, DiagnosticSet, DiagnosticSeverity,
    DiagnosticSummary, DiagnosticTags, Edit, Position, PublishedSpan,
};

fn no_spans(count: usize) -> Vec<PublishedSpan> {
    (0..count).map(|_| PublishedSpan { range: 0..0, base_version: 0 }).collect()
}

fn diag(severity: DiagnosticSeverity, message: &str) -> Diagnostic {
    Diagnostic {
        start: Position { line: 0, character: 0 },
        end: Position { line: 0, character: 1 },
        severity: Some(severity),
        message: message.to_string(),
        tags: DiagnosticTags { unnecessary: false, deprecated: false },
    }
}

fn replace_for_path(set: &mut DiagnosticSet, path: &str, diagnostics: Vec<Diagnostic>) {
    let spans = diagnostics.iter().map(|_| PublishedSpan::unresolved()).collect();
    set.replace_from_server(path.to_string(), "lsp".to_string(), diagnostics, spans);
}

const PATH: &str = "/ws/a.rs";

#[test]
fn replace_for_path_stores_latest() {
    let mut set = DiagnosticSet::new();
    replace_for_path(&mut set, PATH, vec![diag(DiagnosticSeverity::Error, "first")]);
    replace_for_path(&mut set, PATH, vec![diag(DiagnosticSeverity::Warning, "second")]);
    assert_eq!(set.get(PATH).len(), 1);
    assert_eq!(set.get(PATH)[0].message, "second");
}

#[test]
fn version_bumps_on_every_replace() {
    let mut set = DiagnosticSet::new();
    assert_eq!(set.version(), 0);
    replace_for_path(&mut set, PATH, vec![diag(DiagnosticSeverity::Error, "x")]);
    assert_eq!(set.version(), 1);
    replace_for_path(&mut set, PATH, vec![]);
    assert_eq!(set.version(), 2, "clearing a path is still a change");
}

#[test]
fn the_stored_summary_follows_each_publish() {
    let mut set = DiagnosticSet::new();
    replace_for_path(
        &mut set,
        PATH,
        vec![diag(DiagnosticSeverity::Error, "x"), diag(DiagnosticSeverity::Warning, "y")],
    );
    assert_eq!(
        set.summarize(PATH),
        DiagnosticSummary {
            error: 1,
            warning: 1,
            worst: Some(DiagnosticSeverity::Error),
            ..DiagnosticSummary::default()
        },
    );

    replace_for_path(&mut set, PATH, vec![diag(DiagnosticSeverity::Hint, "z")]);
    assert_eq!(
        set.summarize(PATH),
        DiagnosticSummary {
            hint: 1,
            worst: Some(DiagnosticSeverity::Hint),
            ..DiagnosticSummary::default()
        },
        "republishing replaces the counts rather than adding to them",
    );

    replace_for_path(&mut set, PATH, vec![]);
    assert_eq!(
        set.summarize(PATH),
        DiagnosticSummary::default(),
        "clearing the last server leaves nothing to summarize",
    );
}

#[test]
fn replace_with_empty_clears() {
    let mut set = DiagnosticSet::new();
    replace_for_path(&mut set, PATH, vec![diag(DiagnosticSeverity::Error, "x")]);
    replace_for_path(&mut set, PATH, vec![]);
    assert_eq!(set.get(PATH).len(), 0);
}

#[test]
fn summarize_counts_each_severity() {
    let mut set = DiagnosticSet::new();
    replace_for_path(
        &mut set,
        PATH,
        vec![
            diag(DiagnosticSeverity::Error, "e1"),
            diag(DiagnosticSeverity::Error, "e2"),
            diag(DiagnosticSeverity::Warning, "w1"),
            diag(DiagnosticSeverity::Information, "i1"),
            diag(DiagnosticSeverity::Hint, "h1"),
        ],
    );
    let s = set.summarize(PATH);
    assert_eq!(s.error, 2);
    assert_eq!(s.warning, 1);
    assert_eq!(s.information, 1);
    assert_eq!(s.hint, 1);
    assert_eq!(s.worst, Some(DiagnosticSeverity::Error));
}

#[test]
fn summarize_worst_is_warning_when_no_errors() {
    let mut set = DiagnosticSet::new();
    replace_for_path(
        &mut set,
        PATH,
        vec![diag(DiagnosticSeverity::Warning, "w"), diag(DiagnosticSeverity::Hint, "h")],
    );
    assert_eq!(set.summarize(PATH).worst, Some(DiagnosticSeverity::Warning));
}

#[test]
fn summarize_unknown_path_is_empty() {
    let set = DiagnosticSet::new();
    let s = set.summarize("/missing");
    assert!(s.is_empty());
    assert_eq!(s.worst, None);
}

#[test]
fn diagnostics_from_several_servers_merge() {
    let mut set = DiagnosticSet::new();
    set.replace_from_server(
        PATH.to_string(),
        "ra".into(),
        vec![diag(DiagnosticSeverity::Error, "ra")],
        no_spans(1),
    );
    set.replace_from_server(
        PATH.to_string(),
        "clippy".into(),
        vec![diag(DiagnosticSeverity::Warning, "clippy")],
        no_spans(1),
    );

    // Merged in server-name order.
    let messages: Vec<&str> = set.get(PATH).iter().map(|d| d.message.as_str()).collect();
    assert_eq!(messages, ["clippy", "ra"], "both servers contribute");

    // Clearing one server leaves the other's diagnostics.
    set.replace_from_server(PATH.to_string(), "ra".into(), vec![], no_spans(0));
    let after: Vec<&str> = set.get(PATH).iter().map(|d| d.message.as_str()).collect();
    assert_eq!(after, ["clippy"]);

    // Clearing the last server drops the path entirely.
    set.replace_from_server(PATH.to_string(), "clippy".into(), vec![], no_spans(0));
    assert!(set.get(PATH).is_empty());
    assert!(set.iter().is_empty());
}

#[test]
fn a_missing_severity_counts_as_an_error() {
    let mut bare = diag(DiagnosticSeverity::Hint, "?");
    bare.severity = None;
    let odd = diag(DiagnosticSeverity::Unlisted, "?");
    let s = summarize_diagnostics(&[bare, odd]);
    assert_eq!((s.error, s.hint), (2, 0));
}

#[test]
fn every_diagnostic_keeps_its_server_and_its_span() {
    let mut set = DiagnosticSet::default();
    let span = |n: usize| PublishedSpan { range: n..n + 1, base_version: 3 };
    set.replace_from_server(
        PATH.to_string(),
        "b".into(),
        vec![diag(DiagnosticSeverity::Hint, "b0"), diag(DiagnosticSeverity::Hint, "b1")],
        vec![span(10), span(11)],
    );
    set.replace_from_server(
        PATH.to_string(),
        "a".into(),
        vec![diag(DiagnosticSeverity::Hint, "a0")],
        vec![span(20)],
    );
    set.replace_from_server(
        "/ws/b.rs".to_string(),
        "a".into(),
        vec![diag(DiagnosticSeverity::Hint, "other")],
        vec![span(1)],
    );
    assert_eq!(set.spans(PATH), [span(20), span(10), span(11)]);
    assert!(set.spans("/missing").is_empty());
    let pairs: Vec<(&str, &str)> =
        set.attributed(PATH).iter().map(|(s, d)| (*s, d.message.as_str())).collect();
    assert_eq!(pairs, [("a", "a0"), ("b", "b0"), ("b", "b1")]);
    let mut triples: Vec<(&str, &str, &str)> = set
        .iter_attributed()
        .iter()
        .map(|t| (t.path, t.server, t.diagnostic.message.as_str()))
        .collect();
    triples.sort();
    assert_eq!(
        triples,
        [
            (PATH, "a", "a0"),
            (PATH, "b", "b0"),
            (PATH, "b", "b1"),
            ("/ws/b.rs", "a", "other")
        ]
    );
    assert_eq!(set.iter().len(), 2);
    assert_eq!(PublishedSpan::unresolved().base_version, u64::MAX);
}

#[test]
fn an_offset_is_carried_through_edits() {
    // Four bytes inserted at 2, then 10..14 replaced by one byte.
    let patch = vec![
        Edit { old: 2..2, new: 2..6 },
        Edit { old: 10..14, new: 14..15 },
    ];
    assert_eq!(shift_offset(1, &patch), 1);
    assert_eq!(shift_offset(2, &patch), 2, "an edit that starts there leaves it");
    assert_eq!(shift_offset(5, &patch), 9);
    assert_eq!(shift_offset(12, &patch), 14, "inside what was replaced");
    assert_eq!(shift_offset(20, &patch), 21);
    assert_eq!(shift_offset(7, &Vec::new()), 7);
}

#[test]
fn two_spellings_of_a_path_are_one_file() {
    let mut set = DiagnosticSet::new();
    replace_for_path(&mut set, "/ws//a.rs", vec![diag(DiagnosticSeverity::Error, "first")]);
    assert_eq!(set.get("/ws/a.rs").len(), 1);
    assert_eq!(set.spans("/ws/./a.rs").len(), 1);
    assert_eq!(set.summarize("/ws/a.rs/").error, 1);
    replace_for_path(&mut set, "/ws/a.rs", vec![diag(DiagnosticSeverity::Error, "second")]);
    assert_eq!(set.get("/ws//a.rs")[0].message, "second");
    assert_eq!(set.iter().len(), 1);
    assert_eq!(set.iter()[0].0, "/ws//a.rs", "the path keeps the spelling it came in");
    assert!(set.get("/ws/b.rs").is_empty());
    replace_for_path(&mut set, "/ws/a.rs/", vec![]);
    assert!(set.iter().is_empty());
}

#[test]
fn servers_may_publish_in_either_order() {
    let lint = || vec![diag(DiagnosticSeverity::Warning, "lint")];
    let check = || vec![diag(DiagnosticSeverity::Error, "check")];
    let messages = |set: &DiagnosticSet| -> Vec<String> {
        set.get(PATH).iter().map(|d| d.message.clone()).collect()
    };
    let publish = |set: &mut DiagnosticSet, server: &str, found: Vec<Diagnostic>| {
        let spans = no_spans(found.len());
        set.replace_from_server(PATH.to_string(), server.to_string(), found, spans);
    };
    let mut forth = DiagnosticSet::new();
    publish(&mut forth, "lint", lint());
    publish(&mut forth, "check", check());
    let mut back = DiagnosticSet::new();
    publish(&mut back, "check", check());
    publish(&mut back, "lint", lint());
    assert_eq!(messages(&forth), messages(&back));
    let copy = forth.clone();
    publish(&mut forth, "check", Vec::new());
    publish(&mut forth, "lint", Vec::new());
    publish(&mut back, "lint", Vec::new());
    publish(&mut back, "check", Vec::new());
    assert_eq!(messages(&forth), messages(&back));
    assert_eq!(messages(&copy), ["check", "lint"]);
    assert_eq!(copy.version(), 2);
}

#[test]
fn an_offset_goes_with_the_text_it_is_in() {
    let patch = vec![Edit { old: 4..8, new: 4..5 }, Edit { old: 10..10, new: 7..9 }];
    assert_eq!(shift_offset(3, &Vec::new()), 3, "an empty patch moves nothing");
    for (offset, shifted) in [(0, 0), (4, 4), (5, 4), (7, 4), (8, 5), (9, 6), (10, 7), (11, 10)] {
        assert_eq!(shift_offset(offset, &patch), shifted, "{offset}");
    }
}
