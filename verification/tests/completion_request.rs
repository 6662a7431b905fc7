use stoat::completion::lsp::{LspItem, LspResponse};
use stoat::completion::request::{
    all_matches, base_dir_for, cached_context, compute_context, cursor_left_popup, filled_popup,
    focused_buffer_signature, insert_mode_in_editor_pane, is_word_or_path_char, scores_at, scores_for, surviving, install_refill,
    lsp_questions, pump, questions_again, rank_by_prefix, record_dismiss, refill,
    run_request, sort_text, CompletionHost, CompletionState, ContextOwned, HostContext,
    LspQuestion, LspTrigger, RequestOutcome, ServerReply, TriggerAction, TriggerEvent,
    TriggerKind,
};
use stoat::completion::{
    applicable_sources, path, CompletionItem, CompletionPopup, CompletionSource, LspExtras,
};
use stoat::host::OffsetEncoding;
use stoat::poll::Polled;

// --- the context at the cursor ---

#[test]
fn empty_buffer_yields_empty_prefix() {
    let ctx = compute_context("", 0);
    assert_eq!(ctx.prefix, "");
    assert_eq!(ctx.prefix_range, 0..0);
    assert_eq!(ctx.text_before_cursor, "");
}

#[test]
fn identifier_prefix_at_end_of_line() {
    let ctx = compute_context("let foo", 7);
    assert_eq!(ctx.prefix, "foo");
    assert_eq!(ctx.prefix_range, 4..7);
    assert_eq!(
        ctx.text_before_cursor, " foo",
        "the window is the prefix plus the character that ended it",
    );
}

#[test]
fn a_trigger_character_is_inside_the_window_past_an_empty_prefix() {
    let ctx = compute_context("foo(", 4);
    assert_eq!(ctx.prefix, "");
    assert_eq!(ctx.text_before_cursor, "(");
    assert_eq!(ctx.text_before_cursor.chars().last(), Some('('));
}

#[test]
fn a_long_line_does_not_widen_the_window() {
    let mut line = "x".repeat(10_000);
    line.push_str(" foo");
    let ctx = compute_context(&line, line.len());
    assert_eq!(ctx.prefix, "foo");
    assert_eq!(ctx.text_before_cursor, " foo");
}

#[test]
fn path_shaped_prefix_walks_back_through_slashes_and_dots() {
    let text = "let p = ./src/lib";
    let ctx = compute_context(text, text.len());
    assert_eq!(ctx.prefix, "./src/lib");
    assert_eq!(ctx.prefix_range, 8..17);
}

#[test]
fn dot_slash_prefix_is_path_shaped() {
    let ctx = compute_context("./", 2);
    assert_eq!(ctx.prefix, "./");
    assert_eq!(ctx.prefix_range, 0..2);
}

#[test]
fn cursor_at_buffer_start_yields_empty_prefix() {
    let ctx = compute_context("foo", 0);
    assert_eq!(ctx.prefix, "");
    assert_eq!(ctx.prefix_range, 0..0);
}

#[test]
fn cursor_after_whitespace_yields_empty_prefix() {
    let ctx = compute_context("foo ", 4);
    assert_eq!(ctx.prefix, "");
    assert_eq!(ctx.prefix_range, 4..4);
}

#[test]
fn second_line_uses_line_relative_text_before_cursor() {
    let text = "first line\nsecond foo";
    let cursor = text.len();
    let ctx = compute_context(text, cursor);
    assert_eq!(ctx.prefix, "foo");
    assert_eq!(ctx.text_before_cursor, " foo");
    let prefix_byte_len = "foo".len();
    assert_eq!(ctx.prefix_range, (cursor - prefix_byte_len)..cursor);

    // At column zero the window has nowhere on this line to reach, and it
    // must not reach into the line above.
    let start_of_second = "first line\n".len();
    let at_line_start = compute_context(text, start_of_second);
    assert_eq!(at_line_start.prefix, "");
    assert_eq!(at_line_start.text_before_cursor, "");
}

#[test]
fn multibyte_chars_keep_prefix_on_codepoint_boundaries() {
    let text = "résumé";
    let ctx = compute_context(text, text.len());
    assert_eq!(ctx.prefix, "résumé");
    assert_eq!(ctx.prefix_range, 0..text.len());
}

#[test]
fn cursor_past_end_clamps_to_buffer_length() {
    let ctx = compute_context("foo", 99);
    assert_eq!(ctx.cursor_offset, 3);
    assert_eq!(ctx.prefix, "foo");
}

#[test]
fn applicable_sources_picks_path_for_path_shaped_prefix() {
    let ctx_owned = compute_context("./", 2);
    let sources = applicable_sources(&ctx_owned.as_borrowed());
    assert_eq!(sources, vec![CompletionSource::Path]);
}

#[test]
fn applicable_sources_picks_lsp_word_for_identifier_prefix() {
    let ctx_owned = compute_context("foo", 3);
    let sources = applicable_sources(&ctx_owned.as_borrowed());
    assert_eq!(sources, vec![CompletionSource::Lsp, CompletionSource::Word]);
}

#[test]
fn the_base_directory_is_the_files_own() {
    assert_eq!(base_dir_for(Some("/ws/src/a.rs"), "/ws"), "/ws/src");
    assert_eq!(base_dir_for(None, "/ws"), "/ws");
    assert_eq!(base_dir_for(Some("/"), "/ws"), "/ws");
    assert_eq!(base_dir_for(Some("a.rs"), "/ws"), "");
}

// --- ranking ---

/// What `needle` scores in `hay`: nothing where its characters do not appear
/// in order, more where they stand together, most where they open it.
fn score_of(hay: &str, needle: &str) -> Option<u32> {
    let mut rest = hay.chars();
    for c in needle.chars() {
        rest.find(|h| *h == c)?;
    }
    Some(if hay.starts_with(needle) {
        3
    } else if hay.contains(needle) {
        2
    } else {
        1
    })
}

/// The places of the texts that `prefix` matches, each with its score.
fn score(texts: &Vec<String>, prefix: &str) -> Option<Vec<(usize, u32)>> {
    if prefix.is_empty() {
        return None;
    }
    let mut found = Vec::new();
    for (place, text) in texts.iter().enumerate() {
        if let Some(score) = score_of(text, prefix) {
            found.push((place, score));
        }
    }
    Some(found)
}

fn word(label: &str) -> CompletionItem {
    CompletionItem {
        label: label.to_string(),
        source: CompletionSource::Word,
        kind: None,
        detail: None,
        documentation: None,
        replace_range: 0..0,
        insert_text: label.to_string(),
        is_snippet: false,
        lsp_item: None,
        server: None,
    }
}

fn served(label: &str, filter_text: Option<&str>, sort_text: Option<&str>) -> CompletionItem {
    CompletionItem {
        source: CompletionSource::Lsp,
        lsp_item: Some(LspExtras {
            filter_text: filter_text.map(str::to_string),
            sort_text: sort_text.map(str::to_string),
            has_additional_edits: false,
        }),
        server: Some("test".to_string()),
        ..word(label)
    }
}

fn offered(label: &str) -> LspItem {
    LspItem {
        label: label.to_string(),
        kind: None,
        detail: None,
        documentation: None,
        text_edit: None,
        insert_text: None,
        is_snippet: false,
        filter_text: None,
        sort_text: None,
        has_additional_edits: false,
    }
}

fn ranked(items: &[CompletionItem], matches: &[(u32, u32)]) -> Vec<String> {
    matches
        .iter()
        .map(|&(index, _)| items[index as usize].label.clone())
        .collect()
}

fn shown(popup: &CompletionPopup) -> Vec<String> {
    popup.rows().iter().map(|i| i.label.clone()).collect()
}

fn rank(items: &Vec<CompletionItem>, prefix: &str) -> Vec<(u32, u32)> {
    rank_by_prefix(items, prefix, &score)
}

#[test]
fn ranking_leads_with_what_answers_the_prefix_not_its_source() {
    let items = vec![
        word("a_pretty_pear"),
        served("apply_theme", None, None),
        word("zebra_handler"),
    ];
    assert_eq!(
        ranked(&items, &rank(&items, "app")),
        ["apply_theme", "a_pretty_pear", "zebra_handler"],
        "the popup leads with the best answer whichever source produced it"
    );
}

#[test]
fn an_item_the_prefix_cannot_match_stays_in_the_list() {
    let items = vec![served("unrelated", None, None), word("apply")];
    assert_eq!(
        ranked(&items, &rank(&items, "app")),
        ["apply", "unrelated"],
        "a server filters for itself, so what it offered is kept rather than dropped"
    );
}

#[test]
fn an_empty_prefix_leaves_the_sources_order_alone() {
    let items = vec![
        word("zebra"),
        served("beta", None, Some("0001")),
        served("alpha", None, Some("0000")),
    ];
    assert_eq!(
        ranked(&items, &rank(&items, "")),
        ["zebra", "beta", "alpha"],
        "nothing to rank by, so the order the sources gave stands"
    );
}

#[test]
fn equal_scores_fall_back_to_the_servers_sort_text() {
    let items = vec![
        served("item", Some("app"), Some("0002")),
        word("app"),
        served("item", Some("app"), Some("0001")),
    ];
    let matches = rank(&items, "app");
    let ordering: Vec<Option<&str>> = matches
        .iter()
        .map(|&(index, _)| sort_text(&items[index as usize]).map(|s| s.as_str()))
        .collect();
    assert_eq!(
        ordering,
        [Some("0001"), None, Some("0002")],
        "the two server items take the server's order between them, and the \
         word item they straddle keeps the position its source gave it"
    );
}

#[test]
fn matching_uses_the_filter_text_a_server_supplies() {
    let items = vec![
        word("a_p_p_lication"),
        served("unhelpful label", Some("app"), None),
    ];
    assert_eq!(
        ranked(&items, &rank(&items, "app")),
        ["unhelpful label", "a_p_p_lication"],
        "a server asking to be matched on something else is matched on it"
    );
}

// --- a session ---

struct Host {
    name: String,
    triggers: Option<Vec<String>>,
    /// What it answers at each cursor offset, and whether that is all.
    answers: Vec<(usize, Vec<String>, bool)>,
    /// What it was asked with.
    asked: Vec<HostContext>,
}

/// An editor that types into a buffer and runs the completion requests.
struct Editor {
    text: String,
    cursor: usize,
    version: u64,
    mode: String,
    modal: bool,
    hosts: Vec<Host>,
    files: Vec<String>,
    state: CompletionState,
    request: Option<TriggerAction>,
}

fn idle_state() -> CompletionState {
    CompletionState {
        pending_completion_request: false,
        pending_completion: None,
        last_completion_signature: None,
        completion_context: None,
        completion_generation: 0,
        active_snippet: false,
    }
}

impl Editor {
    fn open(text: &str) -> Self {
        let mut editor = Editor {
            text: text.to_string(),
            cursor: 0,
            version: 0,
            mode: "normal".to_string(),
            modal: false,
            hosts: Vec::new(),
            files: Vec::new(),
            state: idle_state(),
            request: None,
        };
        editor.event();
        editor
    }

    fn with_host(text: &str, triggers: &[&str]) -> Self {
        let mut editor = Editor::open(text);
        editor.add_host("test", triggers);
        editor
    }

    fn add_host(&mut self, name: &str, triggers: &[&str]) {
        self.hosts.push(Host {
            name: name.to_string(),
            triggers: if triggers.is_empty() {
                None
            } else {
                Some(triggers.iter().map(|t| t.to_string()).collect())
            },
            answers: Vec::new(),
            asked: Vec::new(),
        });
    }

    fn set_completions(&mut self, offset: usize, labels: &[&str], complete: bool) {
        let labels = labels.iter().map(|l| l.to_string()).collect();
        self.hosts[0].answers.push((offset, labels, complete));
    }

    fn event(&mut self) {
        let event = TriggerEvent {
            armed: insert_mode_in_editor_pane(&self.mode, self.modal, true, true),
            probe: Some((1, self.version, self.cursor)),
            text: Some(self.text.clone()),
            hosts: self.known_hosts(),
            has_path: true,
        };
        match stoat::completion::request::trigger(&mut self.state, &event, &score) {
            TriggerAction::Idle | TriggerAction::Installed => {
                if !self.state.pending_completion_request {
                    self.request = None;
                }
            }
            TriggerAction::Fetch { context, sources, lsp, immediate } => {
                self.request = Some(TriggerAction::Fetch { context, sources, lsp, immediate });
                if immediate {
                    self.elapse();
                }
            }
            TriggerAction::AskAgain { context, servers } => {
                self.request = Some(TriggerAction::AskAgain { context, servers });
            }
        }
    }

    fn enter_insert(&mut self) {
        self.mode = "insert".to_string();
        self.event();
    }

    fn escape(&mut self) {
        self.mode = "normal".to_string();
        self.state.pending_completion = None;
        self.event();
    }

    fn type_text(&mut self, text: &str) {
        for c in text.chars() {
            self.text.insert(self.cursor, c);
            self.cursor += c.len_utf8();
            self.version += 1;
            self.event();
        }
    }

    fn backspace(&mut self) {
        let before = self.text[..self.cursor].chars().last().expect("something typed");
        self.cursor -= before.len_utf8();
        self.text.remove(self.cursor);
        self.version += 1;
        self.event();
    }

    fn ask(host: &mut Host, offset: usize, question: &LspQuestion) -> ServerReply {
        assert_eq!(question.server, host.name);
        host.asked.push(question.context);
        let found = host.answers.iter().find(|(at, _, _)| *at == offset);
        let (items, is_incomplete) = match found {
            Some((_, labels, complete)) => {
                (labels.iter().map(|l| offered(l)).collect(), !*complete)
            }
            None => (Vec::new(), false),
        };
        ServerReply {
            server: host.name.clone(),
            reply: Some(LspResponse::List { items, is_incomplete }),
        }
    }

    fn known_hosts(&self) -> Vec<CompletionHost> {
        self.hosts
            .iter()
            .map(|h| CompletionHost {
                name: h.name.clone(),
                trigger_characters: h.triggers.clone(),
                encoding: OffsetEncoding::Utf16,
            })
            .collect()
    }

    fn ask_all(&mut self, offset: usize, questions: &[LspQuestion]) -> Vec<ServerReply> {
        questions
            .iter()
            .map(|q| {
                let host = self.hosts.iter_mut().find(|h| h.name == q.server).expect("known");
                Editor::ask(host, offset, q)
            })
            .collect()
    }

    /// Let the debounce run out and the answers land.
    fn elapse(&mut self) {
        let outcome = match self.request.take() {
            Some(TriggerAction::Fetch { context, sources, lsp, .. }) => {
                let questions = lsp_questions(&self.known_hosts(), lsp, true);
                let replies = self.ask_all(context.cursor_offset, &questions);
                let listing = self
                    .files
                    .iter()
                    .map(|f| path::DirEntry { name: f.clone(), is_dir: false })
                    .collect();
                run_request(
                    context,
                    &sources,
                    Some(listing),
                    replies,
                    &self.text,
                    &score,
                )
            }
            Some(TriggerAction::AskAgain { context, servers }) => {
                let questions = questions_again(&self.known_hosts(), &servers);
                let replies = self.ask_all(context.cursor_offset, &questions);
                refill(context, replies, servers)
            }
            _ => return,
        };
        pump(&mut self.state, Polled::Ready(outcome), &score);
    }

    fn popup(&self) -> &CompletionPopup {
        self.state.pending_completion.as_ref().expect("popup open")
    }

    fn asked(&self) -> usize {
        self.hosts[0].asked.len()
    }
}

const INVOKED: HostContext =
    HostContext { trigger_kind: TriggerKind::Invoked, trigger_character: None };

#[test]
fn trigger_character_fires_immediately_with_context() {
    let mut h = Editor::with_host("", &["."]);
    h.enter_insert();
    h.type_text(".");
    assert_eq!(
        h.hosts[0].asked,
        vec![HostContext {
            trigger_kind: TriggerKind::TriggerCharacter,
            trigger_character: Some('.'),
        }],
        "trigger char issues an immediate request"
    );
}

#[test]
fn a_secondary_servers_trigger_fires_the_immediate_path() {
    let mut h = Editor::with_host("", &[]);
    h.add_host("second", &[":"]);
    h.enter_insert();
    h.type_text(":");
    assert_eq!(
        h.hosts[1].asked.len(),
        1,
        "the server that declared the character answers it without the debounce",
    );
    assert_eq!(
        h.hosts[0].asked.len(),
        1,
        "the fan-out still reaches every completion server",
    );
}

#[test]
fn each_server_is_told_the_trigger_kind_it_declared() {
    let mut h = Editor::with_host("", &[]);
    h.add_host("second", &[":"]);
    h.enter_insert();
    h.type_text(":");
    assert_eq!(
        h.hosts[1].asked[0],
        HostContext {
            trigger_kind: TriggerKind::TriggerCharacter,
            trigger_character: Some(':'),
        },
    );
    assert_eq!(
        h.hosts[0].asked[0], INVOKED,
        "a server never told the editor about this character did not trigger on it",
    );
}

#[test]
fn plain_letter_keeps_the_debounce_and_sends_invoked() {
    let mut h = Editor::with_host("", &["."]);
    h.enter_insert();
    h.type_text("f");
    assert_eq!(h.asked(), 0, "a plain letter waits out the debounce");
    h.elapse();
    assert_eq!(h.hosts[0].asked, vec![INVOKED]);
}

#[test]
fn a_modal_open_over_a_mid_word_cursor_does_not_trigger_completion() {
    let mut h = Editor::with_host("Greeter", &[]);
    h.cursor = 2;
    h.modal = true;
    h.enter_insert();
    h.elapse();
    assert_eq!(
        h.asked(),
        0,
        "a modal open must not arm a completion from the editor cursor"
    );
    assert!(
        h.state.pending_completion.is_none(),
        "no completion popup shows beneath a modal"
    );
}

#[test]
fn identifier_in_insert_mode_opens_popup_after_debounce() {
    let mut h = Editor::with_host("", &[]);
    h.set_completions(3, &["foobar", "foobaz"], true);
    h.enter_insert();
    h.type_text("foo");
    assert!(
        h.state.pending_completion.is_none(),
        "popup arrives only after debounce"
    );
    h.elapse();
    let got = shown(h.popup());
    assert!(got.iter().any(|l| l == "foobar"), "expected foobar in {got:?}");
    assert!(got.iter().any(|l| l == "foobaz"), "expected foobaz in {got:?}");
}

#[test]
fn a_motion_out_of_range_dismisses_the_popup() {
    let mut h = Editor::with_host("", &[]);
    h.set_completions(7, &["foobar", "foobaz"], true);
    h.enter_insert();
    h.type_text("bar foo");
    h.elapse();
    assert!(h.popup().prefix_range.start > 0, "the prefix has room to leave");

    // Arrowing back off the prefix moves the cursor and edits nothing.
    let before = h.version;
    for _ in 0..4 {
        h.cursor -= 1;
        h.event();
    }
    assert_eq!(h.version, before, "a motion changes no text");
    assert!(
        h.state.pending_completion.is_none(),
        "the cursor left the range the popup was filtered for",
    );
}

#[test]
fn a_re_query_bumps_the_generation_while_a_stable_popup_does_not() {
    let mut h = Editor::with_host("", &[]);
    h.set_completions(3, &["foobar", "foobaz"], true);
    assert_eq!(h.state.completion_generation, 0, "no completion armed yet");

    h.enter_insert();
    h.type_text("foo");
    h.elapse();
    assert!(h.state.pending_completion.is_some(), "popup armed");
    assert_eq!(
        h.state.completion_generation, 1,
        "installing a popup bumps the generation"
    );

    h.event();
    h.elapse();
    assert_eq!(
        h.state.completion_generation, 1,
        "a stable popup does not bump the generation"
    );

    h.set_completions(4, &["foobar"], true);
    h.type_text("b");
    h.elapse();
    assert!(h.state.pending_completion.is_some(), "re-query re-armed");
    assert_eq!(
        h.state.completion_generation, 2,
        "a re-query bumps the generation so the pool refills"
    );
}

#[test]
fn path_prefix_in_insert_opens_path_popup() {
    let mut h = Editor::with_host("", &[]);
    h.files = vec!["lib.rs".into(), "main.rs".into(), "buf.rs".into()];
    h.enter_insert();
    h.type_text("./");
    h.elapse();
    let mut got = shown(h.popup());
    got.sort();
    assert_eq!(got, vec!["buf.rs", "lib.rs", "main.rs"]);
    for item in h.popup().rows() {
        assert_eq!(item.source, CompletionSource::Path);
    }
}

#[test]
fn whitespace_context_leaves_popup_empty() {
    let mut h = Editor::with_host("", &[]);
    h.set_completions(0, &["foo"], true);
    h.enter_insert();
    h.type_text("   ");
    h.elapse();
    assert!(
        h.state.pending_completion.is_none(),
        "whitespace prefix should not arm the popup",
    );
}

#[test]
fn whitespace_prefix_does_not_open_popup() {
    let mut h = Editor::with_host("", &[]);
    h.set_completions(0, &["foo"], true);
    h.enter_insert();
    h.type_text("   ");
    h.elapse();
    assert!(
        h.state.pending_completion.is_none(),
        "whitespace prefix must not arm the popup",
    );
}

#[test]
fn leaving_insert_mode_clears_state() {
    let mut h = Editor::with_host("", &[]);
    h.set_completions(3, &["foo_x"], true);
    h.enter_insert();
    h.type_text("foo");
    h.elapse();
    assert!(h.state.pending_completion.is_some());

    h.mode = "normal".to_string();
    h.event();
    assert!(h.state.pending_completion.is_none());
    assert!(!h.state.pending_completion_request);
    assert!(h.state.last_completion_signature.is_none());
}

#[test]
fn esc_dismisses_popup_and_leaves_insert_in_one_press() {
    let mut h = Editor::with_host("", &[]);
    h.set_completions(3, &["foo_x"], true);
    h.enter_insert();
    h.type_text("foo");
    h.elapse();
    assert!(h.state.pending_completion.is_some());

    h.escape();
    assert!(h.state.pending_completion.is_none(), "one escape closes the popup");
    assert!(!h.state.pending_completion_request);

    h.enter_insert();
    h.type_text("x");
    assert!(
        h.state.pending_completion_request,
        "typing after re-entering insert arms a fresh request",
    );
}

#[test]
fn an_identifier_popup_carries_the_servers_items_and_the_buffers_words() {
    let mut h = Editor::with_host("foxtrot", &[]);
    h.set_completions(10, &["foobar"], true);
    h.cursor = 7;
    h.enter_insert();
    h.type_text(" fo");
    h.elapse();
    let mut got = shown(h.popup());
    got.sort();
    assert_eq!(got, ["foobar", "foxtrot"]);
}

#[test]
fn completion_merges_items_from_every_server() {
    let mut h = Editor::open("");
    h.add_host("ra", &[]);
    h.add_host("tailwind", &[]);
    h.hosts[0].answers.push((3, vec!["foo_a".into()], true));
    h.hosts[1].answers.push((3, vec!["foo_b".into()], true));
    h.enter_insert();
    h.type_text("foo");
    h.elapse();
    let labels: Vec<&str> = h.popup().items.iter().map(|i| i.label.as_str()).collect();
    assert!(labels.contains(&"foo_a"), "server A item merged: {labels:?}");
    assert!(labels.contains(&"foo_b"), "server B item merged: {labels:?}");
}

fn popup_over(items: Vec<CompletionItem>, prefix: &str) -> CompletionPopup {
    CompletionPopup {
        prefix_range: 0..prefix.len(),
        prefix: prefix.to_string(),
        ..CompletionPopup::showing(items)
    }
}

#[test]
fn a_landed_re_ask_merges_what_the_popup_still_holds() {
    let mut state = idle_state();
    let held = popup_over(
        vec![
            word("appleseed"),
            served("apply_theme", None, None),
            word("zebra"),
        ],
        "app",
    );
    state.pending_completion = Some(held);
    let fresh = popup_over(vec![served("append", None, None)], "app");

    install_refill(&mut state, fresh, vec!["test".to_string()], &score);

    let mut got = shown(state.pending_completion.as_ref().expect("popup installed"));
    got.sort();
    assert_eq!(
        got,
        ["append", "appleseed"],
        "the fresh answer joins the surviving word, while the re-asked \
         server's old item and the word the prefix no longer matches both go",
    );
}

#[test]
fn a_re_ask_landing_on_a_dismissed_popup_installs_the_fresh_items_alone() {
    let mut state = idle_state();
    let fresh = popup_over(vec![served("append", None, None)], "app");
    install_refill(&mut state, fresh, vec!["test".to_string()], &score);
    let popup = state.pending_completion.as_ref().expect("popup installed");
    assert_eq!(shown(popup), ["append"]);
}

fn editor_over_foo() -> Editor {
    let mut h = Editor::with_host("", &[]);
    h.set_completions(3, &["foobar", "foobaz", "fooqux"], true);
    h.enter_insert();
    h.type_text("foo");
    h.elapse();
    assert!(
        h.state.pending_completion.is_some(),
        "the session has to be open for typing on to refine anything"
    );
    h
}

#[test]
fn typing_on_narrows_the_popup_without_asking_again() {
    let mut h = editor_over_foo();
    let asked = h.asked();
    h.type_text("b");
    assert_eq!(
        shown(h.popup()),
        ["foobar", "foobaz"],
        "the rows the longer prefix cannot match are gone"
    );
    assert_eq!(h.asked(), asked, "and the server was not asked again");
}

#[test]
fn narrowing_leaves_the_item_list_where_it_is() {
    let mut h = editor_over_foo();
    let before: Vec<CompletionItem> = h.popup().items.clone();
    h.type_text("b");
    assert_eq!(
        before,
        h.popup().items,
        "the same items answer the longer prefix",
    );
    assert!(
        h.popup().matches.len() < before.len(),
        "and the narrowing happened in the index",
    );
}

#[test]
fn typing_on_narrows_within_the_keystroke() {
    let mut h = editor_over_foo();
    h.type_text("bar");
    assert_eq!(
        shown(h.popup()),
        ["foobar"],
        "narrowed before any debounce could have elapsed"
    );
}

#[test]
fn deleting_back_asks_again() {
    let mut h = editor_over_foo();
    let asked = h.asked();
    h.set_completions(2, &["fizz", "foobar"], true);
    h.backspace();
    h.elapse();
    assert!(
        h.asked() > asked,
        "a shorter prefix can match items the longer one never fetched"
    );
}

#[test]
fn a_trigger_character_asks_again_even_though_the_prefix_grew() {
    let mut h = Editor::with_host("", &["."]);
    h.set_completions(3, &["foobar", "foobaz"], true);
    h.enter_insert();
    h.type_text("foo");
    h.elapse();
    let asked = h.asked();
    h.type_text(".");
    assert!(
        h.asked() > asked,
        "the server declared the character its own, so it answers it"
    );
}

fn editor_over_incomplete() -> Editor {
    let mut h = Editor::with_host("", &[]);
    h.set_completions(3, &["foobar"], false);
    h.set_completions(4, &["foobarred"], true);
    h.enter_insert();
    h.type_text("foo");
    h.elapse();
    h
}

#[test]
fn a_server_that_stopped_early_is_asked_again() {
    let mut h = editor_over_incomplete();
    let asked = h.asked();
    h.type_text("b");
    h.elapse();
    assert!(
        h.asked() > asked,
        "the server said it had more to say, so it is asked rather than narrowed"
    );
    assert!(
        shown(h.popup()).contains(&"foobarred".to_string()),
        "and what it then offered is shown: {:?}",
        shown(h.popup())
    );
}

#[test]
fn a_re_ask_says_it_is_refining_an_incomplete_list() {
    let mut h = editor_over_incomplete();
    let asked = h.asked();
    h.type_text("b");
    h.elapse();
    assert_eq!(
        h.hosts[0].asked[asked],
        HostContext {
            trigger_kind: TriggerKind::TriggerForIncompleteCompletions,
            trigger_character: None,
        },
        "a server narrowing its own unfinished list is told that is what this is",
    );
}

#[test]
fn re_asking_a_server_leaves_the_popup_up_while_it_answers() {
    let mut h = editor_over_incomplete();
    assert!(
        h.state.pending_completion.is_some(),
        "the popup is up before the keystroke that re-asks"
    );
    h.type_text("b");
    assert!(
        h.state.pending_completion.is_some(),
        "and holds while the re-query is in flight, rather than blanking"
    );
}

#[test]
fn the_installed_popup_is_already_ranked() {
    let mut h = Editor::with_host("", &[]);
    // Offered worst-first, so arrival order and ranked order disagree.
    h.set_completions(3, &["f_o_o_bar", "foobar"], true);
    h.enter_insert();
    h.type_text("foo");
    h.elapse();
    let got = shown(h.popup());
    let contiguous = got.iter().position(|l| l == "foobar").expect("offered");
    let scattered = got.iter().position(|l| l == "f_o_o_bar").expect("offered");
    assert!(
        contiguous < scattered,
        "the popup is ranked where it is installed rather than left in arrival order: {got:?}"
    );
}

#[test]
fn a_dismissed_buffer_counts_as_looked_at() {
    let mut state = idle_state();
    record_dismiss(&mut state, Some((4, 9, 2)));
    assert_eq!(state.last_completion_signature, Some((4, 9)));
    record_dismiss(&mut state, None);
    assert_eq!(state.last_completion_signature, Some((4, 9)));
}

#[test]
fn nothing_lands_while_the_request_is_out() {
    let mut state = idle_state();
    state.pending_completion_request = true;
    assert!(!pump(&mut state, Polled::Pending, &score));
    assert!(state.pending_completion_request);
    let ctx: ContextOwned = compute_context("foo", 3);
    let popup = filled_popup(ctx, vec![word("foobar")], Vec::new(), &score);
    assert!(pump(
        &mut state,
        Polled::Ready(RequestOutcome::Replace(popup)),
        &score
    ));
    assert!(!state.pending_completion_request);
    assert_eq!(state.completion_generation, 1);
}

#[test]
fn each_server_is_asked_in_its_own_encoding_and_only_with_a_path() {
    let host = |name: &str, encoding| CompletionHost {
        name: name.to_string(),
        trigger_characters: Some(vec![":".to_string()]),
        encoding,
    };
    let hosts = vec![host("a", OffsetEncoding::Utf8), host("b", OffsetEncoding::Utf16)];
    let asked: Vec<(String, OffsetEncoding, TriggerKind)> =
        lsp_questions(&hosts, Some(LspTrigger::Typed(':')), true)
            .into_iter()
            .map(|q| (q.server, q.encoding, q.context.trigger_kind))
            .collect();
    assert_eq!(
        asked,
        [
            ("a".to_string(), OffsetEncoding::Utf8, TriggerKind::TriggerCharacter),
            ("b".to_string(), OffsetEncoding::Utf16, TriggerKind::TriggerCharacter),
        ]
    );
    assert!(lsp_questions(&hosts, Some(LspTrigger::Invoked), false).is_empty());
    assert!(lsp_questions(&hosts, None, true).is_empty());
    let again = questions_again(&hosts, &vec!["b".to_string()]);
    assert_eq!(again.len(), 1);
    assert_eq!(again[0].server, "b");
    assert_eq!(again[0].context.trigger_kind, TriggerKind::TriggerForIncompleteCompletions);
}

#[test]
fn a_request_lists_paths_servers_and_words_in_that_order() {
    let ctx = compute_context("alpha alp", 9);
    let sources = vec![CompletionSource::Path, CompletionSource::Lsp, CompletionSource::Word];
    let replies = vec![
        ServerReply { server: "dead".to_string(), reply: None },
        ServerReply {
            server: "ra".to_string(),
            reply: Some(LspResponse::Array(vec![offered("alp_served")])),
        },
    ];
    let outcome = run_request(
        ctx,
        &sources,
        None,
        replies,
        "alpha alp",
        &|_: &Vec<String>, _: &str| None,
    );
    match outcome {
        RequestOutcome::Replace(popup) => {
            assert_eq!(shown(&popup), ["alp_served", "alpha"]);
            assert_eq!(popup.incomplete, ["dead"], "a server that failed is asked again");
            assert_eq!(popup.prefix_range, 6..9);
        }
        RequestOutcome::Refill { .. } => panic!("a full request replaces"),
    }
}

#[test]
fn no_score_and_a_score_of_zero_stay_apart() {
    assert_eq!(scores_at(2, None), [Some(0), Some(0)], "nothing asked, nothing rejected");
    assert_eq!(scores_at(3, Some(vec![(2, 7), (0, 0)])), [Some(0), None, Some(7)]);
    let last = |texts: &Vec<String>, _: &str| Some(vec![(texts.len() - 1, 4)]);
    let texts = vec!["a".to_string(), "b".to_string()];
    assert_eq!(scores_for(&texts, "x", &last), [None, Some(4)]);
    assert_eq!(all_matches(&vec![word("a"), word("b")], "x", &last), [(0, 0), (1, 4)]);
    let items = vec![word("a"), served("b", None, None), word("c")];
    let rows = vec![(2, 9), (1, 9), (0, 9)];
    let stale = vec!["test".to_string()];
    assert_eq!(surviving(&items, &rows, &stale, "x", &last), [(0, 4)]);
}

#[test]
fn the_cached_context_answers_only_for_the_same_place() {
    let mut state = idle_state();
    let ctx = compute_context("let foo", 7);
    state.completion_context = Some(((1, 2, 7), ctx.clone()));
    assert_eq!(cached_context(&state, 1, 2, 7), Some(ctx));
    assert_eq!(cached_context(&state, 1, 3, 7), None);
    assert_eq!(cached_context(&state, 1, 2, 6), None);
    assert_eq!(focused_buffer_signature(Some((1, 2, 7))), Some((1, 2)));
    assert_eq!(focused_buffer_signature(None), None);
}

#[test]
fn the_popup_is_left_on_either_side_of_its_range() {
    let mut popup = CompletionPopup::showing(vec![word("foo")]);
    popup.prefix_range = 4..7;
    assert!(cursor_left_popup(&popup, 3) && cursor_left_popup(&popup, 8));
    assert!(!cursor_left_popup(&popup, 4) && !cursor_left_popup(&popup, 7));
}

#[test]
fn prefix_characters_are_those_of_words_and_paths() {
    for c in ['a', 'é', '0', '_', '/', '.', '-', '~'] {
        assert!(is_word_or_path_char(c), "{c:?}");
    }
    for c in [' ', '(', ':', '\n', '"'] {
        assert!(!is_word_or_path_char(c), "{c:?}");
    }
}
