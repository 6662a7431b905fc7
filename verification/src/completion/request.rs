//! The completion trigger pipeline: what each keystroke asks of the sources,
//! and how their answers become the popup.

use crate::completion::lsp::{
    fetched, is_translation, translate_all, Answer, LspItem, LspResponse,
};
use crate::completion::path::{
    are_entry_items, lemma_matching_count, split_suffix, wanted_path, DirEntry,
};
use crate::completion::word::{are_word_items, suggestions_extend_the_prefix, MAX_MATCHES};
use crate::completion::{path, word};
use crate::completion::{
    applicable_sources, sources_for, CompletionContext, CompletionItem, CompletionPopup,
    CompletionSource,
};
use crate::host::OffsetEncoding;
use crate::lists::{copied_range, copied_strings};
use crate::order::{
    arranged, arranging_keeps_every_entry, every_list_has_an_order, is_stable_order, lemma_the_order, stable_order, the_order,
    Ranked,
};
use crate::paths::{parent, parent_path};
use crate::text::{
    begins_with, byte_len, bytes_in, chars_before, chars_of, comes_before, is_boundary,
    is_letter_or_number, lex_asymmetric, lex_before, lex_negatively_transitive, lex_total, same,
    string_of, text_before, texts,
};
use crate::poll::Polled;
use std::ops::Range;
use vstd::prelude::*;

verus! {

// ---------------------------------------------------------------------------
// The cursor's context
// ---------------------------------------------------------------------------

/// Owned snapshot of [`CompletionContext`].
#[derive(Debug, PartialEq, Eq)]
pub struct ContextOwned {
    pub cursor_offset: usize,
    pub prefix: String,
    pub prefix_range: Range<usize>,
    pub text_before_cursor: String,
}

impl ContextOwned {
    pub fn as_borrowed(&self) -> (ctx: CompletionContext<'_>)
        ensures
            ctx.cursor_offset == self.cursor_offset,
            ctx.prefix@ == self.prefix@,
            ctx.prefix_range == self.prefix_range,
            ctx.text_before_cursor@ == self.text_before_cursor@,
    {
        CompletionContext {
            cursor_offset: self.cursor_offset,
            prefix: self.prefix.as_str(),
            prefix_range: self.prefix_range.start..self.prefix_range.end,
            text_before_cursor: self.text_before_cursor.as_str(),
        }
    }
}

impl Clone for ContextOwned {
    fn clone(&self) -> (c: Self)
        ensures
            c == *self,
    {
        ContextOwned {
            cursor_offset: self.cursor_offset,
            prefix: self.prefix.clone(),
            prefix_range: self.prefix_range.start..self.prefix_range.end,
            text_before_cursor: self.text_before_cursor.clone(),
        }
    }
}

/// The characters of an identifier or a path.
pub open spec fn word_or_path(c: char) -> bool {
    is_letter_or_number(c) || c == '_' || c == '/' || c == '.' || c == '-' || c == '~'
}

/// Where the run of identifier or path characters that ends before `k` starts.
pub open spec fn run_start(s: Seq<char>, k: int) -> int
    decreases k,
{
    if 0 < k <= s.len() && word_or_path(s[k - 1]) {
        run_start(s, k - 1)
    } else {
        k
    }
}

/// Where the window of a context starts, whose prefix starts at `start`: one
/// character before, unless the line starts there.
pub open spec fn window_start(s: Seq<char>, start: int) -> int {
    if start > 0 && s[start - 1] != '\n' {
        start - 1
    } else {
        start
    }
}

/// `ctx` is the context of the cursor at `cursor`, where `before` is the text
/// before it: the prefix is the longest run of identifier or path characters
/// that ends at the cursor, and the window the prefix with the one character
/// before it on the same line.
pub open spec fn is_context(ctx: ContextOwned, before: Seq<char>, cursor: int) -> bool {
    let start = run_start(before, before.len() as int);
    &&& ctx.cursor_offset == cursor
    &&& ctx.prefix@ == before.skip(start)
    &&& ctx.prefix_range.start == byte_len(before.take(start))
    &&& ctx.prefix_range.end == cursor
    &&& ctx.text_before_cursor@ == before.skip(window_start(before, start))
}

/// The cursor, held to the end of the text.
pub open spec fn held_cursor(text: Seq<char>, cursor: usize) -> int {
    if cursor <= byte_len(text) {
        cursor as int
    } else {
        byte_len(text) as int
    }
}

proof fn lemma_run_start(s: Seq<char>, k: int)
    requires
        0 <= k <= s.len(),
    ensures
        0 <= run_start(s, k) <= k,
        forall|i: int| run_start(s, k) <= i < k ==> word_or_path(#[trigger] s[i]),
        run_start(s, k) > 0 ==> !word_or_path(s[run_start(s, k) - 1]),
    decreases k,
{
    if 0 < k && word_or_path(s[k - 1]) {
        lemma_run_start(s, k - 1);
    }
}

/// The prefix of a context holds nothing but identifier or path characters,
/// is the end of its window, and never reaches into the line above.
pub proof fn context_stays_on_the_line(ctx: ContextOwned, before: Seq<char>, cursor: int)
    requires
        is_context(ctx, before, cursor),
    ensures
        forall|i: int| 0 <= i < ctx.prefix@.len() ==> word_or_path(#[trigger] ctx.prefix@[i]),
        !ctx.text_before_cursor@.contains('\n'),
        ctx.prefix@.len() <= ctx.text_before_cursor@.len() <= ctx.prefix@.len() + 1,
        ctx.text_before_cursor@.skip(
            ctx.text_before_cursor@.len() - ctx.prefix@.len(),
        ) == ctx.prefix@,
{
    lemma_run_start(before, before.len() as int);
    let start = run_start(before, before.len() as int);
    let from = window_start(before, start);
    let window = before.skip(from);
    assert(!word_or_path('\n'));
    assert forall|i: int| 0 <= i < window.len() implies #[trigger] window[i] != '\n' by {
        assert(window[i] == before[from + i]);
    }
    assert(window.skip(start - from) =~= before.skip(start));
}

pub fn is_word_or_path_char(ch: char) -> (r: bool)
    ensures
        r == word_or_path(ch),
{
    ch.is_alphanumeric() || ch == '_' || ch == '/' || ch == '.' || ch == '-' || ch == '~'
}

/// Compute the cursor's completion context from a text plus byte offset.
///
/// Walks back from the cursor through identifier or path characters to find
/// the prefix. [`ContextOwned::text_before_cursor`] is the prefix plus the one
/// character before it on the line, which is what a caller reads to spot a
/// trigger character.
pub fn compute_context(text: &str, cursor_offset: usize) -> (ctx: ContextOwned)
    requires
        is_boundary(text@, held_cursor(text@, cursor_offset)),
    ensures
        is_context(
            ctx,
            text_before(text@, held_cursor(text@, cursor_offset)),
            held_cursor(text@, cursor_offset),
        ),
{
    let len: usize = bytes_in(text);
    let cursor: usize = if cursor_offset <= len { cursor_offset } else { len };
    let before = chars_before(text, cursor);
    let n: usize = before.len();
    let mut start: usize = n;
    while start > 0 && is_word_or_path_char(before[start - 1])
        invariant
            start <= n,
            n == before.len(),
            run_start(before@, n as int) == run_start(before@, start as int),
        decreases start,
    {
        start = start - 1;
    }
    let from: usize = if start > 0 && before[start - 1] != '\n' { start - 1 } else { start };
    let prefix = string_of(copied_range(&before, start, n).as_slice());
    assert(prefix@ =~= before@.skip(start as int));
    let window = string_of(copied_range(&before, from, n).as_slice());
    assert(window@ =~= before@.skip(from as int));
    let head = string_of(copied_range(&before, 0, start).as_slice());
    assert(head@ =~= before@.take(start as int));
    ContextOwned {
        cursor_offset: cursor,
        prefix,
        prefix_range: bytes_in(head.as_str())..cursor,
        text_before_cursor: window,
    }
}

// ---------------------------------------------------------------------------
// Ranking
// ---------------------------------------------------------------------------

/// A row's score; the higher one comes first.
pub struct ByScore {
    pub score: u32,
}

impl Ranked for ByScore {
    open spec fn ranks_before(self, other: Self) -> bool {
        self.score > other.score
    }

    proof fn asymmetric(a: Self, b: Self) {
    }

    proof fn negatively_transitive(a: Self, b: Self, c: Self) {
    }

    fn before(&self, other: &Self) -> (r: bool) {
        self.score > other.score
    }
}

/// The text that a server orders its item by, and the item's place.
pub struct BySortText {
    pub text: String,
    pub index: u32,
}

impl Ranked for BySortText {
    open spec fn ranks_before(self, other: Self) -> bool {
        lex_before(self.text@, other.text@) || (self.text@ == other.text@ && self.index
            < other.index)
    }

    proof fn asymmetric(a: Self, b: Self) {
        if lex_before(a.text@, b.text@) {
            lex_asymmetric(a.text@, b.text@);
        }
        if lex_before(b.text@, a.text@) {
            lex_asymmetric(b.text@, a.text@);
        }
    }

    proof fn negatively_transitive(a: Self, b: Self, c: Self) {
        lex_negatively_transitive(a.text@, b.text@, c.text@);
        if a.text@ == c.text@ {
            if a.text@ != b.text@ {
                if !lex_before(b.text@, a.text@) {
                    lex_total(a.text@, b.text@);
                }
                assert(lex_before(b.text@, c.text@));
            }
        }
    }

    fn before(&self, other: &Self) -> (r: bool) {
        if comes_before(self.text.as_str(), other.text.as_str()) {
            true
        } else {
            same(self.text.as_str(), other.text.as_str()) && self.index < other.index
        }
    }
}

/// The text an item is matched against: its filter text where the server set
/// one, else its label.
pub open spec fn matched_text(item: CompletionItem) -> Seq<char> {
    match item.lsp_item {
        Some(lsp) => match lsp.filter_text {
            Some(text) => text@,
            None => item.label@,
        },
        None => item.label@,
    }
}

/// The text that the item's server orders it by.
pub open spec fn sort_text_of(item: CompletionItem) -> Option<String> {
    match item.lsp_item {
        Some(lsp) => lsp.sort_text,
        None => None,
    }
}

/// The text an item is matched against.
pub fn match_against(item: &CompletionItem) -> (text: &str)
    ensures
        text@ == matched_text(*item),
{
    match &item.lsp_item {
        Some(lsp) => match &lsp.filter_text {
            Some(text) => text.as_str(),
            None => item.label.as_str(),
        },
        None => item.label.as_str(),
    }
}

/// The text that the item's server orders it by.
pub fn sort_text(item: &CompletionItem) -> (text: Option<&String>)
    ensures
        match text {
            Some(t) => sort_text_of(*item) == Some(*t),
            None => sort_text_of(*item) is None,
        },
{
    match &item.lsp_item {
        Some(lsp) => match &lsp.sort_text {
            Some(text) => Some(text),
            None => None,
        },
        None => None,
    }
}

/// Every row names an item.
pub open spec fn rows_name(items: Seq<CompletionItem>, rows: Seq<(u32, u32)>) -> bool {
    forall|i: int| 0 <= i < rows.len() ==> (#[trigger] rows[i]).0 < items.len()
}

/// Whether the item of row `k` has a sort text.
pub open spec fn is_slot(items: Seq<CompletionItem>, rows: Seq<(u32, u32)>, k: int) -> bool {
    sort_text_of(items[rows[k].0 as int]) is Some
}

/// The rows among the first `n` whose items have a sort text.
pub open spec fn slot_rows(items: Seq<CompletionItem>, rows: Seq<(u32, u32)>, n: nat) -> Seq<(u32, u32)>
    decreases n,
{
    if n == 0 {
        Seq::empty()
    } else {
        let before = slot_rows(items, rows, (n - 1) as nat);
        if is_slot(items, rows, n - 1) {
            before.push(rows[n - 1])
        } else {
            before
        }
    }
}

/// The keys of rows whose items have a sort text.
pub open spec fn sort_keys(items: Seq<CompletionItem>, rows: Seq<(u32, u32)>) -> Seq<BySortText> {
    Seq::new(
        rows.len(),
        |i: int|
            BySortText { text: sort_text_of(items[rows[i].0 as int])->0, index: rows[i].0 },
    )
}

/// The rows with a sort text put in its order among themselves, every other
/// row left where it is.
pub open spec fn by_sort_text(items: Seq<CompletionItem>, rows: Seq<(u32, u32)>) -> Seq<(u32, u32)> {
    let slots = slot_rows(items, rows, rows.len());
    let sorted = arranged(sort_keys(items, slots), slots);
    Seq::new(
        rows.len(),
        |k: int|
            if is_slot(items, rows, k) {
                sorted[slot_rows(items, rows, k as nat).len() as int]
            } else {
                rows[k]
            },
    )
}

pub open spec fn score_keys(rows: Seq<(u32, u32)>) -> Seq<ByScore> {
    Seq::new(rows.len(), |i: int| ByScore { score: rows[i].1 })
}

/// The rows by descending score, ties in the order they stand in.
pub open spec fn by_score(rows: Seq<(u32, u32)>) -> Seq<(u32, u32)> {
    arranged(score_keys(rows), rows)
}

/// The rows ordered by their servers' sort text, then by score descending.
pub open spec fn ranked(items: Seq<CompletionItem>, rows: Seq<(u32, u32)>) -> Seq<(u32, u32)> {
    by_score(by_sort_text(items, rows))
}

proof fn lemma_slot_rows(items: Seq<CompletionItem>, rows: Seq<(u32, u32)>, n: nat)
    requires
        n <= rows.len(),
        rows_name(items, rows),
    ensures
        slot_rows(items, rows, n).len() <= n,
        rows_name(items, slot_rows(items, rows, n)),
        forall|i: int|
            0 <= i < slot_rows(items, rows, n).len() ==> is_slot(
                items,
                slot_rows(items, rows, n),
                i,
            ),
        forall|m: nat| m <= n ==> #[trigger] slot_rows(items, rows, m).len() <= slot_rows(
            items,
            rows,
            n,
        ).len(),
        forall|m: nat|
            m < n && is_slot(items, rows, m as int) ==> #[trigger] slot_rows(items, rows, m).len()
                < slot_rows(items, rows, n).len(),
    decreases n,
{
    if n > 0 {
        lemma_slot_rows(items, rows, (n - 1) as nat);
        let here = slot_rows(items, rows, n);
        assert forall|i: int| 0 <= i < here.len() implies is_slot(items, here, i) by {
            if i < slot_rows(items, rows, (n - 1) as nat).len() {
                assert(is_slot(items, slot_rows(items, rows, (n - 1) as nat), i));
            }
        }
    }
}

/// Put the rows carrying a sort text in that order among themselves, leaving
/// every other row where it is.
///
/// Only LSP items have one, so ordering the whole list by it would have to
/// decide how an item with a sort text ranks against an item without.
pub fn sort_by_sort_text(items: &Vec<CompletionItem>, matches: &mut Vec<(u32, u32)>)
    requires
        rows_name(items@, old(matches)@),
    ensures
        final(matches)@ == by_sort_text(items@, old(matches)@),
        rows_name(items@, final(matches)@),
{
    let ghost rows = matches@;
    let mut slots: Vec<(u32, u32)> = Vec::new();
    let mut keys: Vec<BySortText> = Vec::new();
    let mut k: usize = 0;
    while k < matches.len()
        invariant
            rows == matches@,
            rows_name(items@, rows),
            k <= matches.len(),
            slots@ == slot_rows(items@, rows, k as nat),
            keys@ == sort_keys(items@, slots@),
        decreases matches.len() - k,
    {
        let row: (u32, u32) = matches[k];
        match sort_text(&items[row.0 as usize]) {
            Some(text) => {
                slots.push(row);
                keys.push(BySortText { text: text.clone(), index: row.0 });
            },
            None => {},
        }
        k = k + 1;
        assert(keys@ =~= sort_keys(items@, slots@));
    }
    let order = stable_order(&keys);
    let ghost all = slots@;
    let ghost sorted = arranged(sort_keys(items@, all), all);
    proof {
        lemma_the_order(keys@, order@);
        lemma_slot_rows(items@, rows, rows.len());
        arranging_keeps_every_entry(keys@, all);
    }
    let mut out: Vec<(u32, u32)> = Vec::new();
    let mut used: usize = 0;
    k = 0;
    while k < matches.len()
        invariant
            rows == matches@,
            rows_name(items@, rows),
            k <= matches.len(),
            all == slots@,
            all == slot_rows(items@, rows, rows.len()),
            is_stable_order(keys@, order@),
            keys@ == sort_keys(items@, all),
            order@ == the_order(keys@),
            sorted == arranged(keys@, all),
            sorted.len() == all.len(),
            used == slot_rows(items@, rows, k as nat).len(),
            out@ == by_sort_text(items@, rows).take(k as int),
        decreases matches.len() - k,
    {
        proof {
            lemma_slot_rows(items@, rows, rows.len());
            assert(slot_rows(items@, rows, k as nat).len() <= all.len());
        }
        let row: (u32, u32) = matches[k];
        if sort_text(&items[row.0 as usize]).is_some() {
            assert(is_slot(items@, rows, k as int));
            assert(slot_rows(items@, rows, k as nat).len() < all.len());
            let from: usize = order[used];
            out.push(slots[from]);
            assert(slots@[from as int] == sorted[used as int]);
            used = used + 1;
        } else {
            out.push(row);
        }
        k = k + 1;
        assert(out@ =~= by_sort_text(items@, rows).take(k as int));
    }
    assert(out@ =~= by_sort_text(items@, rows));
    proof {
        lemma_sort_pass_names(items@, rows);
    }
    *matches = out;
}

proof fn lemma_sort_pass_names(items: Seq<CompletionItem>, rows: Seq<(u32, u32)>)
    requires
        rows_name(items, rows),
        rows.len() <= usize::MAX,
    ensures
        rows_name(items, by_sort_text(items, rows)),
{
    let slots = slot_rows(items, rows, rows.len());
    let keys = sort_keys(items, slots);
    let order = the_order(keys);
    lemma_slot_rows(items, rows, rows.len());
    every_list_has_an_order(keys);
    let out = by_sort_text(items, rows);
    assert forall|k: int| 0 <= k < out.len() implies (#[trigger] out[k]).0 < items.len() by {
        if is_slot(items, rows, k) {
            let i = slot_rows(items, rows, k as nat).len() as int;
            assert(i < slots.len());
            assert(out[k] == slots[order[i] as int]);
        }
    }
}

/// Order `matches` by their servers' sort text, then by score descending. Rows
/// the score cannot separate keep what the sort-text pass left them in.
pub fn rank_scored(items: &Vec<CompletionItem>, matches: &mut Vec<(u32, u32)>)
    requires
        rows_name(items@, old(matches)@),
    ensures
        final(matches)@ == ranked(items@, old(matches)@),
        final(matches)@.len() == old(matches)@.len(),
        rows_name(items@, final(matches)@),
{
    sort_by_sort_text(items, matches);
    let ghost rows = matches@;
    let mut keys: Vec<ByScore> = Vec::new();
    for i in 0..matches.len()
        invariant
            rows == matches@,
            keys@ == score_keys(rows).take(i as int),
    {
        keys.push(ByScore { score: matches[i].1 });
        assert(keys@ =~= score_keys(rows).take(i + 1));
    }
    assert(keys@ =~= score_keys(rows));
    let order = stable_order(&keys);
    proof {
        lemma_the_order(keys@, order@);
    }
    let mut out: Vec<(u32, u32)> = Vec::new();
    for i in 0..order.len()
        invariant
            rows == matches@,
            keys@ == score_keys(rows),
            is_stable_order(keys@, order@),
            order@ == the_order(keys@),
            rows_name(items@, rows),
            rows_name(items@, out@),
            out@ == by_score(rows).take(i as int),
    {
        out.push(matches[order[i]]);
        assert(out@ =~= by_score(rows).take(i + 1));
    }
    assert(out@ =~= by_score(rows));
    *matches = out;
}

/// What each of `n` items scores where a scorer answered `scored`: the places
/// of those that match and what they score, or nothing where the query asks
/// nothing, in which case nothing is rejected.
pub open spec fn score_list(n: nat, scored: Option<Seq<(usize, u32)>>) -> Seq<Option<u32>> {
    Seq::new(
        n,
        |k: int|
            match scored {
                Some(s) => last_score(s, k, s.len()),
                None => Some(0u32),
            },
    )
}

pub open spec fn opt_list(scored: Option<Vec<(usize, u32)>>) -> Option<Seq<(usize, u32)>> {
    match scored {
        Some(s) => Some(s@),
        None => None,
    }
}

/// What each of `n` items scores, from the answer of a scorer.
///
/// A match scoring zero and no match at all are different answers, so they
/// stay apart here.
pub fn scores_at(n: usize, scored: Option<Vec<(usize, u32)>>) -> (scores: Vec<Option<u32>>)
    requires
        scored matches Some(s) ==> forall|i: int| 0 <= i < s@.len() ==> (#[trigger] s@[i]).0 < n,
    ensures
        scores@ == score_list(n as nat, opt_list(scored)),
{
    let ghost reply = opt_list(scored);
    let mut scores: Vec<Option<u32>> = Vec::new();
    let fill: Option<u32> = match &scored {
        Some(_) => None,
        None => Some(0),
    };
    for k in 0..n
        invariant
            scores@.len() == k,
            forall|j: int| 0 <= j < k ==> #[trigger] scores@[j] == fill,
    {
        scores.push(fill);
    }
    match scored {
        Some(s) => {
            for i in 0..s.len()
                invariant
                    scores@.len() == n,
                    forall|i: int| 0 <= i < s@.len() ==> (#[trigger] s@[i]).0 < n,
                    forall|k: int|
                        0 <= k < n ==> #[trigger] scores@[k] == last_score(s@, k, i as nat),
            {
                let (place, score): (usize, u32) = s[i];
                assert(s@[i as int].0 < n);
                scores.set(place, Some(score));
            }
        },
        None => {},
    }
    assert(scores@ =~= score_list(n as nat, reply));
    scores
}

/// `scorer` scores any texts against any prefix: what it answers names places
/// of the texts.
pub open spec fn scores_anything<S: Fn(&Vec<String>, &str) -> Option<Vec<(usize, u32)>>>(
    scorer: S,
) -> bool {
    &&& forall|list: &Vec<String>, prefix: &str| #[trigger] call_requires(scorer, (list, prefix))
    &&& forall|list: &Vec<String>, prefix: &str, scored: Option<Vec<(usize, u32)>>| #[trigger]
        call_ensures(scorer, (list, prefix), scored) ==> (scored matches Some(s) ==> forall|i: int|
            0 <= i < s@.len() ==> (#[trigger] s@[i]).0 < list@.len())
}

/// `scores` is what `scorer` makes of these texts and this prefix.
pub open spec fn scored_by<S: Fn(&Vec<String>, &str) -> Option<Vec<(usize, u32)>>>(
    scorer: S,
    haystacks: Seq<Seq<char>>,
    prefix: Seq<char>,
    scores: Seq<Option<u32>>,
) -> bool {
    exists|list: &Vec<String>, text: &str, scored: Option<Vec<(usize, u32)>>|
        texts(list@) == haystacks && text@ == prefix && #[trigger] call_ensures(
            scorer,
            (list, text),
            scored,
        ) && scores == score_list(haystacks.len(), opt_list(scored))
}

/// What each text scores against `prefix`, `None` where it does not match.
pub fn scores_for<S: Fn(&Vec<String>, &str) -> Option<Vec<(usize, u32)>>>(
    haystacks: &Vec<String>,
    prefix: &str,
    scorer: &S,
) -> (scores: Vec<Option<u32>>)
    requires
        scores_anything(*scorer),
    ensures
        scores@.len() == haystacks@.len(),
        scored_by(*scorer, texts(haystacks@), prefix@, scores@),
{
    let scored = scorer(haystacks, prefix);
    let ghost reply = scored;
    let scores = scores_at(haystacks.len(), scored);
    assert(call_ensures(*scorer, (haystacks, prefix), reply));
    assert(texts(haystacks@).len() == haystacks@.len());
    scores
}

/// What the first `n` entries of a list of scores last say of place `k`.
pub open spec fn last_score(scored: Seq<(usize, u32)>, k: int, n: nat) -> Option<u32>
    decreases n,
{
    if n == 0 {
        None
    } else if scored[n - 1].0 == k {
        Some(scored[n - 1].1)
    } else {
        last_score(scored, k, (n - 1) as nat)
    }
}

/// Every item as a row, in the order of the items, those that the prefix does
/// not match at zero.
pub open spec fn all_rows(scores: Seq<Option<u32>>) -> Seq<(u32, u32)> {
    Seq::new(
        scores.len(),
        |i: int|
            (
                i as u32,
                match scores[i] {
                    Some(score) => score,
                    None => 0,
                },
            ),
    )
}

/// The texts that the items are matched against.
pub open spec fn item_texts(items: Seq<CompletionItem>) -> Seq<Seq<char>> {
    Seq::new(items.len(), |i: int| matched_text(items[i]))
}

/// Every item as a match row, scored against `prefix`, keeping the ones it does
/// not match at zero. A fresh popup shows everything its sources answered.
pub fn all_matches<S: Fn(&Vec<String>, &str) -> Option<Vec<(usize, u32)>>>(
    items: &Vec<CompletionItem>,
    prefix: &str,
    scorer: &S,
) -> (rows: Vec<(u32, u32)>)
    requires
        items@.len() <= u32::MAX,
        scores_anything(*scorer),
    ensures
        rows@.len() == items@.len(),
        exists|scores: Seq<Option<u32>>| #[trigger]
            scored_by(*scorer, item_texts(items@), prefix@, scores) && rows@ == all_rows(scores),
{
    let mut haystacks: Vec<String> = Vec::new();
    for i in 0..items.len()
        invariant
            texts(haystacks@) == item_texts(items@).take(i as int),
    {
        let ghost before = haystacks@;
        haystacks.push(match_against(&items[i]).to_owned());
        assert(texts(haystacks@) =~= texts(before).push(matched_text(items@[i as int])));
        assert(item_texts(items@).take(i + 1) =~= texts(before).push(
            matched_text(items@[i as int]),
        ));
    }
    assert(item_texts(items@).take(items@.len() as int) =~= item_texts(items@));
    assert(texts(haystacks@).len() == haystacks@.len());
    let scores = scores_for(&haystacks, prefix, scorer);
    let mut rows: Vec<(u32, u32)> = Vec::new();
    for i in 0..scores.len()
        invariant
            scores@.len() <= u32::MAX,
            rows@ == all_rows(scores@).take(i as int),
    {
        let score: u32 = match scores[i] {
            Some(score) => score,
            None => 0,
        };
        rows.push((i as u32, score));
        assert(rows@ =~= all_rows(scores@).take(i + 1));
    }
    assert(rows@ =~= all_rows(scores@));
    rows
}

/// The rows of a fresh popup: every item, ranked where there is a prefix to
/// rank by, else in the order of the sources.
pub open spec fn fresh_rows(
    items: Seq<CompletionItem>,
    prefix: Seq<char>,
    scores: Seq<Option<u32>>,
) -> Seq<(u32, u32)> {
    if prefix.len() == 0 {
        all_rows(scores)
    } else {
        ranked(items, all_rows(scores))
    }
}

/// `rows` is the ranking of `items` for `prefix`: each is scored by the text it
/// is matched against.
pub open spec fn is_ranking<S: Fn(&Vec<String>, &str) -> Option<Vec<(usize, u32)>>>(
    rows: Seq<(u32, u32)>,
    items: Seq<CompletionItem>,
    prefix: Seq<char>,
    scorer: S,
) -> bool {
    exists|scores: Seq<Option<u32>>| #[trigger]
        scored_by(scorer, item_texts(items), prefix, scores) && rows == fresh_rows(
            items,
            prefix,
            scores,
        )
}

/// Order `items` by how well each answers `prefix`.
///
/// Items are scored on their filter text where a server gave one and their
/// label otherwise. Nothing is dropped: the ones that do not score keep their
/// order behind the ones that do. An empty prefix leaves the order alone,
/// having nothing to rank by.
pub fn rank_by_prefix<S: Fn(&Vec<String>, &str) -> Option<Vec<(usize, u32)>>>(
    items: &Vec<CompletionItem>,
    prefix: &str,
    scorer: &S,
) -> (rows: Vec<(u32, u32)>)
    requires
        items@.len() <= u32::MAX,
        scores_anything(*scorer),
    ensures
        is_ranking(rows@, items@, prefix@, *scorer),
        rows_name(items@, rows@),
        rows@.len() == items@.len(),
{
    let mut rows = all_matches(items, prefix, scorer);
    let ghost scores = choose|scores: Seq<Option<u32>>| #[trigger]
        scored_by(*scorer, item_texts(items@), prefix@, scores) && rows@ == all_rows(scores);
    assert(scored_by(*scorer, item_texts(items@), prefix@, scores));
    if !prefix.is_empty() {
        rank_scored(items, &mut rows);
    }
    assert(rows@ == fresh_rows(items@, prefix@, scores));
    rows
}

/// One of `names` is `name`.
pub open spec fn names_one(names: Seq<String>, name: Seq<char>) -> bool {
    exists|i: int| 0 <= i < names.len() && (#[trigger] names[i])@ == name
}

/// Whether one of `names` is `name`.
fn has_name(names: &Vec<String>, name: &str) -> (r: bool)
    ensures
        r == names_one(names@, name@),
{
    let mut i: usize = 0;
    while i < names.len()
        invariant
            i <= names.len(),
            forall|k: int| 0 <= k < i ==> (#[trigger] names@[k])@ != name@,
        decreases names.len() - i,
    {
        if same(names[i].as_str(), name) {
            assert(names@[i as int]@ == name@);
            return true;
        }
        i = i + 1;
    }
    false
}

/// The item comes from none of the servers in `stale`.
pub open spec fn is_current(item: CompletionItem, stale: Seq<String>) -> bool {
    match item.server {
        Some(name) => !names_one(stale, name@),
        None => true,
    }
}

/// Those of the first `n` rows that name an item of no server in `stale`.
pub open spec fn current_rows(
    items: Seq<CompletionItem>,
    rows: Seq<(u32, u32)>,
    stale: Seq<String>,
    n: nat,
) -> Seq<(u32, u32)>
    decreases n,
{
    if n == 0 {
        Seq::empty()
    } else {
        let before = current_rows(items, rows, stale, (n - 1) as nat);
        if is_current(items[rows[n - 1].0 as int], stale) {
            before.push(rows[n - 1])
        } else {
            before
        }
    }
}

/// The texts that the items of rows are matched against.
pub open spec fn row_texts(items: Seq<CompletionItem>, rows: Seq<(u32, u32)>) -> Seq<Seq<char>> {
    Seq::new(rows.len(), |i: int| matched_text(items[rows[i].0 as int]))
}

/// Those of the first `n` rows that score, rescored.
pub open spec fn scored_rows(rows: Seq<(u32, u32)>, scores: Seq<Option<u32>>, n: nat) -> Seq<
    (u32, u32),
>
    decreases n,
{
    if n == 0 {
        Seq::empty()
    } else {
        let before = scored_rows(rows, scores, (n - 1) as nat);
        match scores[n - 1] {
            Some(score) => before.push((rows[n - 1].0, score)),
            None => before,
        }
    }
}

/// `left` are the rows whose item is of no server in `stale` and still matches
/// `prefix`, in the order they stood in, rescored.
pub open spec fn survives<S: Fn(&Vec<String>, &str) -> Option<Vec<(usize, u32)>>>(
    left: Seq<(u32, u32)>,
    items: Seq<CompletionItem>,
    rows: Seq<(u32, u32)>,
    stale: Seq<String>,
    prefix: Seq<char>,
    scorer: S,
) -> bool {
    let current = current_rows(items, rows, stale, rows.len());
    exists|scores: Seq<Option<u32>>| #[trigger]
        scored_by(scorer, row_texts(items, current), prefix, scores) && left == scored_rows(
            current,
            scores,
            current.len(),
        )
}

/// The rows of `matches` that `prefix` still matches, in the order they were
/// given, rescored against it. Rows naming a server in `stale` are dropped
/// whatever they score: that server is being asked again, and its own answer
/// supersedes what it said before.
pub fn surviving<S: Fn(&Vec<String>, &str) -> Option<Vec<(usize, u32)>>>(
    items: &Vec<CompletionItem>,
    matches: &Vec<(u32, u32)>,
    stale: &Vec<String>,
    prefix: &str,
    scorer: &S,
) -> (rows: Vec<(u32, u32)>)
    requires
        rows_name(items@, matches@),
        scores_anything(*scorer),
    ensures
        survives(rows@, items@, matches@, stale@, prefix@, *scorer),
        rows_name(items@, rows@),
        rows@.len() <= matches@.len(),
{
    let mut fresh: Vec<(u32, u32)> = Vec::new();
    let mut haystacks: Vec<String> = Vec::new();
    let mut k: usize = 0;
    assert(texts(haystacks@) =~= row_texts(items@, fresh@));
    while k < matches.len()
        invariant
            k <= matches.len(),
            rows_name(items@, matches@),
            rows_name(items@, fresh@),
            fresh@.len() <= k,
            fresh@ == current_rows(items@, matches@, stale@, k as nat),
            texts(haystacks@) == row_texts(items@, fresh@),
        decreases matches.len() - k,
    {
        let row: (u32, u32) = matches[k];
        let at: usize = row.0 as usize;
        let current: bool = match &items[at].server {
            Some(name) => !has_name(stale, name.as_str()),
            None => true,
        };
        if current {
            let ghost before = haystacks@;
            let ghost rows = fresh@;
            fresh.push(row);
            haystacks.push(match_against(&items[at]).to_owned());
            assert(texts(haystacks@) =~= texts(before).push(matched_text(items@[at as int])));
            assert(row_texts(items@, fresh@) =~= row_texts(items@, rows).push(
                matched_text(items@[at as int]),
            ));
        }
        k = k + 1;
    }
    assert(texts(haystacks@).len() == haystacks@.len());
    let scores = scores_for(&haystacks, prefix, scorer);
    let mut rows: Vec<(u32, u32)> = Vec::new();
    let mut i: usize = 0;
    while i < fresh.len()
        invariant
            i <= fresh.len(),
            scores@.len() == fresh@.len(),
            rows_name(items@, fresh@),
            rows_name(items@, rows@),
            rows@.len() <= i,
            rows@ == scored_rows(fresh@, scores@, i as nat),
        decreases fresh.len() - i,
    {
        match scores[i] {
            Some(score) => {
                assert(fresh@[i as int].0 < items@.len());
                rows.push((fresh[i].0, score));
            },
            None => {},
        }
        i = i + 1;
    }
    assert(scored_by(*scorer, row_texts(items@, fresh@), prefix@, scores@));
    rows
}

proof fn lemma_current_rows(
    items: Seq<CompletionItem>,
    rows: Seq<(u32, u32)>,
    stale: Seq<String>,
    n: nat,
    k: int,
)
    requires
        n <= rows.len(),
        0 <= k < current_rows(items, rows, stale, n).len(),
    ensures
        ({
            let row = current_rows(items, rows, stale, n)[k];
            is_current(items[row.0 as int], stale) && exists|j: int|
                0 <= j < n && #[trigger] rows[j] == row
        }),
    decreases n,
{
    if n > 0 {
        let before = current_rows(items, rows, stale, (n - 1) as nat);
        if k < before.len() {
            lemma_current_rows(items, rows, stale, (n - 1) as nat, k);
            let j = choose|j: int| 0 <= j < n - 1 && #[trigger] rows[j] == before[k];
            assert(rows[j] == before[k]);
        } else {
            assert(rows[n - 1] == current_rows(items, rows, stale, n)[k]);
        }
    }
}

proof fn lemma_scored_rows(rows: Seq<(u32, u32)>, scores: Seq<Option<u32>>, n: nat, k: int)
    requires
        n <= rows.len(),
        0 <= k < scored_rows(rows, scores, n).len(),
    ensures
        exists|j: int|
            0 <= j < n && (#[trigger] rows[j]).0 == scored_rows(rows, scores, n)[k].0 && scores[j]
                == Some(scored_rows(rows, scores, n)[k].1),
    decreases n,
{
    if n > 0 {
        let before = scored_rows(rows, scores, (n - 1) as nat);
        if k < before.len() {
            lemma_scored_rows(rows, scores, (n - 1) as nat, k);
            let j = choose|j: int|
                0 <= j < n - 1 && (#[trigger] rows[j]).0 == before[k].0 && scores[j] == Some(
                    before[k].1,
                );
            assert(rows[j].0 == before[k].0);
        } else {
            assert(rows[n - 1].0 == scored_rows(rows, scores, n)[k].0);
        }
    }
}

/// Narrowing keeps to the rows that were there: each row that survives names
/// an item that some row named before, and one of no server that is asked
/// again.
pub proof fn narrowing_only_drops<S: Fn(&Vec<String>, &str) -> Option<Vec<(usize, u32)>>>(
    left: Seq<(u32, u32)>,
    items: Seq<CompletionItem>,
    rows: Seq<(u32, u32)>,
    stale: Seq<String>,
    prefix: Seq<char>,
    scorer: S,
    k: int,
)
    requires
        survives(left, items, rows, stale, prefix, scorer),
        0 <= k < left.len(),
    ensures
        is_current(items[left[k].0 as int], stale),
        exists|j: int| 0 <= j < rows.len() && (#[trigger] rows[j]).0 == left[k].0,
{
    let current = current_rows(items, rows, stale, rows.len());
    let scores = choose|scores: Seq<Option<u32>>| #[trigger]
        scored_by(scorer, row_texts(items, current), prefix, scores) && left == scored_rows(
            current,
            scores,
            current.len(),
        );
    lemma_scored_rows(current, scores, current.len(), k);
    let i = choose|i: int|
        0 <= i < current.len() && (#[trigger] current[i]).0 == left[k].0 && scores[i] == Some(
            left[k].1,
        );
    lemma_current_rows(items, rows, stale, rows.len(), i);
    let j = choose|j: int| 0 <= j < rows.len() && #[trigger] rows[j] == current[i];
    assert(rows[j].0 == left[k].0);
}

// ---------------------------------------------------------------------------
// Servers and their trigger characters
// ---------------------------------------------------------------------------

/// A server that answers completion requests, and the characters it declared
/// as triggers.
#[derive(Debug, PartialEq, Eq)]
pub struct CompletionHost {
    pub name: String,
    pub trigger_characters: Option<Vec<String>>,
    /// How the server counts columns.
    pub encoding: OffsetEncoding,
}

/// Why a completion request went out.
///
/// Left unresolved because the answer is per server: the same keystroke is a
/// trigger character to a server that declared it and a plain invocation to
/// one that did not.
#[derive(Debug, Clone, Copy, PartialEq, Eq, Structural)]
pub enum LspTrigger {
    /// Nothing a server declared was typed, so every server is asked outright.
    Invoked,
    /// This character was typed and at least one server declared it.
    Typed(char),
    /// A re-ask of the servers that stopped early on the last answer.
    Incomplete,
}

/// How a server is told that a request came about.
#[derive(Debug, Clone, Copy, PartialEq, Eq, Structural)]
pub enum TriggerKind {
    Invoked,
    TriggerCharacter,
    TriggerForIncompleteCompletions,
}

/// The context a server is asked with.
#[derive(Debug, Clone, Copy, PartialEq, Eq, Structural)]
pub struct HostContext {
    pub trigger_kind: TriggerKind,
    pub trigger_character: Option<char>,
}

/// One of the declared triggers is the single character `ch`.
pub open spec fn declares(triggers: Option<Vec<String>>, ch: char) -> bool {
    triggers matches Some(ts) && exists|i: int|
        0 <= i < ts@.len() && (#[trigger] ts@[i])@ == seq![ch]
}

/// Whether `ch` is among the declared trigger characters. Each declared
/// trigger is a single character, so a longer one matches nothing.
pub fn declares_trigger(triggers: &Option<Vec<String>>, ch: char) -> (r: bool)
    ensures
        r == declares(*triggers, ch),
{
    match triggers {
        Some(ts) => {
            let mut i: usize = 0;
            while i < ts.len()
                invariant
                    i <= ts.len(),
                    *triggers == Some(*ts),
                    forall|k: int| 0 <= k < i ==> (#[trigger] ts@[k])@ != seq![ch],
                decreases ts.len() - i,
            {
                let chars = chars_of(ts[i].as_str());
                if chars.len() == 1 && chars[0] == ch {
                    assert(ts@[i as int]@ =~= seq![ch]);
                    assert((triggers->0)@[i as int]@ == seq![ch]);
                    return true;
                }
                assert(ts@[i as int]@ != seq![ch]) by {
                    if ts@[i as int]@ == seq![ch] {
                        assert(chars@.len() == 1 && chars@[0] == ch);
                    }
                }
                i = i + 1;
            }
            false
        },
        None => false,
    }
}

/// The context a server with these trigger characters is asked with.
pub open spec fn asked_with(triggers: Option<Vec<String>>, trigger: LspTrigger) -> HostContext {
    match trigger {
        LspTrigger::Invoked => HostContext {
            trigger_kind: TriggerKind::Invoked,
            trigger_character: None,
        },
        LspTrigger::Incomplete => HostContext {
            trigger_kind: TriggerKind::TriggerForIncompleteCompletions,
            trigger_character: None,
        },
        LspTrigger::Typed(ch) => if declares(triggers, ch) {
            HostContext {
                trigger_kind: TriggerKind::TriggerCharacter,
                trigger_character: Some(ch),
            }
        } else {
            HostContext { trigger_kind: TriggerKind::Invoked, trigger_character: None }
        },
    }
}

/// The context a server is asked with, resolved against its own declarations.
pub fn host_context(triggers: &Option<Vec<String>>, trigger: LspTrigger) -> (ctx: HostContext)
    ensures
        ctx == asked_with(*triggers, trigger),
{
    match trigger {
        LspTrigger::Invoked => HostContext {
            trigger_kind: TriggerKind::Invoked,
            trigger_character: None,
        },
        LspTrigger::Incomplete => HostContext {
            trigger_kind: TriggerKind::TriggerForIncompleteCompletions,
            trigger_character: None,
        },
        LspTrigger::Typed(ch) => if declares_trigger(triggers, ch) {
            HostContext {
                trigger_kind: TriggerKind::TriggerCharacter,
                trigger_character: Some(ch),
            }
        } else {
            HostContext { trigger_kind: TriggerKind::Invoked, trigger_character: None }
        },
    }
}

// ---------------------------------------------------------------------------
// The pipeline
// ---------------------------------------------------------------------------

/// The editor's completion state.
pub struct CompletionState {
    /// Whether a request is in flight.
    pub pending_completion_request: bool,
    /// The open popup.
    pub pending_completion: Option<CompletionPopup>,
    /// Buffer and version that completion last looked at.
    pub last_completion_signature: Option<(u64, u64)>,
    /// The context computed last, with the buffer, version and cursor it is
    /// of.
    pub completion_context: Option<((u64, u64, usize), ContextOwned)>,
    /// Bumped whenever a popup is installed.
    pub completion_generation: u64,
    /// Whether a snippet is being filled in.
    pub active_snippet: bool,
}

/// What an event finds in the editor.
pub struct TriggerEvent {
    /// Whether keys go into an editor pane in insert mode, no modal over it.
    pub armed: bool,
    /// Buffer, version and cursor of the focused editor.
    pub probe: Option<(u64, u64, usize)>,
    /// The text of the focused buffer.
    pub text: Option<String>,
    /// The servers that answer completion for the buffer.
    pub hosts: Vec<CompletionHost>,
    /// Whether the buffer is that of a file.
    pub has_path: bool,
}

/// What is to be done after an event.
pub enum TriggerAction {
    Idle,
    /// The popup was narrowed in place.
    Installed,
    /// Ask these sources. A server is asked with `lsp`, where any is; the
    /// debounce is skipped when `immediate`.
    Fetch {
        context: ContextOwned,
        sources: Vec<CompletionSource>,
        lsp: Option<LspTrigger>,
        immediate: bool,
    },
    /// Ask these servers again, whose earlier answers the new ones replace.
    AskAgain { context: ContextOwned, servers: Vec<String> },
}

/// What a landed completion request means for the open popup.
pub enum RequestOutcome {
    /// A full fetch, which stands alone and replaces whatever is open.
    Replace(CompletionPopup),
    /// Answers from the servers that stopped early last time. `asked` names
    /// the servers whose earlier items this supersedes.
    Refill { fresh: CompletionPopup, asked: Vec<String> },
}

/// Whether the focus gives keys to an editor pane in insert mode. A modal
/// input owns the keystream while open.
pub fn insert_mode_in_editor_pane(
    mode: &str,
    modal_open: bool,
    focus_in_pane: bool,
    pane_shows_editor: bool,
) -> (r: bool)
    ensures
        r == (mode@ == "insert"@ && !modal_open && focus_in_pane && pane_shows_editor),
{
    same(mode, "insert") && !modal_open && focus_in_pane && pane_shows_editor
}

/// Buffer and version of what a probe found.
pub fn focused_buffer_signature(probe: Option<(u64, u64, usize)>) -> (signature: Option<(u64, u64)>)
    ensures
        signature == (match probe {
            Some((buffer, version, _)) => Some((buffer, version)),
            None => None,
        }),
{
    match probe {
        Some((buffer, version, _cursor)) => Some((buffer, version)),
        None => None,
    }
}

/// The cursor is outside the span `popup` was filtered for.
pub open spec fn left_popup(popup: CompletionPopup, cursor: int) -> bool {
    cursor < popup.prefix_range.start || cursor > popup.prefix_range.end
}

/// Whether the cursor has left the span `popup` was filtered for.
pub fn cursor_left_popup(popup: &CompletionPopup, cursor_offset: usize) -> (r: bool)
    ensures
        r == left_popup(*popup, cursor_offset as int),
{
    cursor_offset < popup.prefix_range.start || cursor_offset > popup.prefix_range.end
}

/// The prefix has grown at the place where the popup was filled for it, and
/// still starts with what it grew from.
pub open spec fn grew(popup: CompletionPopup, ctx: ContextOwned) -> bool {
    &&& ctx.prefix_range.start == popup.prefix_range.start
    &&& popup.prefix@.len() < ctx.prefix@.len()
    &&& popup.prefix@.is_prefix_of(ctx.prefix@)
}

fn has_grown(popup: &CompletionPopup, ctx: &ContextOwned) -> (r: bool)
    ensures
        r == grew(*popup, *ctx),
{
    if ctx.prefix_range.start != popup.prefix_range.start {
        return false;
    }
    let old = chars_of(popup.prefix.as_str());
    let new = chars_of(ctx.prefix.as_str());
    old.len() < new.len() && begins_with(ctx.prefix.as_str(), popup.prefix.as_str())
}

/// `after` is `before` narrowed to the prefix of `ctx`: its items stay where
/// they are, and the rows are those that still match, ranked.
pub open spec fn narrowed<S: Fn(&Vec<String>, &str) -> Option<Vec<(usize, u32)>>>(
    after: CompletionPopup,
    before: CompletionPopup,
    ctx: ContextOwned,
    stale: Seq<String>,
    scorer: S,
) -> bool {
    &&& after.items == before.items
    &&& exists|left: Seq<(u32, u32)>| #[trigger]
        survives(left, before.items@, before.matches@, stale, ctx.prefix@, scorer)
            && after.matches@ == ranked(before.items@, left)
    &&& after.selected_idx == 0
    &&& after.anchor_offset == ctx.prefix_range.start
    &&& after.prefix_range == ctx.prefix_range
    &&& after.prefix@ == ctx.prefix@
    &&& after.incomplete@.len() == 0
}

fn narrow<S: Fn(&Vec<String>, &str) -> Option<Vec<(usize, u32)>>>(
    popup: CompletionPopup,
    ctx: &ContextOwned,
    stale: &Vec<String>,
    scorer: &S,
) -> (after: CompletionPopup)
    requires
        popup.wf(),
        scores_anything(*scorer),
    ensures
        after.wf(),
        narrowed(after, popup, *ctx, stale@, *scorer),
{
    let mut matches = surviving(&popup.items, &popup.matches, stale, ctx.prefix.as_str(), scorer);
    let ghost left = matches@;
    assert(survives(left, popup.items@, popup.matches@, stale@, ctx.prefix@, *scorer));
    rank_scored(&popup.items, &mut matches);
    CompletionPopup {
        items: popup.items,
        matches,
        selected_idx: 0,
        anchor_offset: ctx.prefix_range.start,
        prefix_range: ctx.prefix_range.start..ctx.prefix_range.end,
        prefix: ctx.prefix.clone(),
        incomplete: Vec::new(),
    }
}

/// `after` is `before` with `popup` installed: it is the open one, or none is
/// where it has no items.
pub open spec fn installed(after: CompletionState, before: CompletionState, popup: CompletionPopup) -> bool {
    after == (CompletionState {
        pending_completion: if popup.items@.len() == 0 { None } else { Some(popup) },
        completion_generation: if popup.items@.len() == 0 {
            before.completion_generation
        } else {
            before.completion_generation.wrapping_add(1)
        },
        ..before
    })
}

/// Install `popup` as the current one, or clear the popup when it came out
/// empty.
pub fn install_popup(state: &mut CompletionState, popup: CompletionPopup)
    ensures
        installed(*final(state), *old(state), popup),
{
    if popup.items.len() == 0 {
        state.pending_completion = None;
    } else {
        state.completion_generation = state.completion_generation.wrapping_add(1);
        state.pending_completion = Some(popup);
    }
}

/// Note the focused buffer as looked at, so that the very next event finds
/// nothing new in it.
pub fn record_dismiss(state: &mut CompletionState, probe: Option<(u64, u64, usize)>)
    ensures
        *final(state) == (match probe {
            Some((buffer, version, _)) => (CompletionState {
                last_completion_signature: Some((buffer, version)),
                ..*old(state)
            }),
            None => *old(state),
        }),
{
    match focused_buffer_signature(probe) {
        Some(signature) => {
            state.last_completion_signature = Some(signature);
        },
        None => {},
    }
}

/// The context computed last, when buffer, version and cursor are still those
/// it is of.
pub fn cached_context(
    state: &CompletionState,
    buffer_id: u64,
    version: u64,
    cursor_offset: usize,
) -> (ctx: Option<ContextOwned>)
    ensures
        ctx == (match state.completion_context {
            Some((key, context)) => if key == (buffer_id, version, cursor_offset) {
                Some(context)
            } else {
                None
            },
            None => None,
        }),
{
    match &state.completion_context {
        Some((key, context)) => if key.0 == buffer_id && key.1 == version && key.2
            == cursor_offset {
            Some(context.clone())
        } else {
            None
        },
        None => None,
    }
}

/// Some server declared `ch`.
pub open spec fn some_declares(hosts: Seq<CompletionHost>, ch: char) -> bool {
    exists|i: int|
        0 <= i < hosts.len() && declares((#[trigger] hosts[i]).trigger_characters, ch)
}

/// The trigger character that was just typed: the last one in the window,
/// where some server declared it.
pub open spec fn typed_trigger(hosts: Seq<CompletionHost>, window: Seq<char>) -> Option<char> {
    if window.len() > 0 && some_declares(hosts, window.last()) {
        Some(window.last())
    } else {
        None
    }
}

fn find_trigger(hosts: &Vec<CompletionHost>, window: &str) -> (ch: Option<char>)
    ensures
        ch == typed_trigger(hosts@, window@),
{
    let chars = chars_of(window);
    if chars.len() == 0 {
        return None;
    }
    let last: char = chars[chars.len() - 1];
    let mut i: usize = 0;
    while i < hosts.len()
        invariant
            i <= hosts.len(),
            chars@ == window@,
            chars.len() > 0,
            last == window@.last(),
            forall|k: int|
                0 <= k < i ==> !declares((#[trigger] hosts@[k]).trigger_characters, last),
        decreases hosts.len() - i,
    {
        if declares_trigger(&hosts[i].trigger_characters, last) {
            assert(declares(hosts@[i as int].trigger_characters, last));
            return Some(last);
        }
        i = i + 1;
    }
    None
}

/// The sources to ask: those that the context invites, and the servers anyway
/// after a trigger character.
pub open spec fn asked_sources(ctx: ContextOwned, triggered: bool) -> Seq<CompletionSource> {
    let sources = sources_for(ctx.prefix@, ctx.text_before_cursor@);
    if triggered && !sources.contains(CompletionSource::Lsp) {
        sources.push(CompletionSource::Lsp)
    } else {
        sources
    }
}

/// The words of the buffer come last of all sources, and a trigger character
/// asks the servers whatever else is asked.
pub proof fn words_come_last(ctx: ContextOwned, triggered: bool)
    ensures
        ({
            let sources = asked_sources(ctx, triggered);
            &&& sources.contains(CompletionSource::Word) ==> sources.last() == CompletionSource::Word
            &&& triggered ==> sources.contains(CompletionSource::Lsp)
            &&& sources.no_duplicates()
        }),
{
    let base = sources_for(ctx.prefix@, ctx.text_before_cursor@);
    let sources = asked_sources(ctx, triggered);
    let identifier = crate::completion::identifier_like(ctx.prefix@);
    let path = crate::completion::path_like(ctx.prefix@, ctx.text_before_cursor@);
    if identifier {
        let at = if path { 1int } else { 0int };
        assert(base[at] == CompletionSource::Lsp);
        assert(base.contains(CompletionSource::Lsp));
    } else {
        assert(!base.contains(CompletionSource::Lsp));
        if triggered {
            assert(sources[sources.len() - 1] == CompletionSource::Lsp);
        }
    }
}

fn sources_to_ask(ctx: &ContextOwned, triggered: bool) -> (sources: Vec<CompletionSource>)
    ensures
        sources@ == asked_sources(*ctx, triggered),
{
    let borrowed = ctx.as_borrowed();
    let mut sources = applicable_sources(&borrowed);
    if triggered && !has_source(&sources, CompletionSource::Lsp) {
        sources.push(CompletionSource::Lsp);
    }
    sources
}

fn has_source(sources: &Vec<CompletionSource>, source: CompletionSource) -> (r: bool)
    ensures
        r == sources@.contains(source),
{
    let mut i: usize = 0;
    while i < sources.len()
        invariant
            i <= sources.len(),
            forall|k: int| 0 <= k < i ==> #[trigger] sources@[k] != source,
        decreases sources.len() - i,
    {
        if sources[i] == source {
            assert(sources@[i as int] == source);
            return true;
        }
        i = i + 1;
    }
    false
}

/// Some server is named in `names`.
pub open spec fn some_named(hosts: Seq<CompletionHost>, names: Seq<String>) -> bool {
    exists|i: int| 0 <= i < hosts.len() && names_one(names, (#[trigger] hosts[i]).name@)
}

fn any_named(hosts: &Vec<CompletionHost>, names: &Vec<String>) -> (r: bool)
    ensures
        r == some_named(hosts@, names@),
{
    let mut i: usize = 0;
    while i < hosts.len()
        invariant
            i <= hosts.len(),
            forall|k: int| 0 <= k < i ==> !names_one(names@, (#[trigger] hosts@[k]).name@),
        decreases hosts.len() - i,
    {
        if has_name(names, hosts[i].name.as_str()) {
            assert(names_one(names@, hosts@[i as int].name@));
            return true;
        }
        i = i + 1;
    }
    false
}

/// What an edit with the context `ctx` comes to, from the state `before`,
/// which has the context and the signature noted, to `after` and `action`.
pub open spec fn edited_to<S: Fn(&Vec<String>, &str) -> Option<Vec<(usize, u32)>>>(
    after: CompletionState,
    action: TriggerAction,
    before: CompletionState,
    ctx: ContextOwned,
    event: TriggerEvent,
    scorer: S,
) -> bool {
    let typed = typed_trigger(event.hosts@, ctx.text_before_cursor@);
    let triggered = typed is Some;
    match before.pending_completion {
        Some(popup) => if !triggered && grew(popup, ctx) {
            if popup.incomplete@.len() == 0 {
                // The cached items answer the grown prefix.
                &&& action is Installed
                &&& is_settled(after, before, ctx, Seq::empty(), scorer)
            } else if some_named(event.hosts@, popup.incomplete@) && event.has_path {
                // Those that stopped early are asked again, the popup stays.
                &&& action matches TriggerAction::AskAgain { context, servers } && context == ctx
                    && servers@ == popup.incomplete@
                &&& after == (CompletionState { pending_completion_request: true, ..before })
            } else {
                // They are gone, so what the others said is all of it.
                &&& action is Installed
                &&& is_settled(after, before, ctx, popup.incomplete@, scorer)
            }
        } else {
            let kept = CompletionState {
                pending_completion: if !triggered && left_popup(popup, ctx.cursor_offset as int) {
                    None
                } else {
                    Some(popup)
                },
                ..before
            };
            fetched_to(after, action, kept, ctx, event)
        },
        None => fetched_to(after, action, before, ctx, event),
    }
}

/// What asking the sources afresh comes to.
pub open spec fn fetched_to(
    after: CompletionState,
    action: TriggerAction,
    before: CompletionState,
    ctx: ContextOwned,
    event: TriggerEvent,
) -> bool {
    let typed = typed_trigger(event.hosts@, ctx.text_before_cursor@);
    let wanted = asked_sources(ctx, typed is Some);
    if wanted.len() == 0 {
        &&& action is Idle
        &&& after == (CompletionState {
            pending_completion_request: false,
            pending_completion: None,
            ..before
        })
    } else {
        &&& action matches TriggerAction::Fetch { context, sources, lsp, immediate } && context
            == ctx && sources@ == wanted && immediate == (typed is Some) && lsp == (
        if wanted.contains(CompletionSource::Lsp) && event.hosts@.len() > 0 {
            Some(
                match typed {
                    Some(ch) => LspTrigger::Typed(ch),
                    None => LspTrigger::Invoked,
                },
            )
        } else {
            None
        })
        &&& after == (CompletionState { pending_completion_request: true, ..before })
    }
}

/// What an event comes to, from the state `before` to `after` and `action`.
pub open spec fn triggered_to<S: Fn(&Vec<String>, &str) -> Option<Vec<(usize, u32)>>>(
    after: CompletionState,
    action: TriggerAction,
    before: CompletionState,
    event: TriggerEvent,
    scorer: S,
) -> bool {
    if !event.armed {
        // Outside insert mode there is nothing to complete.
        &&& action is Idle
        &&& after == (CompletionState {
            pending_completion_request: false,
            pending_completion: None,
            last_completion_signature: None,
            active_snippet: false,
            ..before
        })
    } else {
        match event.probe {
            None => action is Idle && after == before,
            Some((buffer, version, cursor)) => if before.last_completion_signature == Some(
                (buffer, version),
            ) {
                // Nothing was edited; a motion may have left the popup.
                &&& action is Idle
                &&& after == (CompletionState {
                    pending_completion: match before.pending_completion {
                        Some(popup) => if left_popup(popup, cursor as int) {
                            None
                        } else {
                            Some(popup)
                        },
                        None => None,
                    },
                    ..before
                })
            } else {
                let noted = CompletionState {
                    last_completion_signature: Some((buffer, version)),
                    ..before
                };
                match event.text {
                    None => action is Idle && after == noted,
                    Some(text) => exists|ctx: ContextOwned|
                        #![trigger is_context(ctx, text_before(text@, held_cursor(text@, cursor)), held_cursor(text@, cursor))]
                        is_context(
                            ctx,
                            text_before(text@, held_cursor(text@, cursor)),
                            held_cursor(text@, cursor),
                        ) && edited_to(
                            after,
                            action,
                            CompletionState {
                                completion_context: Some(((buffer, version, cursor), ctx)),
                                ..noted
                            },
                            ctx,
                            event,
                            scorer,
                        ),
                }
            },
        }
    }
}

/// A place that completion already looked at asks nothing: until the buffer is
/// edited, an event arms no request, and at most closes a popup that the
/// cursor left. So a popup that was dismissed, or an item that was accepted,
/// does not come straight back.
pub proof fn an_unedited_buffer_asks_nothing<S: Fn(&Vec<String>, &str) -> Option<Vec<(usize, u32)>>>(
    after: CompletionState,
    action: TriggerAction,
    before: CompletionState,
    event: TriggerEvent,
    scorer: S,
)
    requires
        event.armed,
        event.probe matches Some((buffer, version, _)) && before.last_completion_signature == Some(
            (buffer, version),
        ),
        triggered_to(after, action, before, event, scorer),
    ensures
        action is Idle,
        after == (CompletionState { pending_completion: after.pending_completion, ..before }),
        after.pending_completion is None || after.pending_completion == before.pending_completion,
{
}

/// Per-event entry point. In insert mode in an editor pane, looks at what the
/// cursor stands behind and says which sources to ask. Otherwise it clears the
/// popup, any request and the signature, so that re-entering insert mode
/// starts from a clean slate.
///
/// `scorer` says how well texts answer a prefix: it gives the places of those
/// that match, each with its score, or nothing where the prefix asks nothing.
pub fn trigger<S: Fn(&Vec<String>, &str) -> Option<Vec<(usize, u32)>>>(
    state: &mut CompletionState,
    event: &TriggerEvent,
    scorer: &S,
) -> (action: TriggerAction)
    requires
        old(state).pending_completion matches Some(popup) ==> popup.wf(),
        scores_anything(*scorer),
        event.text matches Some(text) ==> (event.probe matches Some((_, _, cursor)) ==> is_boundary(
            text@,
            held_cursor(text@, cursor),
        )),
    ensures
        triggered_to(*final(state), action, *old(state), *event, *scorer),
        final(state).pending_completion matches Some(popup) ==> popup.wf(),
{
    if !event.armed {
        state.pending_completion_request = false;
        state.pending_completion = None;
        state.last_completion_signature = None;
        state.active_snippet = false;
        return TriggerAction::Idle;
    }
    let (buffer, version, cursor): (u64, u64, usize) = match event.probe {
        Some(probe) => probe,
        None => {
            return TriggerAction::Idle;
        },
    };
    let unedited: bool = match state.last_completion_signature {
        Some(signature) => signature.0 == buffer && signature.1 == version,
        None => false,
    };
    if unedited {
        let left: bool = match &state.pending_completion {
            Some(popup) => cursor_left_popup(popup, cursor),
            None => false,
        };
        if left {
            state.pending_completion = None;
        }
        return TriggerAction::Idle;
    }
    state.last_completion_signature = Some((buffer, version));
    let text = match &event.text {
        Some(text) => text,
        None => {
            return TriggerAction::Idle;
        },
    };
    let ctx = compute_context(text.as_str(), cursor);
    state.completion_context = Some(((buffer, version, cursor), ctx.clone()));
    let ghost before = *state;
    let action = edited(state, event, ctx, scorer);
    assert(edited_to(*state, action, before, ctx, *event, *scorer));
    action
}

/// Answer an edit: narrow the open popup where it can answer for itself, ask
/// again those servers that stopped early, else ask all sources afresh.
fn edited<S: Fn(&Vec<String>, &str) -> Option<Vec<(usize, u32)>>>(
    state: &mut CompletionState,
    event: &TriggerEvent,
    ctx: ContextOwned,
    scorer: &S,
) -> (action: TriggerAction)
    requires
        old(state).pending_completion matches Some(popup) ==> popup.wf(),
        scores_anything(*scorer),
    ensures
        edited_to(*final(state), action, *old(state), ctx, *event, *scorer),
        final(state).pending_completion matches Some(popup) ==> popup.wf(),
{
    let typed: Option<char> = find_trigger(&event.hosts, ctx.text_before_cursor.as_str());
    if typed.is_none() {
        match refine_open_popup(state, &ctx, scorer) {
            Refine::Fresh => {
                let left: bool = match &state.pending_completion {
                    Some(popup) => cursor_left_popup(popup, ctx.cursor_offset),
                    None => false,
                };
                if left {
                    state.pending_completion = None;
                }
            },
            Refine::Done(popup) => {
                state.pending_completion_request = false;
                install_popup(state, popup);
                return TriggerAction::Installed;
            },
            Refine::Ask { servers } => {
                return ask_again(state, event, ctx, servers, scorer);
            },
        }
    }
    let ghost kept = *state;
    let sources = sources_to_ask(&ctx, typed.is_some());
    if sources.len() == 0 {
        state.pending_completion_request = false;
        state.pending_completion = None;
        let action = TriggerAction::Idle;
        assert(fetched_to(*state, action, kept, ctx, *event));
        return action;
    }
    let lsp: Option<LspTrigger> = if has_source(&sources, CompletionSource::Lsp)
        && event.hosts.len() > 0 {
        Some(
            match typed {
                Some(ch) => LspTrigger::Typed(ch),
                None => LspTrigger::Invoked,
            },
        )
    } else {
        None
    };
    state.pending_completion_request = true;
    let action = TriggerAction::Fetch { context: ctx, sources, lsp, immediate: typed.is_some() };
    assert(fetched_to(*state, action, kept, ctx, *event));
    action
}

/// What an open popup can do for a prefix that has grown since it was filled.
pub enum Refine {
    /// Nothing cached applies, so ask every source afresh.
    Fresh,
    /// The cached items answer this prefix outright.
    Done(CompletionPopup),
    /// These servers stopped early last time and are asked again.
    Ask { servers: Vec<String> },
}

/// Decide what the open popup can do for the prefix of `ctx`.
///
/// The cached items only answer a question narrower than the one they were
/// fetched for, so the prefix has to have grown at the same anchor and to
/// still start with what it grew from. A server that stopped early is
/// re-asked, and the popup stays up meanwhile.
pub fn refine_open_popup<S: Fn(&Vec<String>, &str) -> Option<Vec<(usize, u32)>>>(
    state: &mut CompletionState,
    ctx: &ContextOwned,
    scorer: &S,
) -> (refine: Refine)
    requires
        old(state).pending_completion matches Some(popup) ==> popup.wf(),
        scores_anything(*scorer),
    ensures
        match old(state).pending_completion {
            Some(popup) => if !grew(popup, *ctx) {
                refine is Fresh && *final(state) == *old(state)
            } else if popup.incomplete@.len() > 0 {
                (refine matches Refine::Ask { servers } && servers@ == popup.incomplete@)
                    && *final(state) == *old(state)
            } else {
                (refine matches Refine::Done(narrower) && narrower.wf() && narrowed(
                    narrower,
                    popup,
                    *ctx,
                    Seq::empty(),
                    *scorer,
                )) && *final(state) == (CompletionState { pending_completion: None, ..*old(state) })
            },
            None => refine is Fresh && *final(state) == *old(state),
        },
{
    match &state.pending_completion {
        Some(popup) => {
            if !has_grown(popup, ctx) {
                return Refine::Fresh;
            }
            if popup.incomplete.len() > 0 {
                return Refine::Ask { servers: copied_strings(&popup.incomplete) };
            }
        },
        None => {
            return Refine::Fresh;
        },
    }
    match state.pending_completion.take() {
        Some(popup) => {
            let none: Vec<String> = Vec::new();
            assert(none@ =~= Seq::<String>::empty());
            Refine::Done(narrow(popup, ctx, &none, scorer))
        },
        None => Refine::Fresh,
    }
}

/// Ask `servers` again for a prefix they answered incompletely, leaving the
/// open popup up until the answer lands. Where none of them is there to ask
/// any more, the popup is narrowed to what the others said.
pub fn ask_again<S: Fn(&Vec<String>, &str) -> Option<Vec<(usize, u32)>>>(
    state: &mut CompletionState,
    event: &TriggerEvent,
    ctx: ContextOwned,
    servers: Vec<String>,
    scorer: &S,
) -> (action: TriggerAction)
    requires
        old(state).pending_completion matches Some(popup) ==> popup.wf(),
        scores_anything(*scorer),
    ensures
        final(state).pending_completion matches Some(popup) ==> popup.wf(),
        if some_named(event.hosts@, servers@) && event.has_path {
            (action matches TriggerAction::AskAgain { context, servers: asked } && context == ctx
                && asked@ == servers@) && *final(state) == (CompletionState {
                pending_completion_request: true,
                ..*old(state)
            })
        } else {
            action is Installed && is_settled(*final(state), *old(state), ctx, servers@, *scorer)
        },
{
    if any_named(&event.hosts, &servers) && event.has_path {
        state.pending_completion_request = true;
        return TriggerAction::AskAgain { context: ctx, servers };
    }
    let ghost before = *state;
    state.pending_completion_request = false;
    match state.pending_completion.take() {
        Some(popup) => {
            let narrower = narrow(popup, &ctx, &servers, scorer);
            assert(narrowed(narrower, before.pending_completion->0, ctx, servers@, *scorer));
            install_popup(state, narrower);
        },
        None => {},
    }
    TriggerAction::Installed
}

/// `after` is `before` with its popup narrowed to what the servers that are
/// not `stale` said, and no request in flight.
pub open spec fn is_settled<S: Fn(&Vec<String>, &str) -> Option<Vec<(usize, u32)>>>(
    after: CompletionState,
    before: CompletionState,
    ctx: ContextOwned,
    stale: Seq<String>,
    scorer: S,
) -> bool {
    let done = CompletionState {
        pending_completion_request: false,
        pending_completion: None,
        ..before
    };
    match before.pending_completion {
        Some(popup) => exists|narrower: CompletionPopup| #[trigger]
            narrowed(narrower, popup, ctx, stale, scorer) && installed(after, done, narrower),
        None => after == done,
    }
}

// ---------------------------------------------------------------------------
// Answers
// ---------------------------------------------------------------------------

/// The items that rows name, in the order of the rows.
pub open spec fn named_items(items: Seq<CompletionItem>, rows: Seq<(u32, u32)>) -> Seq<CompletionItem> {
    Seq::new(rows.len(), |i: int| items[rows[i].0 as int])
}

/// `kept` are the rows of the open popup that a re-ask of `asked` keeps.
pub open spec fn are_kept<S: Fn(&Vec<String>, &str) -> Option<Vec<(usize, u32)>>>(
    kept: Seq<(u32, u32)>,
    open: Option<CompletionPopup>,
    asked: Seq<String>,
    prefix: Seq<char>,
    scorer: S,
) -> bool {
    match open {
        Some(popup) => survives(kept, popup.items@, popup.matches@, asked, prefix, scorer),
        None => kept.len() == 0,
    }
}

/// The items that the rows kept of an open popup name.
pub open spec fn kept_items(open: Option<CompletionPopup>, kept: Seq<(u32, u32)>) -> Seq<
    CompletionItem,
> {
    match open {
        Some(popup) => named_items(popup.items@, kept),
        None => Seq::empty(),
    }
}

/// `popup` is what `fresh` and the open popup come to: what the open popup
/// still holds from elsewhere, and the fresh answers behind, ranked together.
pub open spec fn is_refill<S: Fn(&Vec<String>, &str) -> Option<Vec<(usize, u32)>>>(
    popup: CompletionPopup,
    open: Option<CompletionPopup>,
    fresh: CompletionPopup,
    asked: Seq<String>,
    scorer: S,
) -> bool {
    &&& exists|kept: Seq<(u32, u32)>| #[trigger]
        are_kept(kept, open, asked, fresh.prefix@, scorer) && popup.items@ == kept_items(open, kept)
            + fresh.items@
    &&& is_ranking(popup.matches@, popup.items@, fresh.prefix@, scorer)
    &&& popup.selected_idx == 0
    &&& popup.anchor_offset == fresh.anchor_offset
    &&& popup.prefix_range == fresh.prefix_range
    &&& popup.prefix == fresh.prefix
    &&& popup.incomplete == fresh.incomplete
}

/// The open popup and the fresh answers are few enough to number together.
pub open spec fn can_refill(open: Option<CompletionPopup>, fresh: CompletionPopup) -> bool {
    &&& open matches Some(popup) ==> popup.wf() && popup.matches@.len() + fresh.items@.len()
        <= u32::MAX
    &&& fresh.items@.len() <= u32::MAX
}

/// Merge a re-ask's answer with what the popup it was asked for still holds.
///
/// A popup gone by now was accepted or dismissed mid-flight, and reviving what
/// it held would undo that, so only the fresh items install.
pub fn install_refill<S: Fn(&Vec<String>, &str) -> Option<Vec<(usize, u32)>>>(
    state: &mut CompletionState,
    fresh: CompletionPopup,
    asked: Vec<String>,
    scorer: &S,
)
    requires
        can_refill(old(state).pending_completion, fresh),
        scores_anything(*scorer),
    ensures
        final(state).pending_completion matches Some(popup) ==> popup.wf(),
        exists|popup: CompletionPopup|
            #![trigger is_refill(popup, old(state).pending_completion, fresh, asked@, *scorer)]
            is_refill(popup, old(state).pending_completion, fresh, asked@, *scorer) && installed(
                *final(state),
                CompletionState { pending_completion: None, ..*old(state) },
                popup,
            ),
{
    let ghost open = state.pending_completion;
    let mut items: Vec<CompletionItem> = Vec::new();
    let ghost mut kept: Seq<(u32, u32)> = Seq::empty();
    match state.pending_completion.take() {
        Some(popup) => {
            let rows = surviving(
                &popup.items,
                &popup.matches,
                &asked,
                fresh.prefix.as_str(),
                scorer,
            );
            proof {
                kept = rows@;
            }
            for i in 0..rows.len()
                invariant
                    rows_name(popup.items@, rows@),
                    items@ == named_items(popup.items@, rows@).take(i as int),
            {
                let row: (u32, u32) = rows[i];
                items.push(popup.items[row.0 as usize].clone());
                assert(items@ =~= named_items(popup.items@, rows@).take(i + 1));
            }
            assert(items@ =~= named_items(popup.items@, rows@));
        },
        None => {
            assert(items@ =~= Seq::empty());
        },
    }
    assert(are_kept(kept, open, asked@, fresh.prefix@, *scorer));
    assert(items@ == kept_items(open, kept));
    extend_items(&mut items, &fresh.items);
    let matches = rank_by_prefix(&items, fresh.prefix.as_str(), scorer);
    let popup = CompletionPopup {
        items,
        matches,
        selected_idx: 0,
        anchor_offset: fresh.anchor_offset,
        prefix_range: fresh.prefix_range,
        prefix: fresh.prefix,
        incomplete: fresh.incomplete,
    };
    assert(is_refill(popup, open, fresh, asked@, *scorer));
    install_popup(state, popup);
}

/// Take what polling the completion request gave: a full answer is installed
/// outright, a re-ask is merged into what is open. Returns `true` when a
/// result landed.
pub fn pump<S: Fn(&Vec<String>, &str) -> Option<Vec<(usize, u32)>>>(
    state: &mut CompletionState,
    polled: Polled<RequestOutcome>,
    scorer: &S,
) -> (landed: bool)
    requires
        old(state).pending_completion matches Some(popup) ==> popup.wf(),
        polled matches Polled::Ready(RequestOutcome::Replace(popup)) ==> popup.wf(),
        polled matches Polled::Ready(RequestOutcome::Refill { fresh, asked }) ==> can_refill(
            old(state).pending_completion,
            fresh,
        ),
        scores_anything(*scorer),
    ensures
        final(state).pending_completion matches Some(popup) ==> popup.wf(),
        landed == (old(state).pending_completion_request && polled is Ready),
        !landed ==> *final(state) == *old(state),
        landed ==> ({
            let done = CompletionState { pending_completion_request: false, ..*old(state) };
            match polled->0 {
                RequestOutcome::Replace(popup) => installed(*final(state), done, popup),
                RequestOutcome::Refill { fresh, asked } => exists|popup: CompletionPopup|
                    #![trigger is_refill(popup, old(state).pending_completion, fresh, asked@, *scorer)]
                    is_refill(
                        popup,
                        old(state).pending_completion,
                        fresh,
                        asked@,
                        *scorer,
                    ) && installed(
                        *final(state),
                        CompletionState { pending_completion: None, ..done },
                        popup,
                    ),
            }
        }),
{
    if !state.pending_completion_request {
        return false;
    }
    match polled {
        Polled::Ready(outcome) => {
            state.pending_completion_request = false;
            match outcome {
                RequestOutcome::Replace(popup) => {
                    install_popup(state, popup);
                },
                RequestOutcome::Refill { fresh, asked } => {
                    install_refill(state, fresh, asked, scorer);
                },
            }
            true
        },
        Polled::Pending => false,
    }
}

/// What one server answered.
pub struct ServerAnswer {
    pub server: String,
    pub answer: Answer,
}

/// The items of the first `n` answers.
pub open spec fn answered_items(answers: Seq<ServerAnswer>, n: nat) -> Seq<CompletionItem>
    decreases n,
{
    if n == 0 {
        Seq::empty()
    } else {
        answered_items(answers, (n - 1) as nat) + answers[n - 1].answer.items@
    }
}

/// The servers among the first `n` that stopped early.
pub open spec fn incomplete_servers(answers: Seq<ServerAnswer>, n: nat) -> Seq<Seq<char>>
    decreases n,
{
    if n == 0 {
        Seq::empty()
    } else if answers[n - 1].answer.complete {
        incomplete_servers(answers, (n - 1) as nat)
    } else {
        incomplete_servers(answers, (n - 1) as nat).push(answers[n - 1].server@)
    }
}

/// What the paths and the servers among the first `n` sources answered, one
/// after the other.
pub open spec fn gathered_first(
    sources: Seq<CompletionSource>,
    paths: Seq<CompletionItem>,
    answers: Seq<ServerAnswer>,
    n: nat,
) -> Seq<CompletionItem>
    decreases n,
{
    if n == 0 {
        Seq::empty()
    } else {
        gathered_first(sources, paths, answers, (n - 1) as nat) + (match sources[n - 1] {
            CompletionSource::Path => paths,
            CompletionSource::Lsp => answered_items(answers, answers.len()),
            CompletionSource::Word => Seq::empty(),
        })
    }
}

/// What the sources answered, one after the other. The words come last, as
/// their source does.
pub open spec fn gathered(
    sources: Seq<CompletionSource>,
    paths: Seq<CompletionItem>,
    answers: Seq<ServerAnswer>,
    words: Seq<CompletionItem>,
) -> Seq<CompletionItem> {
    gathered_first(sources, paths, answers, sources.len()) + (if sources.contains(
        CompletionSource::Word,
    ) {
        words
    } else {
        Seq::empty()
    })
}

fn extend_items(items: &mut Vec<CompletionItem>, more: &Vec<CompletionItem>)
    ensures
        final(items)@ == old(items)@ + more@,
{
    let ghost before = items@;
    for i in 0..more.len()
        invariant
            items@ == before + more@.take(i as int),
    {
        items.push(more[i].clone());
        assert(items@ =~= before + more@.take(i + 1));
    }
    assert(more@.take(more.len() as int) =~= more@);
}

/// What the sources answered, in the order of the sources, and the servers
/// that stopped early.
pub fn gather(
    sources: &Vec<CompletionSource>,
    paths: &Vec<CompletionItem>,
    answers: &Vec<ServerAnswer>,
    words: &Vec<CompletionItem>,
) -> (r: (Vec<CompletionItem>, Vec<String>))
    ensures
        r.0@ == gathered(sources@, paths@, answers@, words@),
        texts(r.1@) == (if sources@.contains(CompletionSource::Lsp) {
            incomplete_servers(answers@, answers@.len())
        } else {
            Seq::empty()
        }),
{
    let mut items: Vec<CompletionItem> = Vec::new();
    let mut k: usize = 0;
    while k < sources.len()
        invariant
            k <= sources.len(),
            items@ == gathered_first(sources@, paths@, answers@, k as nat),
        decreases sources.len() - k,
    {
        match sources[k] {
            CompletionSource::Path => {
                extend_items(&mut items, paths);
            },
            CompletionSource::Lsp => {
                let ghost before = items@;
                let mut a: usize = 0;
                assert(before + answered_items(answers@, 0) =~= before);
                while a < answers.len()
                    invariant
                        a <= answers.len(),
                        items@ == before + answered_items(answers@, a as nat),
                    decreases answers.len() - a,
                {
                    extend_items(&mut items, &answers[a].answer.items);
                    a = a + 1;
                    assert(items@ =~= before + answered_items(answers@, a as nat));
                }
            },
            CompletionSource::Word => {
                assert(items@ + Seq::<CompletionItem>::empty() =~= items@);
            },
        }
        k = k + 1;
    }
    if has_source(sources, CompletionSource::Word) {
        extend_items(&mut items, words);
    } else {
        assert(items@ + Seq::<CompletionItem>::empty() =~= items@);
    }
    let mut incomplete: Vec<String> = Vec::new();
    assert(texts(incomplete@) =~= Seq::empty());
    if has_source(sources, CompletionSource::Lsp) {
        let mut a: usize = 0;
        while a < answers.len()
            invariant
                a <= answers.len(),
                texts(incomplete@) == incomplete_servers(answers@, a as nat),
            decreases answers.len() - a,
        {
            let ghost before = incomplete@;
            if !answers[a].answer.complete {
                incomplete.push(answers[a].server.clone());
                assert(texts(incomplete@) =~= texts(before).push(
                    answers@[a as int].server@,
                ));
            }
            a = a + 1;
        }
    }
    (items, incomplete)
}

/// The popup of a full answer to the context `ctx`, its items ranked by how
/// well each answers the prefix.
pub fn filled_popup<S: Fn(&Vec<String>, &str) -> Option<Vec<(usize, u32)>>>(
    ctx: ContextOwned,
    items: Vec<CompletionItem>,
    incomplete: Vec<String>,
    scorer: &S,
) -> (popup: CompletionPopup)
    requires
        items@.len() <= u32::MAX,
        scores_anything(*scorer),
    ensures
        popup.wf(),
        popup.items == items,
        is_ranking(popup.matches@, items@, ctx.prefix@, *scorer),
        popup.selected_idx == 0,
        popup.anchor_offset == ctx.prefix_range.start,
        popup.prefix_range == ctx.prefix_range,
        popup.prefix == ctx.prefix,
        popup.incomplete == incomplete,
{
    let matches = rank_by_prefix(&items, ctx.prefix.as_str(), scorer);
    CompletionPopup {
        items,
        matches,
        selected_idx: 0,
        anchor_offset: ctx.prefix_range.start,
        prefix_range: ctx.prefix_range,
        prefix: ctx.prefix,
        incomplete,
    }
}

// ---------------------------------------------------------------------------
// Requests
// ---------------------------------------------------------------------------

/// Quiet window from the most recent keystroke before a completion request is
/// dispatched, in milliseconds. Each new keystroke restarts it.
pub const COMPLETION_DEBOUNCE_MS: u64 = 150;

/// What one server is asked, in the encoding it negotiated.
#[derive(Debug, PartialEq, Eq)]
pub struct LspQuestion {
    pub server: String,
    pub encoding: OffsetEncoding,
    pub context: HostContext,
}

/// `question` is what `host` is asked on account of `trigger`.
pub open spec fn is_question(question: LspQuestion, host: CompletionHost, trigger: LspTrigger) -> bool {
    &&& question.server@ == host.name@
    &&& question.encoding == host.encoding
    &&& question.context == asked_with(host.trigger_characters, trigger)
}

/// `questions` are what `hosts` are asked, each in its turn.
pub open spec fn are_questions(
    questions: Seq<LspQuestion>,
    hosts: Seq<CompletionHost>,
    trigger: LspTrigger,
) -> bool {
    &&& questions.len() == hosts.len()
    &&& forall|i: int|
        0 <= i < questions.len() ==> is_question(#[trigger] questions[i], hosts[i], trigger)
}

fn question(host: &CompletionHost, trigger: LspTrigger) -> (q: LspQuestion)
    ensures
        is_question(q, *host, trigger),
{
    LspQuestion {
        server: host.name.clone(),
        encoding: host.encoding,
        context: host_context(&host.trigger_characters, trigger),
    }
}

/// What the servers are asked for a fresh answer. A buffer without a file has
/// no name that a server would know, so none is asked.
pub fn lsp_questions(hosts: &Vec<CompletionHost>, lsp: Option<LspTrigger>, has_path: bool) -> (questions:
    Vec<LspQuestion>)
    ensures
        match lsp {
            Some(trigger) => if has_path {
                are_questions(questions@, hosts@, trigger)
            } else {
                questions@.len() == 0
            },
            None => questions@.len() == 0,
        },
{
    let mut questions: Vec<LspQuestion> = Vec::new();
    match lsp {
        Some(trigger) => {
            if has_path {
                for i in 0..hosts.len()
                    invariant
                        are_questions(questions@, hosts@.take(i as int), trigger),
                {
                    questions.push(question(&hosts[i], trigger));
                    assert(hosts@.take(i + 1) =~= hosts@.take(i as int).push(hosts@[i as int]));
                }
                assert(hosts@.take(hosts.len() as int) =~= hosts@);
            }
        },
        None => {},
    }
    questions
}

/// The hosts among the first `n` that are named in `names`.
pub open spec fn named_hosts(hosts: Seq<CompletionHost>, names: Seq<String>, n: nat) -> Seq<
    CompletionHost,
>
    decreases n,
{
    if n == 0 {
        Seq::empty()
    } else if names_one(names, hosts[n - 1].name@) {
        named_hosts(hosts, names, (n - 1) as nat).push(hosts[n - 1])
    } else {
        named_hosts(hosts, names, (n - 1) as nat)
    }
}

/// What the servers that stopped early are asked again.
pub fn questions_again(hosts: &Vec<CompletionHost>, servers: &Vec<String>) -> (questions: Vec<
    LspQuestion,
>)
    ensures
        are_questions(
            questions@,
            named_hosts(hosts@, servers@, hosts@.len()),
            LspTrigger::Incomplete,
        ),
{
    let mut questions: Vec<LspQuestion> = Vec::new();
    for i in 0..hosts.len()
        invariant
            are_questions(
                questions@,
                named_hosts(hosts@, servers@, i as nat),
                LspTrigger::Incomplete,
            ),
    {
        if has_name(servers, hosts[i].name.as_str()) {
            questions.push(question(&hosts[i], LspTrigger::Incomplete));
        }
    }
    questions
}

/// What came back from one server, `None` where it failed or had no answer.
#[derive(Debug, PartialEq, Eq)]
pub struct ServerReply {
    pub server: String,
    pub reply: Option<LspResponse>,
}

/// The items of a reply.
pub open spec fn reply_items(reply: Option<LspResponse>) -> Seq<LspItem> {
    match reply {
        Some(LspResponse::Array(items)) => items@,
        Some(LspResponse::List { items, .. }) => items@,
        None => Seq::empty(),
    }
}

/// The server called its list complete.
pub open spec fn reply_complete(reply: Option<LspResponse>) -> bool {
    match reply {
        Some(LspResponse::Array(_)) => true,
        Some(LspResponse::List { is_incomplete, .. }) => !is_incomplete,
        None => false,
    }
}

/// `answer` is what `reply` says in the popup's own terms.
pub open spec fn is_answer(answer: ServerAnswer, reply: ServerReply, prefix_range: Range<usize>) -> bool {
    &&& answer.server@ == reply.server@
    &&& answer.answer.complete == reply_complete(reply.reply)
    &&& answer.answer.items@.len() == reply_items(reply.reply).len()
    &&& forall|i: int|
        0 <= i < answer.answer.items@.len() ==> is_translation(
            #[trigger] answer.answer.items@[i],
            reply_items(reply.reply)[i],
            reply.server@,
            prefix_range,
        )
}

/// `answers` are what `replies` say, each in its turn.
pub open spec fn are_answers(
    answers: Seq<ServerAnswer>,
    replies: Seq<ServerReply>,
    prefix_range: Range<usize>,
) -> bool {
    &&& answers.len() == replies.len()
    &&& forall|i: int|
        0 <= i < answers.len() ==> is_answer(#[trigger] answers[i], replies[i], prefix_range)
}

/// The number of items in the first `n` replies.
pub open spec fn items_offered(replies: Seq<ServerReply>, n: nat) -> nat
    decreases n,
{
    if n == 0 {
        0
    } else {
        items_offered(replies, (n - 1) as nat) + reply_items(replies[n - 1].reply).len()
    }
}

proof fn lemma_answered_count(
    answers: Seq<ServerAnswer>,
    replies: Seq<ServerReply>,
    prefix_range: Range<usize>,
    n: nat,
)
    requires
        are_answers(answers, replies, prefix_range),
        n <= answers.len(),
    ensures
        answered_items(answers, n).len() == items_offered(replies, n),
    decreases n,
{
    if n > 0 {
        lemma_answered_count(answers, replies, prefix_range, (n - 1) as nat);
        assert(is_answer(answers[n - 1], replies[n - 1], prefix_range));
    }
}

fn answers_of(ctx: &ContextOwned, replies: Vec<ServerReply>) -> (answers: Vec<ServerAnswer>)
    ensures
        are_answers(answers@, replies@, ctx.prefix_range),
{
    let mut answers: Vec<ServerAnswer> = Vec::new();
    for reply in it: replies
        invariant
            it.seq() == replies@,
            are_answers(answers@, replies@.take(it.index() as int), ctx.prefix_range),
    {
        let ghost at = it.index() as int;
        let server = reply.server;
        let (raw, complete) = fetched(reply.reply);
        assert(raw@ =~= reply_items(reply.reply));
        let items = translate_all(raw, server.as_str(), &ctx.as_borrowed());
        answers.push(ServerAnswer { server, answer: Answer { items, complete } });
        assert(is_answer(answers@[at], replies@[at], ctx.prefix_range));
        assert(replies@.take(at + 1) =~= replies@.take(at).push(replies@[at]));
    }
    assert(replies@.take(replies@.len() as int) =~= replies@);
    answers
}

/// `paths`, `answers` and `words` are what the sources say, each where it is
/// asked: the entries listed, the servers' replies and the words of `text`.
pub open spec fn sources_say(
    paths: Seq<CompletionItem>,
    answers: Seq<ServerAnswer>,
    words: Seq<CompletionItem>,
    ctx: ContextOwned,
    sources: Seq<CompletionSource>,
    listing: Option<Vec<DirEntry>>,
    replies: Seq<ServerReply>,
    text: Seq<char>,
) -> bool {
    &&& sources.contains(CompletionSource::Path) ==> match (
        wanted_path(ctx.text_before_cursor@),
        listing,
    ) {
        (Some(path), Some(entries)) => are_entry_items(
            paths,
            entries@,
            split_suffix(path).1,
            ctx.cursor_offset,
        ),
        _ => paths.len() == 0,
    }
    &&& are_answers(answers, replies, ctx.prefix_range)
    &&& sources.contains(CompletionSource::Word) ==> are_word_items(
        words,
        text,
        ctx.prefix@,
        ctx.prefix_range,
    )
}

/// `popup` shows what the sources say, ranked by how well each item answers the
/// prefix.
pub open spec fn is_filled<S: Fn(&Vec<String>, &str) -> Option<Vec<(usize, u32)>>>(
    popup: CompletionPopup,
    ctx: ContextOwned,
    sources: Seq<CompletionSource>,
    paths: Seq<CompletionItem>,
    answers: Seq<ServerAnswer>,
    words: Seq<CompletionItem>,
    scorer: S,
) -> bool {
    &&& popup.items@ == gathered(sources, paths, answers, words)
    &&& is_ranking(popup.matches@, popup.items@, ctx.prefix@, scorer)
    &&& popup.selected_idx == 0
    &&& popup.anchor_offset == ctx.prefix_range.start
    &&& popup.prefix_range == ctx.prefix_range
    &&& popup.prefix@ == ctx.prefix@
    &&& texts(popup.incomplete@) == (if sources.contains(CompletionSource::Lsp) {
        incomplete_servers(answers, answers.len())
    } else {
        Seq::empty()
    })
}

/// `popup` is the answer to a full request with this context.
pub open spec fn answers_request<S: Fn(&Vec<String>, &str) -> Option<Vec<(usize, u32)>>>(
    popup: CompletionPopup,
    ctx: ContextOwned,
    sources: Seq<CompletionSource>,
    listing: Option<Vec<DirEntry>>,
    replies: Seq<ServerReply>,
    text: Seq<char>,
    scorer: S,
) -> bool {
    exists|paths: Seq<CompletionItem>, answers: Seq<ServerAnswer>, words: Seq<CompletionItem>|
        #![trigger is_filled(popup, ctx, sources, paths, answers, words, scorer)]
        is_filled(popup, ctx, sources, paths, answers, words, scorer) && sources_say(
            paths,
            answers,
            words,
            ctx,
            sources,
            listing,
            replies,
            text,
        )
}

/// The number of entries listed.
pub open spec fn entries_in(listing: Option<Vec<DirEntry>>) -> nat {
    match listing {
        Some(entries) => entries@.len(),
        None => 0,
    }
}

/// The most items that the paths and the servers among the first `n` sources
/// can answer, from so many entries listed and items offered.
pub open spec fn most_first(
    sources: Seq<CompletionSource>,
    entries: nat,
    offered: nat,
    n: nat,
) -> nat
    decreases n,
{
    if n == 0 {
        0
    } else {
        most_first(sources, entries, offered, (n - 1) as nat) + (match sources[n - 1] {
            CompletionSource::Path => entries,
            CompletionSource::Lsp => offered,
            CompletionSource::Word => 0,
        })
    }
}

/// Answer a full request from what the sources gave: the entries of the
/// directory that the path source names, the servers' replies, and the words
/// of the buffer. The items stand in the order of the sources and are ranked
/// by how well each answers the prefix.
pub fn run_request<S: Fn(&Vec<String>, &str) -> Option<Vec<(usize, u32)>>>(
    ctx: ContextOwned,
    sources: &Vec<CompletionSource>,
    listing: Option<Vec<DirEntry>>,
    replies: Vec<ServerReply>,
    text: &str,
    scorer: &S,
) -> (outcome: RequestOutcome)
    requires
        most_first(
            sources@,
            entries_in(listing),
            items_offered(replies@, replies@.len()),
            sources@.len(),
        ) + MAX_MATCHES <= u32::MAX,
        scores_anything(*scorer),
    ensures
        outcome matches RequestOutcome::Replace(popup) && popup.wf() && answers_request(
            popup,
            ctx,
            sources@,
            listing,
            replies@,
            text@,
            *scorer,
        ),
{
    let ghost given = listing;
    let paths: Vec<CompletionItem> = if has_source(sources, CompletionSource::Path) {
        path::fetch(&ctx.as_borrowed(), listing)
    } else {
        Vec::new()
    };
    let answers = answers_of(&ctx, replies);
    let words: Vec<CompletionItem> = if has_source(sources, CompletionSource::Word) {
        word::fetch(&ctx.as_borrowed(), text)
    } else {
        Vec::new()
    };
    proof {
        if wanted_path(ctx.text_before_cursor@) is Some && given is Some {
            lemma_matching_count(
                given->0@,
                split_suffix(wanted_path(ctx.text_before_cursor@)->0).1,
                given->0@.len(),
            );
        }
        suggestions_extend_the_prefix(text@, ctx.prefix@);
        lemma_answered_count(answers@, replies@, ctx.prefix_range, replies@.len());
        lemma_gathered_count(
            sources@,
            paths@,
            answers@,
            entries_in(given),
            items_offered(replies@, replies@.len()),
            sources@.len(),
        );
        assert(sources_say(
            paths@,
            answers@,
            words@,
            ctx,
            sources@,
            given,
            replies@,
            text@,
        ));
    }
    let (items, incomplete) = gather(sources, &paths, &answers, &words);
    let ghost asked = ctx;
    let popup = filled_popup(ctx, items, incomplete, scorer);
    assert(is_filled(popup, asked, sources@, paths@, answers@, words@, *scorer));
    RequestOutcome::Replace(popup)
}

proof fn lemma_gathered_count(
    sources: Seq<CompletionSource>,
    paths: Seq<CompletionItem>,
    answers: Seq<ServerAnswer>,
    entries: nat,
    offered: nat,
    n: nat,
)
    requires
        sources.contains(CompletionSource::Path) ==> paths.len() <= entries,
        answered_items(answers, answers.len()).len() <= offered,
        n <= sources.len(),
    ensures
        gathered_first(sources, paths, answers, n).len() <= most_first(
            sources,
            entries,
            offered,
            n,
        ),
    decreases n,
{
    if n > 0 {
        lemma_gathered_count(sources, paths, answers, entries, offered, (n - 1) as nat);
        assert(sources.contains(sources[n - 1]));
    }
}

/// Answer a re-ask from the servers' replies. The items go back as they came:
/// those still shown join them when they are installed.
pub fn refill(ctx: ContextOwned, replies: Vec<ServerReply>, servers: Vec<String>) -> (outcome:
    RequestOutcome)
    requires
        items_offered(replies@, replies@.len()) <= u32::MAX,
    ensures
        outcome matches RequestOutcome::Refill { fresh, asked } && asked == servers && is_reask(
            fresh,
            ctx,
            replies@,
        ),
{
    let answers = answers_of(&ctx, replies);
    let none: Vec<CompletionItem> = Vec::new();
    let mut sources: Vec<CompletionSource> = Vec::new();
    sources.push(CompletionSource::Lsp);
    let (items, incomplete) = gather(&sources, &none, &answers, &none);
    proof {
        lemma_answered_count(answers@, replies@, ctx.prefix_range, replies@.len());
        assert(sources@[0] == CompletionSource::Lsp);
        reveal_with_fuel(gathered_first, 2);
        assert(items@ =~= answered_items(answers@, answers@.len()));
    }
    let shown = CompletionPopup::showing(items);
    let fresh = CompletionPopup {
        items: shown.items,
        matches: shown.matches,
        selected_idx: shown.selected_idx,
        anchor_offset: ctx.prefix_range.start,
        prefix_range: ctx.prefix_range,
        prefix: ctx.prefix,
        incomplete,
    };
    assert(is_refill_answer(fresh, ctx, answers@));
    RequestOutcome::Refill { fresh, asked: servers }
}

/// `fresh` holds what these answers offer, in their order.
pub open spec fn is_refill_answer(
    fresh: CompletionPopup,
    ctx: ContextOwned,
    answers: Seq<ServerAnswer>,
) -> bool {
    &&& fresh.wf()
    &&& fresh.items@ == answered_items(answers, answers.len())
    &&& fresh.matches@ == Seq::new(fresh.items@.len(), |i: int| (i as u32, 0u32))
    &&& fresh.selected_idx == 0
    &&& fresh.anchor_offset == ctx.prefix_range.start
    &&& fresh.prefix_range == ctx.prefix_range
    &&& fresh.prefix == ctx.prefix
    &&& texts(fresh.incomplete@) == incomplete_servers(answers, answers.len())
}

/// `fresh` holds what the servers replied to a re-ask.
pub open spec fn is_reask(fresh: CompletionPopup, ctx: ContextOwned, replies: Seq<ServerReply>) -> bool {
    exists|answers: Seq<ServerAnswer>|
        are_answers(answers, replies, ctx.prefix_range) && #[trigger] is_refill_answer(
            fresh,
            ctx,
            answers,
        )
}

// ---------------------------------------------------------------------------
// Directories
// ---------------------------------------------------------------------------

/// The directory that relative paths are taken from in the file at
/// `source_path`: that of the file, else the root of the repository.
pub fn base_dir_for(source_path: Option<&str>, git_root: &str) -> (dir: String)
    ensures
        dir@ == (match source_path {
            Some(path) => match parent(path@) {
                Some(p) => p,
                None => git_root@,
            },
            None => git_root@,
        }),
{
    let above: Option<String> = match source_path {
        Some(path) => parent_path(path),
        None => None,
    };
    match above {
        Some(dir) => dir,
        None => git_root.to_owned(),
    }
}

// ---------------------------------------------------------------------------
// Laws of ranking
// ---------------------------------------------------------------------------

/// Ranking drops nothing: every item of a fresh popup stands in one of its
/// rows, whether the prefix matches it or not.
pub proof fn ranking_drops_nothing(
    items: Seq<CompletionItem>,
    prefix: Seq<char>,
    scores: Seq<Option<u32>>,
    k: int,
)
    requires
        scores.len() == items.len() <= u32::MAX,
        0 <= k < items.len(),
    ensures
        fresh_rows(items, prefix, scores).contains(all_rows(scores)[k]),
        fresh_rows(items, prefix, scores).len() == items.len(),
{
    let rows = all_rows(scores);
    if prefix.len() == 0 {
        assert(rows[k] == all_rows(scores)[k]);
    } else {
        let pass = by_sort_text(items, rows);
        let slots = slot_rows(items, rows, rows.len());
        assert(rows_name(items, rows));
        lemma_slot_rows(items, rows, rows.len());
        arranging_keeps_every_entry(sort_keys(items, slots), slots);
        if is_slot(items, rows, k) {
            lemma_slot_place(items, rows, k);
            let sorted = arranged(sort_keys(items, slots), slots);
            assert(slots.contains(rows[k])) by {
                assert(slots[slot_rows(items, rows, k as nat).len() as int] == rows[k]);
            }
            assert(sorted.contains(rows[k]));
            let i = choose|i: int| 0 <= i < sorted.len() && sorted[i] == rows[k];
            lemma_slot_at(items, rows, rows.len(), i);
            let m = choose|m: int|
                0 <= m < rows.len() && is_slot(items, rows, m) && slot_rows(
                    items,
                    rows,
                    m as nat,
                ).len() == i;
            assert(pass[m] == rows[k]);
        } else {
            assert(pass[k] == rows[k]);
        }
        assert(pass.contains(rows[k]));
        arranging_keeps_every_entry(score_keys(pass), pass);
    }
}

proof fn lemma_slot_place(items: Seq<CompletionItem>, rows: Seq<(u32, u32)>, k: int)
    requires
        0 <= k < rows.len(),
        rows_name(items, rows),
        is_slot(items, rows, k),
    ensures
        slot_rows(items, rows, k as nat).len() < slot_rows(items, rows, rows.len()).len(),
        slot_rows(items, rows, rows.len())[slot_rows(items, rows, k as nat).len() as int] == rows[k],
{
    lemma_slot_prefix(items, rows, (k + 1) as nat, rows.len());
    let upto = slot_rows(items, rows, (k + 1) as nat);
    let all = slot_rows(items, rows, rows.len());
    let at = slot_rows(items, rows, k as nat).len() as int;
    assert(all.take(upto.len() as int)[at] == upto[at]);
}

proof fn lemma_slot_prefix(items: Seq<CompletionItem>, rows: Seq<(u32, u32)>, n: nat, m: nat)
    requires
        n <= m <= rows.len(),
    ensures
        slot_rows(items, rows, n).len() <= slot_rows(items, rows, m).len(),
        slot_rows(items, rows, m).take(slot_rows(items, rows, n).len() as int) == slot_rows(
            items,
            rows,
            n,
        ),
    decreases m,
{
    if n < m {
        lemma_slot_prefix(items, rows, n, (m - 1) as nat);
        let shorter = slot_rows(items, rows, (m - 1) as nat);
        let count = slot_rows(items, rows, n).len() as int;
        assert(slot_rows(items, rows, m).take(count) =~= shorter.take(count));
    } else {
        let here = slot_rows(items, rows, n);
        assert(here.take(here.len() as int) =~= here);
    }
}

proof fn lemma_slot_at(items: Seq<CompletionItem>, rows: Seq<(u32, u32)>, n: nat, i: int)
    requires
        n <= rows.len(),
        0 <= i < slot_rows(items, rows, n).len(),
    ensures
        exists|m: int|
            0 <= m < n && is_slot(items, rows, m) && slot_rows(items, rows, m as nat).len() == i,
    decreases n,
{
    if n > 0 {
        let before = slot_rows(items, rows, (n - 1) as nat);
        if i < before.len() {
            lemma_slot_at(items, rows, (n - 1) as nat, i);
            let m = choose|m: int|
                0 <= m < n - 1 && is_slot(items, rows, m) && slot_rows(items, rows, m as nat).len()
                    == i;
            assert(is_slot(items, rows, m) && slot_rows(items, rows, m as nat).len() == i);
        } else {
            assert(is_slot(items, rows, n - 1) && slot_rows(items, rows, (n - 1) as nat).len()
                == i);
        }
    }
}

/// What ranking does to rows: it keeps each of them and adds none, and puts
/// those that score higher first. Between two that score alike and whose
/// servers gave a sort text, that text decides.
proof fn lemma_ranked(items: Seq<CompletionItem>, rows: Seq<(u32, u32)>)
    requires
        rows_name(items, rows),
        rows.len() <= usize::MAX,
    ensures
        ranked(items, rows).len() == rows.len(),
        forall|t: (u32, u32)| #[trigger] ranked(items, rows).contains(t) <==> rows.contains(t),
        forall|i: int, j: int|
            0 <= i < j < rows.len() ==> (#[trigger] ranked(items, rows)[i]).1 >= (#[trigger] ranked(
                items,
                rows,
            )[j]).1,
        forall|i: int, j: int|
            0 <= i < j < rows.len() && (#[trigger] ranked(items, rows)[i]).1 == (#[trigger] ranked(
                items,
                rows,
            )[j]).1 ==> (match (
                sort_text_of(items[ranked(items, rows)[i].0 as int]),
                sort_text_of(items[ranked(items, rows)[j].0 as int]),
            ) {
                (Some(a), Some(b)) => !lex_before(b@, a@),
                _ => true,
            }),
{
    let pass = by_sort_text(items, rows);
    let slots = slot_rows(items, rows, rows.len());
    let keys = sort_keys(items, slots);
    let sorted = arranged(keys, slots);
    lemma_slot_rows(items, rows, rows.len());
    arranging_keeps_every_entry(keys, slots);
    every_list_has_an_order(keys);
    let inner = the_order(keys);
    assert forall|t: (u32, u32)| pass.contains(t) <==> rows.contains(t) by {
        if pass.contains(t) {
            let k = choose|k: int| 0 <= k < pass.len() && pass[k] == t;
            if is_slot(items, rows, k) {
                lemma_slot_place(items, rows, k);
                let a = slot_rows(items, rows, k as nat).len() as int;
                assert(sorted.contains(sorted[a]));
                assert(slots.contains(t));
                let b = choose|b: int| 0 <= b < slots.len() && slots[b] == t;
                lemma_slot_at(items, rows, rows.len(), b);
                let m = choose|m: int|
                    0 <= m < rows.len() && is_slot(items, rows, m) && slot_rows(
                        items,
                        rows,
                        m as nat,
                    ).len() == b;
                lemma_slot_place(items, rows, m);
                assert(rows[m] == t);
            } else {
                assert(rows[k] == t);
            }
        }
        if rows.contains(t) {
            let k = choose|k: int| 0 <= k < rows.len() && rows[k] == t;
            if is_slot(items, rows, k) {
                lemma_slot_place(items, rows, k);
                assert(slots.contains(t)) by {
                    assert(slots[slot_rows(items, rows, k as nat).len() as int] == t);
                }
                assert(sorted.contains(t));
                let i = choose|i: int| 0 <= i < sorted.len() && sorted[i] == t;
                lemma_slot_at(items, rows, rows.len(), i);
                let m = choose|m: int|
                    0 <= m < rows.len() && is_slot(items, rows, m) && slot_rows(
                        items,
                        rows,
                        m as nat,
                    ).len() == i;
                assert(pass[m] == t);
            } else {
                assert(pass[k] == t);
            }
        }
    }
    let outer_keys = score_keys(pass);
    arranging_keeps_every_entry(outer_keys, pass);
    every_list_has_an_order(outer_keys);
    let outer = the_order(outer_keys);
    let all = ranked(items, rows);
    assert forall|i: int, j: int| 0 <= i < j < rows.len() implies (#[trigger] all[i]).1 >= (
    #[trigger] all[j]).1 by {
        assert(!outer_keys[outer[j] as int].ranks_before(outer_keys[outer[i] as int]));
    }
    assert forall|i: int, j: int|
        0 <= i < j < rows.len() && (#[trigger] all[i]).1 == (#[trigger] all[j]).1 implies (match (
        sort_text_of(items[all[i].0 as int]),
        sort_text_of(items[all[j].0 as int]),
    ) {
        (Some(a), Some(b)) => !lex_before(b@, a@),
        _ => true,
    }) by {
        let p = outer[i] as int;
        let q = outer[j] as int;
        assert(crate::order::read_before(outer_keys, p, q));
        assert(p < q);
        assert(all[i] == pass[p] && all[j] == pass[q]);
        if sort_text_of(items[all[i].0 as int]) is Some && sort_text_of(
            items[all[j].0 as int],
        ) is Some {
            assert(is_slot(items, rows, p));
            assert(is_slot(items, rows, q));
            lemma_slot_place(items, rows, p);
            lemma_slot_place(items, rows, q);
            lemma_slot_rows(items, rows, q as nat);
            let a = slot_rows(items, rows, p as nat).len() as int;
            let b = slot_rows(items, rows, q as nat).len() as int;
            assert(a < b);
            assert(!keys[inner[b] as int].ranks_before(keys[inner[a] as int]));
            assert(sorted[a] == slots[inner[a] as int]);
            assert(sorted[b] == slots[inner[b] as int]);
        }
    }
}

/// The popup shows every item once, whether the prefix matches it or not, those
/// that match it best first. What an item scores is what the scorer makes of
/// its filter text, or of its label where it has none; one that does not match
/// scores nothing. Without a prefix the items stay as the sources gave them.
pub proof fn the_best_match_comes_first<S: Fn(&Vec<String>, &str) -> Option<Vec<(usize, u32)>>>(
    rows: Seq<(u32, u32)>,
    items: Seq<CompletionItem>,
    prefix: Seq<char>,
    scorer: S,
)
    requires
        is_ranking(rows, items, prefix, scorer),
        items.len() <= u32::MAX,
    ensures
        rows.len() == items.len(),
        forall|k: int|
            0 <= k < items.len() ==> exists|i: int|
                0 <= i < rows.len() && (#[trigger] rows[i]).0 == #[trigger] (k as u32),
        forall|i: int| 0 <= i < rows.len() ==> (#[trigger] rows[i]).0 < items.len(),
        prefix.len() == 0 ==> forall|i: int| 0 <= i < rows.len() ==> (#[trigger] rows[i]).0 == i,
        prefix.len() > 0 ==> forall|i: int, j: int|
            0 <= i < j < rows.len() ==> (#[trigger] rows[i]).1 >= (#[trigger] rows[j]).1,
        item_texts(items).len() == items.len(),
        forall|i: int|
            0 <= i < items.len() ==> #[trigger] item_texts(items)[i] == (if items[i].lsp_item is Some
                && items[i].lsp_item->0.filter_text is Some {
                items[i].lsp_item->0.filter_text->0@
            } else {
                items[i].label@
            }),
        exists|scores: Seq<Option<u32>>| #[trigger]
            scored_by(scorer, item_texts(items), prefix, scores) && forall|i: int|
                0 <= i < rows.len() ==> (#[trigger] rows[i]).1 == (match scores[rows[i].0 as int] {
                    Some(score) => score,
                    None => 0,
                }),
{
    let scores = choose|scores: Seq<Option<u32>>| #[trigger]
        scored_by(scorer, item_texts(items), prefix, scores) && rows == fresh_rows(
            items,
            prefix,
            scores,
        );
    let plain = all_rows(scores);
    assert(scores.len() == items.len());
    if prefix.len() > 0 {
        lemma_ranked(items, plain);
    }
    assert forall|k: int| 0 <= k < items.len() implies exists|i: int|
        0 <= i < rows.len() && (#[trigger] rows[i]).0 == #[trigger] (k as u32) by {
        ranking_drops_nothing(items, prefix, scores, k);
        let i = choose|i: int| 0 <= i < rows.len() && rows[i] == plain[k];
        assert(rows[i].0 == k as u32);
    }
    assert forall|i: int| 0 <= i < rows.len() implies (#[trigger] rows[i]).0 < items.len()
        && rows[i].1 == (match scores[rows[i].0 as int] {
        Some(score) => score,
        None => 0,
    }) by {
        assert(rows.contains(rows[i]));
        assert(plain.contains(rows[i]));
    }
}

proof fn lemma_last_score(scored: Seq<(usize, u32)>, k: int, n: nat)
    requires
        n <= scored.len(),
    ensures
        match last_score(scored, k, n) {
            Some(score) => exists|i: int|
                0 <= i < n && #[trigger] scored[i] == (k as usize, score) && scored[i].0 == k,
            None => forall|i: int| 0 <= i < n ==> (#[trigger] scored[i]).0 != k,
        },
    decreases n,
{
    if n > 0 {
        if scored[n - 1].0 == k {
            assert(scored[n - 1] == (k as usize, scored[n - 1].1));
        } else {
            lemma_last_score(scored, k, (n - 1) as nat);
            match last_score(scored, k, n) {
                Some(score) => {
                    let i = choose|i: int|
                        0 <= i < n - 1 && #[trigger] scored[i] == (k as usize, score)
                            && scored[i].0 == k;
                    assert(scored[i] == (k as usize, score));
                },
                None => {},
            }
        }
    }
}

/// An item scores what the scorer said of its place, and does not match where
/// the scorer said nothing of it. A scorer that has nothing to ask rejects
/// nothing.
pub proof fn a_score_is_what_the_scorer_said(
    n: nat,
    scored: Option<Seq<(usize, u32)>>,
    scores: Seq<Option<u32>>,
    k: int,
)
    requires
        scores == score_list(n, scored),
        0 <= k < n,
    ensures
        scores.len() == n,
        scored is None ==> scores[k] is Some,
        scored is Some ==> (match scores[k] {
            Some(score) => exists|i: int|
                0 <= i < scored->0.len() && (#[trigger] scored->0[i]).0 == k && scored->0[i].1
                    == score,
            None => forall|i: int| 0 <= i < scored->0.len() ==> (#[trigger] scored->0[i]).0 != k,
        }),
{
    match scored {
        Some(list) => {
            lemma_last_score(list, k, list.len());
            match scores[k] {
                Some(score) => {
                    let i = choose|i: int|
                        0 <= i < list.len() && #[trigger] list[i] == (k as usize, score)
                            && list[i].0 == k;
                    assert(list[i].1 == score);
                },
                None => {},
            }
        },
        None => {},
    }
}

/// Where the prefix starts: behind the last character before the cursor that
/// is no letter, no digit and none of `_`, `/`, `.`, `-`, `~`. What is read
/// before the prefix is that one character, unless it ends the line above.
pub proof fn the_prefix_is_the_run_before_the_cursor(
    ctx: ContextOwned,
    before: Seq<char>,
    cursor: int,
    start: int,
)
    requires
        is_context(ctx, before, cursor),
        0 <= start <= before.len(),
        forall|i: int|
            start <= i < before.len() ==> is_letter_or_number(#[trigger] before[i]) || before[i]
                == '_' || before[i] == '/' || before[i] == '.' || before[i] == '-' || before[i]
                == '~',
        start > 0 ==> !(is_letter_or_number(before[start - 1]) || before[start - 1] == '_'
            || before[start - 1] == '/' || before[start - 1] == '.' || before[start - 1] == '-'
            || before[start - 1] == '~'),
    ensures
        ctx.cursor_offset == cursor,
        ctx.prefix@ == before.skip(start),
        ctx.prefix_range.start == byte_len(before.take(start)),
        ctx.prefix_range.end == cursor,
        start > 0 && before[start - 1] != '\n' ==> ctx.text_before_cursor@ == before.skip(start - 1),
        start == 0 || before[start - 1] == '\n' ==> ctx.text_before_cursor@ == before.skip(start),
{
    lemma_run_start(before, before.len() as int);
    let found = run_start(before, before.len() as int);
    if found < start {
        assert(word_or_path(before[start - 1]));
    } else if start < found {
        assert(word_or_path(before[found - 1]));
    }
}

proof fn lemma_scored_rows_all(rows: Seq<(u32, u32)>, scores: Seq<Option<u32>>, n: nat, j: int)
    requires
        n <= rows.len(),
        0 <= j < n,
        scores[j] is Some,
    ensures
        scored_rows(rows, scores, n).contains((rows[j].0, scores[j]->0)),
    decreases n,
{
    let all = scored_rows(rows, scores, n);
    if j == n - 1 {
        assert(all.last() == (rows[j].0, scores[j]->0));
    } else {
        lemma_scored_rows_all(rows, scores, (n - 1) as nat, j);
        let before = scored_rows(rows, scores, (n - 1) as nat);
        let i = choose|i: int| 0 <= i < before.len() && before[i] == (rows[j].0, scores[j]->0);
        assert(all[i] == before[i]);
    }
}

proof fn lemma_all_current(
    items: Seq<CompletionItem>,
    rows: Seq<(u32, u32)>,
    stale: Seq<String>,
    n: nat,
)
    requires
        n <= rows.len(),
        forall|i: int| 0 <= i < n ==> is_current(items[(#[trigger] rows[i]).0 as int], stale),
    ensures
        current_rows(items, rows, stale, n) == rows.take(n as int),
    decreases n,
{
    if n > 0 {
        lemma_all_current(items, rows, stale, (n - 1) as nat);
        assert(is_current(items[rows[n - 1].0 as int], stale));
        assert(rows.take(n as int) =~= rows.take(n - 1).push(rows[n - 1]));
    } else {
        assert(rows.take(0) =~= Seq::empty());
    }
}

/// Narrowing keeps every row that still matches, with its new score, and drops
/// every row that does not. The rows are those of items that no server in
/// `stale` answered with.
pub proof fn narrowing_keeps_what_still_matches<
    S: Fn(&Vec<String>, &str) -> Option<Vec<(usize, u32)>>,
>(
    left: Seq<(u32, u32)>,
    items: Seq<CompletionItem>,
    rows: Seq<(u32, u32)>,
    stale: Seq<String>,
    prefix: Seq<char>,
    scorer: S,
)
    requires
        survives(left, items, rows, stale, prefix, scorer),
        forall|i: int, j: int|
            #![trigger rows[i], stale[j]]
            0 <= i < rows.len() && 0 <= j < stale.len() && items[rows[i].0 as int].server is Some
                ==> items[rows[i].0 as int].server->0@ != stale[j]@,
    ensures
        exists|scores: Seq<Option<u32>>| #[trigger]
            scored_by(scorer, row_texts(items, rows), prefix, scores) && scores.len() == rows.len()
                && (forall|j: int|
                0 <= j < rows.len() && (#[trigger] scores[j]) is Some ==> left.contains(
                    (rows[j].0, scores[j]->0),
                )) && (forall|k: int|
                0 <= k < left.len() ==> was_scored(#[trigger] left[k], rows, scores)),
{
    let current = current_rows(items, rows, stale, rows.len());
    assert forall|i: int| 0 <= i < rows.len() implies is_current(
        items[(#[trigger] rows[i]).0 as int],
        stale,
    ) by {
        match items[rows[i].0 as int].server {
            Some(name) => {
                if names_one(stale, name@) {
                    let j = choose|j: int| 0 <= j < stale.len() && (#[trigger] stale[j])@ == name@;
                    assert(items[rows[i].0 as int].server->0@ != stale[j]@);
                }
            },
            None => {},
        }
    }
    lemma_all_current(items, rows, stale, rows.len());
    assert(rows.take(rows.len() as int) =~= rows);
    let scores = choose|scores: Seq<Option<u32>>| #[trigger]
        scored_by(scorer, row_texts(items, current), prefix, scores) && left == scored_rows(
            current,
            scores,
            current.len(),
        );
    assert(row_texts(items, rows).len() == rows.len());
    assert forall|j: int| 0 <= j < rows.len() && (#[trigger] scores[j]) is Some implies left.contains(
        (rows[j].0, scores[j]->0),
    ) by {
        lemma_scored_rows_all(rows, scores, rows.len(), j);
    }
    assert forall|k: int| 0 <= k < left.len() implies was_scored(#[trigger] left[k], rows, scores) by {
        lemma_scored_rows(rows, scores, rows.len(), k);
    }
}

/// `row` is one of `rows` with the score that it now has.
pub open spec fn was_scored(row: (u32, u32), rows: Seq<(u32, u32)>, scores: Seq<Option<u32>>) -> bool {
    exists|j: int|
        0 <= j < rows.len() && (#[trigger] rows[j]).0 == row.0 && scores[j] == Some(row.1)
}

/// A server that is asked again gives up the rows it had, and no other server
/// does.
pub proof fn a_reask_gives_up_the_servers_own_rows(
    items: Seq<CompletionItem>,
    rows: Seq<(u32, u32)>,
    stale: Seq<String>,
    j: int,
)
    requires
        0 <= j < rows.len(),
    ensures
        current_rows(items, rows, stale, rows.len()).contains(rows[j]) <==> (
        items[rows[j].0 as int].server is None || forall|i: int|
            0 <= i < stale.len() ==> (#[trigger] stale[i])@ != items[rows[j].0 as int].server->0@),
{
    let all = current_rows(items, rows, stale, rows.len());
    let item = items[rows[j].0 as int];
    if all.contains(rows[j]) {
        let k = choose|k: int| 0 <= k < all.len() && all[k] == rows[j];
        lemma_current_rows(items, rows, stale, rows.len(), k);
        assert(is_current(item, stale));
    } else {
        if is_current(item, stale) {
            lemma_current_kept(items, rows, stale, rows.len(), j);
        }
    }
    match item.server {
        Some(name) => {
            if !is_current(item, stale) {
                let i = choose|i: int| 0 <= i < stale.len() && (#[trigger] stale[i])@ == name@;
                assert(stale[i]@ == name@);
            }
        },
        None => {},
    }
}

proof fn lemma_current_kept(
    items: Seq<CompletionItem>,
    rows: Seq<(u32, u32)>,
    stale: Seq<String>,
    n: nat,
    j: int,
)
    requires
        n <= rows.len(),
        0 <= j < n,
        is_current(items[rows[j].0 as int], stale),
    ensures
        current_rows(items, rows, stale, n).contains(rows[j]),
    decreases n,
{
    let all = current_rows(items, rows, stale, n);
    if j == n - 1 {
        assert(all.last() == rows[j]);
    } else {
        lemma_current_kept(items, rows, stale, (n - 1) as nat, j);
        let before = current_rows(items, rows, stale, (n - 1) as nat);
        let i = choose|i: int| 0 <= i < before.len() && before[i] == rows[j];
        assert(all[i] == rows[j]);
    }
}

/// A narrowed popup holds the items it held, shows none that it did not show,
/// the best match first, with the first row highlighted. It stands for the new
/// prefix, and nobody is left to be asked.
pub proof fn a_narrowed_popup_shows_less<S: Fn(&Vec<String>, &str) -> Option<Vec<(usize, u32)>>>(
    after: CompletionPopup,
    before: CompletionPopup,
    ctx: ContextOwned,
    stale: Seq<String>,
    scorer: S,
)
    requires
        narrowed(after, before, ctx, stale, scorer),
        before.wf(),
        before.matches@.len() <= usize::MAX,
    ensures
        after.items == before.items,
        after.matches@.len() <= before.matches@.len(),
        forall|i: int|
            0 <= i < after.matches@.len() ==> exists|j: int|
                0 <= j < before.matches@.len() && (#[trigger] before.matches@[j]).0 == (
                #[trigger] after.matches@[i]).0,
        forall|i: int, j: int|
            0 <= i < j < after.matches@.len() ==> (#[trigger] after.matches@[i]).1 >= (
            #[trigger] after.matches@[j]).1,
        after.selected_idx == 0,
        after.prefix@ == ctx.prefix@,
        after.prefix_range == ctx.prefix_range,
        after.incomplete@.len() == 0,
{
    let items = before.items@;
    let rows = before.matches@;
    let left = choose|left: Seq<(u32, u32)>| #[trigger]
        survives(left, items, rows, stale, ctx.prefix@, scorer) && after.matches@ == ranked(
            items,
            left,
        );
    let current = current_rows(items, rows, stale, rows.len());
    let scores = choose|scores: Seq<Option<u32>>| #[trigger]
        scored_by(scorer, row_texts(items, current), ctx.prefix@, scores) && left == scored_rows(
            current,
            scores,
            current.len(),
        );
    lemma_current_count(items, rows, stale, rows.len());
    lemma_scored_count(current, scores, current.len());
    assert forall|k: int| 0 <= k < left.len() implies (#[trigger] left[k]).0 < items.len() by {
        narrowing_only_drops(left, items, rows, stale, ctx.prefix@, scorer, k);
    }
    lemma_ranked(items, left);
    assert forall|i: int| 0 <= i < after.matches@.len() implies exists|j: int|
        0 <= j < rows.len() && (#[trigger] rows[j]).0 == (#[trigger] after.matches@[i]).0 by {
        assert(ranked(items, left).contains(after.matches@[i]));
        let k = choose|k: int| 0 <= k < left.len() && left[k] == after.matches@[i];
        narrowing_only_drops(left, items, rows, stale, ctx.prefix@, scorer, k);
    }
}

proof fn lemma_current_count(
    items: Seq<CompletionItem>,
    rows: Seq<(u32, u32)>,
    stale: Seq<String>,
    n: nat,
)
    ensures
        current_rows(items, rows, stale, n).len() <= n,
    decreases n,
{
    if n > 0 {
        lemma_current_count(items, rows, stale, (n - 1) as nat);
    }
}

proof fn lemma_scored_count(rows: Seq<(u32, u32)>, scores: Seq<Option<u32>>, n: nat)
    ensures
        scored_rows(rows, scores, n).len() <= n,
    decreases n,
{
    if n > 0 {
        lemma_scored_count(rows, scores, (n - 1) as nat);
    }
}

// ---------------------------------------------------------------------------
// Laws of the pipeline
// ---------------------------------------------------------------------------

/// Some server declared the single character `ch` as one of its triggers.
pub open spec fn is_declared(hosts: Seq<CompletionHost>, ch: char) -> bool {
    exists|h: int, i: int|
        0 <= h < hosts.len() && hosts[h].trigger_characters is Some && 0 <= i
            < hosts[h].trigger_characters->0@.len() && (
        #[trigger] hosts[h].trigger_characters->0@[i])@ == seq![ch]
}

proof fn lemma_declared(hosts: Seq<CompletionHost>, ch: char)
    ensures
        some_declares(hosts, ch) == is_declared(hosts, ch),
{
    if some_declares(hosts, ch) {
        let h = choose|h: int|
            0 <= h < hosts.len() && declares((#[trigger] hosts[h]).trigger_characters, ch);
        let ts = hosts[h].trigger_characters->0@;
        let i = choose|i: int| 0 <= i < ts.len() && (#[trigger] ts[i])@ == seq![ch];
        assert(hosts[h].trigger_characters->0@[i]@ == seq![ch]);
    }
    if is_declared(hosts, ch) {
        let (h, i) = choose|h: int, i: int|
            0 <= h < hosts.len() && hosts[h].trigger_characters is Some && 0 <= i
                < hosts[h].trigger_characters->0@.len() && (
            #[trigger] hosts[h].trigger_characters->0@[i])@ == seq![ch];
        let ts = hosts[h].trigger_characters->0@;
        assert(ts[i]@ == seq![ch]);
        assert(declares(hosts[h].trigger_characters, ch));
    }
}

/// The typed character is a trigger: it stands just before the cursor, and some
/// server declared it.
pub open spec fn is_triggering(hosts: Seq<CompletionHost>, ctx: ContextOwned) -> bool {
    ctx.text_before_cursor@.len() > 0 && is_declared(hosts, ctx.text_before_cursor@.last())
}

/// What asking afresh asks: paths and words where the prefix invites them, the
/// servers where it does or a trigger character was typed. Nothing is asked
/// where that leaves none, and then no popup stays. A trigger character is
/// named to the servers and does not wait.
pub proof fn a_fresh_request_asks_who_applies(
    after: CompletionState,
    action: TriggerAction,
    before: CompletionState,
    ctx: ContextOwned,
    event: TriggerEvent,
)
    requires
        fetched_to(after, action, before, ctx, event),
    ensures
        ({
            let applying = sources_for(ctx.prefix@, ctx.text_before_cursor@);
            let triggering = is_triggering(event.hosts@, ctx);
            if applying.len() == 0 && !triggering {
                action is Idle && after.pending_completion is None
                    && !after.pending_completion_request
            } else {
                &&& action matches TriggerAction::Fetch { context, sources, lsp, immediate }
                    && context == ctx && immediate == triggering && (sources@.contains(
                    CompletionSource::Path,
                ) <==> applying.contains(CompletionSource::Path)) && (sources@.contains(
                    CompletionSource::Word,
                ) <==> applying.contains(CompletionSource::Word)) && (sources@.contains(
                    CompletionSource::Lsp,
                ) <==> triggering || applying.contains(CompletionSource::Lsp)) && (lsp is Some
                    <==> event.hosts@.len() > 0 && sources@.contains(CompletionSource::Lsp)) && (
                lsp is Some && triggering ==> lsp == Some(
                    LspTrigger::Typed(ctx.text_before_cursor@.last()),
                )) && (lsp is Some && !triggering ==> lsp == Some(LspTrigger::Invoked))
                &&& after.pending_completion_request
                &&& after.pending_completion == before.pending_completion
            }
        }),
        after.last_completion_signature == before.last_completion_signature,
        after.active_snippet == before.active_snippet,
{
    let window = ctx.text_before_cursor@;
    if window.len() > 0 {
        lemma_declared(event.hosts@, window.last());
    }
    let applying = sources_for(ctx.prefix@, window);
    let typed = typed_trigger(event.hosts@, window);
    let wanted = asked_sources(ctx, typed is Some);
    if typed is Some && !applying.contains(CompletionSource::Lsp) {
        assert(wanted[wanted.len() - 1] == CompletionSource::Lsp);
        assert forall|source: CompletionSource|
            source != CompletionSource::Lsp implies wanted.contains(source) == applying.contains(
            source,
        ) by {
            if applying.contains(source) {
                let i = choose|i: int| 0 <= i < applying.len() && applying[i] == source;
                assert(wanted[i] == source);
            }
            if wanted.contains(source) {
                let i = choose|i: int| 0 <= i < wanted.len() && wanted[i] == source;
                assert(applying[i] == source);
            }
        }
    }
}

/// Outside insert mode there is nothing to complete: the request, the popup and
/// the snippet are given up, so that insert mode starts afresh.
pub proof fn leaving_insert_mode_gives_completion_up<
    S: Fn(&Vec<String>, &str) -> Option<Vec<(usize, u32)>>,
>(
    after: CompletionState,
    action: TriggerAction,
    before: CompletionState,
    event: TriggerEvent,
    scorer: S,
)
    requires
        triggered_to(after, action, before, event, scorer),
        !event.armed,
    ensures
        action is Idle,
        after.pending_completion is None,
        !after.pending_completion_request,
        after.last_completion_signature is None,
        !after.active_snippet,
{
}

/// A motion closes the popup exactly where the cursor leaves the prefix that
/// the popup is for.
pub proof fn a_motion_out_of_the_prefix_closes_the_popup<
    S: Fn(&Vec<String>, &str) -> Option<Vec<(usize, u32)>>,
>(
    after: CompletionState,
    action: TriggerAction,
    before: CompletionState,
    event: TriggerEvent,
    scorer: S,
    popup: CompletionPopup,
    probe: (u64, u64, usize),
)
    requires
        triggered_to(after, action, before, event, scorer),
        event.armed,
        event.probe == Some(probe),
        before.last_completion_signature == Some((probe.0, probe.1)),
        before.pending_completion == Some(popup),
    ensures
        popup.prefix_range.start <= probe.2 <= popup.prefix_range.end
            ==> after.pending_completion == Some(popup),
        !(popup.prefix_range.start <= probe.2 <= popup.prefix_range.end)
            ==> after.pending_completion is None,
{
}

/// An edit is looked at: its version counts as seen, the context kept is that
/// of the cursor, and what comes of it is what the context calls for.
pub proof fn an_edit_is_looked_at<S: Fn(&Vec<String>, &str) -> Option<Vec<(usize, u32)>>>(
    after: CompletionState,
    action: TriggerAction,
    before: CompletionState,
    event: TriggerEvent,
    scorer: S,
    probe: (u64, u64, usize),
    text: String,
)
    requires
        triggered_to(after, action, before, event, scorer),
        event.armed,
        event.probe == Some(probe),
        before.last_completion_signature != Some((probe.0, probe.1)),
        event.text == Some(text),
    ensures
        exists|ctx: ContextOwned, noted: CompletionState|
            #![trigger edited_to(after, action, noted, ctx, event, scorer)]
            edited_to(after, action, noted, ctx, event, scorer) && is_context(
                ctx,
                text_before(text@, held_cursor(text@, probe.2)),
                held_cursor(text@, probe.2),
            ) && noted.last_completion_signature == Some((probe.0, probe.1))
                && noted.completion_context == Some((probe, ctx)) && noted.pending_completion
                == before.pending_completion && noted.pending_completion_request
                == before.pending_completion_request && noted.active_snippet
                == before.active_snippet,
{
    let cursor = held_cursor(text@, probe.2);
    let ctx = choose|ctx: ContextOwned|
        #![trigger is_context(ctx, text_before(text@, cursor), cursor)]
        is_context(ctx, text_before(text@, cursor), cursor) && edited_to(
            after,
            action,
            CompletionState {
                completion_context: Some(((probe.0, probe.1, probe.2), ctx)),
                last_completion_signature: Some((probe.0, probe.1)),
                ..before
            },
            ctx,
            event,
            scorer,
        );
    let noted = CompletionState {
        completion_context: Some(((probe.0, probe.1, probe.2), ctx)),
        last_completion_signature: Some((probe.0, probe.1)),
        ..before
    };
    assert(edited_to(after, action, noted, ctx, event, scorer));
}

/// Typing on in the prefix that a popup is for narrows it where it stands, when
/// every server had told all: nobody is asked. Servers that had stopped early
/// are asked again, and them alone.
pub proof fn typing_on_narrows_the_popup<S: Fn(&Vec<String>, &str) -> Option<Vec<(usize, u32)>>>(
    after: CompletionState,
    action: TriggerAction,
    before: CompletionState,
    ctx: ContextOwned,
    event: TriggerEvent,
    scorer: S,
    popup: CompletionPopup,
)
    requires
        edited_to(after, action, before, ctx, event, scorer),
        before.pending_completion == Some(popup),
        !is_triggering(event.hosts@, ctx),
        ctx.prefix_range.start == popup.prefix_range.start,
        popup.prefix@.len() < ctx.prefix@.len(),
        popup.prefix@ == ctx.prefix@.take(popup.prefix@.len() as int),
    ensures
        popup.incomplete@.len() == 0 ==> action is Installed && !after.pending_completion_request
            && (after.pending_completion is None && popup.items@.len() == 0
            || after.pending_completion is Some && after.pending_completion->0.items == popup.items
            && after.pending_completion->0.prefix@ == ctx.prefix@),
        popup.incomplete@.len() > 0 ==> (action matches TriggerAction::AskAgain { context, servers }
            && context == ctx && servers@ == popup.incomplete@ && after.pending_completion == Some(
            popup,
        ) && after.pending_completion_request) || action is Installed
            && !after.pending_completion_request && (!event.has_path || forall|h: int, i: int|
            #![trigger event.hosts@[h], popup.incomplete@[i]]
            0 <= h < event.hosts@.len() && 0 <= i < popup.incomplete@.len() ==> event.hosts@[h].name@
                != popup.incomplete@[i]@),
{
    let window = ctx.text_before_cursor@;
    if window.len() > 0 {
        lemma_declared(event.hosts@, window.last());
    }
    assert(popup.prefix@.is_prefix_of(ctx.prefix@)) by {
        assert(ctx.prefix@.subrange(0, popup.prefix@.len() as int) =~= ctx.prefix@.take(
            popup.prefix@.len() as int,
        ));
    }
    assert(grew(popup, ctx));
    if popup.incomplete@.len() > 0 && !some_named(event.hosts@, popup.incomplete@) {
        assert forall|h: int, i: int|
            #![trigger event.hosts@[h], popup.incomplete@[i]]
            0 <= h < event.hosts@.len() && 0 <= i
                < popup.incomplete@.len() implies event.hosts@[h].name@ != popup.incomplete@[i]@ by {
            if event.hosts@[h].name@ == popup.incomplete@[i]@ {
                assert(names_one(popup.incomplete@, event.hosts@[h].name@));
            }
        }
    }
}

proof fn lemma_answered(answers: Seq<ServerAnswer>, n: nat, a: int, k: int)
    requires
        n <= answers.len(),
        0 <= a < n,
        0 <= k < answers[a].answer.items@.len(),
    ensures
        answered_items(answers, n).contains(answers[a].answer.items@[k]),
    decreases n,
{
    let before = answered_items(answers, (n - 1) as nat);
    let all = answered_items(answers, n);
    let item = answers[a].answer.items@[k];
    if a == n - 1 {
        assert(all[before.len() + k] == item);
    } else {
        lemma_answered(answers, (n - 1) as nat, a, k);
        let i = choose|i: int| 0 <= i < before.len() && before[i] == item;
        assert(all[i] == item);
    }
}

proof fn lemma_gathered_has(
    sources: Seq<CompletionSource>,
    paths: Seq<CompletionItem>,
    answers: Seq<ServerAnswer>,
    n: nat,
    s: int,
    item: CompletionItem,
)
    requires
        n <= sources.len(),
        0 <= s < n,
        sources[s] == CompletionSource::Path && paths.contains(item) || sources[s]
            == CompletionSource::Lsp && answered_items(answers, answers.len()).contains(item),
    ensures
        gathered_first(sources, paths, answers, n).contains(item),
    decreases n,
{
    let before = gathered_first(sources, paths, answers, (n - 1) as nat);
    let all = gathered_first(sources, paths, answers, n);
    if s == n - 1 {
        let more = if sources[s] == CompletionSource::Path {
            paths
        } else {
            answered_items(answers, answers.len())
        };
        let i = choose|i: int| 0 <= i < more.len() && more[i] == item;
        assert(all[before.len() + i] == item);
    } else {
        lemma_gathered_has(sources, paths, answers, (n - 1) as nat, s, item);
        let i = choose|i: int| 0 <= i < before.len() && before[i] == item;
        assert(all[i] == item);
    }
}

/// Nothing that a source answered is lost: each path, each server's item and
/// each word is among the popup's items, where its source is asked. The words
/// stand behind all others.
pub proof fn the_popup_holds_what_every_source_said(
    items: Seq<CompletionItem>,
    sources: Seq<CompletionSource>,
    paths: Seq<CompletionItem>,
    answers: Seq<ServerAnswer>,
    words: Seq<CompletionItem>,
)
    requires
        items == gathered(sources, paths, answers, words),
    ensures
        sources.contains(CompletionSource::Path) ==> forall|i: int|
            0 <= i < paths.len() ==> items.contains(#[trigger] paths[i]),
        sources.contains(CompletionSource::Lsp) ==> forall|a: int, k: int|
            0 <= a < answers.len() && 0 <= k < answers[a].answer.items@.len() ==> items.contains(
                #[trigger] answers[a].answer.items@[k],
            ),
        sources.contains(CompletionSource::Word) ==> items.len() >= words.len() && items.skip(
            items.len() - words.len(),
        ) == words,
{
    let first = gathered_first(sources, paths, answers, sources.len());
    if sources.contains(CompletionSource::Path) {
        let s = choose|s: int| 0 <= s < sources.len() && sources[s] == CompletionSource::Path;
        assert forall|i: int| 0 <= i < paths.len() implies items.contains(#[trigger] paths[i]) by {
            assert(paths.contains(paths[i]));
            lemma_gathered_has(sources, paths, answers, sources.len(), s, paths[i]);
            let k = choose|k: int| 0 <= k < first.len() && first[k] == paths[i];
            assert(items[k] == paths[i]);
        }
    }
    if sources.contains(CompletionSource::Lsp) {
        let s = choose|s: int| 0 <= s < sources.len() && sources[s] == CompletionSource::Lsp;
        assert forall|a: int, k: int|
            0 <= a < answers.len() && 0 <= k < answers[a].answer.items@.len() implies items.contains(
            #[trigger] answers[a].answer.items@[k],
        ) by {
            let item = answers[a].answer.items@[k];
            lemma_answered(answers, answers.len(), a, k);
            lemma_gathered_has(sources, paths, answers, sources.len(), s, item);
            let i = choose|i: int| 0 <= i < first.len() && first[i] == item;
            assert(items[i] == item);
        }
    }
    if sources.contains(CompletionSource::Word) {
        assert(items.skip(items.len() - words.len()) =~= words);
    }
}

/// The servers to ask again are those that did not tell all: they said that
/// their list is incomplete, or gave no answer.
pub proof fn those_that_stopped_early_are_remembered(answers: Seq<ServerAnswer>, a: int)
    requires
        0 <= a < answers.len(),
    ensures
        !answers[a].answer.complete ==> incomplete_servers(answers, answers.len()).contains(
            answers[a].server@,
        ),
        forall|i: int|
            0 <= i < incomplete_servers(answers, answers.len()).len() ==> stopped_early(
                #[trigger] incomplete_servers(answers, answers.len())[i],
                answers,
                answers.len(),
            ),
{
    lemma_incomplete(answers, answers.len());
}

/// Some server among the first `n`, called `name`, did not tell all.
pub open spec fn stopped_early(name: Seq<char>, answers: Seq<ServerAnswer>, n: nat) -> bool {
    exists|a: int|
        0 <= a < n && (#[trigger] answers[a]).server@ == name && !answers[a].answer.complete
}

proof fn lemma_incomplete(answers: Seq<ServerAnswer>, n: nat)
    requires
        n <= answers.len(),
    ensures
        forall|a: int|
            0 <= a < n && !(#[trigger] answers[a]).answer.complete ==> incomplete_servers(
                answers,
                n,
            ).contains(answers[a].server@),
        forall|i: int|
            0 <= i < incomplete_servers(answers, n).len() ==> stopped_early(
                #[trigger] incomplete_servers(answers, n)[i],
                answers,
                n,
            ),
    decreases n,
{
    if n > 0 {
        let p = (n - 1) as nat;
        lemma_incomplete(answers, p);
        let before = incomplete_servers(answers, p);
        let all = incomplete_servers(answers, n);
        assert forall|a: int| 0 <= a < n && !(#[trigger] answers[a]).answer.complete implies all.contains(
            answers[a].server@,
        ) by {
            if a < p {
                assert(before.contains(answers[a].server@));
                let i = choose|i: int| 0 <= i < before.len() && before[i] == answers[a].server@;
                assert(all[i] == before[i]);
            } else {
                assert(all.last() == answers[a].server@);
            }
        }
        assert forall|i: int| 0 <= i < all.len() implies stopped_early(
            #[trigger] all[i],
            answers,
            n,
        ) by {
            if i < before.len() {
                assert(all[i] == before[i]);
                assert(stopped_early(before[i], answers, p));
                let a = choose|a: int|
                    0 <= a < p && (#[trigger] answers[a]).server@ == before[i]
                        && !answers[a].answer.complete;
                assert(answers[a].server@ == all[i]);
            } else {
                assert(answers[n - 1].server@ == all[i]);
            }
        }
    }
}

/// How a server is asked: with the typed character where it declared it, else
/// as if nothing special was typed; and asked again as one that stopped early.
pub proof fn a_server_is_told_its_own_triggers(
    triggers: Option<Vec<String>>,
    ch: char,
    told: HostContext,
)
    requires
        told == asked_with(triggers, LspTrigger::Typed(ch)),
    ensures
        (triggers is Some && exists|i: int|
            0 <= i < triggers->0@.len() && (#[trigger] triggers->0@[i])@ == seq![ch])
            ==> told.trigger_kind == TriggerKind::TriggerCharacter && told.trigger_character
            == Some(ch),
        (triggers is None || forall|i: int|
            0 <= i < triggers->0@.len() ==> (#[trigger] triggers->0@[i])@ != seq![ch])
            ==> told.trigger_kind == TriggerKind::Invoked && told.trigger_character is None,
        asked_with(triggers, LspTrigger::Invoked).trigger_kind == TriggerKind::Invoked,
        asked_with(triggers, LspTrigger::Invoked).trigger_character is None,
        asked_with(triggers, LspTrigger::Incomplete).trigger_kind
            == TriggerKind::TriggerForIncompleteCompletions,
        asked_with(triggers, LspTrigger::Incomplete).trigger_character is None,
{
}

/// The servers asked again are those of that name, each of them.
pub proof fn only_those_named_are_asked_again(
    hosts: Seq<CompletionHost>,
    names: Seq<String>,
    asked: Seq<CompletionHost>,
    h: int,
)
    requires
        asked == named_hosts(hosts, names, hosts.len()),
        0 <= h < hosts.len(),
    ensures
        (exists|i: int| 0 <= i < names.len() && (#[trigger] names[i])@ == hosts[h].name@)
            ==> asked.contains(hosts[h]),
        forall|k: int|
            0 <= k < asked.len() ==> names_one(names, (#[trigger] asked[k]).name@)
                && hosts.contains(asked[k]),
{
    lemma_named_hosts(hosts, names, hosts.len());
}

proof fn lemma_named_hosts(hosts: Seq<CompletionHost>, names: Seq<String>, n: nat)
    requires
        n <= hosts.len(),
    ensures
        forall|h: int|
            0 <= h < n && names_one(names, (#[trigger] hosts[h]).name@) ==> named_hosts(
                hosts,
                names,
                n,
            ).contains(hosts[h]),
        forall|k: int|
            0 <= k < named_hosts(hosts, names, n).len() ==> names_one(
                names,
                (#[trigger] named_hosts(hosts, names, n)[k]).name@,
            ) && hosts.contains(named_hosts(hosts, names, n)[k]),
    decreases n,
{
    if n > 0 {
        let p = (n - 1) as nat;
        lemma_named_hosts(hosts, names, p);
        let before = named_hosts(hosts, names, p);
        let all = named_hosts(hosts, names, n);
        assert forall|h: int| 0 <= h < n && names_one(names, (#[trigger] hosts[h]).name@) implies all.contains(
            hosts[h],
        ) by {
            if h < p {
                assert(before.contains(hosts[h]));
                let i = choose|i: int| 0 <= i < before.len() && before[i] == hosts[h];
                assert(all[i] == before[i]);
            } else {
                assert(all.last() == hosts[h]);
            }
        }
        assert forall|k: int| 0 <= k < all.len() implies names_one(
            names,
            (#[trigger] all[k]).name@,
        ) && hosts.contains(all[k]) by {
            if k < before.len() {
                assert(all[k] == before[k]);
            } else {
                assert(all[k] == hosts[n - 1]);
            }
        }
    }
}

/// A popup with items opens, one without closes what was open.
pub proof fn an_empty_answer_opens_nothing(
    after: CompletionState,
    before: CompletionState,
    popup: CompletionPopup,
)
    requires
        installed(after, before, popup),
    ensures
        popup.items@.len() == 0 ==> after.pending_completion is None,
        popup.items@.len() > 0 ==> after.pending_completion == Some(popup),
        after.pending_completion_request == before.pending_completion_request,
        after.last_completion_signature == before.last_completion_signature,
        after.active_snippet == before.active_snippet,
{
}

/// What a server replied is what the popup gets of it: an item for each of its
/// items, in their order. It told all exactly where it gave a bare list or
/// called its list complete.
pub proof fn a_reply_is_taken_item_by_item(
    answer: ServerAnswer,
    reply: ServerReply,
    prefix_range: Range<usize>,
)
    requires
        is_answer(answer, reply, prefix_range),
    ensures
        answer.server@ == reply.server@,
        reply.reply is None ==> answer.answer.items@.len() == 0 && !answer.answer.complete,
        reply.reply matches Some(LspResponse::Array(items)) ==> answer.answer.complete
            && answer.answer.items@.len() == items@.len() && forall|i: int|
            0 <= i < items@.len() ==> is_translation(
                #[trigger] answer.answer.items@[i],
                items@[i],
                reply.server@,
                prefix_range,
            ),
        reply.reply matches Some(LspResponse::List { items, is_incomplete })
            ==> answer.answer.complete == !is_incomplete && answer.answer.items@.len() == items@.len()
            && forall|i: int|
            0 <= i < items@.len() ==> is_translation(
                #[trigger] answer.answer.items@[i],
                items@[i],
                reply.server@,
                prefix_range,
            ),
{
}

/// A filled popup shows what the sources said for the prefix, with its first row
/// highlighted.
pub proof fn a_filled_popup_is_for_its_prefix<S: Fn(&Vec<String>, &str) -> Option<Vec<(usize, u32)>>>(
    popup: CompletionPopup,
    ctx: ContextOwned,
    sources: Seq<CompletionSource>,
    listing: Option<Vec<DirEntry>>,
    replies: Seq<ServerReply>,
    text: Seq<char>,
    scorer: S,
)
    requires
        answers_request(popup, ctx, sources, listing, replies, text, scorer),
    ensures
        popup.prefix@ == ctx.prefix@,
        popup.prefix_range == ctx.prefix_range,
        popup.anchor_offset == ctx.prefix_range.start,
        popup.selected_idx == 0,
        is_ranking(popup.matches@, popup.items@, ctx.prefix@, scorer),
        exists|paths: Seq<CompletionItem>, answers: Seq<ServerAnswer>, words: Seq<CompletionItem>|
            #![trigger gathered(sources, paths, answers, words)]
            popup.items@ == gathered(sources, paths, answers, words) && answers.len()
                == replies.len() && (forall|i: int|
                0 <= i < answers.len() ==> is_answer(
                    #[trigger] answers[i],
                    replies[i],
                    ctx.prefix_range,
                )) && (sources.contains(CompletionSource::Word) ==> are_word_items(
                words,
                text,
                ctx.prefix@,
                ctx.prefix_range,
            )) && (sources.contains(CompletionSource::Path) ==> (match (
                wanted_path(ctx.text_before_cursor@),
                listing,
            ) {
                (Some(path), Some(entries)) => are_entry_items(
                    paths,
                    entries@,
                    split_suffix(path).1,
                    ctx.cursor_offset,
                ),
                _ => paths.len() == 0,
            })),
{
    let (paths, answers, words) = choose|
        paths: Seq<CompletionItem>,
        answers: Seq<ServerAnswer>,
        words: Seq<CompletionItem>,
    |
        #![trigger is_filled(popup, ctx, sources, paths, answers, words, scorer)]
        is_filled(popup, ctx, sources, paths, answers, words, scorer) && sources_say(
            paths,
            answers,
            words,
            ctx,
            sources,
            listing,
            replies,
            text,
        );
    assert(popup.items@ == gathered(sources, paths, answers, words));
}

/// The answers to a re-ask join what the open popup still shows, behind it: what
/// the servers asked again had is given up, and all is ranked together.
pub proof fn a_reask_joins_what_is_still_shown<
    S: Fn(&Vec<String>, &str) -> Option<Vec<(usize, u32)>>,
>(
    popup: CompletionPopup,
    open: CompletionPopup,
    fresh: CompletionPopup,
    asked: Seq<String>,
    scorer: S,
)
    requires
        is_refill(popup, Some(open), fresh, asked, scorer),
    ensures
        popup.prefix == fresh.prefix,
        popup.prefix_range == fresh.prefix_range,
        popup.incomplete == fresh.incomplete,
        is_ranking(popup.matches@, popup.items@, fresh.prefix@, scorer),
        exists|kept: Seq<(u32, u32)>| #[trigger]
            survives(kept, open.items@, open.matches@, asked, fresh.prefix@, scorer)
                && popup.items@.len() == kept.len() + fresh.items@.len() && (forall|i: int|
                0 <= i < kept.len() ==> #[trigger] popup.items@[i] == open.items@[kept[i].0 as int])
                && popup.items@.skip(kept.len() as int) == fresh.items@,
{
    let kept = choose|kept: Seq<(u32, u32)>| #[trigger]
        are_kept(kept, Some(open), asked, fresh.prefix@, scorer) && popup.items@ == kept_items(
            Some(open),
            kept,
        ) + fresh.items@;
    assert(survives(kept, open.items@, open.matches@, asked, fresh.prefix@, scorer));
    assert(popup.items@.skip(kept.len() as int) =~= fresh.items@);
}

/// A popup that was closed meanwhile does not come back: only the fresh answers
/// are shown.
pub proof fn a_closed_popup_stays_closed<S: Fn(&Vec<String>, &str) -> Option<Vec<(usize, u32)>>>(
    popup: CompletionPopup,
    fresh: CompletionPopup,
    asked: Seq<String>,
    scorer: S,
)
    requires
        is_refill(popup, None, fresh, asked, scorer),
    ensures
        popup.items@ == fresh.items@,
{
    let kept = choose|kept: Seq<(u32, u32)>| #[trigger]
        are_kept(kept, None, asked, fresh.prefix@, scorer) && popup.items@ == kept_items(
            None,
            kept,
        ) + fresh.items@;
    assert(popup.items@ =~= fresh.items@);
}

/// Every server is asked under its own name and in its own encoding, with what
/// it is told of the trigger.
pub proof fn every_server_is_asked(
    questions: Seq<LspQuestion>,
    hosts: Seq<CompletionHost>,
    trigger: LspTrigger,
    i: int,
)
    requires
        are_questions(questions, hosts, trigger),
        0 <= i < hosts.len(),
    ensures
        questions.len() == hosts.len(),
        questions[i].server@ == hosts[i].name@,
        questions[i].encoding == hosts[i].encoding,
        questions[i].context == asked_with(hosts[i].trigger_characters, trigger),
{
    assert(is_question(questions[i], hosts[i], trigger));
}

/// A cursor behind the end of the text counts as at its end.
pub proof fn the_cursor_is_held_to_the_text(text: Seq<char>, cursor: usize)
    ensures
        cursor <= byte_len(text) ==> held_cursor(text, cursor) == cursor,
        cursor > byte_len(text) ==> held_cursor(text, cursor) == byte_len(text),
{
}

/// The rows that a re-ask leaves are those of other servers' items, in their
/// order.
pub proof fn rows_of_other_servers_keep_their_order(
    items: Seq<CompletionItem>,
    rows: Seq<(u32, u32)>,
    stale: Seq<String>,
    n: nat,
)
    requires
        n <= rows.len(),
    ensures
        current_rows(items, rows, stale, n) == rows.take(n as int).filter(
            |row: (u32, u32)| is_current(items[row.0 as int], stale),
        ),
    decreases n,
{
    reveal(Seq::filter);
    if n > 0 {
        rows_of_other_servers_keep_their_order(items, rows, stale, (n - 1) as nat);
        assert(rows.take(n as int).drop_last() =~= rows.take(n - 1));
        assert(rows.take(n as int).last() == rows[n - 1]);
    }
}

/// What the servers answered stands in the order of the servers, and what the
/// sources answered in the order of the sources.
pub proof fn answers_come_in_their_turn(
    sources: Seq<CompletionSource>,
    paths: Seq<CompletionItem>,
    answers: Seq<ServerAnswer>,
    n: nat,
    m: nat,
)
    requires
        n < answers.len(),
        m < sources.len(),
    ensures
        answered_items(answers, 0).len() == 0,
        answered_items(answers, n + 1) == answered_items(answers, n) + answers[n as int].answer.items@,
        gathered_first(sources, paths, answers, 0).len() == 0,
        sources[m as int] == CompletionSource::Path ==> gathered_first(
            sources,
            paths,
            answers,
            m + 1,
        ) == gathered_first(sources, paths, answers, m) + paths,
        sources[m as int] == CompletionSource::Lsp ==> gathered_first(
            sources,
            paths,
            answers,
            m + 1,
        ) == gathered_first(sources, paths, answers, m) + answered_items(answers, answers.len()),
        sources[m as int] == CompletionSource::Word ==> gathered_first(
            sources,
            paths,
            answers,
            m + 1,
        ) == gathered_first(sources, paths, answers, m),
{
    assert(gathered_first(sources, paths, answers, m) + Seq::<CompletionItem>::empty()
        =~= gathered_first(sources, paths, answers, m));
}

/// An edit that a popup has no answer for asks afresh: a trigger character, a
/// prefix that starts elsewhere, or one that did not grow from the popup's. The
/// popup stays open meanwhile, unless the cursor left its prefix.
pub proof fn any_other_edit_asks_afresh<S: Fn(&Vec<String>, &str) -> Option<Vec<(usize, u32)>>>(
    after: CompletionState,
    action: TriggerAction,
    before: CompletionState,
    ctx: ContextOwned,
    event: TriggerEvent,
    scorer: S,
    popup: CompletionPopup,
)
    requires
        edited_to(after, action, before, ctx, event, scorer),
        before.pending_completion == Some(popup),
        is_triggering(event.hosts@, ctx) || ctx.prefix_range.start != popup.prefix_range.start
            || ctx.prefix@.len() <= popup.prefix@.len() || popup.prefix@ != ctx.prefix@.take(
            popup.prefix@.len() as int,
        ),
    ensures
        is_triggering(event.hosts@, ctx) || popup.prefix_range.start <= ctx.cursor_offset
            <= popup.prefix_range.end ==> fetched_to(after, action, before, ctx, event),
        !is_triggering(event.hosts@, ctx) && !(popup.prefix_range.start <= ctx.cursor_offset
            <= popup.prefix_range.end) ==> fetched_to(
            after,
            action,
            (CompletionState { pending_completion: None, ..before }),
            ctx,
            event,
        ),
{
    let window = ctx.text_before_cursor@;
    if window.len() > 0 {
        lemma_declared(event.hosts@, window.last());
    }
    if grew(popup, ctx) {
        assert(ctx.prefix@.subrange(0, popup.prefix@.len() as int) =~= ctx.prefix@.take(
            popup.prefix@.len() as int,
        ));
    }
    assert((CompletionState { pending_completion: Some(popup), ..before }) == before);
}

/// Without a popup every edit asks afresh.
pub proof fn without_a_popup_every_edit_asks<S: Fn(&Vec<String>, &str) -> Option<Vec<(usize, u32)>>>(
    after: CompletionState,
    action: TriggerAction,
    before: CompletionState,
    ctx: ContextOwned,
    event: TriggerEvent,
    scorer: S,
)
    requires
        edited_to(after, action, before, ctx, event, scorer),
        before.pending_completion is None,
    ensures
        fetched_to(after, action, before, ctx, event),
{
}

/// The servers asked again come in the order of the servers.
pub proof fn servers_are_asked_again_in_their_order(
    hosts: Seq<CompletionHost>,
    names: Seq<String>,
    n: nat,
)
    requires
        n <= hosts.len(),
    ensures
        named_hosts(hosts, names, n) == hosts.take(n as int).filter(
            |h: CompletionHost| names_one(names, h.name@),
        ),
    decreases n,
{
    reveal(Seq::filter);
    if n > 0 {
        servers_are_asked_again_in_their_order(hosts, names, (n - 1) as nat);
        assert(hosts.take(n as int).drop_last() =~= hosts.take(n - 1));
        assert(hosts.take(n as int).last() == hosts[n - 1]);
    }
}

/// What the others said is what is left where the servers that stopped early
/// are gone: narrowing then gives up their rows, and no request is open.
pub proof fn what_is_settled_is_narrowed<S: Fn(&Vec<String>, &str) -> Option<Vec<(usize, u32)>>>(
    after: CompletionState,
    before: CompletionState,
    ctx: ContextOwned,
    stale: Seq<String>,
    scorer: S,
    popup: CompletionPopup,
)
    requires
        is_settled(after, before, ctx, stale, scorer),
        before.pending_completion == Some(popup),
    ensures
        !after.pending_completion_request,
        popup.items@.len() == 0 ==> after.pending_completion is None,
        popup.items@.len() > 0 ==> after.pending_completion is Some && narrowed(
            after.pending_completion->0,
            popup,
            ctx,
            stale,
            scorer,
        ),
        after.last_completion_signature == before.last_completion_signature,
        after.active_snippet == before.active_snippet,
{
}

} // verus!
