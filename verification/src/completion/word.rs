//! Buffer-word completion source: word-shaped tokens of the buffer that start
//! with the typed prefix.

use crate::completion::{
    CompletionContext, CompletionItem, CompletionItemKind, CompletionSource,
};
use crate::order::{arranged, arranging_keeps_every_entry, is_stable_order, lemma_the_order, stable_order, Ranked};
use crate::text::{
    begins_with, chars_of, comes_before, is_letter_or_number, lex_asymmetric, lex_before,
    lex_negatively_transitive, lex_total, same, texts,
};
use std::ops::Range;
use vstd::prelude::*;

verus! {

/// Unique matches one fetch keeps before it stops walking the buffer.
pub const MAX_MATCHES: usize = 500;

/// The characters of a word.
pub open spec fn word_char(c: char) -> bool {
    is_letter_or_number(c) || c == '_'
}

/// Whether `c` can be part of a word.
pub fn char_is_word(c: char) -> (r: bool)
    ensures
        r == word_char(c),
{
    c.is_alphanumeric() || c == '_'
}

/// `found` with `token` added, where it starts with the prefix without being
/// it, is not there yet and there is room.
pub open spec fn with_token(found: Seq<Seq<char>>, token: Seq<char>, prefix: Seq<char>) -> Seq<Seq<char>> {
    if found.len() < MAX_MATCHES && prefix.is_prefix_of(token) && token != prefix
        && !found.contains(token) {
        found.push(token)
    } else {
        found
    }
}

/// `found` with the words of `s` from `i` on added, where `word` is one begun
/// just before.
pub open spec fn with_words(
    found: Seq<Seq<char>>,
    s: Seq<char>,
    i: int,
    word: Seq<char>,
    prefix: Seq<char>,
) -> Seq<Seq<char>>
    decreases s.len() - i,
{
    let done = if word.len() > 0 { with_token(found, word, prefix) } else { found };
    if !(0 <= i < s.len()) {
        done
    } else if word_char(s[i]) {
        with_words(found, s, i + 1, word.push(s[i]), prefix)
    } else {
        with_words(done, s, i + 1, Seq::empty(), prefix)
    }
}

/// The first words of `s` that start with the prefix without being it, each
/// once, in the order they come.
pub open spec fn matching_words(s: Seq<char>, prefix: Seq<char>) -> Seq<Seq<char>> {
    with_words(Seq::empty(), s, 0, Seq::empty(), prefix)
}

/// `item` is the row of `label`.
pub open spec fn is_word_item(item: CompletionItem, prefix_range: Range<usize>) -> bool {
    &&& item.insert_text@ == item.label@
    &&& item.source == CompletionSource::Word
    &&& item.kind == Some(CompletionItemKind::Other)
    &&& item.detail is None
    &&& item.replace_range == prefix_range
    &&& !item.is_snippet
    &&& item.documentation is None
    &&& item.lsp_item is None
    &&& item.server is None
}

pub open spec fn labels(items: Seq<CompletionItem>) -> Seq<Seq<char>> {
    Seq::new(items.len(), |i: int| items[i].label@)
}

/// `sorted` holds the texts of `found` in alphabetical order.
pub open spec fn is_alphabetical(sorted: Seq<Seq<char>>, found: Seq<Seq<char>>) -> bool {
    &&& sorted.len() == found.len()
    &&& forall|t: Seq<char>| sorted.contains(t) <==> found.contains(t)
    &&& forall|i: int, j: int|
        0 <= i < j < sorted.len() ==> lex_before(#[trigger] sorted[i], #[trigger] sorted[j])
}

/// `items` are the rows for the words of `text` that start with the prefix, in
/// alphabetical order. There are none for an empty prefix.
pub open spec fn are_word_items(
    items: Seq<CompletionItem>,
    text: Seq<char>,
    prefix: Seq<char>,
    prefix_range: Range<usize>,
) -> bool {
    &&& prefix.len() == 0 ==> items.len() == 0
    &&& prefix.len() > 0 ==> is_alphabetical(labels(items), matching_words(text, prefix))
    &&& forall|i: int| 0 <= i < items.len() ==> is_word_item(#[trigger] items[i], prefix_range)
}

struct ByText {
    text: String,
}

impl Ranked for ByText {
    closed spec fn ranks_before(self, other: Self) -> bool {
        lex_before(self.text@, other.text@)
    }

    proof fn asymmetric(a: Self, b: Self) {
        lex_asymmetric(a.text@, b.text@);
    }

    proof fn negatively_transitive(a: Self, b: Self, c: Self) {
        lex_negatively_transitive(a.text@, b.text@, c.text@);
    }

    fn before(&self, other: &Self) -> (r: bool) {
        comes_before(self.text.as_str(), other.text.as_str())
    }
}

/// Adds the token `current` to what was found, where it is one to suggest.
pub fn collect(current: String, prefix: &str, seen: &mut Vec<String>)
    ensures
        texts(final(seen)@) == with_token(texts(old(seen)@), current@, prefix@),
{
    let ghost before = seen@;
    if seen.len() < MAX_MATCHES && begins_with(current.as_str(), prefix) && !same(
        current.as_str(),
        prefix,
    ) {
        let mut i: usize = 0;
        while i < seen.len()
            invariant
                i <= seen.len(),
                seen@ == before,
                forall|k: int| 0 <= k < i ==> (#[trigger] seen@[k])@ != current@,
            decreases seen.len() - i,
        {
            if same(seen[i].as_str(), current.as_str()) {
                assert(texts(before)[i as int] == current@);
                return ;
            }
            i = i + 1;
        }
        assert(!texts(before).contains(current@)) by {
            if texts(before).contains(current@) {
                let k = choose|k: int|
                    0 <= k < texts(before).len() && texts(before)[k] == current@;
                assert(before[k]@ == current@);
            }
        }
        seen.push(current);
        assert(texts(seen@) =~= texts(before).push(current@));
    }
}

/// Collect every word-shaped token in `text` that starts with `ctx.prefix`,
/// apart from the prefix itself and repeats, in alphabetical order. At most
/// [`MAX_MATCHES`], the first that come.
///
/// Empty when `ctx.prefix` is empty: the source only fires once at least one
/// identifier character was typed.
pub fn fetch(ctx: &CompletionContext<'_>, text: &str) -> (items: Vec<CompletionItem>)
    ensures
        are_word_items(items@, text@, ctx.prefix@, ctx.prefix_range),
{
    let mut items: Vec<CompletionItem> = Vec::new();
    if ctx.prefix.is_empty() {
        return items;
    }
    let s = chars_of(text);
    let mut seen: Vec<String> = Vec::new();
    let mut current = String::new();
    let mut i: usize = 0;
    assert(texts(seen@) =~= Seq::empty());
    assert(current@ =~= Seq::<char>::empty());
    while i < s.len() && seen.len() < MAX_MATCHES
        invariant
            s@ == text@,
            i <= s.len(),
            with_words(texts(seen@), s@, i as int, current@, ctx.prefix@) == matching_words(
                text@,
                ctx.prefix@,
            ),
        decreases s.len() - i,
    {
        let c: char = s[i];
        if char_is_word(c) {
            current.push(c);
        } else {
            if !current.as_str().is_empty() {
                collect(current, ctx.prefix, &mut seen);
            }
            current = String::new();
            assert(current@ =~= Seq::<char>::empty());
        }
        i = i + 1;
    }
    if i < s.len() {
        proof {
            lemma_full(texts(seen@), s@, i as int, current@, ctx.prefix@);
        }
    } else if !current.as_str().is_empty() {
        collect(current, ctx.prefix, &mut seen);
    }
    let ghost found = texts(seen@);
    assert(found == matching_words(text@, ctx.prefix@));
    proof {
        lemma_words_distinct(Seq::empty(), s@, 0, Seq::empty(), ctx.prefix@);
    }

    let mut keys: Vec<ByText> = Vec::new();
    for k in 0..seen.len()
        invariant
            keys@.len() == k,
            forall|j: int| 0 <= j < k ==> (#[trigger] keys@[j]).text@ == seen@[j]@,
    {
        keys.push(ByText { text: seen[k].clone() });
    }
    let order = stable_order(&keys);
    for k in 0..order.len()
        invariant
            is_stable_order(keys@, order@),
            keys@.len() == seen@.len(),
            items@.len() == k,
            forall|j: int|
                0 <= j < k ==> (#[trigger] items@[j]).label@ == seen@[order@[j] as int]@
                    && is_word_item(items@[j], ctx.prefix_range),
    {
        let label = seen[order[k]].clone();
        items.push(
            CompletionItem {
                label: label.clone(),
                source: CompletionSource::Word,
                kind: Some(CompletionItemKind::Other),
                detail: None,
                replace_range: ctx.prefix_range.start..ctx.prefix_range.end,
                insert_text: label,
                is_snippet: false,
                documentation: None,
                lsp_item: None,
                server: None,
            },
        );
    }
    proof {
        let sorted = labels(items@);
        lemma_the_order(keys@, order@);
        arranging_keeps_every_entry(keys@, found);
        assert(sorted =~= arranged(keys@, found));
        assert forall|a: int, b: int| 0 <= a < b < sorted.len() implies lex_before(
            #[trigger] sorted[a],
            #[trigger] sorted[b],
        ) by {
            assert(!keys@[order@[b] as int].ranks_before(keys@[order@[a] as int]));
            if !lex_before(sorted[a], sorted[b]) {
                lex_total(sorted[a], sorted[b]);
                assert(found[order@[a] as int] == found[order@[b] as int]);
                assert(order@[a] != order@[b]) by {
                    assert(crate::order::read_before(keys@, order@[a] as int, order@[b] as int));
                }
            }
        }
    }
    items
}

proof fn lemma_full(found: Seq<Seq<char>>, s: Seq<char>, i: int, word: Seq<char>, prefix: Seq<char>)
    requires
        found.len() >= MAX_MATCHES,
        0 <= i,
    ensures
        with_words(found, s, i, word, prefix) == found,
    decreases s.len() - i,
{
    if i < s.len() {
        if word_char(s[i]) {
            lemma_full(found, s, i + 1, word.push(s[i]), prefix);
        } else {
            lemma_full(found, s, i + 1, Seq::empty(), prefix);
        }
    }
}

proof fn lemma_words_distinct(
    found: Seq<Seq<char>>,
    s: Seq<char>,
    i: int,
    word: Seq<char>,
    prefix: Seq<char>,
)
    requires
        0 <= i,
        found.no_duplicates(),
        found.len() <= MAX_MATCHES,
    ensures
        with_words(found, s, i, word, prefix).no_duplicates(),
        with_words(found, s, i, word, prefix).len() <= MAX_MATCHES,
    decreases s.len() - i,
{
    let done = if word.len() > 0 { with_token(found, word, prefix) } else { found };
    assert(done.no_duplicates());
    if i < s.len() {
        if word_char(s[i]) {
            lemma_words_distinct(found, s, i + 1, word.push(s[i]), prefix);
        } else {
            lemma_words_distinct(done, s, i + 1, Seq::empty(), prefix);
        }
    }
}

/// Every one of `found` starts with the prefix without being it.
pub open spec fn all_extend(found: Seq<Seq<char>>, prefix: Seq<char>) -> bool {
    forall|k: int|
        0 <= k < found.len() ==> prefix.is_prefix_of(#[trigger] found[k]) && found[k] != prefix
}

/// What is suggested: each word once, never the prefix itself, always one that
/// starts with it, and not more than [`MAX_MATCHES`].
pub proof fn suggestions_extend_the_prefix(s: Seq<char>, prefix: Seq<char>)
    ensures
        matching_words(s, prefix).no_duplicates(),
        matching_words(s, prefix).len() <= MAX_MATCHES,
        all_extend(matching_words(s, prefix), prefix),
{
    lemma_words_distinct(Seq::empty(), s, 0, Seq::empty(), prefix);
    lemma_words_extend(Seq::empty(), s, 0, Seq::empty(), prefix);
}

proof fn lemma_words_extend(
    found: Seq<Seq<char>>,
    s: Seq<char>,
    i: int,
    word: Seq<char>,
    prefix: Seq<char>,
)
    requires
        0 <= i,
        all_extend(found, prefix),
    ensures
        all_extend(with_words(found, s, i, word, prefix), prefix),
    decreases s.len() - i,
{
    let done = if word.len() > 0 { with_token(found, word, prefix) } else { found };
    assert(all_extend(done, prefix));
    if i < s.len() {
        if word_char(s[i]) {
            lemma_words_extend(found, s, i + 1, word.push(s[i]), prefix);
        } else {
            lemma_words_extend(done, s, i + 1, Seq::empty(), prefix);
        }
    }
}

/// `s` from `i` to `j` is a word: one or more letters, digits and underscores
/// with none just before or behind.
pub open spec fn is_word_at(s: Seq<char>, i: int, j: int) -> bool {
    &&& 0 <= i < j <= s.len()
    &&& forall|k: int| i <= k < j ==> is_letter_or_number(#[trigger] s[k]) || s[k] == '_'
    &&& i > 0 ==> !(is_letter_or_number(s[i - 1]) || s[i - 1] == '_')
    &&& j < s.len() ==> !(is_letter_or_number(s[j]) || s[j] == '_')
}

/// Some part of `s` is the word `word`.
pub open spec fn has_word(s: Seq<char>, word: Seq<char>) -> bool {
    exists|i: int, j: int| #[trigger] is_word_at(s, i, j) && s.subrange(i, j) == word
}

/// Walking on keeps what was found.
proof fn lemma_words_stay(
    found: Seq<Seq<char>>,
    s: Seq<char>,
    i: int,
    word: Seq<char>,
    prefix: Seq<char>,
)
    requires
        0 <= i,
    ensures
        found.len() <= with_words(found, s, i, word, prefix).len(),
        forall|k: int|
            0 <= k < found.len() ==> (#[trigger] with_words(found, s, i, word, prefix)[k])
                == found[k],
    decreases s.len() - i,
{
    let done = if word.len() > 0 { with_token(found, word, prefix) } else { found };
    if i < s.len() {
        if word_char(s[i]) {
            lemma_words_stay(found, s, i + 1, word.push(s[i]), prefix);
        } else {
            lemma_words_stay(done, s, i + 1, Seq::empty(), prefix);
            assert forall|k: int| 0 <= k < found.len() implies (#[trigger] with_words(
                found,
                s,
                i,
                word,
                prefix,
            )[k]) == found[k] by {
                assert(with_words(done, s, i + 1, Seq::empty(), prefix)[k] == done[k]);
            }
        }
    }
}

/// Every word that ends at `i` or behind is found, where there is room.
proof fn lemma_words_complete(
    found: Seq<Seq<char>>,
    s: Seq<char>,
    i: int,
    from: int,
    prefix: Seq<char>,
    a: int,
    b: int,
)
    requires
        0 <= from <= i <= s.len(),
        from < i ==> is_word_start(s, from),
        forall|k: int| from <= k < i ==> word_char(#[trigger] s[k]),
        from == i && i > 0 ==> !word_char(s[i - 1]),
        is_word_at(s, a, b),
        from <= a,
        prefix.is_prefix_of(s.subrange(a, b)),
        s.subrange(a, b) != prefix,
        with_words(found, s, i, s.subrange(from, i), prefix).len() < MAX_MATCHES,
    ensures
        with_words(found, s, i, s.subrange(from, i), prefix).contains(s.subrange(a, b)),
    decreases s.len() - i,
{
    let word = s.subrange(from, i);
    let done = if word.len() > 0 { with_token(found, word, prefix) } else { found };
    let all = with_words(found, s, i, word, prefix);
    if i < s.len() && word_char(s[i]) {
        assert(word.push(s[i]) =~= s.subrange(from, i + 1));
        lemma_words_complete(found, s, i + 1, from, prefix, a, b);
    } else {
        lemma_words_stay(found, s, i, word, prefix);
        if i < s.len() {
            lemma_words_stay(done, s, i + 1, Seq::empty(), prefix);
        }
        if from < i && a < i {
            // Between `from` and `i` there is one word.
            if a > from {
                assert(word_char(s[a - 1]));
            }
            if b < i {
                assert(word_char(s[b]));
            }
            if b > i {
                assert(word_char(s[i]));
            }
            assert(a == from && b == i);
            assert(done.contains(word)) by {
                if found.contains(word) {
                } else {
                    assert(done.last() == word);
                }
            }
            let k = choose|k: int| 0 <= k < done.len() && done[k] == word;
            assert(all[k] == word);
        } else {
            assert(i < s.len());
            if a == i {
                assert(word_char(s[a]));
            }
            assert(s.subrange(i + 1, i + 1) =~= Seq::empty());
            lemma_words_complete(done, s, i + 1, i + 1, prefix, a, b);
        }
    }
}

spec fn is_word_start(s: Seq<char>, from: int) -> bool {
    from == 0 || !word_char(s[from - 1])
}

/// Every word that is found stands in the text.
proof fn lemma_words_sound(
    found: Seq<Seq<char>>,
    s: Seq<char>,
    i: int,
    from: int,
    prefix: Seq<char>,
)
    requires
        0 <= from <= i <= s.len(),
        is_word_start(s, from),
        forall|k: int| from <= k < i ==> word_char(#[trigger] s[k]),
        forall|k: int| 0 <= k < found.len() ==> has_word(s, #[trigger] found[k]),
    ensures
        forall|k: int|
            0 <= k < with_words(found, s, i, s.subrange(from, i), prefix).len() ==> has_word(
                s,
                #[trigger] with_words(found, s, i, s.subrange(from, i), prefix)[k],
            ),
    decreases s.len() - i,
{
    let word = s.subrange(from, i);
    let done = if word.len() > 0 { with_token(found, word, prefix) } else { found };
    let all = with_words(found, s, i, word, prefix);
    if i < s.len() && word_char(s[i]) {
        assert(word.push(s[i]) =~= s.subrange(from, i + 1));
        lemma_words_sound(found, s, i + 1, from, prefix);
        assert(all == with_words(found, s, i + 1, s.subrange(from, i + 1), prefix));
    } else {
        if word.len() > 0 {
            assert(is_word_at(s, from, i));
            assert(has_word(s, word));
        }
        if i < s.len() {
            assert(s.subrange(i + 1, i + 1) =~= Seq::empty());
            lemma_words_sound(done, s, i + 1, i + 1, prefix);
            assert(all == with_words(done, s, i + 1, s.subrange(i + 1, i + 1), prefix));
        } else {
            assert(all == done);
        }
    }
}

/// Every word of the text that starts with the prefix, without being it, is
/// suggested, unless there are as many suggestions as there may be. A word is
/// a longest run of letters, digits and underscores, whatever stands around
/// it.
pub proof fn every_matching_word_is_suggested(
    items: Seq<CompletionItem>,
    text: Seq<char>,
    prefix: Seq<char>,
    prefix_range: Range<usize>,
    i: int,
    j: int,
)
    requires
        are_word_items(items, text, prefix, prefix_range),
        items.len() < 500,
        prefix.len() > 0,
        0 <= i < j <= text.len(),
        forall|k: int| i <= k < j ==> is_letter_or_number(#[trigger] text[k]) || text[k] == '_',
        i > 0 ==> !is_letter_or_number(text[i - 1]) && text[i - 1] != '_',
        j < text.len() ==> !is_letter_or_number(text[j]) && text[j] != '_',
        prefix.is_prefix_of(text.subrange(i, j)),
        text.subrange(i, j) != prefix,
    ensures
        exists|n: int| 0 <= n < items.len() && (#[trigger] items[n]).label@ == text.subrange(i, j),
{
    let word = text.subrange(i, j);
    assert(text.subrange(0, 0) =~= Seq::empty());
    assert(is_word_at(text, i, j));
    lemma_words_complete(Seq::empty(), text, 0, 0, prefix, i, j);
    assert(labels(items).len() == matching_words(text, prefix).len());
    assert(labels(items).contains(word));
    let n = choose|n: int| 0 <= n < labels(items).len() && labels(items)[n] == word;
    assert(items[n].label@ == word);
}

/// Nothing else is suggested: each suggestion is a word of the text that starts
/// with the prefix without being it. Each comes once, they come in
/// alphabetical order, and there are no more than five hundred. Accepting
/// one puts the word itself in place of the prefix.
pub proof fn suggestions_are_words_of_the_text(
    items: Seq<CompletionItem>,
    text: Seq<char>,
    prefix: Seq<char>,
    prefix_range: Range<usize>,
)
    requires
        are_word_items(items, text, prefix, prefix_range),
    ensures
        items.len() <= 500,
        prefix.len() == 0 ==> items.len() == 0,
        forall|n: int|
            0 <= n < items.len() ==> has_word(text, (#[trigger] items[n]).label@)
                && prefix.is_prefix_of(items[n].label@) && items[n].label@ != prefix,
        forall|m: int, n: int|
            0 <= m < n < items.len() ==> lex_before(
                (#[trigger] items[m]).label@,
                (#[trigger] items[n]).label@,
            ),
        forall|n: int|
            0 <= n < items.len() ==> (#[trigger] items[n]).insert_text@ == items[n].label@
                && items[n].replace_range == prefix_range && !items[n].is_snippet
                && items[n].source == CompletionSource::Word,
{
    suggestions_extend_the_prefix(text, prefix);
    let found = matching_words(text, prefix);
    let sorted = labels(items);
    assert(text.subrange(0, 0) =~= Seq::empty());
    lemma_words_sound(Seq::empty(), text, 0, 0, prefix);
    assert forall|n: int| 0 <= n < items.len() implies has_word(text, (#[trigger] items[n]).label@)
        && prefix.is_prefix_of(items[n].label@) && items[n].label@ != prefix by {
        assert(sorted[n] == items[n].label@);
        assert(sorted.contains(items[n].label@));
        assert(found.contains(items[n].label@));
        let k = choose|k: int| 0 <= k < found.len() && found[k] == items[n].label@;
        assert(has_word(text, found[k]));
    }
    assert forall|m: int, n: int| 0 <= m < n < items.len() implies lex_before(
        (#[trigger] items[m]).label@,
        (#[trigger] items[n]).label@,
    ) by {
        assert(sorted[m] == items[m].label@ && sorted[n] == items[n].label@);
    }
    assert forall|n: int| 0 <= n < items.len() implies (#[trigger] items[n]).insert_text@
        == items[n].label@ && items[n].replace_range == prefix_range && !items[n].is_snippet
        && items[n].source == CompletionSource::Word by {
        assert(is_word_item(items[n], prefix_range));
    }
}

/// The words that come first are kept: what is suggested for the beginning of a
/// text, up to a character that is no part of a word, is suggested for the whole
/// text too, before anything behind it.
pub proof fn the_first_words_are_kept(a: Seq<char>, c: char, b: Seq<char>, prefix: Seq<char>)
    requires
        !is_letter_or_number(c),
        c != '_',
    ensures
        matching_words(a, prefix).is_prefix_of(matching_words(a + seq![c] + b, prefix)),
{
    lemma_words_cut(Seq::empty(), a, c, b, 0, Seq::empty(), prefix);
    let s = a + seq![c] + b;
    let first = matching_words(a, prefix);
    lemma_words_stay(first, s, a.len() as int + 1, Seq::empty(), prefix);
    let all = matching_words(s, prefix);
    assert(all.subrange(0, first.len() as int) =~= first);
}

proof fn lemma_words_cut(
    found: Seq<Seq<char>>,
    a: Seq<char>,
    c: char,
    b: Seq<char>,
    i: int,
    word: Seq<char>,
    prefix: Seq<char>,
)
    requires
        0 <= i <= a.len(),
        !word_char(c),
    ensures
        with_words(found, a + seq![c] + b, i, word, prefix) == with_words(
            with_words(found, a, i, word, prefix),
            a + seq![c] + b,
            a.len() as int + 1,
            Seq::empty(),
            prefix,
        ),
    decreases a.len() - i,
{
    let s = a + seq![c] + b;
    let done = if word.len() > 0 { with_token(found, word, prefix) } else { found };
    if i < a.len() {
        assert(s[i] == a[i]);
        if word_char(a[i]) {
            lemma_words_cut(found, a, c, b, i + 1, word.push(a[i]), prefix);
        } else {
            lemma_words_cut(done, a, c, b, i + 1, Seq::empty(), prefix);
        }
    } else {
        assert(s[i] == c);
    }
}

} // verus!
