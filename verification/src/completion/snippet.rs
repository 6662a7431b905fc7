//! Snippet body parser and renderer.
//!
//! Handles bare tabstops `$N`, braced tabstops `${N}` and placeholders with
//! default text `${N:default}`. Backslash escapes a literal `$`, `}`, or `\`.
//! Any other form (choices, variables, transforms, nested placeholders) falls
//! through to literal text: the body still inserts cleanly, the editor just
//! has no structure to navigate.
//!
//! [`Snippet::render`] returns the inlined text plus an ordered list of
//! [`TabstopGroup`]s. Each group is the byte ranges sharing one tabstop
//! number; tabs visit groups in ascending order with `$0` (or, absent that,
//! the end of the rendered text) as the exit.

use crate::lists::copied_range;
use crate::text::{byte_len, bytes_in, chars_of, decimal_digits, digit_char, encoding_is_additive};
use std::ops::Range;
use vstd::prelude::*;
use vstd::string::StringExecFns;

verus! {

/// One element of a parsed snippet body.
#[derive(Debug, Clone, PartialEq, Eq)]
pub enum Element {
    /// Literal text, its escapes resolved.
    Text(String),
    /// `$N` or `${N}` tabstop with no default.
    Tabstop(u32),
    /// `${N:default}` placeholder. The default is plain text; a placeholder
    /// inside it stays literal text.
    Placeholder(u32, String),
}

/// Parsed snippet body.
#[derive(Debug, Clone, PartialEq, Eq)]
pub struct Snippet {
    pub elements: Vec<Element>,
}

/// Output of [`Snippet::render`]: rendered text plus tabstop visit groups.
#[derive(Debug, Clone, PartialEq, Eq)]
pub struct Rendered {
    pub text: String,
    /// Tabstop groups in visit order. The last entry is the exit, a
    /// zero-length range; it always exists, so callers always have a place to
    /// land the cursor.
    pub groups: Vec<TabstopGroup>,
}

/// All byte ranges in [`Rendered::text`] that share a tabstop number.
#[derive(Debug, Clone, PartialEq, Eq)]
pub struct TabstopGroup {
    pub idx: u32,
    pub ranges: Vec<Range<usize>>,
}

// ---------------------------------------------------------------------------
// The grammar
// ---------------------------------------------------------------------------

/// An element, as the characters it stands for.
pub enum Piece {
    Text(Seq<char>),
    Tabstop(u32),
    Placeholder(u32, Seq<char>),
}

impl View for Element {
    type V = Piece;

    open spec fn view(&self) -> Piece {
        match self {
            Element::Text(t) => Piece::Text(t@),
            Element::Tabstop(n) => Piece::Tabstop(*n),
            Element::Placeholder(n, t) => Piece::Placeholder(*n, t@),
        }
    }
}

impl View for Snippet {
    type V = Seq<Piece>;

    open spec fn view(&self) -> Seq<Piece> {
        Seq::new(self.elements@.len(), |i: int| self.elements@[i]@)
    }
}

pub open spec fn is_digit(c: char) -> bool {
    '0' <= c <= '9'
}

/// The characters that a backslash turns into literal text.
pub open spec fn escapable(c: char) -> bool {
    c == '$' || c == '}' || c == '\\'
}

/// Where the run of digits that starts at `i` ends.
pub open spec fn digits_end(s: Seq<char>, i: int) -> int
    decreases s.len() - i,
{
    if 0 <= i < s.len() && is_digit(s[i]) {
        digits_end(s, i + 1)
    } else {
        i
    }
}

/// The decimal value of the digits from `i` to `j`.
pub open spec fn decimal(s: Seq<char>, i: int, j: int) -> nat
    decreases j - i,
{
    if i >= j {
        0
    } else {
        decimal(s, i, j - 1) * 10 + (s[j - 1] as nat - '0' as nat) as nat
    }
}

/// The tabstop number that the digits from `i` to `j` give: none where there
/// are no digits or the value is out of range.
pub open spec fn number(s: Seq<char>, i: int, j: int) -> Option<u32> {
    if i < j && decimal(s, i, j) <= u32::MAX {
        Some(decimal(s, i, j) as u32)
    } else {
        None
    }
}

/// Whether a backslash at `i` escapes the character after it.
pub open spec fn escapes_at(s: Seq<char>, i: int) -> bool {
    s[i] == '\\' && i + 1 < s.len() && escapable(s[i + 1])
}

/// The text that `s` stands for from `i` on, its escapes resolved.
pub open spec fn unescaped(s: Seq<char>, i: int) -> Seq<char>
    decreases s.len() - i,
{
    if !(0 <= i < s.len()) {
        Seq::empty()
    } else if escapes_at(s, i) {
        seq![s[i + 1]] + unescaped(s, i + 2)
    } else {
        seq![s[i]] + unescaped(s, i + 1)
    }
}

/// The brace that closes `depth` open ones, looking from `k` on. A backslash
/// hides the character after it.
pub open spec fn closing(s: Seq<char>, k: int, depth: nat) -> Option<int>
    decreases s.len() - k,
{
    if !(0 <= k < s.len()) || depth == 0 {
        None
    } else if s[k] == '\\' && k + 1 < s.len() {
        closing(s, k + 2, depth)
    } else if s[k] == '{' {
        closing(s, k + 1, depth + 1)
    } else if s[k] == '}' {
        if depth == 1 {
            Some(k)
        } else {
            closing(s, k + 1, (depth - 1) as nat)
        }
    } else {
        closing(s, k + 1, depth)
    }
}

/// The element whose opening brace stands just before `i`, with the place
/// after its closing one.
pub open spec fn braced_at(s: Seq<char>, i: int) -> Option<(Piece, int)> {
    let end = digits_end(s, i);
    match number(s, i, end) {
        None => None,
        Some(n) => if end >= s.len() {
            None
        } else if s[end] == '}' {
            Some((Piece::Tabstop(n), end + 1))
        } else if s[end] == ':' {
            match closing(s, end + 1, 1) {
                Some(k) => Some((Piece::Placeholder(n, unescaped(s.subrange(end + 1, k), 0)), k + 1)),
                None => None,
            }
        } else {
            None
        },
    }
}

/// The element that the `$` at `i` opens, with the place after it.
pub open spec fn element_at(s: Seq<char>, i: int) -> Option<(Piece, int)> {
    if i + 1 >= s.len() {
        None
    } else if is_digit(s[i + 1]) {
        let end = digits_end(s, i + 1);
        match number(s, i + 1, end) {
            Some(n) => Some((Piece::Tabstop(n), end)),
            None => None,
        }
    } else if s[i + 1] == '{' {
        braced_at(s, i + 2)
    } else {
        None
    }
}

/// Literal text as a list of elements: none where there is no text.
pub open spec fn text_piece(text: Seq<char>) -> Seq<Piece> {
    if text.len() == 0 {
        Seq::empty()
    } else {
        seq![Piece::Text(text)]
    }
}

/// The elements of `s` from `i` on, where `text` is literal text just before.
pub open spec fn pieces(s: Seq<char>, i: int, text: Seq<char>) -> Seq<Piece>
    decreases s.len() - i,
    when 0 <= i
    via pieces_decreases
{
    if i >= s.len() {
        text_piece(text)
    } else if escapes_at(s, i) {
        pieces(s, i + 2, text.push(s[i + 1]))
    } else if s[i] == '$' && element_at(s, i) is Some {
        let (piece, end) = element_at(s, i)->0;
        text_piece(text) + seq![piece] + pieces(s, end, Seq::empty())
    } else {
        pieces(s, i + 1, text.push(s[i]))
    }
}

#[via_fn]
proof fn pieces_decreases(s: Seq<char>, i: int, text: Seq<char>) {
    if i < s.len() && element_at(s, i) is Some {
        lemma_element_bounds(s, i);
    }
}

proof fn lemma_digits_end(s: Seq<char>, i: int)
    requires
        0 <= i,
    ensures
        i <= digits_end(s, i),
        i <= s.len() ==> digits_end(s, i) <= s.len(),
        forall|k: int| i <= k < digits_end(s, i) ==> is_digit(#[trigger] s[k]),
    decreases s.len() - i,
{
    if i < s.len() && is_digit(s[i]) {
        lemma_digits_end(s, i + 1);
    }
}

proof fn lemma_closing(s: Seq<char>, k: int, depth: nat)
    requires
        0 <= k,
    ensures
        closing(s, k, depth) matches Some(j) ==> k <= j < s.len() && s[j] == '}',
    decreases s.len() - k,
{
    if k < s.len() && depth > 0 {
        if s[k] == '\\' && k + 1 < s.len() {
            lemma_closing(s, k + 2, depth);
        } else if s[k] == '{' {
            lemma_closing(s, k + 1, depth + 1);
        } else if s[k] == '}' {
            if depth > 1 {
                lemma_closing(s, k + 1, (depth - 1) as nat);
            }
        } else {
            lemma_closing(s, k + 1, depth);
        }
    }
}

proof fn lemma_element_bounds(s: Seq<char>, i: int)
    requires
        0 <= i < s.len(),
    ensures
        element_at(s, i) matches Some(found) ==> i < found.1 <= s.len(),
{
    if i + 1 < s.len() {
        lemma_digits_end(s, i + 1);
        lemma_digits_end(s, i + 2);
        let end = digits_end(s, i + 2);
        if i + 2 <= s.len() && end < s.len() {
            lemma_closing(s, end + 1, 1);
        }
    }
}

proof fn lemma_decimal_grows(s: Seq<char>, i: int, j: int, k: int)
    requires
        0 <= i <= j <= k <= s.len(),
        forall|m: int| i <= m < k ==> is_digit(#[trigger] s[m]),
    ensures
        decimal(s, i, j) <= decimal(s, i, k),
    decreases k - j,
{
    if j < k {
        lemma_decimal_grows(s, i, j, k - 1);
        assert(is_digit(s[k - 1]));
    }
}

// ---------------------------------------------------------------------------
// Parsing
// ---------------------------------------------------------------------------

fn digit(c: char) -> (r: bool)
    ensures
        r == is_digit(c),
{
    '0' <= c && c <= '9'
}

fn skip_digits(s: &Vec<char>, i: usize) -> (end: usize)
    requires
        i <= s.len(),
    ensures
        end == digits_end(s@, i as int),
        i <= end <= s.len(),
{
    let mut end: usize = i;
    while end < s.len() && digit(s[end])
        invariant
            i <= end <= s.len(),
            digits_end(s@, i as int) == digits_end(s@, end as int),
        decreases s.len() - end,
    {
        end = end + 1;
    }
    end
}

fn parse_number(s: &Vec<char>, i: usize, j: usize) -> (n: Option<u32>)
    requires
        i <= j <= s.len(),
        forall|k: int| i <= k < j ==> is_digit(#[trigger] s@[k]),
    ensures
        n == number(s@, i as int, j as int),
{
    if i == j {
        return None;
    }
    let mut value: u64 = 0;
    let mut k: usize = i;
    while k < j
        invariant
            i <= k <= j <= s.len(),
            forall|k: int| i <= k < j ==> is_digit(#[trigger] s@[k]),
            value == decimal(s@, i as int, k as int),
            value <= u32::MAX,
        decreases j - k,
    {
        assert(is_digit(s@[k as int]));
        let next: u64 = value * 10 + (s[k] as u64 - '0' as u64);
        k = k + 1;
        assert(next == decimal(s@, i as int, k as int));
        if next > 0xffff_ffff {
            proof {
                lemma_decimal_grows(s@, i as int, k as int, j as int);
            }
            return None;
        }
        value = next;
    }
    Some(value as u32)
}

/// The text of `s` with its escapes resolved.
pub fn unescape_default(s: &Vec<char>) -> (out: String)
    ensures
        out@ == unescaped(s@, 0),
{
    let mut out = String::new();
    let mut i: usize = 0;
    while i < s.len()
        invariant
            i <= s.len(),
            out@ + unescaped(s@, i as int) == unescaped(s@, 0),
        decreases s.len() - i,
    {
        let ghost was = out@;
        let c = s[i];
        if c == '\\' && i + 1 < s.len() {
            let next = s[i + 1];
            if next == '$' || next == '}' || next == '\\' {
                out.push(next);
                assert(was + (seq![next] + unescaped(s@, i + 2)) =~= out@ + unescaped(s@, i + 2));
                i = i + 2;
                continue ;
            }
        }
        out.push(c);
        assert(was + (seq![c] + unescaped(s@, i + 1)) =~= out@ + unescaped(s@, i + 1));
        i = i + 1;
    }
    assert(out@ + unescaped(s@, i as int) =~= out@);
    out
}

/// Parse the inside of `${...}` from `start`, just after the open brace.
/// Returns the element and the place after the matching `}`.
pub fn parse_braced(s: &Vec<char>, start: usize) -> (found: Option<(Element, usize)>)
    requires
        start <= s.len(),
    ensures
        match found {
            Some((e, end)) => braced_at(s@, start as int) == Some((e@, end as int)),
            None => braced_at(s@, start as int) is None,
        },
{
    let end: usize = skip_digits(s, start);
    proof {
        lemma_digits_end(s@, start as int);
    }
    let n: u32 = match parse_number(s, start, end) {
        Some(n) => n,
        None => {
            return None;
        },
    };
    if end >= s.len() {
        return None;
    }
    if s[end] == '}' {
        return Some((Element::Tabstop(n), end + 1));
    }
    if s[end] != ':' {
        return None;
    }
    let body: usize = end + 1;
    let mut depth: usize = 1;
    let mut k: usize = body;
    while k < s.len()
        invariant
            body <= k <= s.len(),
            1 <= depth <= k - body + 1,
            end < s.len(),
            body == end + 1,
            end == digits_end(s@, start as int),
            number(s@, start as int, end as int) == Some(n),
            s@[end as int] == ':',
            closing(s@, body as int, 1) == closing(s@, k as int, depth as nat),
        decreases s.len() - k,
    {
        let c = s[k];
        if c == '\\' && k + 1 < s.len() {
            k = k + 2;
            continue ;
        }
        if c == '{' {
            depth = depth + 1;
        } else if c == '}' {
            depth = depth - 1;
            if depth == 0 {
                let raw = copied_range(s, body, k);
                let default = unescape_default(&raw);
                return Some((Element::Placeholder(n, default), k + 1));
            }
        }
        k = k + 1;
    }
    None
}

/// Try to parse the element that the `$` at `start` opens. Returns it with the
/// place after it, or `None` when the form is not a supported one, so that the
/// caller falls back to literal text.
pub fn try_parse_dollar(s: &Vec<char>, start: usize) -> (found: Option<(Element, usize)>)
    requires
        start < s.len(),
        s@[start as int] == '$',
    ensures
        match found {
            Some((e, end)) => element_at(s@, start as int) == Some((e@, end as int)),
            None => element_at(s@, start as int) is None,
        },
{
    let after: usize = start + 1;
    if after >= s.len() {
        return None;
    }
    if digit(s[after]) {
        let end: usize = skip_digits(s, after);
        proof {
            lemma_digits_end(s@, after as int);
        }
        return match parse_number(s, after, end) {
            Some(n) => Some((Element::Tabstop(n), end)),
            None => None,
        };
    }
    if s[after] == '{' {
        return parse_braced(s, after + 1);
    }
    None
}

pub open spec fn viewed(elements: Seq<Element>) -> Seq<Piece> {
    Seq::new(elements.len(), |i: int| elements[i]@)
}

/// Parse a snippet body. Always succeeds; unrecognized syntax falls through to
/// literal text.
pub fn parse(input: &str) -> (snippet: Snippet)
    ensures
        snippet@ == pieces(input@, 0, Seq::empty()),
{
    let s = chars_of(input);
    let mut elements: Vec<Element> = Vec::new();
    let mut text = String::new();
    let mut i: usize = 0;
    assert(viewed(elements@) + pieces(s@, 0, text@) =~= pieces(s@, 0, Seq::empty()));
    while i < s.len()
        invariant
            i <= s.len(),
            s@ == input@,
            viewed(elements@) + pieces(s@, i as int, text@) == pieces(s@, 0, Seq::empty()),
        decreases s.len() - i,
    {
        let c = s[i];
        if c == '\\' && i + 1 < s.len() {
            let next = s[i + 1];
            if next == '$' || next == '}' || next == '\\' {
                text.push(next);
                i = i + 2;
                continue ;
            }
        }
        if c == '$' {
            if let Some((element, end)) = try_parse_dollar(&s, i) {
                proof {
                    lemma_element_bounds(s@, i as int);
                }
                let ghost was = elements@;
                let ghost literal = text@;
                if !text.as_str().is_empty() {
                    elements.push(Element::Text(text));
                }
                assert(viewed(elements@) =~= viewed(was) + text_piece(literal));
                let ghost mid = elements@;
                elements.push(element);
                assert(viewed(elements@) =~= viewed(mid) + seq![element@]);
                text = String::new();
                proof {
                    let rest = pieces(s@, end as int, Seq::empty());
                    assert(viewed(was) + (text_piece(literal) + seq![element@] + rest)
                        =~= viewed(elements@) + rest);
                }
                i = end;
                continue ;
            }
        }
        text.push(c);
        i = i + 1;
    }
    let ghost was = elements@;
    let ghost literal = text@;
    if !text.as_str().is_empty() {
        elements.push(Element::Text(text));
    }
    assert(viewed(elements@) =~= viewed(was) + text_piece(literal));
    let snippet = Snippet { elements };
    assert(snippet@ =~= viewed(snippet.elements@));
    snippet
}

// ---------------------------------------------------------------------------
// Rendering
// ---------------------------------------------------------------------------

/// The text that one element renders to.
pub open spec fn piece_text(p: Piece) -> Seq<char> {
    match p {
        Piece::Text(t) => t,
        Piece::Tabstop(_) => Seq::empty(),
        Piece::Placeholder(_, t) => t,
    }
}

/// The tabstop number of an element.
pub open spec fn piece_number(p: Piece) -> Option<u32> {
    match p {
        Piece::Text(_) => None,
        Piece::Tabstop(n) => Some(n),
        Piece::Placeholder(n, _) => Some(n),
    }
}

/// The text that the first `k` elements render to.
pub open spec fn rendered_text(ps: Seq<Piece>, k: nat) -> Seq<char>
    decreases k,
{
    if k == 0 {
        Seq::empty()
    } else {
        rendered_text(ps, (k - 1) as nat) + piece_text(ps[k - 1])
    }
}

/// The byte range that element `k` takes in the rendered text.
pub open spec fn span(ps: Seq<Piece>, k: int) -> (nat, nat) {
    (byte_len(rendered_text(ps, k as nat)), byte_len(rendered_text(ps, (k + 1) as nat)))
}

/// The ranges of the elements among the first `k` that carry the number `n`.
pub open spec fn spans_numbered(ps: Seq<Piece>, k: nat, n: u32) -> Seq<(nat, nat)>
    decreases k,
{
    if k == 0 {
        Seq::empty()
    } else {
        let before = spans_numbered(ps, (k - 1) as nat, n);
        if piece_number(ps[k - 1]) == Some(n) {
            before.push(span(ps, k - 1))
        } else {
            before
        }
    }
}

pub open spec fn spans(ranges: Seq<Range<usize>>) -> Seq<(nat, nat)> {
    Seq::new(ranges.len(), |i: int| (ranges[i].start as nat, ranges[i].end as nat))
}

/// Where the cursor ends up, as a range of no length: the start of the last
/// element numbered zero, or the end of the text.
pub open spec fn exit_span(ps: Seq<Piece>) -> (nat, nat) {
    let zeros = spans_numbered(ps, ps.len(), 0);
    let end = byte_len(rendered_text(ps, ps.len()));
    if zeros.len() > 0 {
        (zeros.last().0, zeros.last().0)
    } else {
        (end, end)
    }
}

/// `groups` are the groups of the first `k` elements, apart from the exit: one
/// for each number in use, in ascending order.
pub open spec fn is_grouping(groups: Seq<TabstopGroup>, ps: Seq<Piece>, k: nat) -> bool {
    &&& ascending(groups)
    &&& forall|i: int|
        0 <= i < groups.len() ==> (#[trigger] groups[i]).idx != 0 && groups[i].ranges@.len() > 0
            && spans(groups[i].ranges@) == spans_numbered(ps, k, groups[i].idx)
    &&& forall|n: u32|
        n != 0 && (#[trigger] spans_numbered(ps, k, n)).len() > 0 ==> exists|i: int|
            0 <= i < groups.len() && (#[trigger] groups[i]).idx == n
}

/// `r` is the rendering of the elements `ps`: their text, a group for each
/// number but zero in ascending order, and the exit as the last group.
pub open spec fn is_rendering(r: Rendered, ps: Seq<Piece>) -> bool {
    &&& r.text@ == rendered_text(ps, ps.len())
    &&& r.groups@.len() > 0
    &&& is_grouping(r.groups@.drop_last(), ps, ps.len())
    &&& r.groups@.last().idx == 0
    &&& spans(r.groups@.last().ranges@) == seq![exit_span(ps)]
}

/// The groups stand in ascending order of their numbers.
pub open spec fn ascending(groups: Seq<TabstopGroup>) -> bool {
    forall|i: int, j: int|
        0 <= i < j < groups.len() ==> (#[trigger] groups[i]).idx < (#[trigger] groups[j]).idx
}

/// `after` is `before` with one more range in the group at `i`, whose number
/// is `n`; the group is a new one where `before` has none of that number.
spec fn filed_at(
    before: Seq<TabstopGroup>,
    after: Seq<TabstopGroup>,
    n: u32,
    range: (nat, nat),
    i: int,
) -> bool {
    &&& 0 <= i < after.len()
    &&& after[i].idx == n
    &&& if after.len() == before.len() {
        &&& before[i].idx == n
        &&& after == before.update(i, after[i])
        &&& spans(after[i].ranges@) == spans(before[i].ranges@).push(range)
    } else {
        &&& i <= before.len()
        &&& after == before.insert(i, after[i])
        &&& spans(after[i].ranges@) == seq![range]
        &&& forall|k: int| 0 <= k < before.len() ==> (#[trigger] before[k]).idx != n
    }
}

/// Files `range` under the number `n`, and tells where.
fn file_range(groups: &mut Vec<TabstopGroup>, n: u32, range: Range<usize>) -> (at: usize)
    requires
        n != 0,
        ascending(old(groups)@),
    ensures
        ascending(final(groups)@),
        filed_at(
            old(groups)@,
            final(groups)@,
            n,
            (range.start as nat, range.end as nat),
            at as int,
        ),
{
    let mut at: usize = 0;
    while at < groups.len() && groups[at].idx < n
        invariant
            at <= groups.len(),
            groups@ == old(groups)@,
            forall|i: int| 0 <= i < at ==> (#[trigger] groups@[i]).idx < n,
        decreases groups.len() - at,
    {
        at = at + 1;
    }
    if at < groups.len() && groups[at].idx == n {
        let mut group = groups.remove(at);
        let ghost was = group.ranges@;
        group.ranges.push(range);
        assert(spans(group.ranges@) =~= spans(was).push((range.start as nat, range.end as nat)));
        groups.insert(at, group);
        assert(groups@ =~= old(groups)@.update(at as int, group));
        assert(groups@[at as int].idx == n);
    } else {
        let ranges = vec![range];
        assert(spans(ranges@) =~= seq![(range.start as nat, range.end as nat)]);
        let group = TabstopGroup { idx: n, ranges };
        groups.insert(at, group);
        assert(groups@[at as int] == group);
        assert forall|k: int| 0 <= k < old(groups).len() implies (
        #[trigger] old(groups)@[k]).idx != n by {
            if k > at {
                assert(old(groups)@[at as int].idx < old(groups)@[k].idx);
            }
        }
    }
    at
}

proof fn lemma_filed(
    before: Seq<TabstopGroup>,
    after: Seq<TabstopGroup>,
    ps: Seq<Piece>,
    k: nat,
    n: u32,
    i: int,
)
    requires
        is_grouping(before, ps, k),
        k < ps.len(),
        n != 0,
        piece_number(ps[k as int]) == Some(n),
        ascending(after),
        filed_at(before, after, n, span(ps, k as int), i),
    ensures
        is_grouping(after, ps, k + 1),
{
    if before.len() != after.len() {
        assert(spans_numbered(ps, k, n).len() == 0);
        assert(spans_numbered(ps, k + 1, n) =~= seq![span(ps, k as int)]);
    }
    assert forall|g: int| 0 <= g < after.len() implies (#[trigger] after[g]).idx != 0
        && after[g].ranges@.len() > 0 && spans(after[g].ranges@) == spans_numbered(
        ps,
        k + 1,
        after[g].idx,
    ) by {
        assert(spans(after[i].ranges@).len() > 0);
        if g != i {
            if after.len() == before.len() {
                assert(after[g] == before[g]);
            } else if g < i {
                assert(after[g] == before[g]);
            } else {
                assert(after[g] == before[g - 1]);
            }
            assert(after[g].idx != n);
        }
    }
    assert forall|m: u32|
        m != 0 && (#[trigger] spans_numbered(ps, k + 1, m)).len() > 0 implies exists|g: int|
        0 <= g < after.len() && (#[trigger] after[g]).idx == m by {
        if m == n {
            assert(after[i].idx == m);
        } else {
            assert(spans_numbered(ps, k, m).len() > 0);
            let b = choose|b: int| 0 <= b < before.len() && (#[trigger] before[b]).idx == m;
            if after.len() == before.len() {
                assert(after[b].idx == m);
            } else if b < i {
                assert(after[b].idx == m);
            } else {
                assert(after[b + 1].idx == m);
            }
        }
    }
}

proof fn lemma_not_filed(groups: Seq<TabstopGroup>, ps: Seq<Piece>, k: nat)
    requires
        is_grouping(groups, ps, k),
        k < ps.len(),
        piece_number(ps[k as int]) is None || piece_number(ps[k as int]) == Some(0u32),
    ensures
        is_grouping(groups, ps, k + 1),
{
    assert forall|n: u32|
        n != 0 && (#[trigger] spans_numbered(ps, k + 1, n)).len() > 0 implies exists|i: int|
        0 <= i < groups.len() && (#[trigger] groups[i]).idx == n by {
        assert(spans_numbered(ps, k, n).len() > 0);
    }
}

proof fn lemma_rendered_text_grows(ps: Seq<Piece>, j: nat, k: nat)
    requires
        j <= k,
    ensures
        byte_len(rendered_text(ps, j)) <= byte_len(rendered_text(ps, k)),
    decreases k,
{
    if j < k {
        lemma_rendered_text_grows(ps, j, (k - 1) as nat);
        encoding_is_additive(rendered_text(ps, (k - 1) as nat), piece_text(ps[k - 1]));
    }
}

proof fn lemma_spans_in_the_text(ps: Seq<Piece>, k: nat, n: u32)
    ensures
        forall|i: int|
            0 <= i < spans_numbered(ps, k, n).len() ==> (#[trigger] spans_numbered(ps, k, n)[i]).0
                <= spans_numbered(ps, k, n)[i].1 <= byte_len(rendered_text(ps, k)),
    decreases k,
{
    if k > 0 {
        lemma_spans_in_the_text(ps, (k - 1) as nat, n);
        lemma_rendered_text_grows(ps, (k - 1) as nat, k);
        let before = spans_numbered(ps, (k - 1) as nat, n);
        assert forall|i: int| 0 <= i < spans_numbered(ps, k, n).len() implies (
        #[trigger] spans_numbered(ps, k, n)[i]).0 <= spans_numbered(ps, k, n)[i].1 <= byte_len(
            rendered_text(ps, k),
        ) by {
            if i < before.len() {
                assert(spans_numbered(ps, k, n)[i] == before[i]);
            }
        }
    }
}

/// Every tabstop of a rendered snippet lies in its text.
pub proof fn tabstops_lie_in_the_text(r: Rendered, ps: Seq<Piece>)
    requires
        is_rendering(r, ps),
    ensures
        forall|g: int, i: int|
            0 <= g < r.groups@.len() && 0 <= i < r.groups@[g].ranges@.len() ==> (
            #[trigger] r.groups@[g].ranges@[i]).start <= r.groups@[g].ranges@[i].end <= byte_len(
                r.text@,
            ),
{
    assert forall|g: int, i: int|
        0 <= g < r.groups@.len() && 0 <= i < r.groups@[g].ranges@.len() implies (
    #[trigger] r.groups@[g].ranges@[i]).start <= r.groups@[g].ranges@[i].end <= byte_len(
        r.text@,
    ) by {
        let group = r.groups@[g];
        lemma_spans_in_the_text(ps, ps.len(), group.idx);
        assert(spans(group.ranges@)[i] == (
            group.ranges@[i].start as nat,
            group.ranges@[i].end as nat,
        ));
        if g < r.groups@.len() - 1 {
            assert(r.groups@.drop_last()[g] == group);
            assert(spans_numbered(ps, ps.len(), group.idx)[i] == spans(group.ranges@)[i]);
        } else {
            assert(spans(group.ranges@) == seq![exit_span(ps)]);
            assert(spans(group.ranges@).len() == 1);
            lemma_spans_in_the_text(ps, ps.len(), 0);
        }
    }
}

/// The exit of a rendered snippet is one place in its text: a single range of
/// no length, at the end of the text where no element is numbered zero.
pub proof fn the_exit_is_one_place(r: Rendered, ps: Seq<Piece>)
    requires
        is_rendering(r, ps),
    ensures
        r.groups@.last().idx == 0,
        r.groups@.last().ranges@.len() == 1,
        r.groups@.last().ranges@[0].start == r.groups@.last().ranges@[0].end,
        r.groups@.last().ranges@[0].end <= byte_len(r.text@),
        (forall|k: int| 0 <= k < ps.len() ==> piece_number(#[trigger] ps[k]) != Some(0u32))
            ==> r.groups@.last().ranges@[0].start == byte_len(r.text@),
{
    let ranges = r.groups@.last().ranges@;
    assert(spans(ranges).len() == ranges.len());
    assert(spans(ranges)[0] == exit_span(ps));
    lemma_spans_in_the_text(ps, ps.len(), 0);
    if forall|k: int| 0 <= k < ps.len() ==> piece_number(#[trigger] ps[k]) != Some(0u32) {
        lemma_none_numbered(ps, ps.len(), 0);
    }
}

proof fn lemma_none_numbered(ps: Seq<Piece>, k: nat, n: u32)
    requires
        k <= ps.len(),
        forall|i: int| 0 <= i < ps.len() ==> piece_number(#[trigger] ps[i]) != Some(n),
    ensures
        spans_numbered(ps, k, n).len() == 0,
    decreases k,
{
    if k > 0 {
        lemma_none_numbered(ps, (k - 1) as nat, n);
    }
}

impl Snippet {
    /// The inlined text and the tabstop groups in visit order.
    pub fn render(&self) -> (r: Rendered)
        ensures
            is_rendering(r, self@),
    {
        let ghost ps = self@;
        let mut text = String::new();
        let mut groups: Vec<TabstopGroup> = Vec::new();
        let mut exit: Option<usize> = None;
        let mut k: usize = 0;
        while k < self.elements.len()
            invariant
                k <= self.elements.len(),
                ps == self@,
                text@ == rendered_text(ps, k as nat),
                is_grouping(groups@, ps, k as nat),
                match exit {
                    Some(at) => spans_numbered(ps, k as nat, 0).len() > 0 && spans_numbered(
                        ps,
                        k as nat,
                        0,
                    ).last().0 == at,
                    None => spans_numbered(ps, k as nat, 0).len() == 0,
                },
            decreases self.elements.len() - k,
        {
            assert(ps[k as int] == self.elements@[k as int]@);
            let start: usize = bytes_in(text.as_str());
            let number: Option<u32> = match &self.elements[k] {
                Element::Text(t) => {
                    text.append(t.as_str());
                    None
                },
                Element::Tabstop(n) => {
                    assert(text@ + Seq::<char>::empty() =~= text@);
                    Some(*n)
                },
                Element::Placeholder(n, default) => {
                    text.append(default.as_str());
                    Some(*n)
                },
            };
            let end: usize = bytes_in(text.as_str());
            assert(text@ == rendered_text(ps, (k + 1) as nat));
            let ghost before = groups@;
            match number {
                Some(n) => if n == 0 {
                    exit = Some(start);
                    proof {
                        lemma_not_filed(before, ps, k as nat);
                    }
                } else {
                    let at: usize = file_range(&mut groups, n, start..end);
                    proof {
                        assert(span(ps, k as int) == (start as nat, end as nat));
                        lemma_filed(before, groups@, ps, k as nat, n, at as int);
                    }
                },
                None => {
                    proof {
                        lemma_not_filed(before, ps, k as nat);
                    }
                },
            }
            k = k + 1;
        }
        let exit_at: usize = match exit {
            Some(at) => at,
            None => bytes_in(text.as_str()),
        };
        let ghost before = groups@;
        let ranges = vec![exit_at..exit_at];
        assert(spans(ranges@) =~= seq![exit_span(ps)]);
        groups.push(TabstopGroup { idx: 0, ranges });
        assert(groups@.drop_last() =~= before);
        Rendered { text, groups }
    }
}

// ---------------------------------------------------------------------------
// Laws
// ---------------------------------------------------------------------------

/// The text `s` with a backslash before each character that has a meaning.
pub open spec fn escaped(s: Seq<char>) -> Seq<char>
    decreases s.len(),
{
    if s.len() == 0 {
        Seq::empty()
    } else if s.last() == '$' || s.last() == '}' || s.last() == '\\' {
        escaped(s.drop_last()) + seq!['\\', s.last()]
    } else {
        escaped(s.drop_last()).push(s.last())
    }
}

proof fn lemma_plain(s: Seq<char>, i: int, text: Seq<char>)
    requires
        0 <= i <= s.len(),
        forall|k: int| i <= k < s.len() ==> #[trigger] s[k] != '$' && s[k] != '\\',
    ensures
        pieces(s, i, text) == text_piece(text + s.skip(i)),
    decreases s.len() - i,
{
    if i < s.len() {
        lemma_plain(s, i + 1, text.push(s[i]));
        assert(text.push(s[i]) + s.skip(i + 1) =~= text + s.skip(i));
    } else {
        assert(text + s.skip(i) =~= text);
    }
}

/// A body without `$` and `\` renders to itself, with the exit at its end and
/// nothing to visit before.
pub proof fn plain_text_renders_to_itself(s: Seq<char>, r: Rendered)
    requires
        forall|k: int| 0 <= k < s.len() ==> #[trigger] s[k] != '$' && s[k] != '\\',
        is_rendering(r, pieces(s, 0, Seq::empty())),
    ensures
        r.text@ == s,
        r.groups@.len() == 1,
        spans(r.groups@[0].ranges@) == seq![(byte_len(s), byte_len(s))],
{
    lemma_plain(s, 0, Seq::empty());
    assert(Seq::<char>::empty() + s.skip(0) =~= s);
    lemma_text_only(s, r);
}

proof fn lemma_text_only(s: Seq<char>, r: Rendered)
    requires
        is_rendering(r, text_piece(s)),
    ensures
        r.text@ == s,
        r.groups@.len() == 1,
        spans(r.groups@[0].ranges@) == seq![(byte_len(s), byte_len(s))],
{
    let ps = text_piece(s);
    reveal_with_fuel(rendered_text, 2);
    reveal_with_fuel(spans_numbered, 2);
    assert(rendered_text(ps, ps.len()) =~= s);
    let groups = r.groups@.drop_last();
    if groups.len() > 0 {
        assert(spans_numbered(ps, ps.len(), groups[0].idx).len() == 0);
        assert(spans(groups[0].ranges@).len() == groups[0].ranges@.len());
    }
}

proof fn lemma_escaped(s: Seq<char>, n: nat, text: Seq<char>)
    requires
        n <= s.len(),
    ensures
        pieces(escaped(s), escaped(s.take(n as int)).len() as int, text) == text_piece(
            text + s.skip(n as int),
        ),
    decreases s.len() - n,
{
    let e = escaped(s);
    let here = escaped(s.take(n as int)).len() as int;
    if n == s.len() {
        assert(s.take(n as int) =~= s);
        assert(text + s.skip(n as int) =~= text);
    } else {
        let c = s[n as int];
        lemma_escaped(s, n + 1, text.push(c));
        assert(text.push(c) + s.skip(n as int + 1) =~= text + s.skip(n as int));
        let next = s.take(n as int + 1);
        assert(next.drop_last() =~= s.take(n as int));
        assert(next.last() == c);
        lemma_escaped_prefix(s, n + 1);
        assert(e.take(escaped(next).len() as int) == escaped(next));
        if escapable(c) {
            assert(e.take(escaped(next).len() as int)[here] == '\\');
            assert(e.take(escaped(next).len() as int)[here + 1] == c);
            assert(e[here] == '\\' && e[here + 1] == c);
        } else {
            assert(e.take(escaped(next).len() as int)[here] == c);
            assert(e[here] == c);
        }
    }
}

proof fn lemma_escaped_prefix(s: Seq<char>, n: nat)
    requires
        n <= s.len(),
    ensures
        escaped(s.take(n as int)).len() <= escaped(s).len(),
        escaped(s).take(escaped(s.take(n as int)).len() as int) == escaped(s.take(n as int)),
    decreases s.len(),
{
    if n == s.len() {
        assert(s.take(n as int) =~= s);
        assert(escaped(s).take(escaped(s).len() as int) =~= escaped(s));
    } else {
        let shorter = s.drop_last();
        lemma_escaped_prefix(shorter, n);
        assert(shorter.take(n as int) =~= s.take(n as int));
        assert(escaped(s).take(escaped(shorter).len() as int) =~= escaped(shorter));
        assert(escaped(s).take(escaped(s.take(n as int)).len() as int) =~= escaped(shorter).take(
            escaped(s.take(n as int)).len() as int,
        ));
    }
}

/// Any text, its special characters escaped, renders to itself, with the exit
/// at its end and nothing to visit before.
pub proof fn escaped_text_renders_to_itself(s: Seq<char>, r: Rendered)
    requires
        is_rendering(r, pieces(escaped(s), 0, Seq::empty())),
    ensures
        r.text@ == s,
        r.groups@.len() == 1,
        spans(r.groups@[0].ranges@) == seq![(byte_len(s), byte_len(s))],
{
    lemma_escaped(s, 0, Seq::empty());
    assert(s.take(0) =~= Seq::empty());
    assert(Seq::<char>::empty() + s.skip(0) =~= s);
    lemma_text_only(s, r);
}

/// The text of an element in a snippet body: literal text with its special
/// characters escaped, a number in braces, the default after a colon.
pub open spec fn written(p: Piece) -> Seq<char> {
    match p {
        Piece::Text(t) => escaped(t),
        Piece::Tabstop(n) => seq!['$', '{'] + decimal_digits(n as nat) + seq!['}'],
        Piece::Placeholder(n, t) => seq!['$', '{'] + decimal_digits(n as nat) + seq![':'] + escaped(t)
            + seq!['}'],
    }
}

/// The body that the elements from `k` on make up.
pub open spec fn body_of(ps: Seq<Piece>, k: int) -> Seq<char>
    decreases ps.len() - k,
{
    if 0 <= k < ps.len() {
        written(ps[k]) + body_of(ps, k + 1)
    } else {
        Seq::empty()
    }
}

/// No text is empty or stands next to another, and no default holds an opening
/// brace.
pub open spec fn are_plain(ps: Seq<Piece>) -> bool {
    &&& forall|k: int| 0 <= k < ps.len() ==> ((#[trigger] ps[k]) matches Piece::Text(t) ==> t.len() > 0)
    &&& forall|k: int|
        0 < k < ps.len() ==> !((#[trigger] ps[k]) is Text && ps[k - 1] is Text)
    &&& forall|k: int|
        0 <= k < ps.len() ==> ((#[trigger] ps[k]) matches Piece::Placeholder(_, t) ==> forall|j: int|
            0 <= j < t.len() ==> #[trigger] t[j] != '{')
}

/// Walking over escaped text adds the text.
proof fn lemma_walk_text(s: Seq<char>, i: int, t: Seq<char>, acc: Seq<char>)
    requires
        0 <= i,
        i + escaped(t).len() <= s.len(),
        s.subrange(i, i + escaped(t).len()) == escaped(t),
    ensures
        pieces(s, i, acc) == pieces(s, i + escaped(t).len(), acc + t),
    decreases t.len(),
{
    if t.len() == 0 {
        assert(acc + t =~= acc);
    } else {
        let u = t.drop_last();
        let c = t.last();
        let e = escaped(t);
        let f = escaped(u);
        assert(s.subrange(i, i + f.len()) =~= f) by {
            assert(e.take(f.len() as int) =~= f);
            assert(s.subrange(i, i + e.len()).take(f.len() as int) =~= s.subrange(i, i + f.len()));
        }
        lemma_walk_text(s, i, u, acc);
        let at = i + f.len();
        assert(s[at] == s.subrange(i, i + e.len())[f.len() as int]);
        if c == '$' || c == '}' || c == '\\' {
            assert(s[at + 1] == s.subrange(i, i + e.len())[f.len() as int + 1]);
            assert(escapes_at(s, at));
        }
        assert((acc + u).push(c) =~= acc + t);
    }
}

proof fn lemma_digits_run(s: Seq<char>, i: int, m: nat)
    requires
        0 <= i,
        i + m <= s.len(),
        forall|k: int| i <= k < i + m ==> is_digit(#[trigger] s[k]),
        i + m == s.len() || !is_digit(s[i + m]),
    ensures
        digits_end(s, i) == i + m,
    decreases m,
{
    if m > 0 {
        assert(is_digit(s[i]));
        lemma_digits_run(s, i + 1, (m - 1) as nat);
    }
}

proof fn lemma_decimal_digits(n: nat)
    ensures
        decimal_digits(n).len() > 0,
        forall|k: int| 0 <= k < decimal_digits(n).len() ==> is_digit(#[trigger] decimal_digits(n)[k]),
    decreases n,
{
    if n >= 10 {
        lemma_decimal_digits(n / 10);
    }
    assert(is_digit(digit_char(n % 10)));
    if n < 10 {
        assert(is_digit(digit_char(n)));
    }
}

/// Reading a number gives what was written.
proof fn lemma_decimal_read(s: Seq<char>, i: int, n: nat)
    requires
        0 <= i,
        i + decimal_digits(n).len() <= s.len(),
        s.subrange(i, i + decimal_digits(n).len()) == decimal_digits(n),
    ensures
        decimal(s, i, i + decimal_digits(n).len()) == n,
    decreases n,
{
    let d = decimal_digits(n);
    let j = i + d.len();
    lemma_decimal_digits(n);
    assert(s[j - 1] == s.subrange(i, j)[d.len() - 1]);
    assert(d[d.len() - 1] == digit_char(n % 10));
    if n >= 10 {
        let shorter = decimal_digits(n / 10);
        assert(d.drop_last() =~= shorter);
        assert(s.subrange(i, j).drop_last() =~= s.subrange(i, j - 1));
        lemma_decimal_read(s, i, n / 10);
        assert(decimal(s, i, j) == decimal(s, i, j - 1) * 10 + n % 10);
    } else {
        assert(decimal(s, i, j - 1) == 0);
    }
}

proof fn lemma_walk_default(s: Seq<char>, i: int, t: Seq<char>)
    requires
        0 <= i,
        i + escaped(t).len() <= s.len(),
        s.subrange(i, i + escaped(t).len()) == escaped(t),
        forall|j: int| 0 <= j < t.len() ==> #[trigger] t[j] != '{',
    ensures
        closing(s, i, 1) == closing(s, i + escaped(t).len(), 1),
    decreases t.len(),
{
    if t.len() > 0 {
        let u = t.drop_last();
        let c = t.last();
        let e = escaped(t);
        let f = escaped(u);
        assert(s.subrange(i, i + f.len()) =~= f) by {
            assert(e.take(f.len() as int) =~= f);
            assert(s.subrange(i, i + e.len()).take(f.len() as int) =~= s.subrange(i, i + f.len()));
        }
        assert forall|j: int| 0 <= j < u.len() implies #[trigger] u[j] != '{' by {
            assert(t[j] != '{');
        }
        lemma_walk_default(s, i, u);
        let at = i + f.len();
        assert(s[at] == s.subrange(i, i + e.len())[f.len() as int]);
        assert(t[t.len() - 1] != '{');
        if c == '$' || c == '}' || c == '\\' {
            assert(s[at + 1] == s.subrange(i, i + e.len())[f.len() as int + 1]);
        }
    }
}

proof fn lemma_unescaped(t: Seq<char>, n: nat)
    requires
        n <= t.len(),
    ensures
        unescaped(escaped(t), escaped(t.take(n as int)).len() as int) == t.skip(n as int),
    decreases t.len() - n,
{
    let e = escaped(t);
    let here = escaped(t.take(n as int)).len() as int;
    if n == t.len() {
        assert(t.take(n as int) =~= t);
        assert(t.skip(n as int) =~= Seq::empty());
    } else {
        let c = t[n as int];
        lemma_unescaped(t, n + 1);
        let next = t.take(n as int + 1);
        assert(next.drop_last() =~= t.take(n as int));
        assert(next.last() == c);
        lemma_escaped_prefix(t, n + 1);
        assert(seq![c] + t.skip(n as int + 1) =~= t.skip(n as int));
        assert(e.take(escaped(next).len() as int) == escaped(next));
        assert(e.take(escaped(next).len() as int)[here] == e[here]);
        if c == '$' || c == '}' || c == '\\' {
            assert(e.take(escaped(next).len() as int)[here + 1] == e[here + 1]);
            assert(escapes_at(e, here));
        }
    }
}

/// A default is the text that it was escaped from, character for character.
pub proof fn an_escaped_default_is_its_text(t: Seq<char>, out: Seq<char>)
    requires
        out == unescaped(escaped(t), 0),
    ensures
        out == t,
{
    lemma_unescaped(t, 0);
    assert(t.take(0) =~= Seq::empty());
    assert(t.skip(0) =~= t);
}

/// A default without backslashes is itself, character for character.
pub proof fn a_plain_default_is_itself(s: Seq<char>, out: Seq<char>)
    requires
        forall|k: int| 0 <= k < s.len() ==> #[trigger] s[k] != '\\',
        out == unescaped(s, 0),
    ensures
        out == s,
{
    lemma_unescaped_plain(s, 0);
    assert(s.skip(0) =~= s);
}

proof fn lemma_unescaped_plain(s: Seq<char>, i: int)
    requires
        0 <= i <= s.len(),
        forall|k: int| 0 <= k < s.len() ==> #[trigger] s[k] != '\\',
    ensures
        unescaped(s, i) == s.skip(i),
    decreases s.len() - i,
{
    if i < s.len() {
        lemma_unescaped_plain(s, i + 1);
        assert(seq![s[i]] + s.skip(i + 1) =~= s.skip(i));
    } else {
        assert(s.skip(i) =~= Seq::empty());
    }
}

/// What stands in braces after a `$` is read as it was written.
proof fn lemma_element(s: Seq<char>, i: int, p: Piece)
    requires
        0 <= i,
        i + written(p).len() <= s.len(),
        s.subrange(i, i + written(p).len()) == written(p),
        !(p is Text),
        p matches Piece::Placeholder(_, t) ==> forall|j: int| 0 <= j < t.len() ==> #[trigger] t[j] != '{',
    ensures
        s[i] == '$',
        element_at(s, i) == Some((p, i + written(p).len())),
{
    let w = written(p);
    let end = i + w.len();
    let n: nat = match p {
        Piece::Text(_) => 0,
        Piece::Tabstop(n) => n as nat,
        Piece::Placeholder(n, _) => n as nat,
    };
    let d = decimal_digits(n);
    let m = d.len() as int;
    lemma_decimal_digits(n);
    assert(s[i] == s.subrange(i, end)[0]);
    assert(s[i + 1] == s.subrange(i, end)[1]);
    assert(s.subrange(i + 2, i + 2 + m) =~= d) by {
        assert(s.subrange(i, end).subrange(2, 2 + m) =~= s.subrange(i + 2, i + 2 + m));
        assert(w.subrange(2, 2 + m) =~= d);
    }
    assert(s[i + 2 + m] == s.subrange(i, end)[2 + m]);
    assert forall|k: int| i + 2 <= k < i + 2 + m implies is_digit(#[trigger] s[k]) by {
        assert(s[k] == s.subrange(i + 2, i + 2 + m)[k - i - 2]);
    }
    lemma_digits_run(s, i + 2, d.len());
    lemma_decimal_read(s, i + 2, n);
    match p {
        Piece::Placeholder(_, t) => {
            let e = escaped(t);
            let body = i + 3 + m;
            assert(s.subrange(body, body + e.len()) =~= e) by {
                assert(s.subrange(i, end).subrange(3 + m, 3 + m + e.len()) =~= s.subrange(
                    body,
                    body + e.len(),
                ));
                assert(w.subrange(3 + m, 3 + m + e.len()) =~= e);
            }
            lemma_walk_default(s, body, t);
            assert(s[end - 1] == s.subrange(i, end)[w.len() - 1]);
            assert(closing(s, body, 1) == Some(end - 1));
            an_escaped_default_is_its_text(t, unescaped(e, 0));
        },
        _ => {},
    }
}

proof fn lemma_body_at(ps: Seq<Piece>, s: Seq<char>, i: int, k: int)
    requires
        0 <= k < ps.len(),
        0 <= i <= s.len(),
        s.skip(i) == body_of(ps, k),
    ensures
        i + written(ps[k]).len() <= s.len(),
        s.subrange(i, i + written(ps[k]).len()) == written(ps[k]),
        s.skip(i + written(ps[k]).len()) == body_of(ps, k + 1),
{
    let w = written(ps[k]);
    assert(s.skip(i).len() == w.len() + body_of(ps, k + 1).len());
    assert(s.subrange(i, i + w.len()) =~= s.skip(i).take(w.len() as int));
    assert((w + body_of(ps, k + 1)).take(w.len() as int) =~= w);
    assert(s.skip(i + w.len()) =~= s.skip(i).skip(w.len() as int));
    assert((w + body_of(ps, k + 1)).skip(w.len() as int) =~= body_of(ps, k + 1));
}

proof fn lemma_read_back(ps: Seq<Piece>, s: Seq<char>, i: int, k: int, acc: Seq<char>)
    requires
        are_plain(ps),
        0 <= k <= ps.len(),
        0 <= i <= s.len(),
        s.skip(i) == body_of(ps, k),
        acc.len() > 0 ==> k == ps.len() || !(ps[k] is Text),
    ensures
        pieces(s, i, acc) == text_piece(acc) + ps.skip(k),
    decreases ps.len() - k,
{
    if k == ps.len() {
        assert(s.skip(i).len() == 0);
        assert(text_piece(acc) + ps.skip(k) =~= text_piece(acc));
    } else {
        lemma_body_at(ps, s, i, k);
        let p = ps[k];
        let end = i + written(p).len();
        match p {
            Piece::Text(t) => {
                assert(acc =~= Seq::empty());
                lemma_walk_text(s, i, t, acc);
                assert(acc + t =~= t);
                if k + 1 < ps.len() {
                    assert(!(ps[k + 1] is Text && ps[k] is Text));
                }
                lemma_read_back(ps, s, end, k + 1, t);
                assert(text_piece(t) + ps.skip(k + 1) =~= text_piece(acc) + ps.skip(k));
            },
            _ => {
                lemma_element(s, i, p);
                lemma_read_back(ps, s, end, k + 1, Seq::empty());
                assert(!escapes_at(s, i));
                assert(text_piece(acc) + seq![p] + (text_piece(Seq::empty()) + ps.skip(k + 1))
                    =~= text_piece(acc) + ps.skip(k));
            },
        }
    }
}

/// Parsing a body gives back the elements that it was written from: literal
/// text, tabstops and placeholders with their defaults, each with its number
/// and its text, in order.
pub proof fn a_body_is_read_as_it_was_written(ps: Seq<Piece>, parsed: Seq<Piece>)
    requires
        are_plain(ps),
        parsed == pieces(body_of(ps, 0), 0, Seq::empty()),
    ensures
        parsed == ps,
{
    let s = body_of(ps, 0);
    assert(s.skip(0) =~= s);
    lemma_read_back(ps, s, 0, 0, Seq::empty());
    assert(text_piece(Seq::empty()) + ps.skip(0) =~= ps);
}

/// A tabstop needs no braces where no digit follows it.
pub proof fn a_bare_number_is_a_tabstop(a: Seq<char>, n: u32, b: Seq<char>, parsed: Seq<Piece>)
    requires
        b.len() > 0 ==> !('0' <= b[0] <= '9'),
        parsed == pieces(
            escaped(a) + seq!['$'] + decimal_digits(n as nat) + escaped(b),
            0,
            Seq::empty(),
        ),
    ensures
        parsed == text_piece(a) + seq![Piece::Tabstop(n)] + text_piece(b),
{
    let d = decimal_digits(n as nat);
    let e = escaped(a);
    let f = escaped(b);
    let s = e + seq!['$'] + d + f;
    let i = e.len() as int;
    let end = i + 1 + d.len();
    lemma_decimal_digits(n as nat);
    assert(s.subrange(0, e.len() as int) =~= e);
    lemma_walk_text(s, 0, a, Seq::empty());
    assert(Seq::<char>::empty() + a =~= a);
    assert(s.subrange(i + 1, end) =~= d);
    assert forall|k: int| i + 1 <= k < end implies is_digit(#[trigger] s[k]) by {
        assert(s[k] == s.subrange(i + 1, end)[k - i - 1]);
    }
    if b.len() > 0 {
        lemma_escaped_head(b);
        assert(s[end] == f[0]);
    }
    lemma_digits_run(s, i + 1, d.len());
    lemma_decimal_read(s, i + 1, n as nat);
    assert(is_digit(s[i + 1]));
    assert(element_at(s, i) == Some((Piece::Tabstop(n), end)));
    assert(s.subrange(end, end + f.len()) =~= f);
    lemma_walk_text(s, end, b, Seq::empty());
    assert(Seq::<char>::empty() + b =~= b);
}

proof fn lemma_escaped_head(t: Seq<char>)
    requires
        t.len() > 0,
    ensures
        escaped(t).len() > 0,
        escaped(t)[0] == t[0] || escaped(t)[0] == '\\',
    decreases t.len(),
{
    if t.len() > 1 {
        lemma_escaped_head(t.drop_last());
    } else {
        assert(escaped(t.drop_last()) =~= Seq::empty());
    }
}

/// How many more braces the first `k` characters open than close.
pub open spec fn open_braces(d: Seq<char>, k: int) -> int
    decreases k,
{
    if k <= 0 {
        0
    } else if d[k - 1] == '{' {
        open_braces(d, k - 1) + 1
    } else if d[k - 1] == '}' {
        open_braces(d, k - 1) - 1
    } else {
        open_braces(d, k - 1)
    }
}

/// A default may hold braces that match, and whatever stands in them: a
/// placeholder inside it stays literal text.
pub proof fn braces_that_match_stay_in_the_default(n: u32, d: Seq<char>, parsed: Seq<Piece>)
    requires
        forall|k: int| 0 <= k < d.len() ==> #[trigger] d[k] != '\\',
        forall|k: int| 0 <= k <= d.len() ==> #[trigger] open_braces(d, k) >= 0,
        open_braces(d, d.len() as int) == 0,
        parsed == pieces(
            seq!['$', '{'] + decimal_digits(n as nat) + seq![':'] + d + seq!['}'],
            0,
            Seq::empty(),
        ),
    ensures
        parsed == seq![Piece::Placeholder(n, d)],
{
    let w = decimal_digits(n as nat);
    let s = seq!['$', '{'] + w + seq![':'] + d + seq!['}'];
    let m = w.len() as int;
    let body = 3 + m;
    lemma_decimal_digits(n as nat);
    assert(s.subrange(2, 2 + m) =~= w);
    assert forall|k: int| 2 <= k < 2 + m implies is_digit(#[trigger] s[k]) by {
        assert(s[k] == s.subrange(2, 2 + m)[k - 2]);
    }
    lemma_digits_run(s, 2, w.len());
    lemma_decimal_read(s, 2, n as nat);
    assert(s.subrange(body, body + d.len()) =~= d);
    lemma_walk_braces(s, body, d, d.len());
    assert(closing(s, body, 1) == Some(body + d.len()));
    a_plain_default_is_itself(d, unescaped(d, 0));
    assert(element_at(s, 0) == Some((Piece::Placeholder(n, d), s.len() as int)));
    assert(pieces(s, s.len() as int, Seq::empty()) =~= Seq::empty());
    assert(!escapes_at(s, 0));
    assert(pieces(s, 0, Seq::empty()) =~= seq![Piece::Placeholder(n, d)]);
}

proof fn lemma_walk_braces(s: Seq<char>, i: int, d: Seq<char>, k: nat)
    requires
        0 <= i,
        i + d.len() <= s.len(),
        s.subrange(i, i + d.len()) == d,
        k <= d.len(),
        forall|j: int| 0 <= j < d.len() ==> #[trigger] d[j] != '\\',
        forall|j: int| 0 <= j <= d.len() ==> #[trigger] open_braces(d, j) >= 0,
    ensures
        closing(s, i, 1) == closing(s, i + k, (1 + open_braces(d, k as int)) as nat),
    decreases k,
{
    if k > 0 {
        lemma_walk_braces(s, i, d, (k - 1) as nat);
        assert(s[i + k - 1] == s.subrange(i, i + d.len())[k - 1]);
        assert(d[k - 1] != '\\');
        assert(open_braces(d, k as int) >= 0);
        assert(open_braces(d, k - 1) >= 0);
    }
}

/// What is no supported form is literal text: a backslash before anything but
/// `$`, `}` and `\`, and a `$` before anything but a digit or a brace with a
/// digit in it.
pub proof fn other_forms_are_literal_text(s: Seq<char>, r: Rendered)
    requires
        forall|k: int|
            0 <= k && k + 1 < s.len() && #[trigger] s[k] == '\\' ==> s[k + 1] != '$' && s[k + 1]
                != '}' && s[k + 1] != '\\',
        forall|k: int|
            0 <= k && k + 1 < s.len() && #[trigger] s[k] == '$' ==> !('0' <= s[k + 1] <= '9') && (s[k
                + 1] == '{' && k + 2 < s.len() ==> !('0' <= s[k + 2] <= '9')),
        is_rendering(r, pieces(s, 0, Seq::empty())),
    ensures
        r.text@ == s,
        r.groups@.len() == 1,
        spans(r.groups@[0].ranges@) == seq![(byte_len(s), byte_len(s))],
{
    lemma_literal(s, 0, Seq::empty());
    assert(Seq::<char>::empty() + s.skip(0) =~= s);
    lemma_text_only(s, r);
}

proof fn lemma_literal(s: Seq<char>, i: int, text: Seq<char>)
    requires
        0 <= i <= s.len(),
        forall|k: int|
            0 <= k && k + 1 < s.len() && #[trigger] s[k] == '\\' ==> s[k + 1] != '$' && s[k + 1]
                != '}' && s[k + 1] != '\\',
        forall|k: int|
            0 <= k && k + 1 < s.len() && #[trigger] s[k] == '$' ==> !('0' <= s[k + 1] <= '9') && (s[k
                + 1] == '{' && k + 2 < s.len() ==> !('0' <= s[k + 2] <= '9')),
    ensures
        pieces(s, i, text) == text_piece(text + s.skip(i)),
    decreases s.len() - i,
{
    if i < s.len() {
        lemma_literal(s, i + 1, text.push(s[i]));
        assert(text.push(s[i]) + s.skip(i + 1) =~= text + s.skip(i));
        assert(!escapes_at(s, i));
        if s[i] == '$' {
            assert(element_at(s, i) is None);
        }
    } else {
        assert(text + s.skip(i) =~= text);
    }
}

/// A number too large to be one is literal text.
pub proof fn a_number_out_of_range_is_literal_text(n: nat, parsed: Seq<Piece>)
    requires
        n > u32::MAX,
        parsed == pieces(seq!['$'] + decimal_digits(n), 0, Seq::empty()),
    ensures
        parsed == seq![Piece::Text(seq!['$'] + decimal_digits(n))],
{
    let d = decimal_digits(n);
    let s = seq!['$'] + d;
    lemma_decimal_digits(n);
    assert(s.subrange(1, 1 + d.len() as int) =~= d);
    assert forall|k: int| 1 <= k < s.len() implies is_digit(#[trigger] s[k]) by {
        assert(s[k] == d[k - 1]);
    }
    lemma_digits_run(s, 1, d.len());
    lemma_decimal_read(s, 1, n);
    assert(element_at(s, 0) is None);
    assert forall|k: int| 1 <= k < s.len() implies #[trigger] s[k] != '$' && s[k] != '\\' by {
        assert(is_digit(s[k]));
    }
    lemma_plain(s, 1, seq!['$']);
    assert(Seq::<char>::empty().push('$') =~= seq!['$']);
    assert(seq!['$'] + s.skip(1) =~= s);
    assert(!escapes_at(s, 0));
}

// ---------------------------------------------------------------------------
// Where the elements are rendered
// ---------------------------------------------------------------------------

/// The element is a tabstop or a placeholder with the number `n`.
pub open spec fn carries(p: Piece, n: u32) -> bool {
    match p {
        Piece::Text(_) => false,
        Piece::Tabstop(m) => m == n,
        Piece::Placeholder(m, _) => m == n,
    }
}

/// What element `p` adds to the rendered text: literal text and a default as
/// they are, a bare tabstop nothing.
pub proof fn elements_render_to_their_text(ps: Seq<Piece>, k: nat)
    requires
        k < ps.len(),
    ensures
        rendered_text(ps, 0).len() == 0,
        rendered_text(ps, k + 1) == rendered_text(ps, k) + (match ps[k as int] {
            Piece::Text(t) => t,
            Piece::Tabstop(_) => Seq::empty(),
            Piece::Placeholder(_, t) => t,
        }),
{
}

proof fn lemma_spans_numbered(ps: Seq<Piece>, k: nat, n: u32, at: int)
    requires
        0 <= at < k <= ps.len(),
        carries(ps[at], n),
    ensures
        spans_numbered(ps, k, n).contains(
            (byte_len(rendered_text(ps, at as nat)), byte_len(rendered_text(ps, (at + 1) as nat))),
        ),
    decreases k,
{
    let all = spans_numbered(ps, k, n);
    if at == k - 1 {
        assert(all.last() == span(ps, at));
    } else {
        lemma_spans_numbered(ps, (k - 1) as nat, n, at);
        let before = spans_numbered(ps, (k - 1) as nat, n);
        let j = choose|j: int| 0 <= j < before.len() && before[j] == span(ps, at);
        assert(all[j] == span(ps, at));
    }
}

/// Every tabstop and placeholder with a number but zero has its place in the
/// group of that number: the bytes that it renders to. The groups are visited
/// in ascending order, and the exit comes last.
pub proof fn every_tabstop_is_visited(r: Rendered, ps: Seq<Piece>, at: int, n: u32)
    requires
        is_rendering(r, ps),
        0 <= at < ps.len(),
        n != 0,
        carries(ps[at], n),
    ensures
        exists|g: int, i: int|
            0 <= g < r.groups@.len() - 1 && r.groups@[g].idx == n && 0 <= i
                < r.groups@[g].ranges@.len() && (#[trigger] r.groups@[g].ranges@[i]).start
                == byte_len(rendered_text(ps, at as nat)) && r.groups@[g].ranges@[i].end == byte_len(
                rendered_text(ps, (at + 1) as nat),
            ),
        forall|g: int, h: int|
            0 <= g < h < r.groups@.len() - 1 ==> (#[trigger] r.groups@[g]).idx < (
            #[trigger] r.groups@[h]).idx,
        r.groups@.last().idx == 0,
{
    lemma_spans_numbered(ps, ps.len(), n, at);
    let groups = r.groups@.drop_last();
    assert(spans_numbered(ps, ps.len(), n).len() > 0);
    let g = choose|g: int| 0 <= g < groups.len() && (#[trigger] groups[g]).idx == n;
    assert(groups[g] == r.groups@[g]);
    let sp = spans(r.groups@[g].ranges@);
    assert(sp == spans_numbered(ps, ps.len(), n));
    let i = choose|i: int| 0 <= i < sp.len() && sp[i] == span(ps, at);
    assert(r.groups@[g].ranges@[i].start == span(ps, at).0);
    assert forall|g: int, h: int| 0 <= g < h < r.groups@.len() - 1 implies (
    #[trigger] r.groups@[g]).idx < (#[trigger] r.groups@[h]).idx by {
        assert(groups[g] == r.groups@[g] && groups[h] == r.groups@[h]);
    }
}

proof fn lemma_spans_come_from(ps: Seq<Piece>, k: nat, n: u32, i: int) -> (at: int)
    requires
        k <= ps.len(),
        0 <= i < spans_numbered(ps, k, n).len(),
    ensures
        0 <= at < k,
        spans_numbered(ps, k, n)[i] == span(ps, at),
        piece_number(ps[at]) == Some(n),
        i == spans_numbered(ps, k, n).len() - 1 ==> forall|j: int|
            at < j < k ==> piece_number(#[trigger] ps[j]) != Some(n),
    decreases k,
{
    let before = spans_numbered(ps, (k - 1) as nat, n);
    if piece_number(ps[k - 1]) == Some(n) {
        if i == before.len() {
            k - 1
        } else {
            lemma_spans_come_from(ps, (k - 1) as nat, n, i)
        }
    } else {
        lemma_spans_come_from(ps, (k - 1) as nat, n, i)
    }
}

/// Nothing else is visited: each range of a group is the place of an element
/// with the group's number. The cursor leaves at the last element numbered
/// zero, where there is one, else at the end of the text.
pub proof fn only_tabstops_are_visited(r: Rendered, ps: Seq<Piece>)
    requires
        is_rendering(r, ps),
    ensures
        forall|g: int, i: int|
            0 <= g < r.groups@.len() - 1 && 0 <= i < r.groups@[g].ranges@.len() ==> is_place_of(
                #[trigger] r.groups@[g].ranges@[i],
                ps,
                r.groups@[g].idx,
            ),
        forall|at: int|
            0 <= at < ps.len() && carries(ps[at], 0) && (forall|j: int|
                at < j < ps.len() ==> !carries(#[trigger] ps[j], 0))
                ==> r.groups@.last().ranges@.len() == 1 && r.groups@.last().ranges@[0].start
                == #[trigger] byte_len(rendered_text(ps, at as nat))
                && r.groups@.last().ranges@[0].end == r.groups@.last().ranges@[0].start,
{
    let groups = r.groups@.drop_last();
    assert forall|g: int, i: int|
        0 <= g < r.groups@.len() - 1 && 0 <= i < r.groups@[g].ranges@.len() implies is_place_of(
        #[trigger] r.groups@[g].ranges@[i],
        ps,
        r.groups@[g].idx,
    ) by {
        assert(groups[g] == r.groups@[g]);
        let n = r.groups@[g].idx;
        let sp = spans(r.groups@[g].ranges@);
        assert(sp == spans_numbered(ps, ps.len(), n));
        let at = lemma_spans_come_from(ps, ps.len(), n, i);
        assert(sp[i] == span(ps, at));
        assert(stands_at(r.groups@[g].ranges@[i], ps, n, at));
    }
    the_exit_is_one_place(r, ps);
    let zeros = spans_numbered(ps, ps.len(), 0);
    assert(spans(r.groups@.last().ranges@)[0] == exit_span(ps));
    assert forall|at: int|
        0 <= at < ps.len() && carries(ps[at], 0) && (forall|j: int|
            at < j < ps.len() ==> !carries(#[trigger] ps[j], 0))
            implies r.groups@.last().ranges@.len() == 1 && r.groups@.last().ranges@[0].start
        == #[trigger] byte_len(rendered_text(ps, at as nat)) && r.groups@.last().ranges@[0].end
        == r.groups@.last().ranges@[0].start by {
        lemma_spans_numbered(ps, ps.len(), 0, at);
        let last = lemma_spans_come_from(ps, ps.len(), 0, zeros.len() - 1);
        if last < at {
            assert(piece_number(ps[at]) == Some(0u32));
        } else if at < last {
            assert(!carries(ps[last], 0));
        }
    }
}

/// `range` is where element `at`, numbered `n`, is rendered.
pub open spec fn stands_at(range: Range<usize>, ps: Seq<Piece>, n: u32, at: int) -> bool {
    &&& 0 <= at < ps.len()
    &&& carries(ps[at], n)
    &&& range.start == byte_len(rendered_text(ps, at as nat))
    &&& range.end == byte_len(rendered_text(ps, (at + 1) as nat))
}

/// `range` is where some element numbered `n` is rendered.
pub open spec fn is_place_of(range: Range<usize>, ps: Seq<Piece>, n: u32) -> bool {
    exists|at: int| #[trigger] stands_at(range, ps, n, at)
}

/// The places of a group come in the order of the text, none over another.
pub proof fn places_of_a_group_come_in_order(r: Rendered, ps: Seq<Piece>, g: int)
    requires
        is_rendering(r, ps),
        0 <= g < r.groups@.len() - 1,
    ensures
        r.groups@[g].ranges@.len() == ps.filter(|p: Piece| carries(p, r.groups@[g].idx)).len(),
        forall|i: int, j: int|
            0 <= i < j < r.groups@[g].ranges@.len() ==> (#[trigger] r.groups@[g].ranges@[i]).end <= (
            #[trigger] r.groups@[g].ranges@[j]).start,
{
    let n = r.groups@[g].idx;
    assert(r.groups@.drop_last()[g] == r.groups@[g]);
    let sp = spans(r.groups@[g].ranges@);
    assert(sp == spans_numbered(ps, ps.len(), n));
    lemma_spans_ordered(ps, ps.len(), n);
    assert(ps.take(ps.len() as int) =~= ps);
    assert forall|i: int, j: int| 0 <= i < j < r.groups@[g].ranges@.len() implies (
    #[trigger] r.groups@[g].ranges@[i]).end <= (#[trigger] r.groups@[g].ranges@[j]).start by {
        assert(sp[i].1 <= sp[j].0);
    }
}

proof fn lemma_spans_ordered(ps: Seq<Piece>, k: nat, n: u32)
    requires
        k <= ps.len(),
    ensures
        spans_numbered(ps, k, n).len() == ps.take(k as int).filter(|p: Piece| carries(p, n)).len(),
        forall|i: int, j: int|
            0 <= i < j < spans_numbered(ps, k, n).len() ==> (#[trigger] spans_numbered(ps, k, n)[i]).1
                <= (#[trigger] spans_numbered(ps, k, n)[j]).0,
    decreases k,
{
    reveal(Seq::filter);
    if k > 0 {
        let p = (k - 1) as nat;
        lemma_spans_ordered(ps, p, n);
        lemma_spans_in_the_text(ps, p, n);
        assert(ps.take(k as int).drop_last() =~= ps.take(k - 1));
        assert(ps.take(k as int).last() == ps[k - 1]);
        let before = spans_numbered(ps, p, n);
        let all = spans_numbered(ps, k, n);
        assert forall|i: int, j: int| 0 <= i < j < all.len() implies (#[trigger] all[i]).1 <= (
        #[trigger] all[j]).0 by {
            assert(all[i] == before[i]);
            if j < before.len() {
                assert(all[j] == before[j]);
            }
        }
    }
}

} // verus!
