//! Conversion between the ways to say where in a line one is: in characters,
//! in bytes, and in columns on screen with tabs expanded.

use crate::text::{byte_len, byte_len_grows, byte_len_of_push, bytes_in, chars_of, string_of, width};
use crate::lists::copied_range;
use vstd::prelude::*;

verus! {

/// The column on screen of character `k` of `line`: a tab reaches to the next
/// multiple of `tab`, any other character takes one column.
pub open spec fn visual_of(line: Seq<char>, k: nat, tab: nat) -> nat
    decreases k,
{
    if k == 0 {
        0
    } else {
        let before = visual_of(line, (k - 1) as nat, tab);
        if line[k - 1] == '\t' {
            (before + tab - before % tab) as nat
        } else {
            before + 1
        }
    }
}

/// The byte offset of character `k` of `line`.
pub open spec fn byte_of(line: Seq<char>, k: int) -> nat {
    byte_len(line.take(k))
}

/// The number of characters of `line`, from character `k` on, that start
/// before the byte offset `byte`, and those up to `k`.
pub open spec fn chars_upto(line: Seq<char>, byte: int, k: nat) -> nat
    decreases line.len() - k,
{
    if k < line.len() && byte_of(line, k as int + 1) <= byte {
        chars_upto(line, byte, k + 1)
    } else {
        k
    }
}

/// The character of `line`, counting from `k`, that lies furthest right
/// without lying right of the column `visual`.
pub open spec fn char_at_visual(line: Seq<char>, visual: int, tab: nat, k: nat) -> nat
    decreases line.len() - k,
{
    if k < line.len() && visual_of(line, k + 1, tab) <= visual {
        char_at_visual(line, visual, tab, k + 1)
    } else {
        k
    }
}

/// All columns of the line fit in a `usize`.
pub open spec fn columns_fit(line: Seq<char>, tab: nat) -> bool {
    forall|k: nat| k <= line.len() ==> #[trigger] visual_of(line, k, tab) <= usize::MAX
}

/// The byte offset of the character at `column`, or the line's length past its
/// end.
pub fn char_to_byte(line: &str, column: usize) -> (byte: usize)
    ensures
        byte == (if column <= line@.len() {
            byte_of(line@, column as int)
        } else {
            byte_len(line@)
        }),
{
    let chars = chars_of(line);
    if column >= chars.len() {
        assert(line@.take(line@.len() as int) =~= line@);
        return bytes_in(line);
    }
    let head = copied_range(&chars, 0, column);
    assert(head@ =~= line@.take(column as int));
    let text = string_of(head.as_slice());
    bytes_in(text.as_str())
}

/// The number of characters that the first `byte` bytes hold in full.
pub fn byte_to_char(line: &str, byte: usize) -> (column: usize)
    ensures
        column == chars_upto(line@, byte as int, 0),
        column <= line@.len(),
{
    let chars = chars_of(line);
    let total: usize = bytes_in(line);
    let mut k: usize = 0;
    let mut at: usize = 0;
    proof {
        assert(line@.take(0) =~= Seq::<char>::empty());
        assert(line@.take(line@.len() as int) =~= line@);
    }
    while k < chars.len()
        invariant
            chars@ == line@,
            k <= chars.len(),
            at == byte_of(line@, k as int),
            total == byte_of(line@, line@.len() as int),
            chars_upto(line@, byte as int, 0) == chars_upto(line@, byte as int, k as nat),
        decreases chars.len() - k,
    {
        proof {
            assert(line@.take(k + 1) =~= line@.take(k as int).push(line@[k as int]));
            byte_len_of_push(line@.take(k as int), line@[k as int]);
            byte_len_grows(line@, k + 1, line@.len() as int);
        }
        let next: usize = at + width(chars[k]);
        if next > byte {
            return k;
        }
        at = next;
        k = k + 1;
    }
    k
}

/// The column on screen of the character at the byte offset `byte`.
pub fn byte_to_visual(line: &str, byte: usize, tab: usize) -> (visual: usize)
    requires
        tab > 0,
        columns_fit(line@, tab as nat),
    ensures
        visual == visual_of(line@, chars_upto(line@, byte as int, 0), tab as nat),
{
    let upto: usize = byte_to_char(line, byte);
    let chars = chars_of(line);
    visual_at(&chars, upto, tab)
}

fn visual_at(chars: &Vec<char>, upto: usize, tab: usize) -> (visual: usize)
    requires
        tab > 0,
        upto <= chars.len(),
        columns_fit(chars@, tab as nat),
    ensures
        visual == visual_of(chars@, upto as nat, tab as nat),
{
    let mut k: usize = 0;
    let mut visual: usize = 0;
    while k < upto
        invariant
            tab > 0,
            k <= upto <= chars.len(),
            columns_fit(chars@, tab as nat),
            visual == visual_of(chars@, k as nat, tab as nat),
        decreases upto - k,
    {
        visual = next_visual(chars, k, visual, tab);
        k = k + 1;
    }
    visual
}

/// The column after character `k`, whose own column is `visual`.
fn next_visual(chars: &Vec<char>, k: usize, visual: usize, tab: usize) -> (next: usize)
    requires
        tab > 0,
        k < chars.len(),
        columns_fit(chars@, tab as nat),
        visual == visual_of(chars@, k as nat, tab as nat),
    ensures
        next == visual_of(chars@, (k + 1) as nat, tab as nat),
{
    assert(visual_of(chars@, (k + 1) as nat, tab as nat) <= usize::MAX);
    if chars[k] == '\t' {
        let rest: usize = visual % tab;
        assert(rest < tab);
        visual + (tab - rest)
    } else {
        visual + 1
    }
}

/// The character that lies furthest right without lying right of the column
/// `visual`: its byte offset and its own column.
pub fn visual_to_byte(line: &str, visual: usize, tab: usize) -> (r: (usize, usize))
    requires
        tab > 0,
        columns_fit(line@, tab as nat),
    ensures
        ({
            let k = char_at_visual(line@, visual as int, tab as nat, 0);
            k <= line@.len() && r.0 == byte_of(line@, k as int) && r.1 == visual_of(
                line@,
                k,
                tab as nat,
            )
        }),
{
    let chars = chars_of(line);
    let mut k: usize = 0;
    let mut at: usize = 0;
    while k < chars.len()
        invariant
            tab > 0,
            chars@ == line@,
            k <= chars.len(),
            columns_fit(line@, tab as nat),
            at == visual_of(line@, k as nat, tab as nat),
            char_at_visual(line@, visual as int, tab as nat, 0) == char_at_visual(
                line@,
                visual as int,
                tab as nat,
                k as nat,
            ),
        decreases chars.len() - k,
    {
        let next: usize = next_visual(&chars, k, at, tab);
        if next > visual {
            let byte: usize = char_to_byte(line, k);
            return (byte, at);
        }
        at = next;
        k = k + 1;
    }
    let byte: usize = char_to_byte(line, k);
    (byte, at)
}

/// Counting characters undoes counting bytes.
pub proof fn bytes_and_characters_agree(line: Seq<char>, k: int)
    requires
        0 <= k <= line.len(),
    ensures
        chars_upto(line, byte_of(line, k) as int, 0) == k,
{
    lemma_chars_upto(line, k, 0);
}

proof fn lemma_chars_upto(line: Seq<char>, k: int, j: nat)
    requires
        0 <= j <= k <= line.len(),
    ensures
        chars_upto(line, byte_of(line, k) as int, j) == k,
    decreases k - j,
{
    if j < k {
        byte_len_grows(line, j as int + 1, k);
        lemma_chars_upto(line, k, j + 1);
    } else if j < line.len() {
        byte_len_grows(line, k, k + 1);
    }
}

/// How columns on screen follow each other: the first character stands in
/// column 0, a tab ends at a tab stop, no further than one stop away, and any
/// other character takes one column.
pub proof fn columns_follow_each_other(line: Seq<char>, k: nat, tab: nat)
    requires
        k < line.len(),
        tab > 0,
    ensures
        visual_of(line, 0, tab) == 0,
        line[k as int] != '\t' ==> visual_of(line, k + 1, tab) == visual_of(line, k, tab) + 1,
        line[k as int] == '\t' ==> visual_of(line, k + 1, tab) % tab == 0 && visual_of(line, k, tab)
            < visual_of(line, k + 1, tab) <= visual_of(line, k, tab) + tab,
{
    let before = visual_of(line, k, tab) as int;
    if line[k as int] == '\t' {
        let rest = before % (tab as int);
        assert(0 <= rest < tab);
        assert((before + tab - rest) % (tab as int) == 0) by {
            vstd::arithmetic::div_mod::lemma_fundamental_div_mod(before, tab as int);
            let q = before / (tab as int);
            assert(before + tab - rest == tab as int * (q + 1)) by (nonlinear_arith)
                requires
                    before == tab as int * q + rest,
            ;
            vstd::arithmetic::div_mod::lemma_mod_multiples_basic(q + 1, tab as int);
            assert(tab as int * (q + 1) == (q + 1) * tab as int) by (nonlinear_arith);
        }
    }
}

/// Columns on screen never run behind the characters, and grow with them.
pub proof fn columns_grow(line: Seq<char>, j: nat, k: nat, tab: nat)
    requires
        j <= k <= line.len(),
        tab > 0,
    ensures
        visual_of(line, j, tab) + (k - j) <= visual_of(line, k, tab),
        (forall|i: int| j <= i < k ==> #[trigger] line[i] != '\t') ==> visual_of(line, k, tab)
            == visual_of(line, j, tab) + (k - j),
    decreases k - j,
{
    if j < k {
        columns_grow(line, j, (k - 1) as nat, tab);
        columns_follow_each_other(line, (k - 1) as nat, tab);
    }
}

/// Looking a column up finds the place furthest right that does not pass it.
pub proof fn a_column_is_found(line: Seq<char>, visual: int, tab: nat)
    requires
        0 <= visual,
    ensures
        ({
            let k = char_at_visual(line, visual, tab, 0);
            &&& k <= line.len()
            &&& visual_of(line, k, tab) <= visual
            &&& k < line.len() ==> visual < visual_of(line, k + 1, tab)
        }),
{
    lemma_column_found(line, visual, tab, 0);
}

proof fn lemma_column_found(line: Seq<char>, visual: int, tab: nat, k: nat)
    requires
        k <= line.len(),
        visual_of(line, k, tab) <= visual,
    ensures
        ({
            let found = char_at_visual(line, visual, tab, k);
            &&& found <= line.len()
            &&& visual_of(line, found, tab) <= visual
            &&& found < line.len() ==> visual < visual_of(line, found + 1, tab)
        }),
    decreases line.len() - k,
{
    if k < line.len() && visual_of(line, k + 1, tab) <= visual {
        lemma_column_found(line, visual, tab, k + 1);
    }
}

/// Counting the characters up to a byte offset takes in each that ends there
/// or before, and no other.
pub proof fn a_byte_is_found(line: Seq<char>, byte: int)
    requires
        0 <= byte,
    ensures
        ({
            let k = chars_upto(line, byte, 0);
            &&& k <= line.len()
            &&& byte_len(line.take(k as int)) <= byte
            &&& k < line.len() ==> byte < byte_len(line.take(k as int + 1))
        }),
{
    assert(line.take(0) =~= Seq::<char>::empty());
    crate::text::encoding_is_additive(Seq::empty(), Seq::empty());
    assert(Seq::<char>::empty() + Seq::<char>::empty() =~= Seq::<char>::empty());
    lemma_byte_found(line, byte, 0);
}

proof fn lemma_byte_found(line: Seq<char>, byte: int, k: nat)
    requires
        k <= line.len(),
        byte_len(line.take(k as int)) <= byte,
    ensures
        ({
            let found = chars_upto(line, byte, k);
            &&& found <= line.len()
            &&& byte_len(line.take(found as int)) <= byte
            &&& found < line.len() ==> byte < byte_len(line.take(found as int + 1))
        }),
    decreases line.len() - k,
{
    if k < line.len() && byte_of(line, k as int + 1) <= byte {
        lemma_byte_found(line, byte, k + 1);
    }
}

} // verus!
