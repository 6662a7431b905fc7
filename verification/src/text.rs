//! Text as characters and as bytes: measuring, cutting, comparing and changing
//! the case of strings.

use crate::lists::copied_range;
use vstd::prelude::*;
use vstd::string::{StringExecFns, StrSliceExecFns};
use vstd::utf8::{
    decode_utf8, decode_utf8_encode_utf8, decode_utf8_split, encode_scalar, encode_utf8, encode_utf8_decode_utf8,
    encode_utf8_valid_utf8, is_ascii_chars, is_char_boundary, valid_utf8_split,
};

verus! {

/// `String::push`: the character joins the end of the string.
pub assume_specification[ String::push ](s: &mut String, c: char)
    ensures
        final(s)@ == old(s)@.push(c),
;

/// Equality of `str`: two strings are equal when they hold the same characters.
pub assume_specification[ <str as PartialEq<str>>::eq ](a: &str, b: &str) -> (r: bool)
    ensures
        r == (a@ == b@),
;

/// The characters of `s`, in order.
pub fn chars_of(s: &str) -> (v: Vec<char>)
    ensures
        v@ == s@,
{
    let mut v: Vec<char> = Vec::new();
    for c in it: s.chars()
        invariant
            v@ == it.seq().take(it.index() as int),
            it.seq() == s@,
    {
        v.push(c);
    }
    v
}

/// The string whose characters are `chars`.
pub fn string_of(chars: &[char]) -> (s: String)
    ensures
        s@ == chars@,
{
    let mut s: String = String::new();
    for i in 0..chars.len()
        invariant
            s@ == chars@.take(i as int),
    {
        s.push(chars[i]);
    }
    assert(chars@.take(chars@.len() as int) == chars@);
    s
}

/// The number of bytes that UTF-8 needs for `chars`.
pub open spec fn byte_len(chars: Seq<char>) -> nat {
    encode_utf8(chars).len()
}

/// The number of bytes that UTF-8 needs for a character.
pub open spec fn char_width(c: char) -> nat {
    if c <= '\u{7f}' {
        1
    } else if c <= '\u{7ff}' {
        2
    } else if c <= '\u{ffff}' {
        3
    } else {
        4
    }
}

/// The number of bytes that UTF-8 needs for `c`.
pub fn width(c: char) -> (n: usize)
    ensures
        n == char_width(c),
{
    if c <= '\u{7f}' {
        1
    } else if c <= '\u{7ff}' {
        2
    } else if c <= '\u{ffff}' {
        3
    } else {
        4
    }
}

/// The bytes of two texts one after the other are those of the one and then
/// those of the other.
pub proof fn encoding_is_additive(a: Seq<char>, b: Seq<char>)
    ensures
        encode_utf8(a + b) == encode_utf8(a) + encode_utf8(b),
        byte_len(a + b) == byte_len(a) + byte_len(b),
    decreases a.len(),
{
    if a.len() == 0 {
        assert(a + b =~= b);
        assert(encode_utf8(a) + encode_utf8(b) =~= encode_utf8(b));
    } else {
        assert((a + b).drop_first() =~= a.drop_first() + b);
        encoding_is_additive(a.drop_first(), b);
        assert(encode_utf8(a + b) =~= encode_utf8(a) + encode_utf8(b));
    }
}

/// One character more adds its width to the length in bytes.
pub proof fn byte_len_of_push(s: Seq<char>, c: char)
    ensures
        byte_len(s.push(c)) == byte_len(s) + char_width(c),
{
    assert(s.push(c) =~= s + seq![c]);
    encoding_is_additive(s, seq![c]);
    let one = seq![c];
    assert(one.drop_first() =~= Seq::<char>::empty());
    assert(encode_utf8(Seq::<char>::empty()) =~= Seq::<u8>::empty());
    reveal_with_fuel(encode_utf8, 2);
    assert(encode_utf8(one) =~= encode_scalar(c as u32));
}

/// The beginning of a text is no longer in bytes than the text.
pub proof fn byte_len_grows(s: Seq<char>, i: int, j: int)
    requires
        0 <= i <= j <= s.len(),
    ensures
        byte_len(s.take(i)) + (j - i) <= byte_len(s.take(j)),
    decreases j - i,
{
    if i < j {
        byte_len_grows(s, i, j - 1);
        assert(s.take(j) =~= s.take(j - 1).push(s[j - 1]));
        byte_len_of_push(s.take(j - 1), s[j - 1]);
    }
}

/// Whether `offset` is the place of a character in the bytes of `s`, or their
/// end.
pub open spec fn is_boundary(s: Seq<char>, offset: int) -> bool {
    is_char_boundary(encode_utf8(s), offset)
}

/// The characters of `s` before the byte offset `offset`.
pub open spec fn text_before(s: Seq<char>, offset: int) -> Seq<char> {
    decode_utf8(encode_utf8(s).take(offset))
}

/// What stands before a boundary is the beginning of the text, and as long in
/// bytes as the offset says.
pub proof fn text_before_is_a_prefix(s: Seq<char>, offset: int)
    requires
        is_boundary(s, offset),
    ensures
        0 <= offset <= byte_len(s),
        byte_len(text_before(s, offset)) == offset,
        text_before(s, offset).is_prefix_of(s),
{
    let bytes = encode_utf8(s);
    encode_utf8_valid_utf8(s);
    encode_utf8_decode_utf8(s);
    valid_utf8_split(bytes, offset);
    decode_utf8_split(bytes, offset);
    let head = bytes.subrange(0, offset);
    let tail = bytes.subrange(offset, bytes.len() as int);
    assert(head =~= bytes.take(offset));
    assert(s == decode_utf8(head) + decode_utf8(tail));
    decode_utf8_encode_utf8(head);
    assert(decode_utf8(head) =~= s.take(decode_utf8(head).len() as int));
}

/// The characters of `s` before the byte offset `offset`.
pub fn chars_before(s: &str, offset: usize) -> (v: Vec<char>)
    requires
        is_boundary(s@, offset as int),
    ensures
        v@ == text_before(s@, offset as int),
{
    let (head, _tail) = s.split_at(offset);
    proof {
        encode_utf8_decode_utf8(head@);
        assert(encode_utf8(head@) =~= encode_utf8(s@).take(offset as int));
    }
    chars_of(head)
}

/// The characters of `s` from the byte offset `offset` on.
pub open spec fn text_from(s: Seq<char>, offset: int) -> Seq<char> {
    decode_utf8(encode_utf8(s).skip(offset))
}

/// The characters of `s` from the byte offset `offset` on.
pub fn chars_from(s: &str, offset: usize) -> (v: Vec<char>)
    requires
        is_boundary(s@, offset as int),
    ensures
        v@ == text_from(s@, offset as int),
{
    proof {
        text_before_is_a_prefix(s@, offset as int);
    }
    let (_head, tail) = s.split_at(offset);
    proof {
        encode_utf8_decode_utf8(tail@);
        assert(encode_utf8(tail@) =~= encode_utf8(s@).skip(offset as int));
    }
    chars_of(tail)
}

/// Whether `s` begins with `prefix`.
pub fn begins_with(s: &str, prefix: &str) -> (r: bool)
    ensures
        r == prefix@.is_prefix_of(s@),
{
    let whole = chars_of(s);
    let part = chars_of(prefix);
    if part.len() > whole.len() {
        return false;
    }
    let mut i: usize = 0;
    while i < part.len()
        invariant
            i <= part.len() <= whole.len(),
            whole@ == s@,
            part@ == prefix@,
            forall|k: int| 0 <= k < i ==> #[trigger] part@[k] == whole@[k],
        decreases part.len() - i,
    {
        if part[i] != whole[i] {
            assert(prefix@[i as int] != s@.take(part@.len() as int)[i as int]);
            return false;
        }
        i = i + 1;
    }
    assert(prefix@ =~= s@.take(part@.len() as int));
    true
}

/// The length of `s` in bytes.
pub fn bytes_in(s: &str) -> (n: usize)
    ensures
        n == byte_len(s@),
{
    s.as_bytes().len()
}

/// Whether two strings hold the same characters.
pub fn same(a: &str, b: &str) -> (r: bool)
    ensures
        r == (a@ == b@),
{
    *a == *b
}

/// The characters that Unicode counts as white space.
pub open spec fn is_space(c: char) -> bool {
    ||| '\u{9}' <= c <= '\u{d}'
    ||| c == ' '
    ||| c == '\u{85}'
    ||| c == '\u{a0}'
    ||| c == '\u{1680}'
    ||| '\u{2000}' <= c <= '\u{200a}'
    ||| c == '\u{2028}'
    ||| c == '\u{2029}'
    ||| c == '\u{202f}'
    ||| c == '\u{205f}'
    ||| c == '\u{3000}'
}

/// Whether `c` is white space.
pub fn space(c: char) -> (r: bool)
    ensures
        r == is_space(c),
{
    ('\u{9}' <= c && c <= '\u{d}') || c == ' ' || c == '\u{85}' || c == '\u{a0}' || c == '\u{1680}'
        || ('\u{2000}' <= c && c <= '\u{200a}') || c == '\u{2028}' || c == '\u{2029}' || c
        == '\u{202f}' || c == '\u{205f}' || c == '\u{3000}'
}

/// A text without anything but white space.
pub open spec fn is_blank(s: Seq<char>) -> bool {
    forall|i: int| 0 <= i < s.len() ==> is_space(#[trigger] s[i])
}

/// Whether `s` holds nothing but white space.
pub fn blank(s: &str) -> (r: bool)
    ensures
        r == is_blank(s@),
{
    let chars = chars_of(s);
    let mut i: usize = 0;
    while i < chars.len()
        invariant
            i <= chars.len(),
            chars@ == s@,
            forall|k: int| 0 <= k < i ==> is_space(#[trigger] chars@[k]),
        decreases chars.len() - i,
    {
        if !space(chars[i]) {
            assert(!is_space(s@[i as int]));
            return false;
        }
        i = i + 1;
    }
    true
}

/// The place of the first character from `i` on that is not white space.
pub open spec fn skip_space(s: Seq<char>, i: int) -> int
    decreases s.len() - i,
{
    if 0 <= i < s.len() && is_space(s[i]) {
        skip_space(s, i + 1)
    } else {
        i
    }
}

/// The place behind the last character before `j`, but not before `i`, that
/// is not white space.
pub open spec fn skip_space_back(s: Seq<char>, i: int, j: int) -> int
    decreases j - i,
{
    if i < j && is_space(s[j - 1]) {
        skip_space_back(s, i, j - 1)
    } else {
        j
    }
}

/// `s` without the white space at its ends.
pub open spec fn trimmed(s: Seq<char>) -> Seq<char> {
    let from = skip_space(s, 0);
    s.subrange(from, skip_space_back(s, from, s.len() as int))
}

/// `s` without the white space at its ends.
pub fn trim(s: &str) -> (t: String)
    ensures
        t@ == trimmed(s@),
{
    let chars = chars_of(s);
    let mut from: usize = 0;
    while from < chars.len() && space(chars[from])
        invariant
            from <= chars.len(),
            chars@ == s@,
            skip_space(s@, 0) == skip_space(s@, from as int),
        decreases chars.len() - from,
    {
        from = from + 1;
    }
    let mut to: usize = chars.len();
    while from < to && space(chars[to - 1])
        invariant
            from <= to <= chars.len(),
            chars@ == s@,
            skip_space_back(s@, from as int, s@.len() as int) == skip_space_back(
                s@,
                from as int,
                to as int,
            ),
        decreases to - from,
    {
        to = to - 1;
    }
    string_of(copied_range(&chars, from, to).as_slice())
}

/// The two differ at most in the case of ASCII letters.
pub open spec fn same_but_for_case(a: Seq<char>, b: Seq<char>) -> bool {
    &&& a.len() == b.len()
    &&& forall|i: int| 0 <= i < a.len() ==> ascii_lower(#[trigger] a[i]) == ascii_lower(b[i])
}

fn lower(c: char) -> (l: char)
    ensures
        l == ascii_lower(c),
{
    if 'A' <= c && c <= 'Z' {
        let n: u8 = c as u8;
        (n + 32) as char
    } else {
        c
    }
}

/// Whether the two differ at most in the case of ASCII letters.
pub fn same_ignoring_case(a: &str, b: &str) -> (r: bool)
    ensures
        r == same_but_for_case(a@, b@),
{
    let x = chars_of(a);
    let y = chars_of(b);
    if x.len() != y.len() {
        return false;
    }
    let mut i: usize = 0;
    while i < x.len()
        invariant
            i <= x.len(),
            x.len() == y.len(),
            x@ == a@,
            y@ == b@,
            forall|k: int| 0 <= k < i ==> ascii_lower(#[trigger] x@[k]) == ascii_lower(y@[k]),
        decreases x.len() - i,
    {
        if lower(x[i]) != lower(y[i]) {
            assert(ascii_lower(a@[i as int]) != ascii_lower(b@[i as int]));
            return false;
        }
        i = i + 1;
    }
    true
}

/// The character of a decimal digit.
pub open spec fn digit_char(d: nat) -> char {
    ('0' as nat + d) as char
}

/// A number in decimal, without leading zeros.
pub open spec fn decimal_digits(n: nat) -> Seq<char>
    decreases n,
{
    if n < 10 {
        seq![digit_char(n)]
    } else {
        decimal_digits(n / 10).push(digit_char(n % 10))
    }
}

/// `n` in decimal, without leading zeros.
pub fn decimal(n: u64) -> (s: String)
    ensures
        s@ == decimal_digits(n as nat),
    decreases n,
{
    let mut s = if n < 10 {
        String::new()
    } else {
        decimal(n / 10)
    };
    let d: u8 = (n % 10) as u8;
    let c: char = (48 + d) as char;
    assert(c == digit_char((n % 10) as nat));
    s.push(c);
    assert(s@ =~= decimal_digits(n as nat));
    s
}

/// `parts` with `sep` between each two.
pub open spec fn separated(parts: Seq<Seq<char>>, sep: Seq<char>) -> Seq<char>
    decreases parts.len(),
{
    if parts.len() == 0 {
        Seq::empty()
    } else if parts.len() == 1 {
        parts[0]
    } else {
        separated(parts.drop_last(), sep) + sep + parts.last()
    }
}

/// The texts of a list of strings.
pub open spec fn texts(v: Seq<String>) -> Seq<Seq<char>> {
    Seq::new(v.len(), |i: int| v[i]@)
}

/// `parts` with `sep` between each two.
pub fn join(parts: &Vec<String>, sep: &str) -> (s: String)
    ensures
        s@ == separated(texts(parts@), sep@),
{
    let mut s = String::new();
    let mut i: usize = 0;
    assert(texts(parts@).take(0) =~= Seq::empty());
    while i < parts.len()
        invariant
            i <= parts.len(),
            s@ == separated(texts(parts@).take(i as int), sep@),
        decreases parts.len() - i,
    {
        if i > 0 {
            s.append(sep);
        }
        s.append(parts[i].as_str());
        i = i + 1;
        proof {
            let all = texts(parts@);
            assert(all.take(i as int).drop_last() =~= all.take(i - 1));
            assert(all.take(i as int).last() == parts@[i - 1]@);
            if i == 1 {
                assert(all.take(0) =~= Seq::empty());
            }
            assert(s@ =~= separated(all.take(i as int), sep@));
        }
    }
    assert(texts(parts@).take(parts.len() as int) =~= texts(parts@));
    s
}

/// `a` comes before `b` in the order of their characters. UTF-8 keeps that
/// order, so it is also the order of their bytes.
pub open spec fn lex_before(a: Seq<char>, b: Seq<char>) -> bool
    decreases a.len(),
{
    if b.len() == 0 {
        false
    } else if a.len() == 0 {
        true
    } else if a[0] != b[0] {
        a[0] < b[0]
    } else {
        lex_before(a.skip(1), b.skip(1))
    }
}

/// No text comes before one that it comes after.
pub proof fn lex_asymmetric(a: Seq<char>, b: Seq<char>)
    requires
        lex_before(a, b),
    ensures
        !lex_before(b, a),
    decreases a.len(),
{
    if a.len() > 0 && b.len() > 0 && a[0] == b[0] {
        lex_asymmetric(a.skip(1), b.skip(1));
    }
}

/// Not coming before is transitive.
pub proof fn lex_negatively_transitive(a: Seq<char>, b: Seq<char>, c: Seq<char>)
    requires
        !lex_before(a, b),
        !lex_before(b, c),
    ensures
        !lex_before(a, c),
    decreases a.len(),
{
    if a.len() > 0 && b.len() > 0 && c.len() > 0 && a[0] == b[0] && b[0] == c[0] {
        lex_negatively_transitive(a.skip(1), b.skip(1), c.skip(1));
    }
}

/// Two texts of which neither comes before the other are the same.
pub proof fn lex_total(a: Seq<char>, b: Seq<char>)
    requires
        !lex_before(a, b),
        !lex_before(b, a),
    ensures
        a == b,
    decreases a.len(),
{
    if a.len() > 0 && b.len() > 0 {
        lex_total(a.skip(1), b.skip(1));
        assert(a =~= seq![a[0]] + a.skip(1));
        assert(b =~= seq![b[0]] + b.skip(1));
    } else {
        assert(a =~= b);
    }
}

/// Whether `a` comes before `b` in the order of their characters.
pub fn comes_before(a: &str, b: &str) -> (r: bool)
    ensures
        r == lex_before(a@, b@),
{
    let x = chars_of(a);
    let y = chars_of(b);
    let mut i: usize = 0;
    assert(a@.skip(0) =~= a@ && b@.skip(0) =~= b@);
    while i < x.len() && i < y.len() && x[i] == y[i]
        invariant
            x@ == a@,
            y@ == b@,
            i <= x.len(),
            i <= y.len(),
            lex_before(a@, b@) == lex_before(a@.skip(i as int), b@.skip(i as int)),
        decreases x.len() - i,
    {
        assert(a@.skip(i as int).skip(1) =~= a@.skip(i + 1));
        assert(b@.skip(i as int).skip(1) =~= b@.skip(i + 1));
        i = i + 1;
    }
    if i == y.len() {
        false
    } else if i == x.len() {
        true
    } else {
        x[i] < y[i]
    }
}

/// Whether a character beyond ASCII has the Unicode property `Alphabetic`.
pub uninterp spec fn unicode_alphabetic(c: char) -> bool;

/// Whether a character beyond ASCII has the Unicode property `Alphabetic`, or
/// is in one of the general categories for numbers.
pub uninterp spec fn unicode_alphanumeric(c: char) -> bool;

/// The lower case of a text that is not ASCII, by the Unicode mappings.
pub uninterp spec fn unicode_lowercase(s: Seq<char>) -> Seq<char>;

/// The upper case of a text that is not ASCII, by the Unicode mappings.
pub uninterp spec fn unicode_uppercase(s: Seq<char>) -> Seq<char>;

pub open spec fn is_ascii_letter(c: char) -> bool {
    'a' <= c <= 'z' || 'A' <= c <= 'Z'
}

pub open spec fn is_ascii_digit(c: char) -> bool {
    '0' <= c <= '9'
}

pub open spec fn ascii_lower(c: char) -> char {
    if 'A' <= c <= 'Z' {
        (c as nat + 32) as char
    } else {
        c
    }
}

pub open spec fn ascii_upper(c: char) -> char {
    if 'a' <= c <= 'z' {
        (c as nat - 32) as char
    } else {
        c
    }
}

/// Whether a character counts as a letter.
pub open spec fn is_letter(c: char) -> bool {
    if c <= '\u{7f}' {
        is_ascii_letter(c)
    } else {
        unicode_alphabetic(c)
    }
}

/// Whether a character counts as a letter or a number.
pub open spec fn is_letter_or_number(c: char) -> bool {
    if c <= '\u{7f}' {
        is_ascii_letter(c) || is_ascii_digit(c)
    } else {
        unicode_alphanumeric(c)
    }
}

/// The lower case of a text.
pub open spec fn lowercase(s: Seq<char>) -> Seq<char> {
    if is_ascii_chars(s) {
        s.map_values(|c: char| ascii_lower(c))
    } else {
        unicode_lowercase(s)
    }
}

/// The upper case of a text.
pub open spec fn uppercase(s: Seq<char>) -> Seq<char> {
    if is_ascii_chars(s) {
        s.map_values(|c: char| ascii_upper(c))
    } else {
        unicode_uppercase(s)
    }
}

/// `char::is_alphabetic`: whether the character has the Unicode property
/// `Alphabetic`. Of the ASCII characters, the letters have it.
pub assume_specification[ char::is_alphabetic ](c: char) -> (r: bool)
    ensures
        c <= '\u{7f}' ==> r == is_ascii_letter(c),
        c > '\u{7f}' ==> r == unicode_alphabetic(c),
;

/// `char::is_alphanumeric`: whether the character is alphabetic or numeric. Of
/// the ASCII characters, the letters and the digits are.
pub assume_specification[ char::is_alphanumeric ](c: char) -> (r: bool)
    ensures
        c <= '\u{7f}' ==> r == (is_ascii_letter(c) || is_ascii_digit(c)),
        c > '\u{7f}' ==> r == unicode_alphanumeric(c),
;

/// `str::to_lowercase`: the text in lower case. In an ASCII text each letter
/// is mapped by itself.
pub assume_specification[ str::to_lowercase ](s: &str) -> (r: String)
    ensures
        is_ascii_chars(s@) ==> r@ == s@.map_values(|c: char| ascii_lower(c)),
        !is_ascii_chars(s@) ==> r@ == unicode_lowercase(s@),
;

/// `str::to_uppercase`: the text in upper case. In an ASCII text each letter
/// is mapped by itself.
pub assume_specification[ str::to_uppercase ](s: &str) -> (r: String)
    ensures
        is_ascii_chars(s@) ==> r@ == s@.map_values(|c: char| ascii_upper(c)),
        !is_ascii_chars(s@) ==> r@ == unicode_uppercase(s@),
;

// ---------------------------------------------------------------------------
// Laws
// ---------------------------------------------------------------------------

/// The first place where two texts differ decides which comes before the
/// other: the smaller character, or the end of the text.
pub proof fn the_first_difference_decides(a: Seq<char>, b: Seq<char>, k: int)
    requires
        0 <= k <= a.len(),
        k <= b.len(),
        a.take(k) == b.take(k),
    ensures
        k < a.len() && k < b.len() && a[k] < b[k] ==> lex_before(a, b) && !lex_before(b, a),
        k == a.len() && k < b.len() ==> lex_before(a, b) && !lex_before(b, a),
        k == a.len() && k == b.len() ==> !lex_before(a, b),
    decreases k,
{
    if k > 0 {
        assert(a[0] == a.take(k)[0] && b[0] == b.take(k)[0]);
        assert(a.skip(1).take(k - 1) =~= a.take(k).skip(1));
        assert(b.skip(1).take(k - 1) =~= b.take(k).skip(1));
        the_first_difference_decides(a.skip(1), b.skip(1), k - 1);
    }
}

proof fn lemma_skip_space(s: Seq<char>, i: int)
    requires
        0 <= i <= s.len(),
    ensures
        i <= skip_space(s, i) <= s.len(),
        forall|k: int| i <= k < skip_space(s, i) ==> is_space(#[trigger] s[k]),
        skip_space(s, i) < s.len() ==> !is_space(s[skip_space(s, i)]),
    decreases s.len() - i,
{
    if i < s.len() && is_space(s[i]) {
        lemma_skip_space(s, i + 1);
    }
}

proof fn lemma_skip_space_back(s: Seq<char>, i: int, j: int)
    requires
        0 <= i <= j <= s.len(),
    ensures
        i <= skip_space_back(s, i, j) <= j,
        forall|k: int| skip_space_back(s, i, j) <= k < j ==> is_space(#[trigger] s[k]),
        skip_space_back(s, i, j) > i ==> !is_space(s[skip_space_back(s, i, j) - 1]),
    decreases j - i,
{
    if i < j && is_space(s[j - 1]) {
        lemma_skip_space_back(s, i, j - 1);
    }
}

/// Trimming takes away white space at both ends, all of it and nothing else.
pub proof fn trimming_takes_white_space_away(s: Seq<char>, t: Seq<char>)
    requires
        t == trimmed(s),
    ensures
        exists|i: int, j: int|
            0 <= i <= j <= s.len() && #[trigger] s.subrange(i, j) == t && is_blank(s.take(i))
                && is_blank(s.skip(j)),
        t.len() > 0 ==> !is_space(t[0]) && !is_space(t.last()),
{
    let i = skip_space(s, 0);
    lemma_skip_space(s, 0);
    let j = skip_space_back(s, i, s.len() as int);
    lemma_skip_space_back(s, i, s.len() as int);
    assert(s.subrange(i, j) == t);
    assert forall|k: int| 0 <= k < s.take(i).len() implies is_space(#[trigger] s.take(i)[k]) by {
        assert(s.take(i)[k] == s[k]);
    }
    assert forall|k: int| 0 <= k < s.skip(j).len() implies is_space(#[trigger] s.skip(j)[k]) by {
        assert(s.skip(j)[k] == s[j + k]);
    }
}

/// Texts are joined with the separator between each two: a list cut in two
/// parts is joined from what the parts are joined to.
pub proof fn a_join_separates_each_two(a: Seq<Seq<char>>, b: Seq<Seq<char>>, sep: Seq<char>)
    ensures
        separated(Seq::empty(), sep).len() == 0,
        a.len() == 1 ==> separated(a, sep) == a[0],
        a.len() > 0 && b.len() > 0 ==> separated(a + b, sep) == separated(a, sep) + sep + separated(
            b,
            sep,
        ),
    decreases b.len(),
{
    if a.len() > 0 && b.len() > 0 {
        let all = a + b;
        if b.len() == 1 {
            assert(all.drop_last() =~= a);
            assert(separated(all, sep) =~= separated(a, sep) + sep + separated(b, sep));
        } else {
            let c = b.drop_last();
            a_join_separates_each_two(a, c, sep);
            assert(all.drop_last() =~= a + c);
            assert(separated(all, sep) =~= separated(a, sep) + sep + separated(b, sep));
        }
    }
}

/// A number is written with its last digit behind those of the rest, and
/// without a zero in front.
pub proof fn numbers_are_written_in_decimal(n: nat)
    ensures
        n < 10 ==> decimal_digits(n) == seq![('0' as nat + n) as char],
        n >= 10 ==> decimal_digits(n) == decimal_digits(n / 10) + seq![('0' as nat + n % 10) as char],
        decimal_digits(n).len() > 0,
        n > 0 ==> decimal_digits(n)[0] != '0',
    decreases n,
{
    if n >= 10 {
        numbers_are_written_in_decimal(n / 10);
        assert(decimal_digits(n) =~= decimal_digits(n / 10) + seq![('0' as nat + n % 10) as char]);
    }
}

/// Of the ASCII characters the space, the tab and the line ends are white
/// space.
pub proof fn ascii_white_space(c: char)
    requires
        c <= '\u{7f}',
    ensures
        is_space(c) <==> c == ' ' || c == '\t' || c == '\n' || c == '\r' || c == '\u{b}' || c
            == '\u{c}',
{
}

/// Texts that differ at most in the case of ASCII letters: place by place the
/// characters are the same, or a letter and its capital.
pub proof fn case_is_all_that_differs(a: Seq<char>, b: Seq<char>)
    ensures
        same_but_for_case(a, b) <==> a.len() == b.len() && forall|i: int|
            0 <= i < a.len() ==> (#[trigger] a[i]) == b[i] || 'a' <= a[i] <= 'z' && b[i] as int
                == a[i] as int - 32 || 'A' <= a[i] <= 'Z' && b[i] as int == a[i] as int + 32,
{
    assert forall|x: char, y: char|
        #![trigger ascii_lower(x), ascii_lower(y)]
        ascii_lower(x) == ascii_lower(y) <==> x == y || 'a' <= x <= 'z' && y as int == x as int - 32
            || 'A' <= x <= 'Z' && y as int == x as int + 32 by {
        lemma_ascii_lower(x);
        lemma_ascii_lower(y);
    }
    if a.len() == b.len() && forall|i: int|
        0 <= i < a.len() ==> (#[trigger] a[i]) == b[i] || 'a' <= a[i] <= 'z' && b[i] as int
            == a[i] as int - 32 || 'A' <= a[i] <= 'Z' && b[i] as int == a[i] as int + 32 {
        assert forall|i: int| 0 <= i < a.len() implies ascii_lower(#[trigger] a[i]) == ascii_lower(
            b[i],
        ) by {
            lemma_ascii_lower(a[i]);
            lemma_ascii_lower(b[i]);
        }
    }
}

proof fn lemma_ascii_lower(c: char)
    ensures
        'A' <= c <= 'Z' ==> ascii_lower(c) as int == c as int + 32,
        !('A' <= c <= 'Z') ==> ascii_lower(c) == c,
{
}

} // verus!
