//! Command-line mode for vim-style commands such as `:cd`.

use crate::lists::copied_range;
use crate::text::{chars_of, is_space, join, same, separated, space, string_of, texts};
use vstd::prelude::*;
use vstd::slice::slice_to_vec;
use vstd::string::StringExecFns;
use vstd::utf8::encode_utf8;

verus! {

/// The byte between the parts of a path, `/`.
pub const SLASH: u8 = 0x2f;

/// Parsed command from command-line input.
#[derive(Debug, Clone, PartialEq, Eq)]
pub enum Command {
    /// Change directory command: `:cd <path>`. The path is held in bytes, what
    /// is typed in UTF-8, since a home directory need not be text.
    ChangeDirectory { path: Vec<u8> },
}

/// Error parsing command-line input.
#[derive(Debug, Clone, PartialEq, Eq)]
pub enum ParseError {
    /// Empty command (just `:`)
    EmptyCommand,
    /// Unknown command name
    UnknownCommand(String),
    /// Missing required argument
    MissingArgument { command: String, expected: String },
}

impl ParseError {
    /// The error as it is shown.
    pub fn message(&self) -> (text: String)
        ensures
            text@ == (match *self {
                ParseError::EmptyCommand => "Empty command"@,
                ParseError::UnknownCommand(name) => "Unknown command: :"@ + name@,
                ParseError::MissingArgument { command, expected } => ":"@ + command@ + " requires "@
                    + expected@,
            }),
    {
        match self {
            ParseError::EmptyCommand => "Empty command".to_owned(),
            ParseError::UnknownCommand(name) => {
                let mut text = "Unknown command: :".to_owned();
                text.append(name.as_str());
                text
            },
            ParseError::MissingArgument { command, expected } => {
                let mut text = ":".to_owned();
                text.append(command.as_str());
                text.append(" requires ");
                text.append(expected.as_str());
                text
            },
        }
    }
}

/// The words of `s` from `i` on, where `word` is one begun just before.
pub open spec fn words(s: Seq<char>, i: int, word: Seq<char>) -> Seq<Seq<char>>
    decreases s.len() - i,
{
    let done = if word.len() > 0 { seq![word] } else { Seq::empty() };
    if !(0 <= i < s.len()) {
        done
    } else if is_space(s[i]) {
        done + words(s, i + 1, Seq::empty())
    } else {
        words(s, i + 1, word.push(s[i]))
    }
}

/// The words of `s`: its longest parts without white space.
pub open spec fn words_of(s: Seq<char>) -> Seq<Seq<char>> {
    words(s, 0, Seq::empty())
}

/// The path that `rel` names seen from `base`, both in bytes: itself where it
/// is absolute, else the two with a `/` between, unless there is one or `base`
/// is empty.
pub open spec fn joined_bytes(base: Seq<u8>, rel: Seq<u8>) -> Seq<u8> {
    if rel.len() > 0 && rel[0] == SLASH {
        rel
    } else if base.len() == 0 || base.last() == SLASH {
        base + rel
    } else {
        base.push(SLASH) + rel
    }
}

/// The path that the words after the command name, with single spaces
/// between, stand for: `~` is the home directory and one that starts with `~/`
/// lies in it, where there is one.
pub open spec fn expanded(path: Seq<char>, home: Option<Seq<u8>>) -> Seq<u8> {
    match home {
        Some(h) => if path == seq!['~'] {
            h
        } else if path.len() > 1 && path[0] == '~' && path[1] == '/' {
            joined_bytes(h, encode_utf8(path.skip(2)))
        } else {
            encode_utf8(path)
        },
        None => encode_utf8(path),
    }
}

/// The argument of a command: the words after its name.
pub open spec fn argument(input: Seq<char>) -> Seq<char> {
    separated(words_of(input).skip(1), seq![' '])
}

/// `r` is what parsing `input` gives where the home directory is `home`.
pub open spec fn is_parse(
    r: Result<Command, ParseError>,
    input: Seq<char>,
    home: Option<Seq<u8>>,
) -> bool {
    let parts = words_of(input);
    if parts.len() == 0 {
        r == Err::<Command, ParseError>(ParseError::EmptyCommand)
    } else if parts[0] != "cd"@ {
        r matches Err(ParseError::UnknownCommand(name)) && name@ == parts[0]
    } else if parts.len() < 2 {
        r matches Err(ParseError::MissingArgument { command, expected }) && command@ == "cd"@
            && expected@ == "directory path"@
    } else {
        r matches Ok(Command::ChangeDirectory { path }) && path@ == expanded(argument(input), home)
    }
}

/// The words of `s`.
fn split_words(s: &str) -> (parts: Vec<String>)
    ensures
        texts(parts@) == words_of(s@),
{
    let chars = chars_of(s);
    let mut parts: Vec<String> = Vec::new();
    let mut word = String::new();
    let mut i: usize = 0;
    assert(texts(parts@) + words(chars@, 0, word@) =~= words_of(s@));
    while i < chars.len()
        invariant
            chars@ == s@,
            i <= chars.len(),
            texts(parts@) + words(chars@, i as int, word@) == words_of(s@),
        decreases chars.len() - i,
    {
        let c: char = chars[i];
        if space(c) {
            let ghost was = parts@;
            let ghost begun = word@;
            if !word.as_str().is_empty() {
                parts.push(word);
                assert(texts(parts@) =~= texts(was).push(begun));
            }
            word = String::new();
            proof {
                let rest = words(chars@, i + 1, Seq::empty());
                let done = if begun.len() > 0 { seq![begun] } else { Seq::empty() };
                assert(texts(parts@) + rest =~= texts(was) + (done + rest));
                assert(word@ =~= Seq::<char>::empty());
            }
        } else {
            word.push(c);
        }
        i = i + 1;
    }
    let ghost was = parts@;
    let ghost begun = word@;
    if !word.as_str().is_empty() {
        parts.push(word);
        assert(texts(parts@) =~= texts(was).push(begun));
    } else {
        assert(texts(parts@) + Seq::<Seq<char>>::empty() =~= texts(parts@));
    }
    parts
}

/// The path that `rel` names seen from `base`.
fn join_bytes(base: &[u8], rel: &[u8]) -> (path: Vec<u8>)
    ensures
        path@ == joined_bytes(base@, rel@),
{
    let mut tail = slice_to_vec(rel);
    if tail.len() > 0 && tail[0] == SLASH {
        return tail;
    }
    let mut path = slice_to_vec(base);
    if path.len() > 0 && path[path.len() - 1] != SLASH {
        path.push(SLASH);
    }
    path.append(&mut tail);
    path
}

/// Parse a command-line string (without the leading `:`), where `home` is the
/// home directory.
pub fn parse_command_in(input: &str, home: Option<&[u8]>) -> (r: Result<Command, ParseError>)
    ensures
        is_parse(
            r,
            input@,
            match home {
                Some(h) => Some(h@),
                None => None,
            },
        ),
{
    let parts = split_words(input);
    assert(texts(parts@).len() == parts@.len());
    if parts.len() == 0 {
        return Err(ParseError::EmptyCommand);
    }
    assert(texts(parts@)[0] == parts@[0]@);
    if !same(parts[0].as_str(), "cd") {
        return Err(ParseError::UnknownCommand(parts[0].clone()));
    }
    if parts.len() < 2 {
        return Err(
            ParseError::MissingArgument {
                command: "cd".to_owned(),
                expected: "directory path".to_owned(),
            },
        );
    }
    let mut rest: Vec<String> = Vec::new();
    let mut i: usize = 1;
    while i < parts.len()
        invariant
            1 <= i <= parts.len(),
            rest@ == parts@.subrange(1, i as int),
        decreases parts.len() - i,
    {
        rest.push(parts[i].clone());
        i = i + 1;
        assert(parts@.subrange(1, i as int) =~= parts@.subrange(1, i - 1).push(parts@[i - 1]));
    }
    assert(texts(rest@) =~= words_of(input@).skip(1));
    proof {
        reveal_strlit(" ");
        assert(" "@ =~= seq![' ']);
    }
    let written = join(&rest, " ");
    match home {
        Some(h) => {
            let chars = chars_of(written.as_str());
            if chars.len() == 1 && chars[0] == '~' {
                assert(written@ =~= seq!['~']);
                return Ok(Command::ChangeDirectory { path: slice_to_vec(h) });
            }
            if chars.len() > 1 && chars[0] == '~' && chars[1] == '/' {
                let tail = string_of(copied_range(&chars, 2, chars.len()).as_slice());
                assert(tail@ =~= written@.skip(2));
                return Ok(
                    Command::ChangeDirectory { path: join_bytes(h, tail.as_str().as_bytes()) },
                );
            }
        },
        None => {},
    }
    Ok(Command::ChangeDirectory { path: slice_to_vec(written.as_str().as_bytes()) })
}

/// `dirs::home_dir`, the user's home directory in the bytes that the system has
/// it in. It comes from the environment, or from what the system knows of the
/// user, so nothing is claimed of it.
#[verifier::external_body]
fn home_dir() -> (home: Option<Vec<u8>>) {
    dirs::home_dir().map(|home| home.into_os_string().into_encoded_bytes())
}

/// Parse a command-line string (without the leading `:`). A `~` that is the
/// path or stands before its first `/` is the user's home directory.
pub fn parse_command(input: &str) -> (r: Result<Command, ParseError>)
    ensures
        exists|home: Option<Seq<u8>>| is_parse(r, input@, home),
{
    let home = home_dir();
    match &home {
        Some(h) => {
            let r = parse_command_in(input, Some(h.as_slice()));
            assert(is_parse(r, input@, Some(h@)));
            r
        },
        None => {
            let r = parse_command_in(input, None);
            assert(is_parse(r, input@, None));
            r
        },
    }
}

/// Command line view component: `:` followed by the current input text at the
/// bottom of the editor.
#[derive(Debug, Clone, PartialEq, Eq)]
pub struct CommandLineView {
    /// Current input text
    pub text: String,
    /// Error message to display (if any)
    pub error: Option<String>,
}

impl CommandLineView {
    /// Create a new command line view with the given input text.
    pub fn new(text: String, error: Option<String>) -> (view: Self)
        ensures
            view.text == text,
            view.error == error,
    {
        CommandLineView { text, error }
    }

    /// The text of the line: the error where there is one, else the input
    /// after a `:`.
    pub fn shown_text(&self) -> (text: String)
        ensures
            text@ == (match self.error {
                Some(error) => error@,
                None => ":"@ + self.text@,
            }),
    {
        match &self.error {
            Some(error) => error.clone(),
            None => {
                let mut text = ":".to_owned();
                text.append(self.text.as_str());
                text
            },
        }
    }

    /// The line's background, as red, green and blue: dark red for an error.
    pub fn background(&self) -> (rgb: u32)
        ensures
            rgb == (if self.error is Some { 0x3e1e1eu32 } else { 0x252526u32 }),
    {
        if self.error.is_some() {
            0x3e1e1e
        } else {
            0x252526
        }
    }

    /// The color of the line's text, as red, green and blue: red for an error.
    pub fn text_color(&self) -> (rgb: u32)
        ensures
            rgb == (if self.error is Some { 0xff6b6bu32 } else { 0xd4d4d4u32 }),
    {
        if self.error.is_some() {
            0xff6b6b
        } else {
            0xd4d4d4
        }
    }
}

// ---------------------------------------------------------------------------
// Laws
// ---------------------------------------------------------------------------

proof fn lemma_words_shift(p: Seq<char>, b: Seq<char>, k: int, word: Seq<char>)
    requires
        0 <= k <= b.len(),
    ensures
        words(p + b, p.len() + k, word) == words(b, k, word),
    decreases b.len() - k,
{
    if k < b.len() {
        assert((p + b)[p.len() + k] == b[k]);
        if is_space(b[k]) {
            lemma_words_shift(p, b, k + 1, Seq::empty());
        } else {
            lemma_words_shift(p, b, k + 1, word.push(b[k]));
        }
    }
}

proof fn lemma_words_cut(a: Seq<char>, c: char, b: Seq<char>, i: int, word: Seq<char>)
    requires
        0 <= i <= a.len(),
        is_space(c),
    ensures
        words(a + seq![c] + b, i, word) == words(a, i, word) + words_of(b),
    decreases a.len() - i,
{
    let s = a + seq![c] + b;
    if i < a.len() {
        assert(s[i] == a[i]);
        if is_space(a[i]) {
            lemma_words_cut(a, c, b, i + 1, Seq::empty());
            assert(words(s, i, word) =~= words(a, i, word) + words_of(b));
        } else {
            lemma_words_cut(a, c, b, i + 1, word.push(a[i]));
        }
    } else {
        let p = a + seq![c];
        assert(s[i] == c);
        assert(s =~= p + b);
        lemma_words_shift(p, b, 0, Seq::empty());
        assert(words(s, i, word) =~= words(a, i, word) + words_of(b));
    }
}

proof fn lemma_one_word(w: Seq<char>, i: int, word: Seq<char>)
    requires
        0 <= i <= w.len(),
        forall|k: int| 0 <= k < w.len() ==> !is_space(#[trigger] w[k]),
        i < w.len() || word.len() > 0,
    ensures
        words(w, i, word) == seq![word + w.skip(i)],
    decreases w.len() - i,
{
    if i < w.len() {
        lemma_one_word(w, i + 1, word.push(w[i]));
        assert(word.push(w[i]) + w.skip(i + 1) =~= word + w.skip(i));
    } else {
        assert(word + w.skip(i) =~= word);
    }
}

/// White space parts words: what stands before it falls into words and what
/// stands behind, and text without white space is one word.
pub proof fn white_space_parts_words(a: Seq<char>, c: char, b: Seq<char>)
    requires
        is_space(c),
    ensures
        words_of(a + seq![c] + b) == words_of(a) + words_of(b),
        a.len() == 0 ==> words_of(a).len() == 0,
        a.len() > 0 && (forall|k: int| 0 <= k < a.len() ==> !is_space(#[trigger] a[k])) ==> words_of(
            a,
        ) == seq![a],
{
    lemma_words_cut(a, c, b, 0, Seq::empty());
    if a.len() > 0 && (forall|k: int| 0 <= k < a.len() ==> !is_space(#[trigger] a[k])) {
        lemma_one_word(a, 0, Seq::empty());
        assert(Seq::<char>::empty() + a.skip(0) =~= a);
    }
}

/// What a line comes to: nothing typed, a name that is no command, and `cd`
/// without a directory are errors. `cd` with a directory goes there: to `home`
/// for `~`, to what lies in it for `~/...`, else to the directory as typed, the
/// words of it with single spaces between.
pub proof fn a_line_says_where_to_go(
    r: Result<Command, ParseError>,
    input: Seq<char>,
    home: Option<Seq<u8>>,
)
    requires
        is_parse(r, input, home),
    ensures
        words_of(input).len() == 0 ==> r is Err && r->Err_0 is EmptyCommand,
        words_of(input).len() > 0 && words_of(input)[0] != "cd"@ ==> r is Err && (
        r->Err_0 matches ParseError::UnknownCommand(name) && name@ == words_of(input)[0]),
        words_of(input).len() == 1 && words_of(input)[0] == "cd"@ ==> r is Err
            && r->Err_0 is MissingArgument,
        words_of(input).len() > 1 && words_of(input)[0] == "cd"@ ==> r is Ok && ({
            let typed = separated(words_of(input).skip(1), seq![' ']);
            let path = r->Ok_0->path@;
            &&& home is None ==> path == encode_utf8(typed)
            &&& typed.len() == 0 || typed[0] != '~' ==> path == encode_utf8(typed)
            &&& typed == seq!['~'] && home is Some ==> path == home->0
            &&& typed.len() > 1 && typed[0] == '~' && typed[1] != '/' ==> path == encode_utf8(typed)
            &&& typed.len() > 1 && typed[0] == '~' && typed[1] == '/' && home is Some
                && home->0.len() > 0 && home->0.last() != 0x2f && (encode_utf8(typed.skip(2)).len()
                == 0 || encode_utf8(typed.skip(2))[0] != 0x2f) ==> path == home->0 + seq![0x2fu8]
                + encode_utf8(typed.skip(2))
            &&& typed.len() > 1 && typed[0] == '~' && typed[1] == '/' && home is Some
                && encode_utf8(typed.skip(2)).len() > 0 && encode_utf8(typed.skip(2))[0] == 0x2f
                ==> path == encode_utf8(typed.skip(2))
            &&& typed.len() > 1 && typed[0] == '~' && typed[1] == '/' && home is Some && (
            home->0.len() == 0 || home->0.last() == 0x2f) && (encode_utf8(typed.skip(2)).len() == 0
                || encode_utf8(typed.skip(2))[0] != 0x2f) ==> path == home->0 + encode_utf8(
                typed.skip(2),
            )
        }),
{
    if home is Some {
        assert(home->0.push(SLASH) =~= home->0 + seq![0x2fu8]);
    }
}

} // verus!
