//! Filesystem-entry completion source: which directory to list for a
//! path-shaped prefix, and what its entries become, with a trailing `/` on
//! directories so chained completions feel natural.

use crate::completion::{
    CompletionContext, CompletionItem, CompletionItemKind, CompletionSource,
};
use crate::lists::copied_range;
use crate::paths::{is_below, join_path, joined_path, paths_are_joined_with_one_slash};
use crate::text::{
    begins_with, byte_len, bytes_in, chars_of, is_letter_or_number, lowercase, string_of,
};
use vstd::prelude::*;

verus! {

/// One entry of a directory.
#[derive(Debug, Clone, PartialEq, Eq)]
pub struct DirEntry {
    pub name: String,
    pub is_dir: bool,
}

/// The characters of a path.
pub open spec fn path_char(c: char) -> bool {
    is_letter_or_number(c) || c == '/' || c == '.' || c == '_' || c == '-' || c == '~'
}

pub fn is_path_char(ch: char) -> (r: bool)
    ensures
        r == path_char(ch),
{
    ch.is_alphanumeric() || ch == '/' || ch == '.' || ch == '_' || ch == '-' || ch == '~'
}

/// Where the run of path characters that ends before character `k` starts.
pub open spec fn path_start(text: Seq<char>, k: int) -> int
    decreases k,
{
    if 0 < k <= text.len() && path_char(text[k - 1]) {
        path_start(text, k - 1)
    } else {
        k
    }
}

/// The path at the end of `text`: its longest suffix of path characters,
/// nothing where it ends in none.
pub open spec fn path_at_end(text: Seq<char>) -> Option<Seq<char>> {
    let start = path_start(text, text.len() as int);
    if start == text.len() {
        None
    } else {
        Some(text.skip(start))
    }
}

/// The path at the end of a text is made of path characters, and the character
/// before it, where there is one, is none.
pub proof fn the_path_is_the_longest_suffix(text: Seq<char>)
    ensures
        0 <= path_start(text, text.len() as int) <= text.len(),
        forall|i: int| path_start(text, text.len() as int) <= i < text.len() ==> path_char(
            #[trigger] text[i],
        ),
        path_start(text, text.len() as int) > 0 ==> !path_char(
            text[path_start(text, text.len() as int) - 1],
        ),
{
    lemma_path_run(text, text.len() as int);
}

proof fn lemma_path_run(text: Seq<char>, k: int)
    requires
        0 <= k <= text.len(),
    ensures
        0 <= path_start(text, k) <= k,
        forall|i: int| path_start(text, k) <= i < k ==> path_char(#[trigger] text[i]),
        path_start(text, k) > 0 ==> !path_char(text[path_start(text, k) - 1]),
    decreases k,
{
    if 0 < k && path_char(text[k - 1]) {
        lemma_path_run(text, k - 1);
    }
}

/// The place of the last `/` before `k`.
pub open spec fn last_slash(s: Seq<char>, k: int) -> Option<int>
    decreases k,
{
    if k <= 0 {
        None
    } else if s[k - 1] == '/' {
        Some(k - 1)
    } else {
        last_slash(s, k - 1)
    }
}

/// A path up to its last `/`, and the name begun after it.
pub open spec fn split_suffix(s: Seq<char>) -> (Seq<char>, Seq<char>) {
    match last_slash(s, s.len() as int) {
        Some(at) => (s.take(at + 1), s.skip(at + 1)),
        None => (Seq::empty(), s),
    }
}

/// The directory that a path up to its last `/` names.
pub open spec fn parent_dir(parent: Seq<char>, base: Seq<char>, home: Option<Seq<char>>) -> Seq<char> {
    if parent.len() == 0 {
        base
    } else if parent[0] == '/' {
        parent
    } else if home is Some && parent.len() >= 2 && parent[0] == '~' && parent[1] == '/' {
        joined_path(home->0, parent.skip(2))
    } else {
        joined_path(base, parent)
    }
}

/// The path whose completion is asked for: one at the end of the text, with a
/// `/` in it or a `~` in front.
pub open spec fn wanted_path(text: Seq<char>) -> Option<Seq<char>> {
    match path_at_end(text) {
        Some(s) => if s.contains('/') || (s.len() > 0 && s[0] == '~') {
            Some(s)
        } else {
            None
        },
        None => None,
    }
}

/// Walk back from the end of `text` collecting characters that look like part
/// of a path. Returns the resulting suffix, or `None` when no path-shaped
/// characters are present.
pub fn path_suffix(text: &str) -> (suffix: Option<String>)
    ensures
        match suffix {
            Some(s) => path_at_end(text@) == Some(s@),
            None => path_at_end(text@) is None,
        },
{
    let s = chars_of(text);
    let n: usize = s.len();
    let mut start: usize = n;
    while start > 0 && is_path_char(s[start - 1])
        invariant
            start <= n,
            n == s.len(),
            s@ == text@,
            path_start(text@, n as int) == path_start(text@, start as int),
        decreases start,
    {
        start = start - 1;
    }
    if start == n {
        return None;
    }
    let suffix = string_of(copied_range(&s, start, n).as_slice());
    assert(suffix@ =~= text@.skip(start as int));
    Some(suffix)
}

/// Split a path suffix on the last `/`. When the suffix ends with a slash, the
/// typed name is empty and the entire suffix names the parent.
pub fn split_path_suffix(suffix: &str) -> (r: (String, String))
    ensures
        (r.0@, r.1@) == split_suffix(suffix@),
{
    let s = chars_of(suffix);
    let n: usize = s.len();
    let mut k: usize = n;
    while k > 0
        invariant
            k <= n,
            n == s.len(),
            s@ == suffix@,
            last_slash(suffix@, n as int) == last_slash(suffix@, k as int),
        decreases k,
    {
        if s[k - 1] == '/' {
            let parent = string_of(copied_range(&s, 0, k).as_slice());
            let name = string_of(copied_range(&s, k, n).as_slice());
            assert(parent@ =~= suffix@.take(k as int));
            assert(name@ =~= suffix@.skip(k as int));
            return (parent, name);
        }
        k = k - 1;
    }
    (String::new(), suffix.to_owned())
}

/// The directory that a path up to its last `/` names: absolute, in the home
/// directory after `~/`, else from `base_dir`.
pub fn resolve_parent(parent_subpath: &str, base_dir: &str, home_dir: Option<&str>) -> (dir: String)
    ensures
        dir@ == parent_dir(
            parent_subpath@,
            base_dir@,
            match home_dir {
                Some(h) => Some(h@),
                None => None,
            },
        ),
{
    let parent = chars_of(parent_subpath);
    if parent.len() == 0 {
        return base_dir.to_owned();
    }
    if parent[0] == '/' {
        return parent_subpath.to_owned();
    }
    match home_dir {
        Some(home) => {
            if parent.len() >= 2 && parent[0] == '~' && parent[1] == '/' {
                let rest = string_of(copied_range(&parent, 2, parent.len()).as_slice());
                assert(rest@ =~= parent_subpath@.skip(2));
                return join_path(home, rest.as_str());
            }
        },
        None => {},
    }
    join_path(base_dir, parent_subpath)
}

/// The path whose completion is asked for.
fn find_wanted(text: &str) -> (path: Option<String>)
    ensures
        match path {
            Some(s) => wanted_path(text@) == Some(s@),
            None => wanted_path(text@) is None,
        },
{
    let suffix = match path_suffix(text) {
        Some(s) => s,
        None => {
            return None;
        },
    };
    let s = chars_of(suffix.as_str());
    if s.len() > 0 && s[0] == '~' {
        return Some(suffix);
    }
    let mut i: usize = 0;
    while i < s.len()
        invariant
            i <= s.len(),
            s@ == suffix@,
            path_at_end(text@) == Some(suffix@),
            forall|k: int| 0 <= k < i ==> #[trigger] s@[k] != '/',
        decreases s.len() - i,
    {
        if s[i] == '/' {
            assert(suffix@[i as int] == '/');
            return Some(suffix);
        }
        i = i + 1;
    }
    None
}

/// The directory to list for the current cursor context, or `None` where the
/// text before the cursor ends in no path.
///
/// `base_dir` is the directory relative paths resolve against. `home_dir`
/// enables `~/` when `Some`.
pub fn directory_to_list(
    ctx: &CompletionContext<'_>,
    base_dir: &str,
    home_dir: Option<&str>,
) -> (dir: Option<String>)
    ensures
        match wanted_path(ctx.text_before_cursor@) {
            Some(s) => dir matches Some(d) && d@ == parent_dir(
                split_suffix(s).0,
                base_dir@,
                match home_dir {
                    Some(h) => Some(h@),
                    None => None,
                },
            ),
            None => dir is None,
        },
{
    match find_wanted(ctx.text_before_cursor) {
        Some(s) => {
            let (parent, _name) = split_path_suffix(s.as_str());
            Some(resolve_parent(parent.as_str(), base_dir, home_dir))
        },
        None => None,
    }
}

/// The label of an entry: its name, with a `/` behind that of a directory.
pub open spec fn entry_label(entry: DirEntry) -> Seq<char> {
    if entry.is_dir {
        entry.name@.push('/')
    } else {
        entry.name@
    }
}

/// The entry's name begins with what was typed, upper and lower case apart.
pub open spec fn entry_matches(entry: DirEntry, typed: Seq<char>) -> bool {
    lowercase(typed).is_prefix_of(lowercase(entry.name@))
}

/// `item` is the row of `entry`.
pub open spec fn is_entry_item(item: CompletionItem, entry: DirEntry, typed: Seq<char>, cursor: usize) -> bool {
    &&& item.label@ == entry_label(entry)
    &&& item.insert_text@ == entry_label(entry)
    &&& item.source == CompletionSource::Path
    &&& item.kind == Some(
        if entry.is_dir {
            CompletionItemKind::Folder
        } else {
            CompletionItemKind::File
        },
    )
    &&& item.detail is None
    &&& item.replace_range.start == (if cursor >= byte_len(typed) {
        cursor - byte_len(typed)
    } else {
        0
    })
    &&& item.replace_range.end == cursor
    &&& !item.is_snippet
    &&& item.documentation is None
    &&& item.lsp_item is None
    &&& item.server is None
}

/// The entries among the first `n` that match what was typed.
pub open spec fn matching_entries(entries: Seq<DirEntry>, typed: Seq<char>, n: nat) -> Seq<DirEntry>
    decreases n,
{
    if n == 0 {
        Seq::empty()
    } else {
        let before = matching_entries(entries, typed, (n - 1) as nat);
        if entry_matches(entries[n - 1], typed) {
            before.push(entries[n - 1])
        } else {
            before
        }
    }
}

pub(crate) proof fn lemma_matching_count(entries: Seq<DirEntry>, typed: Seq<char>, n: nat)
    ensures
        matching_entries(entries, typed, n).len() <= n,
    decreases n,
{
    if n > 0 {
        lemma_matching_count(entries, typed, (n - 1) as nat);
    }
}

/// `items` are the rows for the entries of the listed directory that match, in
/// the order of the listing.
pub open spec fn are_entry_items(
    items: Seq<CompletionItem>,
    entries: Seq<DirEntry>,
    typed: Seq<char>,
    cursor: usize,
) -> bool {
    let matching = matching_entries(entries, typed, entries.len());
    &&& items.len() == matching.len()
    &&& forall|i: int|
        0 <= i < items.len() ==> is_entry_item(#[trigger] items[i], matching[i], typed, cursor)
}

/// Path completion items for the current cursor context, where `listing` are
/// the entries of the directory that [`directory_to_list`] names, or `None`
/// where it could not be listed.
///
/// Empty when the prefix is not path-shaped or there is no listing.
pub fn fetch(ctx: &CompletionContext<'_>, listing: Option<Vec<DirEntry>>) -> (items: Vec<CompletionItem>)
    ensures
        match (wanted_path(ctx.text_before_cursor@), listing) {
            (Some(s), Some(entries)) => are_entry_items(
                items@,
                entries@,
                split_suffix(s).1,
                ctx.cursor_offset,
            ),
            _ => items@.len() == 0,
        },
{
    let mut items: Vec<CompletionItem> = Vec::new();
    let suffix = match find_wanted(ctx.text_before_cursor) {
        Some(s) => s,
        None => {
            return items;
        },
    };
    let entries = match listing {
        Some(entries) => entries,
        None => {
            return items;
        },
    };
    let (_parent, typed) = split_path_suffix(suffix.as_str());
    let typed_lc = typed.as_str().to_lowercase();
    let cursor: usize = ctx.cursor_offset;
    let start: usize = cursor.saturating_sub(bytes_in(typed.as_str()));
    let mut k: usize = 0;
    while k < entries.len()
        invariant
            k <= entries.len(),
            typed_lc@ == lowercase(typed@),
            start == (if cursor >= byte_len(typed@) {
                cursor - byte_len(typed@)
            } else {
                0
            }),
            items@.len() == matching_entries(entries@, typed@, k as nat).len(),
            forall|i: int|
                0 <= i < items@.len() ==> is_entry_item(
                    #[trigger] items@[i],
                    matching_entries(entries@, typed@, k as nat)[i],
                    typed@,
                    cursor,
                ),
        decreases entries.len() - k,
    {
        let entry = &entries[k];
        let name_lc = entry.name.as_str().to_lowercase();
        if begins_with(name_lc.as_str(), typed_lc.as_str()) {
            let mut label = entry.name.clone();
            if entry.is_dir {
                label.push('/');
            }
            let kind = if entry.is_dir {
                CompletionItemKind::Folder
            } else {
                CompletionItemKind::File
            };
            items.push(
                CompletionItem {
                    label: label.clone(),
                    source: CompletionSource::Path,
                    kind: Some(kind),
                    detail: None,
                    replace_range: start..cursor,
                    insert_text: label,
                    is_snippet: false,
                    documentation: None,
                    lsp_item: None,
                    server: None,
                },
            );
        }
        k = k + 1;
    }
    items
}

// ---------------------------------------------------------------------------
// Laws
// ---------------------------------------------------------------------------

/// What is completed as a path: the longest end of the text that is made of
/// letters, digits and `/`, `.`, `_`, `-`, `~`, where it has a `/` in it or
/// starts with `~`; nothing otherwise.
pub proof fn the_wanted_path_ends_the_text(text: Seq<char>, start: int)
    requires
        0 <= start <= text.len(),
        forall|i: int|
            start <= i < text.len() ==> is_letter_or_number(#[trigger] text[i]) || text[i] == '/'
                || text[i] == '.' || text[i] == '_' || text[i] == '-' || text[i] == '~',
        start > 0 ==> !(is_letter_or_number(text[start - 1]) || text[start - 1] == '/' || text[start
            - 1] == '.' || text[start - 1] == '_' || text[start - 1] == '-' || text[start - 1]
            == '~'),
    ensures
        wanted_path(text) == (if text.skip(start).contains('/') || start < text.len() && text[start]
            == '~' {
            Some(text.skip(start))
        } else {
            None
        }),
{
    the_path_is_the_longest_suffix(text);
    let found = path_start(text, text.len() as int);
    if found < start {
        assert(path_char(text[start - 1]));
    } else if start < found {
        assert(path_char(text[found - 1]));
    }
}

proof fn lemma_last_slash(s: Seq<char>, k: int)
    requires
        0 <= k <= s.len(),
    ensures
        match last_slash(s, k) {
            Some(at) => 0 <= at < k && s[at] == '/' && forall|i: int|
                at < i < k ==> #[trigger] s[i] != '/',
            None => forall|i: int| 0 <= i < k ==> #[trigger] s[i] != '/',
        },
    decreases k,
{
    if k > 0 && s[k - 1] != '/' {
        lemma_last_slash(s, k - 1);
    }
}

/// A path falls into the directory, up to its last `/` and with it, and the
/// name begun behind that.
pub proof fn a_path_is_split_behind_its_last_slash(s: Seq<char>, dir: Seq<char>, name: Seq<char>)
    requires
        (dir, name) == split_suffix(s),
    ensures
        dir + name == s,
        !name.contains('/'),
        dir.len() > 0 ==> dir.last() == '/',
{
    lemma_last_slash(s, s.len() as int);
    assert(dir + name =~= s);
    if name.contains('/') {
        let i = choose|i: int| 0 <= i < name.len() && name[i] == '/';
        assert(s[dir.len() + i] == '/');
    }
}

/// The directory that is listed: for `/...` that path itself, for `~/...` what
/// lies there in the home directory, where one is known, else what lies there
/// seen from the base directory.
pub proof fn the_listed_directory(
    parent: Seq<char>,
    base: Seq<char>,
    home: Option<Seq<char>>,
    dir: Seq<char>,
)
    requires
        dir == parent_dir(parent, base, home),
    ensures
        parent.len() == 0 ==> dir == base,
        parent.len() > 0 && parent[0] == '/' ==> dir == parent,
        parent.len() > 1 && parent[0] == '~' && parent[1] == '/' && home is Some ==> is_below(
            dir,
            home->0,
            parent.skip(2),
        ),
        parent.len() > 0 && parent[0] != '/' && (parent[0] != '~' || home is None) ==> is_below(
            dir,
            base,
            parent,
        ),
{
    if parent.len() > 1 && parent[0] == '~' && parent[1] == '/' && home is Some {
        paths_are_joined_with_one_slash(home->0, parent.skip(2), dir);
    }
    if parent.len() > 0 && parent[0] != '/' && (parent[0] != '~' || home is None) {
        paths_are_joined_with_one_slash(base, parent, dir);
    }
}

proof fn lemma_matching_entries(entries: Seq<DirEntry>, typed: Seq<char>, n: nat)
    requires
        n <= entries.len(),
    ensures
        forall|k: int|
            0 <= k < n && lowercase(typed).is_prefix_of(lowercase((#[trigger] entries[k]).name@))
                ==> matching_entries(entries, typed, n).contains(entries[k]),
        forall|i: int|
            0 <= i < matching_entries(entries, typed, n).len() ==> comes_from(
                #[trigger] matching_entries(entries, typed, n)[i],
                entries,
                typed,
                n,
            ),
    decreases n,
{
    if n > 0 {
        let p = (n - 1) as nat;
        lemma_matching_entries(entries, typed, p);
        let before = matching_entries(entries, typed, p);
        let all = matching_entries(entries, typed, n);
        assert forall|k: int|
            0 <= k < n && lowercase(typed).is_prefix_of(
                lowercase((#[trigger] entries[k]).name@),
            ) implies all.contains(entries[k]) by {
            if k < p {
                assert(before.contains(entries[k]));
                let i = choose|i: int| 0 <= i < before.len() && before[i] == entries[k];
                assert(all[i] == entries[k]);
            } else {
                assert(all.last() == entries[k]);
            }
        }
        assert forall|i: int| 0 <= i < all.len() implies comes_from(
            #[trigger] all[i],
            entries,
            typed,
            n,
        ) by {
            if i < before.len() {
                assert(all[i] == before[i]);
                assert(comes_from(before[i], entries, typed, p));
                let k = choose|k: int|
                    0 <= k < p && #[trigger] entries[k] == before[i] && lowercase(
                        typed,
                    ).is_prefix_of(lowercase(before[i].name@));
                assert(entries[k] == all[i]);
            } else {
                assert(entries[n - 1] == all[i]);
            }
        }
    }
}

/// The entry is one of the first `n`, and its name starts with what was typed,
/// upper and lower case apart.
pub open spec fn comes_from(entry: DirEntry, entries: Seq<DirEntry>, typed: Seq<char>, n: nat) -> bool {
    exists|k: int|
        0 <= k < n && #[trigger] entries[k] == entry && lowercase(typed).is_prefix_of(
            lowercase(entry.name@),
        )
}

/// Every entry whose name starts with what was typed is offered, upper and
/// lower case apart. A directory is offered with a `/` behind its name.
/// Accepting one puts the label in place of what was typed of the name.
pub proof fn every_matching_entry_is_offered(
    items: Seq<CompletionItem>,
    entries: Seq<DirEntry>,
    typed: Seq<char>,
    cursor: usize,
    k: int,
)
    requires
        are_entry_items(items, entries, typed, cursor),
        0 <= k < entries.len(),
        lowercase(typed).is_prefix_of(lowercase(entries[k].name@)),
    ensures
        exists|i: int| 0 <= i < items.len() && offers(#[trigger] items[i], entries[k], typed, cursor),
{
    lemma_matching_entries(entries, typed, entries.len());
    let matching = matching_entries(entries, typed, entries.len());
    assert(matching.contains(entries[k]));
    let i = choose|i: int| 0 <= i < matching.len() && matching[i] == entries[k];
    assert(is_entry_item(items[i], matching[i], typed, cursor));
    assert(entries[k].name@.push('/') =~= entries[k].name@ + seq!['/']);
    assert(offers(items[i], entries[k], typed, cursor));
}

/// Nothing else is offered: each row is that of an entry whose name starts with
/// what was typed.
pub proof fn only_matching_entries_are_offered(
    items: Seq<CompletionItem>,
    entries: Seq<DirEntry>,
    typed: Seq<char>,
    cursor: usize,
    i: int,
)
    requires
        are_entry_items(items, entries, typed, cursor),
        0 <= i < items.len(),
    ensures
        exists|k: int|
            0 <= k < entries.len() && lowercase(typed).is_prefix_of(lowercase(entries[k].name@))
                && offers(items[i], #[trigger] entries[k], typed, cursor),
        items.len() <= entries.len(),
{
    lemma_matching_entries(entries, typed, entries.len());
    lemma_matching_count(entries, typed, entries.len());
    let matching = matching_entries(entries, typed, entries.len());
    assert(is_entry_item(items[i], matching[i], typed, cursor));
    assert(comes_from(matching[i], entries, typed, entries.len()));
    let k = choose|k: int|
        0 <= k < entries.len() && #[trigger] entries[k] == matching[i] && lowercase(
            typed,
        ).is_prefix_of(lowercase(matching[i].name@));
    assert(entries[k].name@.push('/') =~= entries[k].name@ + seq!['/']);
    assert(offers(items[i], entries[k], typed, cursor));
}

/// The row shows the entry, and accepting it completes the name.
pub open spec fn offers(item: CompletionItem, entry: DirEntry, typed: Seq<char>, cursor: usize) -> bool {
    &&& entry.is_dir ==> item.label@ == entry.name@ + seq!['/'] && item.kind == Some(
        CompletionItemKind::Folder,
    )
    &&& !entry.is_dir ==> item.label@ == entry.name@ && item.kind == Some(CompletionItemKind::File)
    &&& item.insert_text@ == item.label@
    &&& item.source == CompletionSource::Path
    &&& !item.is_snippet
    &&& item.replace_range.end == cursor
    &&& byte_len(typed) <= cursor ==> item.replace_range.start == cursor - byte_len(typed)
}

/// The entries offered are those that match, in the order of the listing.
pub proof fn entries_are_offered_in_their_order(
    entries: Seq<DirEntry>,
    typed: Seq<char>,
    n: nat,
)
    requires
        n <= entries.len(),
    ensures
        matching_entries(entries, typed, n) == entries.take(n as int).filter(
            |e: DirEntry| lowercase(typed).is_prefix_of(lowercase(e.name@)),
        ),
    decreases n,
{
    reveal(Seq::filter);
    if n > 0 {
        entries_are_offered_in_their_order(entries, typed, (n - 1) as nat);
        assert(entries.take(n as int).drop_last() =~= entries.take(n - 1));
        assert(entries.take(n as int).last() == entries[n - 1]);
    }
}

/// A `~` that no `/` follows is no home: such a path is seen from the base
/// directory.
pub proof fn a_name_with_a_tilde_is_no_home(
    parent: Seq<char>,
    base: Seq<char>,
    home: Option<Seq<char>>,
    dir: Seq<char>,
)
    requires
        dir == parent_dir(parent, base, home),
        parent.len() > 0,
        parent[0] == '~',
        parent.len() == 1 || parent[1] != '/',
    ensures
        is_below(dir, base, parent),
{
    paths_are_joined_with_one_slash(base, parent, dir);
}

} // verus!
