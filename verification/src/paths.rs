//! Paths as text, with `/` between their parts.

use crate::lists::copied_range;
use crate::text::{
    chars_of, comes_before, lex_asymmetric, lex_before, lex_negatively_transitive, lex_total,
    same, string_of, texts,
};
use vstd::prelude::*;
use vstd::string::StringExecFns;

verus! {

/// The path that `rel` names seen from `base`: itself where it is absolute,
/// else the two with a `/` between, unless there is one or `base` is empty.
pub open spec fn joined_path(base: Seq<char>, rel: Seq<char>) -> Seq<char> {
    if rel.len() > 0 && rel[0] == '/' {
        rel
    } else if base.len() == 0 || base.last() == '/' {
        base + rel
    } else {
        base.push('/') + rel
    }
}

/// The path that `rel` names seen from `base`.
pub fn join_path(base: &str, rel: &str) -> (path: String)
    ensures
        path@ == joined_path(base@, rel@),
{
    let tail = chars_of(rel);
    if tail.len() > 0 && tail[0] == '/' {
        return rel.to_owned();
    }
    let head = chars_of(base);
    let mut path = base.to_owned();
    if head.len() > 0 && head[head.len() - 1] != '/' {
        path.push('/');
    }
    path.append(rel);
    path
}

/// What stands between the slashes of `s` from `i` on, `part` being what
/// stands before it since the last one.
pub open spec fn parts_from(s: Seq<char>, i: int, part: Seq<char>) -> Seq<Seq<char>>
    decreases s.len() - i,
{
    if !(0 <= i < s.len()) {
        seq![part]
    } else if s[i] == '/' {
        seq![part] + parts_from(s, i + 1, Seq::empty())
    } else {
        parts_from(s, i + 1, part.push(s[i]))
    }
}

/// What a part of a path stands for, led by a digit that ranks it: `0` the
/// root, `1` the current directory, `2` the directory above, `3` a name.
/// Nothing where the part adds nothing to the path: between two slashes, or a
/// `.` that does not come first.
pub open spec fn component(part: Seq<char>, first: bool) -> Option<Seq<char>> {
    if part.len() == 0 {
        None
    } else if part == seq!['.'] {
        if first {
            Some(seq!['1'])
        } else {
            None
        }
    } else if part == seq!['.', '.'] {
        Some(seq!['2'])
    } else {
        Some(seq!['3'] + part)
    }
}

/// The components of the first `n` parts.
pub open spec fn components_of(parts: Seq<Seq<char>>, n: nat) -> Seq<Seq<char>>
    decreases n,
{
    if n == 0 {
        Seq::empty()
    } else {
        let before = components_of(parts, (n - 1) as nat);
        match component(parts[n - 1], n == 1) {
            Some(c) => before.push(c),
            None => before,
        }
    }
}

/// The components of a path. Two paths with the same ones name the same file.
pub open spec fn components(path: Seq<char>) -> Seq<Seq<char>> {
    let parts = parts_from(path, 0, Seq::empty());
    let root = if path.len() > 0 && path[0] == '/' {
        seq![seq!['0']]
    } else {
        Seq::empty()
    };
    root + components_of(parts, parts.len())
}

/// One list comes before another when it is smaller at the first place where
/// they differ, or ends there.
pub open spec fn list_before(a: Seq<Seq<char>>, b: Seq<Seq<char>>, i: int) -> bool
    decreases b.len() - i,
{
    if !(0 <= i < b.len()) {
        false
    } else if i >= a.len() {
        true
    } else if lex_before(a[i], b[i]) {
        true
    } else if lex_before(b[i], a[i]) {
        false
    } else {
        list_before(a, b, i + 1)
    }
}

/// Paths are ordered by their components.
pub open spec fn path_before(a: Seq<char>, b: Seq<char>) -> bool {
    list_before(components(a), components(b), 0)
}

proof fn lemma_list_asymmetric(a: Seq<Seq<char>>, b: Seq<Seq<char>>, i: int)
    requires
        list_before(a, b, i),
    ensures
        !list_before(b, a, i),
    decreases b.len() - i,
{
    if 0 <= i < a.len() {
        if lex_before(a[i], b[i]) {
            lex_asymmetric(a[i], b[i]);
        } else {
            lemma_list_asymmetric(a, b, i + 1);
        }
    }
}

proof fn lemma_list_negatively_transitive(
    a: Seq<Seq<char>>,
    b: Seq<Seq<char>>,
    c: Seq<Seq<char>>,
    i: int,
)
    requires
        0 <= i,
        !list_before(a, b, i),
        !list_before(b, c, i),
    ensures
        !list_before(a, c, i),
    decreases a.len() - i,
{
    if i < c.len() && i < b.len() && i < a.len() {
        assert(!lex_before(a[i], b[i]));
        assert(!lex_before(b[i], c[i]));
        lex_negatively_transitive(a[i], b[i], c[i]);
        if !lex_before(c[i], a[i]) {
            if lex_before(b[i], a[i]) {
                if !lex_before(c[i], b[i]) {
                    lex_total(b[i], c[i]);
                } else {
                    lex_negatively_transitive(c[i], a[i], b[i]);
                }
            } else {
                lex_total(a[i], b[i]);
            }
            lemma_list_negatively_transitive(a, b, c, i + 1);
        }
    }
}

/// Of two paths at most one comes before the other.
pub proof fn path_order_is_asymmetric(a: Seq<char>, b: Seq<char>)
    requires
        path_before(a, b),
    ensures
        !path_before(b, a),
{
    lemma_list_asymmetric(components(a), components(b), 0);
}

/// A path that does not come before a second, which does not come before a
/// third, does not come before the third.
pub proof fn path_order_is_negatively_transitive(a: Seq<char>, b: Seq<char>, c: Seq<char>)
    requires
        !path_before(a, b),
        !path_before(b, c),
    ensures
        !path_before(a, c),
{
    lemma_list_negatively_transitive(components(a), components(b), components(c), 0);
}

fn split_parts(path: &str) -> (parts: Vec<String>)
    ensures
        texts(parts@) == parts_from(path@, 0, Seq::empty()),
{
    let s = chars_of(path);
    let mut parts: Vec<String> = Vec::new();
    let mut part = String::new();
    let mut i: usize = 0;
    assert(part@ =~= Seq::<char>::empty());
    assert(texts(parts@) + parts_from(s@, 0, part@) =~= parts_from(path@, 0, Seq::empty()));
    while i < s.len()
        invariant
            i <= s.len(),
            s@ == path@,
            texts(parts@) + parts_from(s@, i as int, part@) == parts_from(path@, 0, Seq::empty()),
        decreases s.len() - i,
    {
        let ghost was = texts(parts@);
        let ghost text = part@;
        if s[i] == '/' {
            parts.push(part);
            part = String::new();
            proof {
                assert(part@ =~= Seq::<char>::empty());
                assert(texts(parts@) =~= was.push(text));
                assert(was + (seq![text] + parts_from(s@, i + 1, Seq::empty())) =~= was.push(text)
                    + parts_from(s@, i + 1, Seq::empty()));
            }
        } else {
            part.push(s[i]);
        }
        i = i + 1;
    }
    let ghost was = texts(parts@);
    let ghost text = part@;
    parts.push(part);
    assert(texts(parts@) =~= was + seq![text]);
    parts
}

fn component_of(part: &String, first: bool) -> (c: Option<String>)
    ensures
        match c {
            Some(c) => component(part@, first) == Some(c@),
            None => component(part@, first) is None,
        },
{
    let s = chars_of(part.as_str());
    if s.len() == 0 {
        return None;
    }
    let is_dot: bool = s.len() == 1 && s[0] == '.';
    assert(is_dot <==> part@ =~= seq!['.']);
    if is_dot {
        if !first {
            return None;
        }
        let mut c = String::new();
        c.push('1');
        assert(c@ =~= seq!['1']);
        return Some(c);
    }
    let is_up: bool = s.len() == 2 && s[0] == '.' && s[1] == '.';
    assert(is_up <==> part@ =~= seq!['.', '.']);
    let mut c = String::new();
    if is_up {
        c.push('2');
        assert(c@ =~= seq!['2']);
        return Some(c);
    }
    c.push('3');
    c.append(part.as_str());
    assert(c@ =~= seq!['3'] + part@);
    Some(c)
}

/// The components of a path.
pub fn path_components(path: &str) -> (list: Vec<String>)
    ensures
        texts(list@) == components(path@),
{
    let s = chars_of(path);
    let parts = split_parts(path);
    let ghost all = parts_from(path@, 0, Seq::empty());
    let mut list: Vec<String> = Vec::new();
    if s.len() > 0 && s[0] == '/' {
        let mut root = String::new();
        root.push('0');
        assert(root@ =~= seq!['0']);
        list.push(root);
    }
    let ghost root = texts(list@);
    assert(root =~= (if path@.len() > 0 && path@[0] == '/' {
        seq![seq!['0']]
    } else {
        Seq::<Seq<char>>::empty()
    }));
    let mut n: usize = 0;
    assert(texts(list@) =~= root + components_of(all, 0));
    while n < parts.len()
        invariant
            n <= parts.len(),
            all == texts(parts@),
            texts(list@) == root + components_of(all, n as nat),
        decreases parts.len() - n,
    {
        let ghost was = texts(list@);
        assert(all[n as int] == parts@[n as int]@);
        match component_of(&parts[n], n == 0) {
            Some(c) => {
                list.push(c);
                assert(texts(list@) =~= was.push(c@));
                assert(was.push(c@) =~= root + components_of(all, n as nat).push(c@));
            },
            None => {},
        }
        n = n + 1;
    }
    list
}

/// Whether path `a` comes before path `b`.
pub fn path_comes_before(a: &str, b: &str) -> (r: bool)
    ensures
        r == path_before(a@, b@),
{
    let x = path_components(a);
    let y = path_components(b);
    let mut i: usize = 0;
    while i < y.len()
        invariant
            i <= y.len(),
            texts(x@) == components(a@),
            texts(y@) == components(b@),
            path_before(a@, b@) == list_before(texts(x@), texts(y@), i as int),
        decreases y.len() - i,
    {
        assert(texts(y@)[i as int] == y@[i as int]@);
        if i >= x.len() {
            return true;
        }
        assert(texts(x@)[i as int] == x@[i as int]@);
        if comes_before(x[i].as_str(), y[i].as_str()) {
            return true;
        }
        if comes_before(y[i].as_str(), x[i].as_str()) {
            return false;
        }
        i = i + 1;
    }
    false
}

/// Whether the first components of `path` are those of `base`.
pub fn path_starts_with(path: &str, base: &str) -> (r: bool)
    ensures
        r == components(base@).is_prefix_of(components(path@)),
{
    let x = path_components(path);
    let y = path_components(base);
    if y.len() > x.len() {
        assert(texts(y@).len() > texts(x@).len());
        return false;
    }
    let mut i: usize = 0;
    while i < y.len()
        invariant
            i <= y.len() <= x.len(),
            texts(x@) == components(path@),
            texts(y@) == components(base@),
            forall|k: int| 0 <= k < i ==> (#[trigger] x@[k])@ == y@[k]@,
        decreases y.len() - i,
    {
        if !same(x[i].as_str(), y[i].as_str()) {
            assert(texts(x@)[i as int] != texts(y@)[i as int]);
            assert(components(path@).take(y@.len() as int)[i as int] != components(base@)[i as int]);
            return false;
        }
        i = i + 1;
    }
    assert(components(base@) =~= components(path@).take(y@.len() as int)) by {
        assert(texts(y@).len() == y@.len());
        assert forall|k: int| 0 <= k < y@.len() implies texts(y@)[k] == texts(x@)[k] by {
            assert(x@[k]@ == y@[k]@);
        }
    }
    true
}

/// Whether the two name the same file.
pub fn same_path(a: &str, b: &str) -> (r: bool)
    ensures
        r == (components(a@) == components(b@)),
{
    let forth: bool = path_starts_with(a, b);
    let back: bool = path_starts_with(b, a);
    assert(forth && back <==> components(a@) == components(b@)) by {
        if forth && back {
            assert(components(a@) =~= components(b@).take(components(a@).len() as int));
            assert(components(a@) =~= components(b@));
        }
        if components(a@) == components(b@) {
            assert(components(a@) =~= components(a@).take(components(a@).len() as int));
        }
    }
    forth && back
}

/// The last component is the name `name`.
pub open spec fn is_named(path: Seq<char>, name: Seq<char>) -> bool {
    components(path).len() > 0 && components(path).last() == seq!['3'] + name
}

/// Whether the last component of `path` is the name `name`.
pub fn has_name(path: &str, name: &str) -> (r: bool)
    ensures
        r == is_named(path@, name@),
{
    let list = path_components(path);
    if list.len() == 0 {
        assert(texts(list@).len() == 0);
        return false;
    }
    let mut wanted = String::new();
    wanted.push('3');
    wanted.append(name);
    assert(wanted@ =~= seq!['3'] + name@);
    assert(texts(list@).last() == list@[list@.len() - 1]@);
    same(list[list.len() - 1].as_str(), wanted.as_str())
}

/// Where the first `k` characters of a path end once the slashes behind them
/// are dropped, and the parts that say nothing but `.`. The root stays.
pub open spec fn bare_end(s: Seq<char>, k: int) -> int
    decreases k,
{
    if k > 1 && (s[k - 1] == '/' || (s[k - 1] == '.' && s[k - 2] == '/')) {
        bare_end(s, k - 1)
    } else {
        k
    }
}

/// Where the part that ends before `k` starts.
pub open spec fn part_start(s: Seq<char>, k: int) -> int
    decreases k,
{
    if k > 0 && s[k - 1] != '/' {
        part_start(s, k - 1)
    } else {
        k
    }
}

/// The path without its final component. The root has no parent, nor does an
/// empty path.
pub open spec fn parent(path: Seq<char>) -> Option<Seq<char>> {
    let end = bare_end(path, path.len() as int);
    if end <= 0 || (end == 1 && path[0] == '/') {
        None
    } else {
        Some(path.take(bare_end(path, part_start(path, end))))
    }
}

fn find_bare_end(s: &Vec<char>, from: usize) -> (k: usize)
    requires
        from <= s@.len(),
    ensures
        k == bare_end(s@, from as int),
        k <= from,
{
    let mut k: usize = from;
    while k > 1 && (s[k - 1] == '/' || (s[k - 1] == '.' && s[k - 2] == '/'))
        invariant
            k <= from <= s@.len(),
            bare_end(s@, from as int) == bare_end(s@, k as int),
        decreases k,
    {
        k = k - 1;
    }
    k
}

/// The path without its final component.
pub fn parent_path(path: &str) -> (p: Option<String>)
    ensures
        match p {
            Some(p) => parent(path@) == Some(p@),
            None => parent(path@) is None,
        },
{
    let s = chars_of(path);
    let end: usize = find_bare_end(&s, s.len());
    if end == 0 || (end == 1 && s[0] == '/') {
        return None;
    }
    let mut start: usize = end;
    while start > 0 && s[start - 1] != '/'
        invariant
            start <= end <= s@.len(),
            part_start(s@, end as int) == part_start(s@, start as int),
        decreases start,
    {
        start = start - 1;
    }
    let cut: usize = find_bare_end(&s, start);
    let p = string_of(copied_range(&s, 0, cut).as_slice());
    assert(p@ =~= path@.take(cut as int));
    Some(p)
}

/// The name at the end of a path, where it ends in one.
pub open spec fn file_name(path: Seq<char>) -> Option<Seq<char>> {
    let list = components(path);
    if list.len() > 0 && list.last().len() > 0 && list.last()[0] == '3' {
        Some(list.last().skip(1))
    } else {
        None
    }
}

/// The name at the end of a path, where it ends in one.
pub fn name_of(path: &str) -> (name: Option<String>)
    ensures
        match name {
            Some(n) => file_name(path@) == Some(n@),
            None => file_name(path@) is None,
        },
{
    let list = path_components(path);
    assert(texts(list@).len() == list@.len());
    if list.len() == 0 {
        return None;
    }
    assert(texts(list@).last() == list@[list@.len() - 1]@);
    let last = chars_of(list[list.len() - 1].as_str());
    if last.len() == 0 || last[0] != '3' {
        return None;
    }
    let name = string_of(copied_range(&last, 1, last.len()).as_slice());
    assert(name@ =~= texts(list@).last().skip(1));
    Some(name)
}

// ---------------------------------------------------------------------------
// Laws
// ---------------------------------------------------------------------------

/// `path` is what `rel` names seen from `base`: `rel` itself where it starts
/// at the root, else the one behind the other with a `/` between, which is
/// `base`'s own where it ends in one.
pub open spec fn is_below(path: Seq<char>, base: Seq<char>, rel: Seq<char>) -> bool {
    &&& rel.len() > 0 && rel[0] == '/' ==> path == rel
    &&& rel.len() == 0 || rel[0] != '/' ==> path == base + rel || path == base + seq!['/'] + rel
    &&& rel.len() == 0 || rel[0] != '/' ==> base.len() == 0 || path[path.len() - rel.len() - 1] == '/'
    &&& (rel.len() == 0 || rel[0] != '/') && (base.len() == 0 || base.last() == '/') ==> path == base
        + rel
}

/// Paths are joined with one `/` between.
pub proof fn paths_are_joined_with_one_slash(base: Seq<char>, rel: Seq<char>, path: Seq<char>)
    requires
        path == joined_path(base, rel),
    ensures
        is_below(path, base, rel),
{
    assert(base.push('/') =~= base + seq!['/']);
}

proof fn lemma_parts_shift(p: Seq<char>, b: Seq<char>, k: int, part: Seq<char>)
    requires
        0 <= k <= b.len(),
    ensures
        parts_from(p + b, p.len() + k, part) == parts_from(b, k, part),
    decreases b.len() - k,
{
    if k < b.len() {
        assert((p + b)[p.len() + k] == b[k]);
        if b[k] == '/' {
            lemma_parts_shift(p, b, k + 1, Seq::empty());
        } else {
            lemma_parts_shift(p, b, k + 1, part.push(b[k]));
        }
    }
}

proof fn lemma_parts_cut(a: Seq<char>, b: Seq<char>, i: int, part: Seq<char>)
    requires
        0 <= i <= a.len(),
    ensures
        parts_from(a + seq!['/'] + b, i, part) == parts_from(a, i, part) + parts_from(
            b,
            0,
            Seq::empty(),
        ),
    decreases a.len() - i,
{
    let s = a + seq!['/'] + b;
    if i < a.len() {
        assert(s[i] == a[i]);
        if a[i] == '/' {
            lemma_parts_cut(a, b, i + 1, Seq::empty());
            assert(parts_from(s, i, part) =~= parts_from(a, i, part) + parts_from(
                b,
                0,
                Seq::empty(),
            ));
        } else {
            lemma_parts_cut(a, b, i + 1, part.push(a[i]));
        }
    } else {
        let p = a + seq!['/'];
        assert(s[i] == '/');
        assert(s =~= p + b);
        lemma_parts_shift(p, b, 0, Seq::empty());
        assert(parts_from(s, i, part) == seq![part] + parts_from(b, 0, Seq::empty()));
    }
}

/// A path falls into the parts between its slashes: those before a slash and
/// those behind it; one without slashes is a part itself.
pub proof fn a_path_falls_into_parts(a: Seq<char>, b: Seq<char>)
    ensures
        parts_from(a + seq!['/'] + b, 0, Seq::empty()) == parts_from(a, 0, Seq::empty())
            + parts_from(b, 0, Seq::empty()),
        !a.contains('/') ==> parts_from(a, 0, Seq::empty()) == seq![a],
{
    lemma_parts_cut(a, b, 0, Seq::empty());
    if !a.contains('/') {
        lemma_one_part(a, 0, Seq::empty());
        assert(Seq::<char>::empty() + a.skip(0) =~= a);
    }
}

proof fn lemma_one_part(a: Seq<char>, i: int, part: Seq<char>)
    requires
        0 <= i <= a.len(),
        !a.contains('/'),
    ensures
        parts_from(a, i, part) == seq![part + a.skip(i)],
    decreases a.len() - i,
{
    if i < a.len() {
        assert(a[i] != '/') by {
            assert(a.contains(a[i]));
        }
        lemma_one_part(a, i + 1, part.push(a[i]));
        assert(part.push(a[i]) + a.skip(i + 1) =~= part + a.skip(i));
    } else {
        assert(part + a.skip(i) =~= part);
    }
}

/// What the parts of a path stand for: nothing where they are empty, or `.`
/// behind the first; `..` the directory above; any other its own name.
pub proof fn parts_are_names(part: Seq<char>, other: Seq<char>, first: bool)
    ensures
        part.len() == 0 ==> component(part, first) is None,
        part == seq!['.'] ==> (component(part, first) is Some <==> first),
        part.len() > 0 && part != seq!['.'] ==> component(part, first) is Some && component(
            part,
            first,
        ) == component(part, !first),
        part.len() > 0 && other.len() > 0 && part != seq!['.'] && component(part, first)
            == component(other, first) ==> part == other,
{
    if part.len() > 0 && other.len() > 0 && part != seq!['.'] && component(part, first)
        == component(other, first) {
        if part != seq!['.', '.'] {
            let c = seq!['3'] + part;
            assert(c[0] == '3');
            if other == seq!['.'] {
                assert(seq!['1'][0] == '1');
            } else if other == seq!['.', '.'] {
                assert(seq!['2'][0] == '2');
            } else {
                assert(c.skip(1) =~= part);
                assert((seq!['3'] + other).skip(1) =~= other);
            }
        } else if other != seq!['.', '.'] {
            assert(seq!['2'][0] == '2');
            assert((seq!['3'] + other)[0] == '3');
            assert(seq!['1'][0] == '1');
        }
    }
}

/// The directory of a file is the path without the file's name and the slash
/// before it.
pub proof fn the_parent_is_what_the_name_stands_in(dir: Seq<char>, name: Seq<char>)
    requires
        dir.len() > 0,
        dir.last() != '/',
        dir.len() > 1 ==> !(dir.last() == '.' && dir[dir.len() - 2] == '/'),
        name.len() > 0,
        !name.contains('/'),
        name != seq!['.'],
    ensures
        parent(dir + seq!['/'] + name) == Some(dir),
        parent(seq!['/']) is None,
        parent(Seq::empty()) is None,
{
    let s = dir + seq!['/'] + name;
    let n = s.len() as int;
    assert(name.last() != '/') by {
        assert(name.contains(name[name.len() - 1]));
    }
    assert(s[n - 1] == name.last());
    if name.len() > 1 {
        assert(s[n - 2] == name[name.len() - 2]);
        assert(name.contains(name[name.len() - 2]));
    } else if name.last() == '.' {
        assert(name =~= seq!['.']);
    }
    assert(bare_end(s, n) == n);
    lemma_part_start(dir, name, name.len());
    let at = dir.len() + 1;
    assert(part_start(s, n) == at);
    assert(s[at - 1] == '/');
    assert(s[dir.len() - 1] == dir.last());
    if dir.len() > 1 {
        assert(s[dir.len() - 2] == dir[dir.len() - 2]);
    }
    assert(bare_end(s, dir.len() as int) == dir.len());
    assert(s.take(dir.len() as int) =~= dir);
    assert(bare_end(seq!['/'], 1) == 1);
}

proof fn lemma_part_start(dir: Seq<char>, name: Seq<char>, k: nat)
    requires
        k <= name.len(),
        !name.contains('/'),
    ensures
        part_start(dir + seq!['/'] + name, (dir.len() + 1 + k) as int) == dir.len() + 1,
    decreases k,
{
    let s = dir + seq!['/'] + name;
    if k > 0 {
        assert(s[dir.len() as int + k] == name[k - 1]);
        assert(name.contains(name[k - 1]));
        lemma_part_start(dir, name, (k - 1) as nat);
    } else {
        assert(s[dir.len() as int] == '/');
    }
}

proof fn lemma_components_cut(a: Seq<Seq<char>>, b: Seq<Seq<char>>, k: nat)
    requires
        a.len() > 0,
        k <= b.len(),
        b.len() > 0 ==> b[0] != seq!['.'],
    ensures
        components_of(a + b, a.len() + k) == components_of(a, a.len()) + components_of(b, k),
    decreases k,
{
    if k == 0 {
        lemma_components_agree(a, a + b, a.len());
        assert(components_of(a, a.len()) + components_of(b, 0) =~= components_of(a, a.len()));
    } else {
        lemma_components_cut(a, b, (k - 1) as nat);
        assert((a + b)[a.len() + k - 1] == b[k - 1]);
        assert(component(b[k - 1], false) == component(b[k - 1], k == 1));
        assert(components_of(a + b, a.len() + k) =~= components_of(a, a.len()) + components_of(
            b,
            k,
        ));
    }
}

proof fn lemma_components_agree(a: Seq<Seq<char>>, b: Seq<Seq<char>>, n: nat)
    requires
        n <= a.len(),
        n <= b.len(),
        forall|i: int| 0 <= i < n ==> a[i] == #[trigger] b[i],
    ensures
        components_of(a, n) == components_of(b, n),
    decreases n,
{
    if n > 0 {
        lemma_components_agree(a, b, (n - 1) as nat);
        assert(a[n - 1] == b[n - 1]);
    }
}

/// What lies in a directory has the directory's components and then its own, so
/// it lies under it.
pub proof fn what_lies_in_a_directory_is_under_it(dir: Seq<char>, rel: Seq<char>)
    requires
        dir.len() > 0,
        rel.len() == 0 || rel[0] != '/',
        parts_from(rel, 0, Seq::empty())[0] != seq!['.'],
    ensures
        components(dir + seq!['/'] + rel) == components(dir) + components(rel),
        components(dir).is_prefix_of(components(dir + seq!['/'] + rel)),
{
    let s = dir + seq!['/'] + rel;
    let a = parts_from(dir, 0, Seq::empty());
    let b = parts_from(rel, 0, Seq::empty());
    a_path_falls_into_parts(dir, rel);
    lemma_some_part(dir, 0, Seq::empty());
    lemma_some_part(rel, 0, Seq::empty());
    lemma_components_cut(a, b, b.len());
    assert(s[0] == dir[0]);
    assert(components(s) =~= components(dir) + components(rel));
    assert(components(s).subrange(0, components(dir).len() as int) =~= components(dir));
}

proof fn lemma_some_part(s: Seq<char>, i: int, part: Seq<char>)
    requires
        0 <= i,
    ensures
        parts_from(s, i, part).len() > 0,
    decreases s.len() - i,
{
    if i < s.len() && s[i] != '/' {
        lemma_some_part(s, i + 1, part.push(s[i]));
    }
}

/// A file's name is what stands behind the last slash of its path.
pub proof fn a_name_stands_behind_the_last_slash(dir: Seq<char>, name: Seq<char>)
    requires
        dir.len() > 0,
        name.len() > 0,
        !name.contains('/'),
        name != seq!['.'],
        name != seq!['.', '.'],
    ensures
        file_name(dir + seq!['/'] + name) == Some(name),
        is_named(dir + seq!['/'] + name, name),
        file_name(name) == Some(name),
        is_named(name, name),
{
    let none = Seq::<char>::empty();
    a_path_falls_into_parts(name, none);
    let parts = parts_from(name, 0, none);
    assert(parts =~= seq![name]);
    reveal_with_fuel(components_of, 2);
    assert(name[0] != '/') by {
        assert(name.contains(name[0]));
    }
    assert(components(name) =~= seq![seq!['3'] + name]);
    what_lies_in_a_directory_is_under_it(dir, name);
    let all = components(dir + seq!['/'] + name);
    assert(all.last() == seq!['3'] + name);
    assert((seq!['3'] + name).skip(1) =~= name);
    assert((seq!['3'] + name)[0] == '3');
}

/// Paths are ordered by the first component in which they differ; a directory
/// comes before what lies in it.
pub proof fn the_first_different_component_decides(
    a: Seq<Seq<char>>,
    b: Seq<Seq<char>>,
    i: int,
    k: int,
)
    requires
        0 <= i <= k <= a.len(),
        k <= b.len(),
        forall|j: int| i <= j < k ==> #[trigger] a[j] == b[j],
    ensures
        k < a.len() && k < b.len() && lex_before(a[k], b[k]) ==> list_before(a, b, i)
            && !list_before(b, a, i),
        k == a.len() && k < b.len() ==> list_before(a, b, i) && !list_before(b, a, i),
        k == a.len() && k == b.len() ==> !list_before(a, b, i),
    decreases k - i,
{
    if i < k {
        assert(a[i] == b[i]);
        if lex_before(a[i], a[i]) {
            lex_asymmetric(a[i], a[i]);
        }
        the_first_different_component_decides(a, b, i + 1, k);
    } else if k < a.len() && k < b.len() && lex_before(a[k], b[k]) {
        lex_asymmetric(a[k], b[k]);
    }
}

} // verus!
