//! A command palette that filters its list of commands as its input changes.

use crate::lists::copied_strings;
use crate::text::{chars_of, lowercase};
use vstd::prelude::*;

verus! {

/// What the palette shows of a command.
#[derive(Debug, PartialEq, Eq)]
pub struct CommandInfo {
    pub name: String,
    pub description: String,
    pub aliases: Vec<String>,
    pub hidden: bool,
}

impl Clone for CommandInfo {
    fn clone(&self) -> (c: Self)
        ensures
            is_copy(c, *self),
    {
        CommandInfo {
            name: self.name.clone(),
            description: self.description.clone(),
            aliases: copied_strings(&self.aliases),
            hidden: self.hidden,
        }
    }
}

/// The two say the same of a command.
pub open spec fn is_copy(a: CommandInfo, b: CommandInfo) -> bool {
    &&& a.name == b.name
    &&& a.description == b.description
    &&& a.aliases@ == b.aliases@
    &&& a.hidden == b.hidden
}

pub open spec fn are_copies(a: Seq<CommandInfo>, b: Seq<CommandInfo>) -> bool {
    &&& a.len() == b.len()
    &&& forall|i: int| 0 <= i < a.len() ==> is_copy(#[trigger] a[i], b[i])
}

/// The place of `c` in `hay` from `i` on, or its end.
pub open spec fn find_from(hay: Seq<char>, c: char, i: int) -> int
    decreases hay.len() - i,
{
    if 0 <= i < hay.len() && hay[i] != c {
        find_from(hay, c, i + 1)
    } else {
        i
    }
}

/// The characters of `needle` from `k` on appear in `hay` from `i` on, in
/// order.
pub open spec fn appears_in(hay: Seq<char>, i: int, needle: Seq<char>, k: int) -> bool
    decreases needle.len() - k,
{
    if 0 <= k < needle.len() {
        let at = find_from(hay, needle[k], i);
        at < hay.len() && appears_in(hay, at + 1, needle, k + 1)
    } else {
        true
    }
}

/// `places` are where the characters of `needle` stand in `hay`, in order.
pub open spec fn is_embedding(places: Seq<int>, hay: Seq<char>, needle: Seq<char>) -> bool {
    &&& places.len() == needle.len()
    &&& forall|k: int|
        0 <= k < places.len() ==> 0 <= #[trigger] places[k] < hay.len() && hay[places[k]]
            == needle[k]
    &&& forall|j: int, k: int|
        0 <= j < k < places.len() ==> #[trigger] places[j] < #[trigger] places[k]
}

/// Simple fuzzy matching: check if all characters of needle appear in haystack
/// in order.
pub fn fuzzy_match(haystack: &str, needle: &str) -> (r: bool)
    ensures
        r == appears_in(haystack@, 0, needle@, 0),
{
    let hay = chars_of(haystack);
    let wanted = chars_of(needle);
    let mut i: usize = 0;
    let mut k: usize = 0;
    while k < wanted.len()
        invariant
            hay@ == haystack@,
            wanted@ == needle@,
            i <= hay.len(),
            k <= wanted.len(),
            appears_in(haystack@, 0, needle@, 0) == appears_in(
                hay@,
                i as int,
                wanted@,
                k as int,
            ),
        decreases wanted.len() - k,
    {
        let ghost from = i as int;
        while i < hay.len() && hay[i] != wanted[k]
            invariant
                k < wanted@.len(),
                i <= hay.len(),
                find_from(hay@, wanted@[k as int], from) == find_from(
                    hay@,
                    wanted@[k as int],
                    i as int,
                ),
            decreases hay.len() - i,
        {
            i = i + 1;
        }
        if i >= hay.len() {
            return false;
        }
        i = i + 1;
        k = k + 1;
    }
    true
}

proof fn lemma_find(hay: Seq<char>, c: char, i: int)
    requires
        0 <= i <= hay.len(),
    ensures
        i <= find_from(hay, c, i) <= hay.len(),
        find_from(hay, c, i) < hay.len() ==> hay[find_from(hay, c, i)] == c,
        forall|j: int| i <= j < find_from(hay, c, i) ==> #[trigger] hay[j] != c,
    decreases hay.len() - i,
{
    if i < hay.len() && hay[i] != c {
        lemma_find(hay, c, i + 1);
    }
}

proof fn lemma_embedding_suffices(
    hay: Seq<char>,
    needle: Seq<char>,
    places: Seq<int>,
    i: int,
    k: int,
)
    requires
        is_embedding(places, hay, needle),
        0 <= k <= needle.len(),
        0 <= i <= hay.len(),
        k < needle.len() ==> i <= places[k],
    ensures
        appears_in(hay, i, needle, k),
    decreases needle.len() - k,
{
    if k < needle.len() {
        lemma_find(hay, needle[k], i);
        let at = find_from(hay, needle[k], i);
        assert(hay[places[k]] == needle[k]);
        assert(at <= places[k]);
        if k + 1 < needle.len() {
            assert(places[k] < places[k + 1]);
        }
        lemma_embedding_suffices(hay, needle, places, at + 1, k + 1);
    }
}

proof fn lemma_embedding_exists(hay: Seq<char>, needle: Seq<char>, i: int, k: int) -> (places: Seq<
    int,
>)
    requires
        0 <= k <= needle.len(),
        0 <= i <= hay.len(),
        appears_in(hay, i, needle, k),
    ensures
        is_embedding(places, hay, needle.skip(k)),
        forall|j: int| 0 <= j < places.len() ==> i <= #[trigger] places[j],
    decreases needle.len() - k,
{
    if k < needle.len() {
        lemma_find(hay, needle[k], i);
        let at = find_from(hay, needle[k], i);
        let rest = lemma_embedding_exists(hay, needle, at + 1, k + 1);
        let places = seq![at] + rest;
        let tail = needle.skip(k);
        assert forall|j: int| 0 <= j < places.len() implies 0 <= #[trigger] places[j] < hay.len()
            && hay[places[j]] == tail[j] by {
            if j > 0 {
                assert(places[j] == rest[j - 1]);
                assert(tail[j] == needle.skip(k + 1)[j - 1]);
            }
        }
        assert forall|a: int, b: int| 0 <= a < b < places.len() implies #[trigger] places[a]
            < #[trigger] places[b] by {
            assert(places[b] == rest[b - 1]);
            if a > 0 {
                assert(places[a] == rest[a - 1]);
            }
        }
        places
    } else {
        assert(needle.skip(k).len() == 0);
        Seq::empty()
    }
}

/// The greedy search finds the needle exactly when its characters stand
/// somewhere in the haystack in order.
pub proof fn greedy_search_misses_nothing(hay: Seq<char>, needle: Seq<char>)
    ensures
        appears_in(hay, 0, needle, 0) <==> exists|places: Seq<int>| #[trigger]
            is_embedding(places, hay, needle),
{
    if appears_in(hay, 0, needle, 0) {
        let places = lemma_embedding_exists(hay, needle, 0, 0);
        assert(needle.skip(0) =~= needle);
        assert(is_embedding(places, hay, needle));
    }
    if exists|places: Seq<int>| #[trigger] is_embedding(places, hay, needle) {
        let places = choose|places: Seq<int>| #[trigger] is_embedding(places, hay, needle);
        if needle.len() > 0 {
            assert(0 <= places[0]);
        }
        lemma_embedding_suffices(hay, needle, places, 0, 0);
    }
}

/// The command's name or one of its aliases holds the query's characters in
/// order, upper and lower case apart.
pub open spec fn matches_query(command: CommandInfo, query: Seq<char>) -> bool {
    ||| appears_in(lowercase(command.name@), 0, lowercase(query), 0)
    ||| exists|a: int|
        0 <= a < command.aliases@.len() && appears_in(
            lowercase((#[trigger] command.aliases@[a])@),
            0,
            lowercase(query),
            0,
        )
}

/// The commands among the first `n` that match the query.
pub open spec fn matching(commands: Seq<CommandInfo>, query: Seq<char>, n: nat) -> Seq<CommandInfo>
    decreases n,
{
    if n == 0 {
        Seq::empty()
    } else {
        let before = matching(commands, query, (n - 1) as nat);
        if matches_query(commands[n - 1], query) {
            before.push(commands[n - 1])
        } else {
            before
        }
    }
}

/// The commands that a query leaves; an empty one leaves them all.
pub open spec fn shown(commands: Seq<CommandInfo>, query: Seq<char>) -> Seq<CommandInfo> {
    if query.len() == 0 {
        commands
    } else {
        matching(commands, query, commands.len())
    }
}

/// Stepping forward and back again, or back and forward, returns to the
/// selected command.
pub proof fn steps_undo_each_other(len: nat, selected: nat)
    requires
        selected < len,
    ensures
        step_back(len, step_on(len, selected)) == selected,
        step_on(len, step_back(len, selected)) == selected,
{
}

/// The row after `selected` in a list of `len`, the first after the last.
pub open spec fn step_on(len: nat, selected: nat) -> nat {
    if selected + 1 == len {
        0
    } else {
        selected + 1
    }
}

/// The row before `selected` in a list of `len`, the last before the first.
pub open spec fn step_back(len: nat, selected: nat) -> nat {
    if selected == 0 {
        (len - 1) as nat
    } else {
        (selected - 1) as nat
    }
}

/// A palette for fuzzy command search.
///
/// `K` is the context that keys go to, kept to be restored when the palette is
/// dismissed.
pub struct CommandPaletteV2<K> {
    /// All available commands.
    pub all_commands: Vec<CommandInfo>,
    /// Filtered commands matching current query.
    pub filtered_commands: Vec<CommandInfo>,
    /// Selected index in filtered list.
    pub selected_index: usize,
    /// Previous key context to restore on dismiss.
    pub previous_key_context: Option<K>,
}

fn matches(command: &CommandInfo, query_lower: &str) -> (r: bool)
    ensures
        forall|query: Seq<char>|
            query_lower@ == lowercase(query) ==> r == #[trigger] matches_query(*command, query),
{
    let name_lower = command.name.as_str().to_lowercase();
    if fuzzy_match(name_lower.as_str(), query_lower) {
        return true;
    }
    let mut a: usize = 0;
    while a < command.aliases.len()
        invariant
            a <= command.aliases@.len(),
            !appears_in(lowercase(command.name@), 0, query_lower@, 0),
            forall|k: int|
                0 <= k < a ==> !appears_in(
                    lowercase((#[trigger] command.aliases@[k])@),
                    0,
                    query_lower@,
                    0,
                ),
        decreases command.aliases@.len() - a,
    {
        let alias_lower = command.aliases[a].as_str().to_lowercase();
        if fuzzy_match(alias_lower.as_str(), query_lower) {
            assert(appears_in(lowercase(command.aliases@[a as int]@), 0, query_lower@, 0));
            return true;
        }
        a = a + 1;
    }
    false
}

fn copied_commands(commands: &Vec<CommandInfo>) -> (copy: Vec<CommandInfo>)
    ensures
        are_copies(copy@, commands@),
{
    let mut copy: Vec<CommandInfo> = Vec::new();
    for i in 0..commands.len()
        invariant
            copy@.len() == i,
            forall|k: int| 0 <= k < i ==> is_copy(#[trigger] copy@[k], commands@[k]),
    {
        copy.push(commands[i].clone());
    }
    copy
}

impl<K: Copy> CommandPaletteV2<K> {
    /// The selection is one of the rows, where there are any.
    pub open spec fn wf(&self) -> bool {
        self.filtered_commands@.len() > 0 ==> self.selected_index < self.filtered_commands@.len()
    }

    /// Create a palette with the given commands.
    ///
    /// Initializes with all commands visible (no filter) and first command
    /// selected.
    pub fn new(commands: Vec<CommandInfo>) -> (palette: Self)
        ensures
            palette.wf(),
            are_copies(palette.all_commands@, commands@),
            palette.filtered_commands == commands,
            palette.selected_index == 0,
            palette.previous_key_context is None,
    {
        CommandPaletteV2 {
            all_commands: copied_commands(&commands),
            filtered_commands: commands,
            selected_index: 0,
            previous_key_context: None,
        }
    }

    /// Set the previous key context to restore when dismissed.
    pub fn set_previous_key_context(&mut self, context: K)
        ensures
            *final(self) == (CommandPaletteV2 {
                previous_key_context: Some(context),
                ..*old(self)
            }),
    {
        self.previous_key_context = Some(context);
    }

    /// Get the previous key context.
    pub fn previous_key_context(&self) -> (context: Option<K>)
        ensures
            context == self.previous_key_context,
    {
        self.previous_key_context
    }

    /// Update filter based on the text of the input.
    pub fn update_filter(&mut self, text: &str)
        ensures
            final(self).wf(),
            are_copies(final(self).filtered_commands@, shown(old(self).all_commands@, text@)),
            final(self).selected_index == 0,
            *final(self) == (CommandPaletteV2 {
                filtered_commands: final(self).filtered_commands,
                selected_index: 0,
                ..*old(self)
            }),
    {
        self.filter_commands(text);
    }

    /// Filter commands based on query string.
    ///
    /// Uses fuzzy matching to find commands whose name or aliases contain the
    /// query characters in order (case-insensitive). The first match is
    /// selected.
    pub fn filter_commands(&mut self, query: &str)
        ensures
            final(self).wf(),
            are_copies(final(self).filtered_commands@, shown(old(self).all_commands@, query@)),
            final(self).selected_index == 0,
            *final(self) == (CommandPaletteV2 {
                filtered_commands: final(self).filtered_commands,
                selected_index: 0,
                ..*old(self)
            }),
    {
        if query.is_empty() {
            self.filtered_commands = copied_commands(&self.all_commands);
            self.selected_index = 0;
            return ;
        }
        let query_lower = query.to_lowercase();
        let mut found: Vec<CommandInfo> = Vec::new();
        for n in 0..self.all_commands.len()
            invariant
                query_lower@ == lowercase(query@),
                are_copies(found@, matching(self.all_commands@, query@, n as nat)),
        {
            if matches(&self.all_commands[n], query_lower.as_str()) {
                found.push(self.all_commands[n].clone());
            }
        }
        self.filtered_commands = found;
        self.selected_index = 0;
    }

    /// Select the next command in the filtered list, the first after the last.
    pub fn select_next(&mut self)
        requires
            old(self).wf(),
        ensures
            final(self).wf(),
            *final(self) == (CommandPaletteV2 {
                selected_index: if old(self).filtered_commands@.len() == 0 {
                    old(self).selected_index
                } else {
                    step_on(
                        old(self).filtered_commands@.len(),
                        old(self).selected_index as nat,
                    ) as usize
                },
                ..*old(self)
            }),
    {
        if self.filtered_commands.len() > 0 {
            let next: usize = self.selected_index + 1;
            self.selected_index = if next == self.filtered_commands.len() {
                0
            } else {
                next
            };
        }
    }

    /// Select the previous command in the filtered list, the last before the
    /// first.
    pub fn select_prev(&mut self)
        requires
            old(self).wf(),
        ensures
            final(self).wf(),
            *final(self) == (CommandPaletteV2 {
                selected_index: if old(self).filtered_commands@.len() == 0 {
                    old(self).selected_index
                } else {
                    step_back(
                        old(self).filtered_commands@.len(),
                        old(self).selected_index as nat,
                    ) as usize
                },
                ..*old(self)
            }),
    {
        if self.filtered_commands.len() > 0 {
            if self.selected_index == 0 {
                self.selected_index = self.filtered_commands.len() - 1;
            } else {
                self.selected_index = self.selected_index - 1;
            }
        }
    }

    /// Get the currently selected command, if any.
    pub fn selected_command(&self) -> (command: Option<&CommandInfo>)
        ensures
            match command {
                Some(c) => self.selected_index < self.filtered_commands@.len() && *c
                    == self.filtered_commands@[self.selected_index as int],
                None => self.selected_index >= self.filtered_commands@.len(),
            },
    {
        if self.selected_index < self.filtered_commands.len() {
            Some(&self.filtered_commands[self.selected_index])
        } else {
            None
        }
    }

    /// Whether a key pressed over the palette dismisses it.
    pub fn handle_overlay_key_down(key: &str) -> (dismiss: bool)
        ensures
            dismiss == (key@ == "escape"@),
    {
        *key == *"escape"
    }
}

proof fn lemma_matching(commands: Seq<CommandInfo>, query: Seq<char>, n: nat)
    requires
        n <= commands.len(),
    ensures
        forall|k: int|
            0 <= k < n && matches_query(#[trigger] commands[k], query) ==> matching(
                commands,
                query,
                n,
            ).contains(commands[k]),
        forall|i: int|
            0 <= i < matching(commands, query, n).len() ==> matches_query(
                #[trigger] matching(commands, query, n)[i],
                query,
            ) && commands.contains(matching(commands, query, n)[i]),
        matching(commands, query, n).len() <= n,
    decreases n,
{
    if n > 0 {
        let p = (n - 1) as nat;
        lemma_matching(commands, query, p);
        let before = matching(commands, query, p);
        let all = matching(commands, query, n);
        assert forall|k: int| 0 <= k < n && matches_query(#[trigger] commands[k], query) implies all.contains(
            commands[k],
        ) by {
            if k < p {
                assert(before.contains(commands[k]));
                let i = choose|i: int| 0 <= i < before.len() && before[i] == commands[k];
                assert(all[i] == commands[k]);
            } else {
                assert(all.last() == commands[k]);
            }
        }
        assert forall|i: int| 0 <= i < all.len() implies matches_query(#[trigger] all[i], query)
            && commands.contains(all[i]) by {
            if i < before.len() {
                assert(all[i] == before[i]);
            } else {
                assert(all[i] == commands[n - 1]);
            }
        }
    }
}

/// The characters of `needle` stand in `hay`, in their order.
pub open spec fn is_scattered(hay: Seq<char>, needle: Seq<char>) -> bool {
    exists|places: Seq<int>| #[trigger] is_embedding(places, hay, needle)
}

/// A query lists each command in whose name, or in one of whose aliases, its
/// characters stand in order, upper and lower case apart, and no other; an
/// empty one lists them all.
pub proof fn a_query_lists_what_it_is_scattered_in(
    commands: Seq<CommandInfo>,
    query: Seq<char>,
    list: Seq<CommandInfo>,
)
    requires
        list == shown(commands, query),
    ensures
        query.len() == 0 ==> list == commands,
        query.len() > 0 ==> forall|k: int|
            0 <= k < commands.len() && is_scattered(
                lowercase((#[trigger] commands[k]).name@),
                lowercase(query),
            ) ==> list.contains(commands[k]),
        query.len() > 0 ==> forall|k: int, a: int|
            0 <= k < commands.len() && 0 <= a < commands[k].aliases@.len() && is_scattered(
                lowercase((#[trigger] commands[k].aliases@[a])@),
                lowercase(query),
            ) ==> list.contains(commands[k]),
        query.len() > 0 ==> forall|i: int|
            0 <= i < list.len() ==> commands.contains(#[trigger] list[i]) && (is_scattered(
                lowercase(list[i].name@),
                lowercase(query),
            ) || exists|a: int|
                0 <= a < list[i].aliases@.len() && is_scattered(
                    lowercase((#[trigger] list[i].aliases@[a])@),
                    lowercase(query),
                )),
{
    if query.len() > 0 {
        lemma_matching(commands, query, commands.len());
        assert forall|k: int|
            0 <= k < commands.len() && is_scattered(
                lowercase((#[trigger] commands[k]).name@),
                lowercase(query),
            ) implies list.contains(commands[k]) by {
            greedy_search_misses_nothing(lowercase(commands[k].name@), lowercase(query));
            assert(matches_query(commands[k], query));
        }
        assert forall|k: int, a: int|
            0 <= k < commands.len() && 0 <= a < commands[k].aliases@.len() && is_scattered(
                lowercase((#[trigger] commands[k].aliases@[a])@),
                lowercase(query),
            ) implies list.contains(commands[k]) by {
            greedy_search_misses_nothing(lowercase(commands[k].aliases@[a]@), lowercase(query));
            assert(matches_query(commands[k], query));
        }
        assert forall|i: int| 0 <= i < list.len() implies commands.contains(#[trigger] list[i]) && (
        is_scattered(lowercase(list[i].name@), lowercase(query)) || exists|a: int|
            0 <= a < list[i].aliases@.len() && is_scattered(
                lowercase((#[trigger] list[i].aliases@[a])@),
                lowercase(query),
            )) by {
            assert(matches_query(list[i], query));
            greedy_search_misses_nothing(lowercase(list[i].name@), lowercase(query));
            if !appears_in(lowercase(list[i].name@), 0, lowercase(query), 0) {
                let a = choose|a: int|
                    0 <= a < list[i].aliases@.len() && appears_in(
                        lowercase((#[trigger] list[i].aliases@[a])@),
                        0,
                        lowercase(query),
                        0,
                    );
                greedy_search_misses_nothing(lowercase(list[i].aliases@[a]@), lowercase(query));
                assert(is_scattered(lowercase(list[i].aliases@[a]@), lowercase(query)));
            }
        }
    }
}

/// Stepping goes down the list and up again, round at its ends.
pub proof fn stepping_goes_round(len: nat, selected: nat)
    requires
        selected < len,
    ensures
        selected + 1 < len ==> step_on(len, selected) == selected + 1,
        selected + 1 == len ==> step_on(len, selected) == 0,
        selected > 0 ==> step_back(len, selected) == selected - 1,
        selected == 0 ==> step_back(len, selected) == len - 1,
{
}

/// What a query lists stays in the order of all commands.
pub proof fn a_query_keeps_the_order(commands: Seq<CommandInfo>, query: Seq<char>, n: nat)
    requires
        n <= commands.len(),
    ensures
        matching(commands, query, n) == commands.take(n as int).filter(
            |c: CommandInfo| matches_query(c, query),
        ),
    decreases n,
{
    reveal(Seq::filter);
    if n > 0 {
        a_query_keeps_the_order(commands, query, (n - 1) as nat);
        assert(commands.take(n as int).drop_last() =~= commands.take(n - 1));
        assert(commands.take(n as int).last() == commands[n - 1]);
    }
}

} // verus!
