//! The command palette: a command line that lists the actions it can run, and
//! collects the argument of one that takes any.

use crate::order::{
    arranged, arranging_keeps_every_entry, every_list_has_an_order, is_stable_order, lemma_the_order, stable_order, the_order, Ranked,
};
use crate::picker::{clamped, nav_clamp, nav_move, nav_page_step, page_step};
use crate::strmap::StrMap;
use crate::text::{
    blank, chars_of, comes_before, is_blank, lex_asymmetric, lex_before, lex_negatively_transitive, same,
    same_but_for_case, same_ignoring_case, string_of, trim, trimmed,
};
use crate::lists::copied_range;
use vstd::prelude::*;
use vstd::string::StringExecFns;

verus! {

/// The actions whose listing depends on the state of the workspace, and the
/// rest.
#[derive(Debug, Clone, Copy, PartialEq, Eq, Structural)]
pub enum ActionKind {
    AbortRebase,
    ExecuteRebase,
    RebaseNext,
    RebasePrev,
    RebaseMoveUp,
    RebaseMoveDown,
    SetRebaseOpPick,
    SetRebaseOpSquash,
    SetRebaseOpFixup,
    SetRebaseOpDrop,
    SetRebaseOpReword,
    SetRebaseOpEdit,
    EnterRebase,
    RebaseContinue,
    RewordConfirm,
    RewordAbort,
    RebaseConflictTakeOurs,
    RebaseConflictTakeTheirs,
    RebaseConflictSkipEntry,
    RebaseConflictNextFile,
    RebaseConflictPrevFile,
    RebaseConflictApply,
    RebaseConflictAbort,
    ReviewNextChunk,
    ReviewPrevChunk,
    ReviewStageChunk,
    ReviewUnstageChunk,
    ReviewToggleStage,
    ReviewSkipChunk,
    ReviewRefresh,
    ReviewApplyStaged,
    CloseReview,
    ReviewRemoveSelected,
    JumpToMoveSource,
    JumpToMoveTarget,
    JumpToNextMoveSource,
    JumpToPrevMoveSource,
    QueryMoveRelationships,
    CloseCommits,
    CommitsNext,
    CommitsPrev,
    CommitsPageDown,
    CommitsPageUp,
    CommitsFirst,
    CommitsLast,
    CommitsRefresh,
    CommitsOpenReview,
    RunSubmit,
    RunInterrupt,
    RunHistoryPrev,
    RunHistoryNext,
    /// An action that is always applicable, like quitting.
    Global,
}

/// Where the values of an argument come from.
#[derive(Debug, Clone, Copy, PartialEq, Eq, Structural)]
pub enum ValueSource {
    /// They are typed freely.
    Typed,
    Files,
    Directories,
    Buffers,
    Themes,
}

/// One parameter of an action.
#[derive(Debug, Clone, Copy, PartialEq, Eq, Structural)]
pub struct ActionParam {
    pub value_source: ValueSource,
    pub required: bool,
}

/// One registered action.
#[derive(Debug, PartialEq, Eq)]
pub struct RegistryEntry {
    /// The action's own name.
    pub name: String,
    /// The name it has on the command line.
    pub command_name: String,
    pub aliases: Vec<String>,
    pub kind: ActionKind,
    /// Lower comes first.
    pub priority: u8,
    pub palette_visible: bool,
    pub params: Vec<ActionParam>,
}

/// The registered actions, and the names and aliases they go by.
pub struct Registry {
    pub entries: Vec<RegistryEntry>,
    /// The entry that each token resolves to.
    pub tokens: StrMap<usize>,
}

impl Registry {
    /// Every token resolves to an entry.
    pub open spec fn wf(&self) -> bool {
        &&& forall|t: Seq<char>| #[trigger]
            self.tokens@.contains_key(t) ==> self.tokens@[t] < self.entries@.len()
        &&& forall|i: int|
            0 <= i < self.entries@.len() ==> (#[trigger] self.entries@[i]).command_name@.len()
                <= u32::MAX
    }

    /// The entry that a command name or alias resolves to.
    pub open spec fn resolves(&self, token: Seq<char>) -> Option<usize> {
        if self.tokens@.contains_key(token) {
            Some(self.tokens@[token])
        } else {
            None
        }
    }

    /// The entry that a command name or alias resolves to.
    pub fn lookup_alias(&self, token: &str) -> (entry: Option<usize>)
        ensures
            entry == self.resolves(token@),
    {
        match self.tokens.get(token) {
            Some(entry) => Some(*entry),
            None => None,
        }
    }
}

/// Palette listing mode.
#[derive(Debug, Clone, Copy, PartialEq, Eq, Hash, Structural)]
pub enum PaletteScope {
    /// Only actions applicable to the captured [`Availability`] snapshot.
    Active,
    /// Every visible action, regardless of availability.
    All,
}

// ---------------------------------------------------------------------------
// Availability
// ---------------------------------------------------------------------------

/// What an in-flight rebase waits for.
#[derive(Debug, Clone, Copy, PartialEq, Eq, Structural)]
pub enum RebasePause {
    Reword,
    Edit,
    Conflict,
}

/// What a pane shows, as far as the palette cares.
#[derive(Debug, Clone, Copy, PartialEq, Eq, Structural)]
pub enum PaneView {
    Run,
    Other,
}

/// Where the focus is.
#[derive(Debug, Clone, Copy, PartialEq, Eq, Structural)]
pub enum FocusTarget {
    SplitPane,
    Dock(usize),
}

/// What availability is derived from.
pub struct WorkspaceState {
    /// Whether there is an editable rebase plan.
    pub has_rebase: bool,
    /// The rebase in flight, and what it waits for.
    pub rebase_active: Option<Option<RebasePause>>,
    pub review_open: bool,
    pub commits_open: bool,
    pub focus: FocusTarget,
    /// What the focused split pane shows.
    pub pane_view: PaneView,
    /// What each dock shows.
    pub docks: Vec<PaneView>,
    /// Whether a modal run is active.
    pub modal_run: bool,
}

/// Snapshot of the state relevant to per-action availability. Booleans are
/// derived once at palette-open via [`Availability::from_stoat`] so the scope
/// filter is a cheap lookup on every keystroke.
#[derive(Debug, Clone, Copy, PartialEq, Eq, Structural)]
pub struct Availability {
    /// There is an editable rebase plan.
    pub in_rebase_plan: bool,
    /// A rebase is mid-execution (paused on reword, edit or conflict, or
    /// running).
    pub in_rebase_exec: bool,
    /// The in-flight rebase is paused on a reword.
    pub in_rebase_reword: bool,
    /// The in-flight rebase is paused on a conflict.
    pub in_conflict: bool,
    pub review_open: bool,
    pub commits_open: bool,
    /// The focused pane hosts a run, or a modal run is active.
    pub run_focused: bool,
}

impl Default for Availability {
    fn default() -> (a: Self)
        ensures
            a == (Availability {
                in_rebase_plan: false,
                in_rebase_exec: false,
                in_rebase_reword: false,
                in_conflict: false,
                review_open: false,
                commits_open: false,
                run_focused: false,
            }),
    {
        Availability {
            in_rebase_plan: false,
            in_rebase_exec: false,
            in_rebase_reword: false,
            in_conflict: false,
            review_open: false,
            commits_open: false,
            run_focused: false,
        }
    }
}

/// What the focused pane shows, where there is one.
pub open spec fn focused_view(ws: WorkspaceState) -> Option<PaneView> {
    match ws.focus {
        FocusTarget::SplitPane => Some(ws.pane_view),
        FocusTarget::Dock(dock) => if dock < ws.docks@.len() {
            Some(ws.docks@[dock as int])
        } else {
            None
        },
    }
}

impl Availability {
    /// Derive the availability snapshot from the active workspace.
    pub fn from_stoat(ws: &WorkspaceState) -> (a: Self)
        ensures
            a == (Availability {
                in_rebase_plan: ws.has_rebase,
                in_rebase_exec: ws.rebase_active is Some,
                in_rebase_reword: ws.rebase_active == Some(Some(RebasePause::Reword)),
                in_conflict: ws.rebase_active == Some(Some(RebasePause::Conflict)),
                review_open: ws.review_open,
                commits_open: ws.commits_open,
                run_focused: focused_view(*ws) == Some(PaneView::Run) || ws.modal_run,
            }),
    {
        let (in_rebase_reword, in_conflict): (bool, bool) = match ws.rebase_active {
            Some(Some(RebasePause::Reword)) => (true, false),
            Some(Some(RebasePause::Conflict)) => (false, true),
            _ => (false, false),
        };
        let view: Option<PaneView> = match ws.focus {
            FocusTarget::SplitPane => Some(ws.pane_view),
            FocusTarget::Dock(dock) => if dock < ws.docks.len() {
                Some(ws.docks[dock])
            } else {
                None
            },
        };
        let on_run: bool = match view {
            Some(PaneView::Run) => true,
            _ => false,
        };
        Availability {
            in_rebase_plan: ws.has_rebase,
            in_rebase_exec: ws.rebase_active.is_some(),
            in_rebase_reword,
            in_conflict,
            review_open: ws.review_open,
            commits_open: ws.commits_open,
            run_focused: on_run || ws.modal_run,
        }
    }
}

/// What an action needs to be applicable.
pub enum Needs {
    RebasePlan,
    RebaseRunning,
    Reword,
    Conflict,
    Review,
    Commits,
    Run,
    Nothing,
}

/// What an action needs to be applicable.
pub open spec fn needs(kind: ActionKind) -> Needs {
    match kind {
        ActionKind::AbortRebase
        | ActionKind::ExecuteRebase
        | ActionKind::RebaseNext
        | ActionKind::RebasePrev
        | ActionKind::RebaseMoveUp
        | ActionKind::RebaseMoveDown
        | ActionKind::SetRebaseOpPick
        | ActionKind::SetRebaseOpSquash
        | ActionKind::SetRebaseOpFixup
        | ActionKind::SetRebaseOpDrop
        | ActionKind::SetRebaseOpReword
        | ActionKind::SetRebaseOpEdit => Needs::RebasePlan,
        ActionKind::EnterRebase => Needs::Commits,
        ActionKind::RebaseContinue => Needs::RebaseRunning,
        ActionKind::RewordConfirm | ActionKind::RewordAbort => Needs::Reword,
        ActionKind::RebaseConflictTakeOurs
        | ActionKind::RebaseConflictTakeTheirs
        | ActionKind::RebaseConflictSkipEntry
        | ActionKind::RebaseConflictNextFile
        | ActionKind::RebaseConflictPrevFile
        | ActionKind::RebaseConflictApply
        | ActionKind::RebaseConflictAbort => Needs::Conflict,
        ActionKind::ReviewNextChunk
        | ActionKind::ReviewPrevChunk
        | ActionKind::ReviewStageChunk
        | ActionKind::ReviewUnstageChunk
        | ActionKind::ReviewToggleStage
        | ActionKind::ReviewSkipChunk
        | ActionKind::ReviewRefresh
        | ActionKind::ReviewApplyStaged
        | ActionKind::CloseReview
        | ActionKind::ReviewRemoveSelected
        | ActionKind::JumpToMoveSource
        | ActionKind::JumpToMoveTarget
        | ActionKind::JumpToNextMoveSource
        | ActionKind::JumpToPrevMoveSource
        | ActionKind::QueryMoveRelationships => Needs::Review,
        ActionKind::CloseCommits
        | ActionKind::CommitsNext
        | ActionKind::CommitsPrev
        | ActionKind::CommitsPageDown
        | ActionKind::CommitsPageUp
        | ActionKind::CommitsFirst
        | ActionKind::CommitsLast
        | ActionKind::CommitsRefresh
        | ActionKind::CommitsOpenReview => Needs::Commits,
        ActionKind::RunSubmit
        | ActionKind::RunInterrupt
        | ActionKind::RunHistoryPrev
        | ActionKind::RunHistoryNext => Needs::Run,
        ActionKind::Global => Needs::Nothing,
    }
}

/// What is needed is there.
pub open spec fn is_met(needs: Needs, ctx: Availability) -> bool {
    match needs {
        Needs::RebasePlan => ctx.in_rebase_plan,
        Needs::RebaseRunning => ctx.in_rebase_exec,
        Needs::Reword => ctx.in_rebase_reword,
        Needs::Conflict => ctx.in_conflict,
        Needs::Review => ctx.review_open,
        Needs::Commits => ctx.commits_open,
        Needs::Run => ctx.run_focused,
        Needs::Nothing => true,
    }
}

/// Whether `kind` should appear in the palette's Active scope given `ctx`. All
/// scope bypasses this function entirely.
pub fn action_is_available(kind: ActionKind, ctx: &Availability) -> (r: bool)
    ensures
        r == is_met(needs(kind), *ctx),
{
    match kind {
        ActionKind::AbortRebase
        | ActionKind::ExecuteRebase
        | ActionKind::RebaseNext
        | ActionKind::RebasePrev
        | ActionKind::RebaseMoveUp
        | ActionKind::RebaseMoveDown
        | ActionKind::SetRebaseOpPick
        | ActionKind::SetRebaseOpSquash
        | ActionKind::SetRebaseOpFixup
        | ActionKind::SetRebaseOpDrop
        | ActionKind::SetRebaseOpReword
        | ActionKind::SetRebaseOpEdit => ctx.in_rebase_plan,
        ActionKind::EnterRebase => ctx.commits_open,
        ActionKind::RebaseContinue => ctx.in_rebase_exec,
        ActionKind::RewordConfirm | ActionKind::RewordAbort => ctx.in_rebase_reword,
        ActionKind::RebaseConflictTakeOurs
        | ActionKind::RebaseConflictTakeTheirs
        | ActionKind::RebaseConflictSkipEntry
        | ActionKind::RebaseConflictNextFile
        | ActionKind::RebaseConflictPrevFile
        | ActionKind::RebaseConflictApply
        | ActionKind::RebaseConflictAbort => ctx.in_conflict,
        ActionKind::ReviewNextChunk
        | ActionKind::ReviewPrevChunk
        | ActionKind::ReviewStageChunk
        | ActionKind::ReviewUnstageChunk
        | ActionKind::ReviewToggleStage
        | ActionKind::ReviewSkipChunk
        | ActionKind::ReviewRefresh
        | ActionKind::ReviewApplyStaged
        | ActionKind::CloseReview
        | ActionKind::ReviewRemoveSelected
        | ActionKind::JumpToMoveSource
        | ActionKind::JumpToMoveTarget
        | ActionKind::JumpToNextMoveSource
        | ActionKind::JumpToPrevMoveSource
        | ActionKind::QueryMoveRelationships => ctx.review_open,
        ActionKind::CloseCommits
        | ActionKind::CommitsNext
        | ActionKind::CommitsPrev
        | ActionKind::CommitsPageDown
        | ActionKind::CommitsPageUp
        | ActionKind::CommitsFirst
        | ActionKind::CommitsLast
        | ActionKind::CommitsRefresh
        | ActionKind::CommitsOpenReview => ctx.commits_open,
        ActionKind::RunSubmit
        | ActionKind::RunInterrupt
        | ActionKind::RunHistoryPrev
        | ActionKind::RunHistoryNext => ctx.run_focused,
        ActionKind::Global => true,
    }
}

/// With every flag set, every action is available; with more flags set, no
/// action that was available goes away.
pub proof fn flags_only_add_actions(kind: ActionKind, less: Availability, more: Availability)
    requires
        less.in_rebase_plan ==> more.in_rebase_plan,
        less.in_rebase_exec ==> more.in_rebase_exec,
        less.in_rebase_reword ==> more.in_rebase_reword,
        less.in_conflict ==> more.in_conflict,
        less.review_open ==> more.review_open,
        less.commits_open ==> more.commits_open,
        less.run_focused ==> more.run_focused,
    ensures
        is_met(needs(kind), less) ==> is_met(needs(kind), more),
        more.in_rebase_plan && more.in_rebase_exec && more.in_rebase_reword && more.in_conflict
            && more.review_open && more.commits_open && more.run_focused ==> is_met(
            needs(kind),
            more,
        ),
{
}

// ---------------------------------------------------------------------------
// Reading the input
// ---------------------------------------------------------------------------

/// The place of the first space from `i` on, or the end.
pub open spec fn space_from(s: Seq<char>, i: int) -> int
    decreases s.len() - i,
{
    if 0 <= i < s.len() && s[i] != ' ' {
        space_from(s, i + 1)
    } else {
        i
    }
}

/// What stands before the first space and what stands after it.
pub open spec fn split_at_space(s: Seq<char>) -> Option<(Seq<char>, Seq<char>)> {
    let at = space_from(s, 0);
    if at < s.len() {
        Some((s.take(at), s.skip(at + 1)))
    } else {
        None
    }
}

/// What stands before the first space and what stands after it.
pub fn split_once(text: &str) -> (r: Option<(String, String)>)
    ensures
        match r {
            Some((head, tail)) => split_at_space(text@) == Some((head@, tail@)),
            None => split_at_space(text@) is None,
        },
{
    let s = chars_of(text);
    let mut at: usize = 0;
    while at < s.len() && s[at] != ' '
        invariant
            at <= s.len(),
            s@ == text@,
            space_from(text@, 0) == space_from(text@, at as int),
        decreases s.len() - at,
    {
        at = at + 1;
    }
    if at >= s.len() {
        return None;
    }
    let head = string_of(copied_range(&s, 0, at).as_slice());
    let tail = string_of(copied_range(&s, at + 1, s.len()).as_slice());
    assert(head@ =~= text@.take(at as int));
    assert(tail@ =~= text@.skip(at + 1));
    Some((head, tail))
}

/// The command and the argument that a text names.
pub open spec fn command_in(text: Seq<char>, registry: Registry) -> Option<(usize, Seq<char>)> {
    match split_at_space(text) {
        Some((head, tail)) => match registry.resolves(head) {
            Some(entry) => if registry.entries@[entry as int].params@.len() > 0 {
                Some((entry, tail))
            } else {
                None
            },
            None => None,
        },
        None => None,
    }
}

/// Split palette input into a resolved command and its trailing argument text.
///
/// Returns `Some((entry, arg))` only when the text is a command token followed
/// by a space. The token is a command name or alias and the command must take
/// at least one parameter. `arg` is everything after the first space, so a
/// path argument may itself contain spaces. Returns `None` for plain filter
/// text, an unknown head, or a zero-argument command, keeping the palette in
/// command-filter mode.
pub fn parse_command(text: &str, registry: &Registry) -> (r: Option<(usize, String)>)
    requires
        registry.wf(),
    ensures
        match r {
            Some((entry, arg)) => entry < registry.entries@.len() && command_in(text@, *registry)
                == Some((entry, arg@)),
            None => command_in(text@, *registry) is None,
        },
{
    match split_once(text) {
        Some((head, tail)) => match registry.lookup_alias(head.as_str()) {
            Some(entry) => {
                assert(registry.tokens@.contains_key(head@));
                if registry.entries[entry].params.len() > 0 {
                    Some((entry, tail))
                } else {
                    None
                }
            },
            None => None,
        },
        None => None,
    }
}

/// The command runs on its bare name: it takes no argument, or its first one
/// is optional.
pub open spec fn runs_bare(entry: RegistryEntry) -> bool {
    entry.params@.len() == 0 || !entry.params@[0].required
}

/// Whether submitting `entry`'s bare name runs it, rather than opening argument
/// entry.
///
/// True for a command taking no arguments, and for one whose first argument is
/// optional. The latter would otherwise be unreachable in its no-argument
/// form, since the palette rewrites the input to `"<name> "` and waits for a
/// value that the command does not require.
pub fn dispatches_bare(entry: &RegistryEntry) -> (r: bool)
    ensures
        r == runs_bare(*entry),
{
    entry.params.len() == 0 || !entry.params[0].required
}

/// The token that stands for a command in the history.
pub open spec fn head_of(entry: RegistryEntry) -> Seq<char> {
    if entry.aliases@.len() > 0 {
        entry.aliases@[0]@
    } else {
        entry.name@
    }
}

/// The head token to record for `entry` in palette history. It is the first
/// alias when one exists, else the name.
///
/// Both re-resolve through [`parse_command`], so a recalled `head [arg]` line
/// replays. The alias is preferred because it reads like the short form a user
/// types (`cd`, not `SetCwd`).
pub fn history_head(entry: &RegistryEntry) -> (head: &String)
    ensures
        head@ == head_of(*entry),
{
    if entry.aliases.len() > 0 {
        &entry.aliases[0]
    } else {
        &entry.name
    }
}

proof fn lemma_space_from(s: Seq<char>, i: int, at: int)
    requires
        0 <= i <= at < s.len(),
        s[at] == ' ',
        forall|k: int| i <= k < at ==> #[trigger] s[k] != ' ',
    ensures
        space_from(s, i) == at,
    decreases at - i,
{
    if i < at {
        assert(s[i] != ' ');
        lemma_space_from(s, i + 1, at);
    }
}

/// The line recorded for a command with its argument names that command and
/// that argument again, where its head resolves to it and holds no space.
pub proof fn a_recorded_line_replays(registry: Registry, entry: usize, arg: Seq<char>)
    requires
        entry < registry.entries@.len(),
        registry.entries@[entry as int].params@.len() > 0,
        registry.resolves(head_of(registry.entries@[entry as int])) == Some(entry),
        !head_of(registry.entries@[entry as int]).contains(' '),
    ensures
        command_in(
            head_of(registry.entries@[entry as int]).push(' ') + arg,
            registry,
        ) == Some((entry, arg)),
{
    let head = head_of(registry.entries@[entry as int]);
    let line = head.push(' ') + arg;
    assert forall|k: int| 0 <= k < head.len() implies #[trigger] line[k] != ' ' by {
        assert(line[k] == head[k]);
    }
    lemma_space_from(line, 0, head.len() as int);
    assert(line.take(head.len() as int) =~= head);
    assert(line.skip(head.len() as int + 1) =~= arg);
}

// ---------------------------------------------------------------------------
// Listing the actions
// ---------------------------------------------------------------------------

/// The entry is one that the palette lists.
pub open spec fn passes(
    entry: RegistryEntry,
    scope: PaletteScope,
    availability: Availability,
) -> bool {
    entry.palette_visible && (scope != PaletteScope::Active || is_met(
        needs(entry.kind),
        availability,
    ))
}

/// The places of the first `n` entries that the palette lists.
pub open spec fn listable(
    entries: Seq<RegistryEntry>,
    scope: PaletteScope,
    availability: Availability,
    n: nat,
) -> Seq<usize>
    decreases n,
{
    if n == 0 {
        Seq::empty()
    } else {
        let before = listable(entries, scope, availability, (n - 1) as nat);
        if passes(entries[n - 1], scope, availability) {
            before.push((n - 1) as usize)
        } else {
            before
        }
    }
}

/// What ranking the listed command names against the input gave for one of
/// them.
#[derive(Debug, PartialEq, Eq)]
pub struct FuzzyMatch {
    /// The place of the entry.
    pub entry: usize,
    pub score: u32,
    /// The matched characters of its command name.
    pub matched_indices: Vec<u32>,
}

/// The rows of the palette, and the matched characters of each.
pub struct Listing {
    pub rows: Seq<usize>,
    pub indices: Seq<Seq<u32>>,
}

pub open spec fn index_lists(lists: Seq<Vec<u32>>) -> Seq<Seq<u32>> {
    Seq::new(lists.len(), |i: int| lists[i]@)
}

/// Orders commands by priority, then by name.
pub struct ByPriority {
    pub priority: u8,
    pub name: String,
}

impl Ranked for ByPriority {
    open spec fn ranks_before(self, other: Self) -> bool {
        self.priority < other.priority || (self.priority == other.priority && lex_before(
            self.name@,
            other.name@,
        ))
    }

    proof fn asymmetric(a: Self, b: Self) {
        if lex_before(a.name@, b.name@) {
            lex_asymmetric(a.name@, b.name@);
        }
    }

    proof fn negatively_transitive(a: Self, b: Self, c: Self) {
        if !lex_before(a.name@, b.name@) && !lex_before(b.name@, c.name@) {
            lex_negatively_transitive(a.name@, b.name@, c.name@);
        }
    }

    fn before(&self, other: &Self) -> (r: bool) {
        self.priority < other.priority || (self.priority == other.priority && comes_before(
            self.name.as_str(),
            other.name.as_str(),
        ))
    }
}

/// Orders matches by score, the best first, then as [`ByPriority`] does.
pub struct ByScore {
    pub score: u32,
    pub priority: u8,
    pub name: String,
}

impl Ranked for ByScore {
    open spec fn ranks_before(self, other: Self) -> bool {
        self.score > other.score || (self.score == other.score && (self.priority < other.priority
            || (self.priority == other.priority && lex_before(self.name@, other.name@))))
    }

    proof fn asymmetric(a: Self, b: Self) {
        if lex_before(a.name@, b.name@) {
            lex_asymmetric(a.name@, b.name@);
        }
    }

    proof fn negatively_transitive(a: Self, b: Self, c: Self) {
        if !lex_before(a.name@, b.name@) && !lex_before(b.name@, c.name@) {
            lex_negatively_transitive(a.name@, b.name@, c.name@);
        }
    }

    fn before(&self, other: &Self) -> (r: bool) {
        self.score > other.score || (self.score == other.score && (self.priority < other.priority
            || (self.priority == other.priority && comes_before(
            self.name.as_str(),
            other.name.as_str(),
        ))))
    }
}

pub open spec fn priority_keys(entries: Seq<RegistryEntry>, rows: Seq<usize>) -> Seq<ByPriority> {
    Seq::new(
        rows.len(),
        |i: int|
            ByPriority {
                priority: entries[rows[i] as int].priority,
                name: entries[rows[i] as int].command_name,
            },
    )
}

pub open spec fn score_keys(entries: Seq<RegistryEntry>, matches: Seq<FuzzyMatch>) -> Seq<ByScore> {
    Seq::new(
        matches.len(),
        |i: int|
            ByScore {
                score: matches[i].score,
                priority: entries[matches[i].entry as int].priority,
                name: entries[matches[i].entry as int].command_name,
            },
    )
}

/// Every listed action by priority and name, with nothing highlighted.
pub open spec fn unfiltered(entries: Seq<RegistryEntry>, visible: Seq<usize>) -> Listing {
    let rows = arranged(priority_keys(entries, visible), visible);
    Listing { rows, indices: Seq::new(rows.len(), |i: int| Seq::<u32>::empty()) }
}

/// The matches, the best first.
pub open spec fn ranked(entries: Seq<RegistryEntry>, matches: Seq<FuzzyMatch>) -> Listing {
    let sorted = arranged(score_keys(entries, matches), matches);
    Listing {
        rows: Seq::new(sorted.len(), |i: int| sorted[i].entry),
        indices: Seq::new(sorted.len(), |i: int| sorted[i].matched_indices@),
    }
}

/// The first row from `i` on that holds an action of this name.
pub open spec fn row_named(
    entries: Seq<RegistryEntry>,
    rows: Seq<usize>,
    name: Seq<char>,
    i: int,
) -> int
    decreases rows.len() - i,
{
    if 0 <= i < rows.len() && entries[rows[i] as int].name@ != name {
        row_named(entries, rows, name, i + 1)
    } else {
        i
    }
}

/// The characters that are highlighted of a command brought to the top without
/// having matched: all of them where its name was typed, else none.
pub open spec fn pinned_indices(entry: RegistryEntry, needle: Seq<char>) -> Seq<u32> {
    if same_but_for_case(entry.command_name@, needle) {
        Seq::new(entry.command_name@.len(), |i: int| i as u32)
    } else {
        Seq::empty()
    }
}

/// The listing with the entry `pinned` at the top.
pub open spec fn with_pinned(
    listing: Listing,
    entries: Seq<RegistryEntry>,
    pinned: usize,
    needle: Seq<char>,
) -> Listing {
    let at = row_named(entries, listing.rows, entries[pinned as int].name@, 0);
    if at < listing.rows.len() {
        Listing {
            rows: listing.rows.remove(at).insert(0, pinned),
            indices: listing.indices.remove(at).insert(0, listing.indices[at]),
        }
    } else {
        Listing {
            rows: listing.rows.insert(0, pinned),
            indices: listing.indices.insert(
                0,
                pinned_indices(entries[pinned as int], needle),
            ),
        }
    }
}

/// What the palette lists for an input: every action for a blank one, else the
/// `matches` that ranking the listed command names against it gave. An exact
/// name or alias stands at the top, so the displayed list agrees with what
/// Enter dispatches.
pub open spec fn listed(
    input: Seq<char>,
    registry: Registry,
    scope: PaletteScope,
    availability: Availability,
    matches: Seq<FuzzyMatch>,
) -> Listing {
    let entries = registry.entries@;
    if is_blank(input) {
        unfiltered(entries, listable(entries, scope, availability, entries.len()))
    } else {
        let needle = trimmed(input);
        match registry.resolves(needle) {
            Some(pinned) => if passes(entries[pinned as int], scope, availability) {
                with_pinned(ranked(entries, matches), entries, pinned, needle)
            } else {
                ranked(entries, matches)
            },
            None => ranked(entries, matches),
        }
    }
}

/// The matches are of actions that the palette lists.
pub open spec fn are_of_listed(
    matches: Seq<FuzzyMatch>,
    registry: Registry,
    scope: PaletteScope,
    availability: Availability,
) -> bool {
    forall|i: int|
        0 <= i < matches.len() ==> (#[trigger] matches[i]).entry < registry.entries@.len()
            && passes(registry.entries@[matches[i].entry as int], scope, availability)
}

fn entry_passes(entry: &RegistryEntry, scope: PaletteScope, availability: &Availability) -> (r: bool)
    ensures
        r == passes(*entry, scope, *availability),
{
    entry.palette_visible && (scope != PaletteScope::Active || action_is_available(
        entry.kind,
        availability,
    ))
}

/// The places of the entries that the palette lists: those whose command names
/// are ranked against the input.
pub fn visible(registry: &Registry, scope: PaletteScope, availability: &Availability) -> (rows: Vec<
    usize,
>)
    ensures
        rows@ == listable(registry.entries@, scope, *availability, registry.entries@.len()),
        forall|i: int| 0 <= i < rows@.len() ==> #[trigger] rows@[i] < registry.entries@.len(),
{
    let mut rows: Vec<usize> = Vec::new();
    for n in 0..registry.entries.len()
        invariant
            rows@ == listable(registry.entries@, scope, *availability, n as nat),
            forall|i: int| 0 <= i < rows@.len() ==> #[trigger] rows@[i] < n,
    {
        if entry_passes(&registry.entries[n], scope, availability) {
            rows.push(n);
        }
    }
    rows
}

fn list_unfiltered(
    registry: &Registry,
    visible: &Vec<usize>,
    filtered: &mut Vec<usize>,
    match_indices: &mut Vec<Vec<u32>>,
)
    requires
        forall|i: int| 0 <= i < visible@.len() ==> #[trigger] visible@[i] < registry.entries@.len(),
    ensures
        final(filtered)@ == unfiltered(registry.entries@, visible@).rows,
        index_lists(final(match_indices)@) == unfiltered(registry.entries@, visible@).indices,
        forall|i: int|
            0 <= i < final(filtered)@.len() ==> #[trigger] final(filtered)@[i]
                < registry.entries@.len(),
{
    filtered.clear();
    match_indices.clear();
    let mut keys: Vec<ByPriority> = Vec::new();
    for i in 0..visible.len()
        invariant
            forall|k: int|
                0 <= k < visible@.len() ==> #[trigger] visible@[k] < registry.entries@.len(),
            keys@ == priority_keys(registry.entries@, visible@.take(i as int)),
    {
        let entry = &registry.entries[visible[i]];
        keys.push(ByPriority { priority: entry.priority, name: entry.command_name.clone() });
        assert(keys@ =~= priority_keys(registry.entries@, visible@.take(i + 1)));
    }
    assert(visible@.take(visible@.len() as int) =~= visible@);
    let order = stable_order(&keys);
    proof {
        lemma_the_order(keys@, order@);
    }
    for k in 0..order.len()
        invariant
            is_stable_order(keys@, order@),
            keys@.len() == visible@.len(),
            forall|i: int|
                0 <= i < visible@.len() ==> #[trigger] visible@[i] < registry.entries@.len(),
            filtered@.len() == k,
            match_indices@.len() == k,
            forall|i: int|
                0 <= i < k ==> #[trigger] filtered@[i] == visible@[order@[i] as int],
            forall|i: int| 0 <= i < k ==> (#[trigger] match_indices@[i])@.len() == 0,
    {
        filtered.push(visible[order[k]]);
        match_indices.push(Vec::new());
    }
    proof {
        let want = unfiltered(registry.entries@, visible@);
        assert(filtered@ =~= want.rows);
        assert forall|i: int| 0 <= i < match_indices@.len() implies index_lists(
            match_indices@,
        )[i] == want.indices[i] by {
            assert(match_indices@[i]@ =~= Seq::<u32>::empty());
        }
        assert(index_lists(match_indices@) =~= want.indices);
    }
}

fn list_ranked(
    registry: &Registry,
    matches: &Vec<FuzzyMatch>,
    filtered: &mut Vec<usize>,
    match_indices: &mut Vec<Vec<u32>>,
)
    requires
        forall|i: int|
            0 <= i < matches@.len() ==> (#[trigger] matches@[i]).entry < registry.entries@.len(),
    ensures
        final(filtered)@ == ranked(registry.entries@, matches@).rows,
        index_lists(final(match_indices)@) == ranked(registry.entries@, matches@).indices,
        forall|i: int|
            0 <= i < final(filtered)@.len() ==> #[trigger] final(filtered)@[i]
                < registry.entries@.len(),
{
    filtered.clear();
    match_indices.clear();
    let mut keys: Vec<ByScore> = Vec::new();
    for i in 0..matches.len()
        invariant
            forall|k: int|
                0 <= k < matches@.len() ==> (#[trigger] matches@[k]).entry
                    < registry.entries@.len(),
            keys@ == score_keys(registry.entries@, matches@.take(i as int)),
    {
        let entry = &registry.entries[matches[i].entry];
        keys.push(
            ByScore {
                score: matches[i].score,
                priority: entry.priority,
                name: entry.command_name.clone(),
            },
        );
        assert(keys@ =~= score_keys(registry.entries@, matches@.take(i + 1)));
    }
    assert(matches@.take(matches@.len() as int) =~= matches@);
    let order = stable_order(&keys);
    proof {
        lemma_the_order(keys@, order@);
    }
    for k in 0..order.len()
        invariant
            is_stable_order(keys@, order@),
            keys@.len() == matches@.len(),
            forall|i: int|
                0 <= i < matches@.len() ==> (#[trigger] matches@[i]).entry
                    < registry.entries@.len(),
            filtered@.len() == k,
            match_indices@.len() == k,
            forall|i: int|
                0 <= i < k ==> #[trigger] filtered@[i] == matches@[order@[i] as int].entry,
            forall|i: int|
                0 <= i < k ==> (#[trigger] match_indices@[i])@
                    == matches@[order@[i] as int].matched_indices@,
    {
        let found = &matches[order[k]];
        filtered.push(found.entry);
        let indices: Vec<u32> = copied_range(
            &found.matched_indices,
            0,
            found.matched_indices.len(),
        );
        assert(indices@ =~= found.matched_indices@);
        match_indices.push(indices);
    }
    proof {
        let want = ranked(registry.entries@, matches@);
        assert(filtered@ =~= want.rows);
        assert(index_lists(match_indices@) =~= want.indices);
    }
}

fn pin(
    registry: &Registry,
    pinned: usize,
    needle: &str,
    filtered: &mut Vec<usize>,
    match_indices: &mut Vec<Vec<u32>>,
)
    requires
        registry.wf(),
        pinned < registry.entries@.len(),
        old(filtered)@.len() == old(match_indices)@.len(),
        forall|i: int|
            0 <= i < old(filtered)@.len() ==> #[trigger] old(filtered)@[i]
                < registry.entries@.len(),
    ensures
        final(filtered)@ == with_pinned(
            (Listing { rows: old(filtered)@, indices: index_lists(old(match_indices)@) }),
            registry.entries@,
            pinned,
            needle@,
        ).rows,
        index_lists(final(match_indices)@) == with_pinned(
            (Listing { rows: old(filtered)@, indices: index_lists(old(match_indices)@) }),
            registry.entries@,
            pinned,
            needle@,
        ).indices,
        forall|i: int|
            0 <= i < final(filtered)@.len() ==> #[trigger] final(filtered)@[i]
                < registry.entries@.len(),
{
    let ghost rows = filtered@;
    let ghost lists = match_indices@;
    let ghost entries = registry.entries@;
    let entry = &registry.entries[pinned];
    let mut at: usize = 0;
    while at < filtered.len() && !same(
        registry.entries[filtered[at]].name.as_str(),
        entry.name.as_str(),
    )
        invariant
            at <= filtered@.len(),
            filtered@ == rows,
            entries == registry.entries@,
            forall|i: int| 0 <= i < filtered@.len() ==> #[trigger] filtered@[i] < entries.len(),
            row_named(entries, rows, entry.name@, 0) == row_named(
                entries,
                rows,
                entry.name@,
                at as int,
            ),
        decreases filtered@.len() - at,
    {
        at = at + 1;
    }
    let indices: Vec<u32>;
    if at < filtered.len() {
        filtered.remove(at);
        indices = match_indices.remove(at);
        assert(index_lists(match_indices@) =~= index_lists(lists).remove(at as int));
    } else if same_ignoring_case(entry.command_name.as_str(), needle) {
        let count: usize = chars_of(entry.command_name.as_str()).len();
        assert(registry.entries@[pinned as int].command_name@.len() <= u32::MAX);
        let mut every: Vec<u32> = Vec::new();
        for i in 0..count
            invariant
                count <= u32::MAX,
                every@ == Seq::new(i as nat, |k: int| k as u32),
        {
            every.push(i as u32);
            assert(every@ =~= Seq::new((i + 1) as nat, |k: int| k as u32));
        }
        indices = every;
    } else {
        indices = Vec::new();
        assert(indices@ =~= Seq::<u32>::empty());
    }
    let ghost mid = match_indices@;
    let ghost top = indices@;
    filtered.insert(0, pinned);
    match_indices.insert(0, indices);
    assert(index_lists(match_indices@) =~= index_lists(mid).insert(0, top));
}

/// List the actions for `input`: every one by priority and name when it is
/// blank, there being nothing to match, else the matches, the best first.
/// The selection stays in the list.
pub fn refilter(
    input: &str,
    registry: &Registry,
    scope: PaletteScope,
    availability: &Availability,
    matches: &Vec<FuzzyMatch>,
    filtered: &mut Vec<usize>,
    match_indices: &mut Vec<Vec<u32>>,
    selected: &mut usize,
)
    requires
        registry.wf(),
        !is_blank(input@) ==> are_of_listed(matches@, *registry, scope, *availability),
    ensures
        final(filtered)@ == listed(
            input@,
            *registry,
            scope,
            *availability,
            matches@,
        ).rows,
        index_lists(final(match_indices)@) == listed(
            input@,
            *registry,
            scope,
            *availability,
            matches@,
        ).indices,
        *final(selected) == clamped(final(filtered)@.len() as int, *old(selected) as int),
        forall|i: int|
            0 <= i < final(filtered)@.len() ==> #[trigger] final(filtered)@[i]
                < registry.entries@.len(),
        final(filtered)@.len() == final(match_indices)@.len(),
{
    if blank(input) {
        let rows = visible(registry, scope, availability);
        list_unfiltered(registry, &rows, filtered, match_indices);
    } else {
        list_ranked(registry, matches, filtered, match_indices);
        assert(index_lists(match_indices@).len() == match_indices@.len());
        let needle = trim(input);
        match registry.lookup_alias(needle.as_str()) {
            Some(pinned) => {
                assert(registry.tokens@.contains_key(needle@));
                if entry_passes(&registry.entries[pinned], scope, availability) {
                    pin(registry, pinned, needle.as_str(), filtered, match_indices);
                }
            },
            None => {},
        }
    }
    proof {
        assert(index_lists(match_indices@).len() == match_indices@.len());
        lemma_listing_lengths(input@, *registry, scope, *availability, matches@);
    }
    *selected = nav_clamp(filtered.len(), *selected);
}

proof fn lemma_listing_lengths(
    input: Seq<char>,
    registry: Registry,
    scope: PaletteScope,
    availability: Availability,
    matches: Seq<FuzzyMatch>,
)
    ensures
        listed(input, registry, scope, availability, matches).rows.len() == listed(
            input,
            registry,
            scope,
            availability,
            matches,
        ).indices.len(),
{
    lemma_row_named(
        registry.entries@,
        ranked(registry.entries@, matches).rows,
        registry.entries@[registry.resolves(trimmed(input))->0 as int].name@,
        0,
    );
}

proof fn lemma_row_named(
    entries: Seq<RegistryEntry>,
    rows: Seq<usize>,
    name: Seq<char>,
    i: int,
)
    requires
        0 <= i <= rows.len(),
    ensures
        i <= row_named(entries, rows, name, i) <= rows.len(),
    decreases rows.len() - i,
{
    if i < rows.len() && entries[rows[i] as int].name@ != name {
        lemma_row_named(entries, rows, name, i + 1);
    }
}

/// What was typed in full, as a name or an alias of a listed action, stands at
/// the top.
pub proof fn an_exact_name_stands_at_the_top(
    input: Seq<char>,
    registry: Registry,
    scope: PaletteScope,
    availability: Availability,
    matches: Seq<FuzzyMatch>,
)
    requires
        !is_blank(input),
        registry.resolves(trimmed(input)) is Some,
        passes(
            registry.entries@[registry.resolves(trimmed(input))->0 as int],
            scope,
            availability,
        ),
    ensures
        listed(input, registry, scope, availability, matches).rows.len() > 0,
        listed(input, registry, scope, availability, matches).rows[0] == registry.resolves(
            trimmed(input),
        )->0,
{
    lemma_row_named(
        registry.entries@,
        ranked(registry.entries@, matches).rows,
        registry.entries@[registry.resolves(trimmed(input))->0 as int].name@,
        0,
    );
}

/// Whatever the narrow scope lists the wide one lists too.
pub proof fn the_wide_scope_lists_more(entry: RegistryEntry, availability: Availability)
    ensures
        passes(entry, PaletteScope::Active, availability) ==> passes(
            entry,
            PaletteScope::All,
            availability,
        ),
        passes(entry, PaletteScope::All, availability) == entry.palette_visible,
{
}

// ---------------------------------------------------------------------------
// Choosing an argument
// ---------------------------------------------------------------------------

/// A list of paths that a walk fills and a query filters.
pub struct PathPicker {
    pub all_paths: Vec<String>,
    /// The rows shown, as places in `all_paths`.
    pub filtered: Vec<usize>,
    pub selected: usize,
    /// The height the list was rendered at last.
    pub viewport_rows: Option<usize>,
    /// Whether a walk is still feeding the list.
    pub walking: bool,
}

impl PathPicker {
    /// Every row names a path, and the selection is one of the rows.
    pub open spec fn wf(&self) -> bool {
        &&& forall|i: int|
            0 <= i < self.filtered@.len() ==> #[trigger] self.filtered@[i] < self.all_paths@.len()
        &&& self.selected == clamped(self.filtered@.len() as int, self.selected as int)
    }

    /// The path of the selected row.
    pub open spec fn chosen(&self) -> Option<String> {
        if self.selected < self.filtered@.len() {
            Some(self.all_paths@[self.filtered@[self.selected as int] as int])
        } else {
            None
        }
    }

    /// The path of the selected row.
    pub fn selected_path(&self) -> (path: Option<&String>)
        requires
            self.wf(),
        ensures
            match path {
                Some(p) => self.chosen() == Some(*p),
                None => self.chosen() is None,
            },
    {
        if self.selected < self.filtered.len() {
            let at: usize = self.filtered[self.selected];
            Some(&self.all_paths[at])
        } else {
            None
        }
    }

    /// Move the selection by `delta`, stopping at the ends of the list.
    pub fn move_selection(&mut self, delta: i32)
        requires
            old(self).wf(),
        ensures
            final(self).wf(),
            final(self).selected == clamped(
                old(self).filtered@.len() as int,
                old(self).selected + delta,
            ),
            *final(self) == (PathPicker { selected: final(self).selected, ..*old(self) }),
    {
        self.selected = nav_move(self.filtered.len(), self.selected, delta);
    }

    /// Page the selection by half the rendered height in `dir`.
    pub fn page(&mut self, dir: i32)
        requires
            old(self).wf(),
            i32::MIN <= dir * page_step(old(self).viewport_rows) <= i32::MAX,
        ensures
            final(self).wf(),
            final(self).selected == clamped(
                old(self).filtered@.len() as int,
                old(self).selected + dir * page_step(old(self).viewport_rows),
            ),
            *final(self) == (PathPicker { selected: final(self).selected, ..*old(self) }),
    {
        let step: i32 = nav_page_step(self.viewport_rows);
        self.move_selection(dir * step);
    }

    /// Show the rows that ranking the paths gave, keeping the selection in
    /// them.
    pub fn refilter(&mut self, order: Vec<usize>)
        requires
            old(self).wf(),
            forall|i: int|
                0 <= i < order@.len() ==> #[trigger] order@[i] < old(self).all_paths@.len(),
        ensures
            final(self).wf(),
            *final(self) == (PathPicker {
                filtered: order,
                selected: clamped(order@.len() as int, old(self).selected as int) as usize,
                ..*old(self)
            }),
    {
        self.selected = nav_clamp(order.len(), self.selected);
        self.filtered = order;
    }

    /// Take in what the walk found.
    fn take_in(&mut self, arrived: Vec<String>)
        requires
            old(self).wf(),
        ensures
            final(self).wf(),
            final(self).all_paths@ == old(self).all_paths@ + arrived@,
            *final(self) == (PathPicker { all_paths: final(self).all_paths, ..*old(self) }),
    {
        let mut arrived = arrived;
        self.all_paths.append(&mut arrived);
    }
}

/// A walk of a typed directory.
pub struct Browse {
    /// The name begun after the last `/`.
    pub partial: String,
    pub picker: PathPicker,
}

/// The inline value-picker the palette shows while collecting a file,
/// directory or buffer argument.
///
/// The palette parses the command's trailing argument and drives the list with
/// it, so `:o src/ma` filters the same way the standalone finder does.
pub struct ArgPicker {
    /// Whether this picker lists workspace files, directories, or open
    /// buffers. Selects the preview policy.
    pub source: ValueSource,
    /// The list. A file picker leaves its walk feeding it; a buffer picker
    /// seeds it with the open buffers and has no walk.
    pub core: PathPicker,
    /// Active directory-browse mode for a `/` or `~/` directory argument, or
    /// `None` for the workspace-derived list: a separate walk rooted at the
    /// typed directory, leaving `core` untouched so backspacing out of the
    /// path restores the workspace list.
    pub browse: Option<Browse>,
}

/// What the preview beside the list shows.
#[derive(Debug, Clone, Copy, PartialEq, Eq, Structural)]
pub enum PreviewPolicy {
    /// The live buffer, falling back to the file when the path has none.
    LiveBufferThenFile,
    /// Nothing.
    NoPreview,
    /// The file.
    File,
}

/// What the preview shows for an argument of this source.
pub open spec fn policy_of(source: ValueSource) -> PreviewPolicy {
    match source {
        ValueSource::Buffers => PreviewPolicy::LiveBufferThenFile,
        ValueSource::Directories => PreviewPolicy::NoPreview,
        ValueSource::Themes => PreviewPolicy::NoPreview,
        _ => PreviewPolicy::File,
    }
}

/// The picker currently driving the list.
pub open spec fn active(picker: ArgPicker) -> PathPicker {
    match picker.browse {
        Some(browse) => browse.picker,
        None => picker.core,
    }
}

/// The argument picker with another picker driving the list.
pub open spec fn with_active(before: ArgPicker, after: ArgPicker, list: PathPicker) -> bool {
    &&& after.source == before.source
    &&& match (before.browse, after.browse) {
        (Some(b), Some(a)) => a.partial == b.partial && a.picker == list && after.core
            == before.core,
        (None, None) => after.core == list,
        _ => false,
    }
}

/// `after` is `before` with the paths that its active walk found taken in. A
/// browsing walk stops at `cap` paths.
pub open spec fn took_in(before: ArgPicker, after: ArgPicker, arrived: Seq<String>, cap: usize) -> bool {
    &&& after.source == before.source
    &&& match (before.browse, after.browse) {
        (Some(b), Some(a)) => {
            let all = b.picker.all_paths@ + arrived;
            &&& a.partial == b.partial
            &&& a.picker.all_paths@ == (if all.len() >= cap {
                all.take(cap as int)
            } else {
                all
            })
            &&& a.picker.walking == (b.picker.walking && all.len() < cap)
            &&& a.picker.filtered == b.picker.filtered
            &&& a.picker.selected == b.picker.selected
            &&& a.picker.viewport_rows == b.picker.viewport_rows
            &&& after.core == before.core
        },
        (None, None) => {
            &&& after.core.all_paths@ == before.core.all_paths@ + arrived
            &&& after.core == (PathPicker { all_paths: after.core.all_paths, ..before.core })
        },
        _ => false,
    }
}

/// What the list is filtered by: the name begun while browsing, else the
/// argument.
pub open spec fn query_of(picker: ArgPicker, query: Seq<char>) -> Seq<char> {
    match picker.browse {
        Some(browse) => browse.partial@,
        None => query,
    }
}

/// `after` is `before` showing the rows `order`, the selection kept in them.
pub open spec fn shows_order(before: ArgPicker, after: ArgPicker, order: Vec<usize>) -> bool {
    with_active(
        before,
        after,
        PathPicker {
            filtered: order,
            selected: clamped(order@.len() as int, active(before).selected as int) as usize,
            ..active(before)
        },
    )
}

/// `rank` ranks any list of paths: the rows it gives name paths of the list.
pub open spec fn ranks_paths<R: Fn(&Vec<String>, &str) -> Vec<usize>>(rank: R) -> bool {
    &&& forall|paths: &Vec<String>, query: &str| #[trigger] call_requires(rank, (paths, query))
    &&& forall|paths: &Vec<String>, query: &str, order: Vec<usize>| #[trigger]
        call_ensures(rank, (paths, query), order) ==> forall|i: int|
            0 <= i < order@.len() ==> #[trigger] order@[i] < paths@.len()
}

/// `order` is what `rank` made of the active list of `picker`.
pub open spec fn ranked_by<R: Fn(&Vec<String>, &str) -> Vec<usize>>(
    rank: R,
    picker: ArgPicker,
    tail: Seq<char>,
    order: Vec<usize>,
) -> bool {
    exists|query: &str|
        query@ == query_of(picker, tail) && #[trigger] call_ensures(
            rank,
            (&active(picker).all_paths, query),
            order,
        )
}

/// `after` is what a frame makes of `before`: what the walk found is taken in,
/// and the list is ranked by the argument `tail`.
pub open spec fn synced<R: Fn(&Vec<String>, &str) -> Vec<usize>>(
    before: ArgPicker,
    after: ArgPicker,
    tail: Seq<char>,
    arrived: Seq<String>,
    cap: usize,
    rank: R,
) -> bool {
    exists|fed: ArgPicker, order: Vec<usize>|
        took_in(before, fed, arrived, cap) && ranked_by(rank, fed, tail, order)
            && #[trigger] shows_order(fed, after, order)
}

impl ArgPicker {
    pub open spec fn wf(&self) -> bool {
        &&& self.core.wf()
        &&& self.browse matches Some(browse) ==> browse.picker.wf()
    }

    /// A picker over `all_paths`, with a walk feeding it when `walking`.
    pub fn new(source: ValueSource, walking: bool, all_paths: Vec<String>) -> (picker: Self)
        ensures
            picker.wf(),
            picker.source == source,
            picker.core.all_paths == all_paths,
            picker.core.filtered@.len() == 0,
            picker.core.selected == 0,
            picker.core.viewport_rows is None,
            picker.core.walking == walking,
            picker.browse is None,
    {
        ArgPicker {
            source,
            core: PathPicker {
                all_paths,
                filtered: Vec::new(),
                selected: 0,
                viewport_rows: None,
                walking,
            },
            browse: None,
        }
    }

    /// The picker currently driving the list. Browse mode (a `/` or `~/`
    /// argument) swaps in its own directory-walk picker; every other argument
    /// drives the workspace list.
    pub fn active_core_ref(&self) -> (list: &PathPicker)
        ensures
            *list == active(*self),
    {
        match &self.browse {
            Some(browse) => &browse.picker,
            None => &self.core,
        }
    }

    /// The argument source this picker was installed for. The palette compares
    /// it against the currently-parsed command's argument source to detect a
    /// stale picker after the command head is edited.
    pub fn source(&self) -> (source: ValueSource)
        ensures
            source == self.source,
    {
        self.source
    }

    /// Path of the currently selected filtered row, if any.
    pub fn selected_path(&self) -> (path: Option<&String>)
        requires
            self.wf(),
        ensures
            match path {
                Some(p) => active(*self).chosen() == Some(*p),
                None => active(*self).chosen() is None,
            },
    {
        self.active_core_ref().selected_path()
    }

    /// Path of the selected row while directory-browse mode is active, or
    /// `None` when listing the workspace directories. Submit prefers this over
    /// the typed path so Enter descends into the highlighted directory.
    pub fn browse_selected_path(&self) -> (path: Option<&String>)
        requires
            self.wf(),
        ensures
            match path {
                Some(p) => self.browse is Some && self.browse->0.picker.chosen() == Some(*p),
                None => self.browse is None || self.browse->0.picker.chosen() is None,
            },
    {
        match &self.browse {
            Some(browse) => browse.picker.selected_path(),
            None => None,
        }
    }

    /// Adjust the selection cursor by `delta`, saturating at list bounds.
    pub fn move_selection(&mut self, delta: i32)
        requires
            old(self).wf(),
        ensures
            final(self).wf(),
            with_active(
                *old(self),
                *final(self),
                (PathPicker {
                    selected: clamped(
                        active(*old(self)).filtered@.len() as int,
                        active(*old(self)).selected + delta,
                    ) as usize,
                    ..active(*old(self))
                }),
            ),
    {
        match self.browse.take() {
            Some(browse) => {
                let mut browse = browse;
                browse.picker.move_selection(delta);
                self.browse = Some(browse);
            },
            None => {
                self.core.move_selection(delta);
            },
        }
    }

    /// Page the selection cursor by the rendered list height in `dir`.
    pub fn page(&mut self, dir: i32)
        requires
            old(self).wf(),
            i32::MIN <= dir * page_step(active(*old(self)).viewport_rows) <= i32::MAX,
        ensures
            final(self).wf(),
            with_active(
                *old(self),
                *final(self),
                (PathPicker {
                    selected: clamped(
                        active(*old(self)).filtered@.len() as int,
                        active(*old(self)).selected + dir * page_step(
                            active(*old(self)).viewport_rows,
                        ),
                    ) as usize,
                    ..active(*old(self))
                }),
            ),
    {
        match self.browse.take() {
            Some(browse) => {
                let mut browse = browse;
                browse.picker.page(dir);
                self.browse = Some(browse);
            },
            None => {
                self.core.page(dir);
            },
        }
    }

    /// Take in the paths that the active walk found since the last frame, and
    /// tell whether there were any. A browsing walk stops at `cap` paths.
    pub fn pump_walk(&mut self, arrived: Vec<String>, cap: usize) -> (pumped: bool)
        requires
            old(self).wf(),
            old(self).browse matches Some(browse) ==> browse.picker.all_paths@.len() <= cap,
        ensures
            final(self).wf(),
            pumped == (arrived@.len() > 0),
            took_in(*old(self), *final(self), arrived@, cap),
    {
        let pumped: bool = arrived.len() > 0;
        match self.browse.take() {
            Some(browse) => {
                let mut browse = browse;
                let ghost before = browse.picker.all_paths@;
                browse.picker.take_in(arrived);
                if browse.picker.all_paths.len() >= cap {
                    assert(forall|i: int|
                        0 <= i < browse.picker.filtered@.len()
                            ==> #[trigger] browse.picker.filtered@[i] < before.len());
                    browse.picker.all_paths.truncate(cap);
                    browse.picker.walking = false;
                }
                self.browse = Some(browse);
            },
            None => {
                self.core.take_in(arrived);
            },
        }
        pumped
    }

    /// What the list is filtered by: the name begun while browsing, else the
    /// argument.
    pub fn filter_query<'a>(&'a self, query: &'a str) -> (filter: &'a str)
        ensures
            filter@ == query_of(*self, query@),
    {
        match &self.browse {
            Some(browse) => browse.partial.as_str(),
            None => query,
        }
    }

    /// Show the rows that ranking the active list by [`Self::filter_query`]
    /// gave.
    pub fn refilter(&mut self, order: Vec<usize>)
        requires
            old(self).wf(),
            forall|i: int|
                0 <= i < order@.len() ==> #[trigger] order@[i] < active(
                    *old(self),
                ).all_paths@.len(),
        ensures
            final(self).wf(),
            shows_order(*old(self), *final(self), order),
    {
        match self.browse.take() {
            Some(browse) => {
                let mut browse = browse;
                browse.picker.refilter(order);
                self.browse = Some(browse);
            },
            None => {
                self.core.refilter(order);
            },
        }
    }

    /// What the preview beside the list shows. A buffer source previews the
    /// live in-memory buffer, falling back to the disk file when the path has
    /// none. A directory or theme source shows nothing. Every other source
    /// reads the file from disk.
    pub fn preview_policy(&self) -> (policy: PreviewPolicy)
        ensures
            policy == policy_of(self.source),
    {
        match self.source {
            ValueSource::Buffers => PreviewPolicy::LiveBufferThenFile,
            ValueSource::Directories | ValueSource::Themes => PreviewPolicy::NoPreview,
            _ => PreviewPolicy::File,
        }
    }

    /// Leave directory-browse mode. The workspace list is as it was before.
    pub fn leave_browse(&mut self)
        ensures
            *final(self) == (ArgPicker { browse: None, ..*old(self) }),
    {
        self.browse = None;
    }
}

// ---------------------------------------------------------------------------
// The palette
// ---------------------------------------------------------------------------

pub struct CommandPalette {
    /// The raw text typed after `:`. Parsed each frame into an optional
    /// command plus a trailing argument.
    pub input: String,
    /// Action entries matching the current filter text, in display order.
    /// Empty while a command is set, since arg mode replaces the action list
    /// with the argument picker.
    pub filtered: Vec<usize>,
    /// Per-row matched character offsets into each entry's name.
    pub match_indices: Vec<Vec<u32>>,
    pub selected: usize,
    /// `Some` once the input parses as a known command followed by a space:
    /// the palette is collecting that command's trailing argument inline.
    pub command: Option<usize>,
    /// Which subset of actions the palette currently lists.
    pub scope: PaletteScope,
    /// Snapshot taken when the palette opened, reused because the workspace
    /// cannot change while the palette is modal.
    pub availability: Availability,
    /// Rendered filter-list height in rows.
    pub viewport_rows: Option<usize>,
    /// Inline value-picker shown while collecting a picker-sourced argument.
    pub arg_picker: Option<ArgPicker>,
    /// Content-version stamp for the command list, a fresh one whenever the
    /// filter inputs changed. The numbers come from a counter that every picker
    /// draws on, so two lists never share one.
    pub generation: u64,
    /// The text and scope that the list was filtered by last.
    pub last_filter_key: Option<(String, PaletteScope)>,
}

/// What comes of a submit, before the argument is read.
#[derive(Debug, PartialEq, Eq)]
pub enum Submission {
    /// The palette stays open.
    Keep,
    /// Read `chosen` as the first argument of the entry, and hand what came of
    /// it to [`dispatch_argument`].
    Argument { entry: usize, chosen: String },
    /// The action is ready to dispatch; `line` goes into the history.
    Dispatch { entry: usize, line: String },
}

/// What comes of a submit.
#[derive(Debug, PartialEq, Eq)]
pub enum PaletteOutcome<P> {
    /// Re-render but keep the palette open.
    Keep,
    /// Close the palette.
    Close,
    /// An action is ready to dispatch, with any inline argument parsed into
    /// its parameter list. The line is the canonical, re-executable command
    /// line to record in palette history.
    Dispatch { entry: usize, params: Vec<P>, line: String },
}

/// The other scope.
pub open spec fn other_scope(scope: PaletteScope) -> PaletteScope {
    match scope {
        PaletteScope::Active => PaletteScope::All,
        PaletteScope::All => PaletteScope::Active,
    }
}

/// Toggling the scope twice brings it back.
pub proof fn toggling_twice_changes_nothing(scope: PaletteScope)
    ensures
        other_scope(other_scope(scope)) == scope,
{
}

/// The argument names a place in the filesystem outright.
pub open spec fn is_explicit_path(arg: Seq<char>) -> bool {
    let t = trimmed(arg);
    t.len() > 0 && (t[0] == '/' || t[0] == '~')
}

/// The path that the argument picker offers for the argument: an explicit path
/// takes the highlighted directory while browsing, anything else the
/// highlighted row. A picker for another source offers nothing.
pub open spec fn offered(picker: Option<ArgPicker>, source: ValueSource, arg: Seq<char>) -> Option<
    String,
> {
    match picker {
        Some(p) => if p.source != source {
            None
        } else if is_explicit_path(arg) {
            match p.browse {
                Some(browse) => browse.picker.chosen(),
                None => None,
            }
        } else {
            active(p).chosen()
        },
        None => None,
    }
}

/// The argument that a submit takes: what the picker offers, else what was
/// typed.
pub open spec fn taken(picker: Option<ArgPicker>, source: ValueSource, arg: Seq<char>) -> Seq<char> {
    match offered(picker, source, arg) {
        Some(path) => path@,
        None => arg,
    }
}

/// The action that a submit without an argument takes: at the top slot an
/// exact name or alias of the typed text, else the highlighted row.
pub open spec fn picked(palette: CommandPalette, registry: Registry) -> Option<usize> {
    if palette.selected == 0 && registry.resolves(trimmed(palette.input@)) is Some {
        registry.resolves(trimmed(palette.input@))
    } else if palette.selected < palette.filtered@.len() {
        Some(palette.filtered@[palette.selected as int])
    } else {
        None
    }
}

/// The first argument of the command, where it drives a picker.
pub open spec fn picker_source(command: Option<usize>, registry: Registry) -> Option<ValueSource> {
    match command {
        Some(entry) => if registry.entries@[entry as int].params@.len() > 0
            && registry.entries@[entry as int].params@[0].value_source != ValueSource::Typed {
            Some(registry.entries@[entry as int].params@[0].value_source)
        } else {
            None
        },
        None => None,
    }
}

impl CommandPalette {
    /// Every row names an entry and has its highlights, and so does the
    /// command whose argument is collected.
    pub open spec fn wf(&self, registry: Registry) -> bool {
        &&& forall|i: int|
            0 <= i < self.filtered@.len() ==> #[trigger] self.filtered@[i]
                < registry.entries@.len()
        &&& self.filtered@.len() == self.match_indices@.len()
        &&& self.selected == clamped(self.filtered@.len() as int, self.selected as int)
        &&& self.command matches Some(entry) ==> entry < registry.entries@.len()
        &&& self.arg_picker matches Some(picker) ==> picker.wf()
    }

    /// The rows and highlights are those of a listing.
    pub open spec fn shows(&self, listing: Listing) -> bool {
        self.filtered@ == listing.rows && index_lists(self.match_indices@) == listing.indices
    }

    /// A palette that lists every applicable action. `stamp` is the number that
    /// its list is known by.
    pub fn new(registry: &Registry, availability: Availability, stamp: u64) -> (palette: Self)
        requires
            registry.wf(),
        ensures
            palette.wf(*registry),
            palette.input@.len() == 0,
            palette.shows(
                listed(Seq::empty(), *registry, PaletteScope::Active, availability, Seq::empty()),
            ),
            palette.selected == 0,
            palette.command is None,
            palette.scope == PaletteScope::Active,
            palette.availability == availability,
            palette.viewport_rows is None,
            palette.arg_picker is None,
            palette.generation == stamp,
            palette.last_filter_key is None,
    {
        let scope = PaletteScope::Active;
        let mut filtered: Vec<usize> = Vec::new();
        let mut match_indices: Vec<Vec<u32>> = Vec::new();
        let mut selected: usize = 0;
        proof {
            reveal_strlit("");
            assert(""@ =~= Seq::<char>::empty());
        }
        refilter(
            "",
            registry,
            scope,
            &availability,
            &Vec::new(),
            &mut filtered,
            &mut match_indices,
            &mut selected,
        );
        CommandPalette {
            input: String::new(),
            filtered,
            match_indices,
            selected,
            command: None,
            scope,
            availability,
            viewport_rows: None,
            arg_picker: None,
            generation: stamp,
            last_filter_key: None,
        }
    }

    pub fn scope(&self) -> (scope: PaletteScope)
        ensures
            scope == self.scope,
    {
        self.scope
    }

    /// The list was filtered by this text and scope last.
    pub open spec fn filtered_by(&self, text: Seq<char>, scope: PaletteScope) -> bool {
        self.last_filter_key matches Some((t, s)) && t@ == text && s == scope
    }

    /// What re-reading the input makes of `before`, a palette whose filter
    /// inputs changed.
    pub open spec fn reread_from(
        &self,
        before: Self,
        registry: Registry,
        matches: Seq<FuzzyMatch>,
        stamp: u64,
    ) -> bool {
        let text = before.input@;
        &&& self.filtered_by(text, before.scope)
        &&& self.generation == stamp
        &&& match command_in(text, registry) {
            Some((entry, _)) => self.command == Some(entry) && self.filtered@.len() == 0
                && self.match_indices@.len() == 0 && self.selected == 0,
            None => self.command is None && self.shows(
                listed(text, registry, before.scope, before.availability, matches),
            ) && self.selected == clamped(self.filtered@.len() as int, before.selected as int),
        }
        &&& *self == (CommandPalette {
            filtered: self.filtered,
            match_indices: self.match_indices,
            selected: self.selected,
            command: self.command,
            generation: self.generation,
            last_filter_key: self.last_filter_key,
            ..before
        })
    }

    /// Re-parse the input into an optional command and refilter the action
    /// list. `matches` is what ranking the [`visible`] command names against
    /// the input gave, `stamp` a number that no list of a picker has had yet.
    ///
    /// When the input parses as `<command> <arg>` (see [`parse_command`]) the
    /// palette enters arg mode, setting the command and clearing the action
    /// list since the argument picker replaces it. Otherwise the action list
    /// is refiltered against the full text. An unchanged input and scope mean
    /// an identical result, so nothing is done.
    pub fn refilter_from_input(&mut self, registry: &Registry, matches: &Vec<FuzzyMatch>, stamp: u64)
        requires
            registry.wf(),
            old(self).wf(*registry),
            !is_blank(old(self).input@) ==> are_of_listed(
                matches@,
                *registry,
                old(self).scope,
                old(self).availability,
            ),
        ensures
            final(self).wf(*registry),
            old(self).filtered_by(old(self).input@, old(self).scope) ==> *final(self) == *old(self),
            !old(self).filtered_by(old(self).input@, old(self).scope) ==> final(self).reread_from(
                *old(self),
                *registry,
                matches@,
                stamp,
            ),
    {
        let unchanged: bool = match &self.last_filter_key {
            Some((text, scope)) => same(text.as_str(), self.input.as_str()) && *scope == self.scope,
            None => false,
        };
        if unchanged {
            return ;
        }
        self.last_filter_key = Some((self.input.clone(), self.scope));
        self.generation = stamp;
        match parse_command(self.input.as_str(), registry) {
            Some((entry, _arg)) => {
                self.command = Some(entry);
                self.filtered.clear();
                self.match_indices.clear();
                self.selected = 0;
            },
            None => {
                self.command = None;
                let mut selected: usize = self.selected;
                refilter(
                    self.input.as_str(),
                    registry,
                    self.scope,
                    &self.availability,
                    matches,
                    &mut self.filtered,
                    &mut self.match_indices,
                    &mut selected,
                );
                self.selected = selected;
            },
        }
    }

    /// Flip the palette's scope and re-run the current-input filter against
    /// the new one. `matches` is what ranking the names that the new scope
    /// lists gave, `stamp` a number that no list of a picker has had yet.
    pub fn toggle_scope(&mut self, registry: &Registry, matches: &Vec<FuzzyMatch>, stamp: u64)
        requires
            registry.wf(),
            old(self).wf(*registry),
            !is_blank(old(self).input@) ==> are_of_listed(
                matches@,
                *registry,
                other_scope(old(self).scope),
                old(self).availability,
            ),
        ensures
            final(self).wf(*registry),
            final(self).scope == other_scope(old(self).scope),
            old(self).filtered_by(old(self).input@, other_scope(old(self).scope)) ==> *final(self)
                == (CommandPalette { scope: other_scope(old(self).scope), ..*old(self) }),
            !old(self).filtered_by(old(self).input@, other_scope(old(self).scope))
                ==> final(self).reread_from(
                (CommandPalette { scope: other_scope(old(self).scope), ..*old(self) }),
                *registry,
                matches@,
                stamp,
            ),
    {
        self.scope = match self.scope {
            PaletteScope::Active => PaletteScope::All,
            PaletteScope::All => PaletteScope::Active,
        };
        self.refilter_from_input(registry, matches, stamp);
    }

    /// The value source of the current command's first argument when it drives
    /// an inline picker (e.g. `:o `, `:cd `, `:b `), or `None` otherwise. Gates
    /// rendering the picker and routing selection keys to it.
    pub fn arg_source(&self, registry: &Registry) -> (source: Option<ValueSource>)
        requires
            self.wf(*registry),
        ensures
            source == picker_source(self.command, *registry),
    {
        match self.command {
            Some(entry) => {
                let params = &registry.entries[entry].params;
                if params.len() > 0 && params[0].value_source != ValueSource::Typed {
                    Some(params[0].value_source)
                } else {
                    None
                }
            },
            None => None,
        }
    }

    /// The trailing argument text in picker-argument mode, or `None`
    /// otherwise. Drives the inline picker's filter. The tail is everything
    /// after the command token, so a path argument may contain spaces.
    pub fn arg_tail(&self, registry: &Registry) -> (tail: Option<String>)
        requires
            self.wf(*registry),
        ensures
            match tail {
                Some(t) => picker_source(self.command, *registry) is Some && (split_at_space(
                    self.input@,
                ) matches Some((_, arg)) && t@ == arg),
                None => picker_source(self.command, *registry) is None || split_at_space(
                    self.input@,
                ) is None,
            },
    {
        if self.arg_source(registry).is_none() {
            return None;
        }
        match split_once(self.input.as_str()) {
            Some((_head, tail)) => Some(tail),
            None => None,
        }
    }

    /// Install the inline picker for `source`. No-op when a picker already
    /// exists, so the per-frame sync can call this unconditionally on entering
    /// argument mode.
    pub fn install_arg_picker(&mut self, source: ValueSource, walking: bool, all_paths: Vec<String>)
        ensures
            old(self).arg_picker is Some ==> *final(self) == *old(self),
            old(self).arg_picker is None ==> *final(self) == (CommandPalette {
                arg_picker: final(self).arg_picker,
                ..*old(self)
            }) && (final(self).arg_picker matches Some(picker) && picker.wf() && picker.source
                == source && picker.core.all_paths == all_paths && picker.core.walking == walking
                && picker.core.filtered@.len() == 0 && picker.core.selected == 0
                && picker.core.viewport_rows is None && picker.browse is None),
    {
        if self.arg_picker.is_none() {
            self.arg_picker = Some(ArgPicker::new(source, walking, all_paths));
        }
    }

    /// Drive the inline picker for one frame: take in what its walk found, up
    /// to `cap` paths while browsing, and refilter against the argument `tail`
    /// with `rank`. Gives what the preview is to show, or `None` when no
    /// picker is installed.
    pub fn sync_arg_picker<R: Fn(&Vec<String>, &str) -> Vec<usize>>(
        &mut self,
        tail: &str,
        arrived: Vec<String>,
        cap: usize,
        rank: R,
    ) -> (preview: Option<PreviewPolicy>)
        requires
            old(self).arg_picker matches Some(picker) ==> picker.wf() && (picker.browse matches Some(
                browse,
            ) ==> browse.picker.all_paths@.len() <= cap),
            ranks_paths(rank),
        ensures
            *final(self) == (CommandPalette { arg_picker: final(self).arg_picker, ..*old(self) }),
            match (old(self).arg_picker, final(self).arg_picker) {
                (Some(before), Some(after)) => after.wf() && synced(
                    before,
                    after,
                    tail@,
                    arrived@,
                    cap,
                    rank,
                ) && preview == Some(policy_of(before.source)),
                (None, None) => preview is None,
                _ => false,
            },
    {
        match self.arg_picker.take() {
            Some(picker) => {
                let mut picker = picker;
                let ghost before = picker;
                picker.pump_walk(arrived, cap);
                let ghost fed = picker;
                let order = rank(&picker.active_core_ref().all_paths, picker.filter_query(tail));
                assert(ranked_by(rank, fed, tail@, order));
                picker.refilter(order);
                assert(shows_order(fed, picker, order));
                let preview = picker.preview_policy();
                self.arg_picker = Some(picker);
                Some(preview)
            },
            None => None,
        }
    }

    /// Tear down the installed argument picker, when the parsed command's
    /// argument source changed and a fresh one is to take its place.
    pub fn dispose_arg_picker(&mut self)
        ensures
            *final(self) == (CommandPalette { arg_picker: None, ..*old(self) }),
    {
        self.arg_picker = None;
    }

    /// The effective submit step of the palette.
    ///
    /// In arg mode (the input parses as `<command> <arg>`) the trailing
    /// argument is to be read as the command's first parameter. Otherwise the
    /// selected action is taken. One that runs without an argument is
    /// dispatched immediately, while a parameter-taking action rewrites the
    /// input to `"<name> "` to begin inline argument entry.
    pub fn handle_submit(&mut self, registry: &Registry) -> (submission: Submission)
        requires
            registry.wf(),
            old(self).wf(*registry),
        ensures
            final(self).wf(*registry),
            match command_in(old(self).input@, *registry) {
                Some((entry, arg)) => *final(self) == *old(self) && (submission matches
                    Submission::Argument { entry: e, chosen } && e == entry && chosen@ == taken(
                    old(self).arg_picker,
                    registry.entries@[entry as int].params@[0].value_source,
                    arg,
                )),
                None => match picked(*old(self), *registry) {
                    Some(entry) => if runs_bare(registry.entries@[entry as int]) {
                        *final(self) == *old(self) && (submission matches Submission::Dispatch {
                            entry: e,
                            line,
                        } && e == entry && line@ == head_of(registry.entries@[entry as int]))
                    } else {
                        submission == Submission::Keep && final(self).input@
                            == registry.entries@[entry as int].command_name@.push(' ')
                            && *final(self) == (CommandPalette {
                            input: final(self).input,
                            ..*old(self)
                        })
                    },
                    None => *final(self) == *old(self) && submission == Submission::Keep,
                },
            },
    {
        match parse_command(self.input.as_str(), registry) {
            Some((entry, arg)) => {
                let source: ValueSource = registry.entries[entry].params[0].value_source;
                let chosen: String = match self.offered_path(source, arg.as_str()) {
                    Some(path) => path,
                    None => arg,
                };
                return Submission::Argument { entry, chosen };
            },
            None => {},
        }
        let typed = trim(self.input.as_str());
        let exact: Option<usize> = registry.lookup_alias(typed.as_str());
        let choice: Option<usize> = if self.selected == 0 && exact.is_some() {
            exact
        } else if self.selected < self.filtered.len() {
            Some(self.filtered[self.selected])
        } else {
            None
        };
        match choice {
            Some(entry) => {
                assert(entry < registry.entries@.len()) by {
                    if self.selected == 0 && registry.resolves(trimmed(self.input@)) is Some {
                        assert(registry.tokens@.contains_key(typed@));
                    }
                }
                let found = &registry.entries[entry];
                if dispatches_bare(found) {
                    Submission::Dispatch { entry, line: history_head(found).clone() }
                } else {
                    let mut text = found.command_name.clone();
                    text.push(' ');
                    self.input = text;
                    Submission::Keep
                }
            },
            None => Submission::Keep,
        }
    }

    /// The path that the argument picker offers for an argument.
    fn offered_path(&self, source: ValueSource, arg: &str) -> (path: Option<String>)
        requires
            self.arg_picker matches Some(picker) ==> picker.wf(),
        ensures
            path == offered(self.arg_picker, source, arg@),
    {
        match &self.arg_picker {
            Some(picker) => {
                if picker.source != source {
                    return None;
                }
                let t = chars_of(trim(arg).as_str());
                let explicit: bool = t.len() > 0 && (t[0] == '/' || t[0] == '~');
                let found = if explicit {
                    picker.browse_selected_path()
                } else {
                    picker.selected_path()
                };
                match found {
                    Some(path) => Some(path.clone()),
                    None => None,
                }
            },
            None => None,
        }
    }
}

/// What comes of a submit in arg mode, once the argument was read. `parsed` is
/// `None` for an argument that the command does not take, which keeps the
/// palette open.
pub fn dispatch_argument<P>(
    registry: &Registry,
    entry: usize,
    chosen: &str,
    parsed: Option<P>,
) -> (outcome: PaletteOutcome<P>)
    requires
        entry < registry.entries@.len(),
    ensures
        match parsed {
            Some(value) => outcome matches PaletteOutcome::Dispatch { entry: e, params, line }
                && e == entry && params@ == seq![value] && line@ == head_of(
                registry.entries@[entry as int],
            ).push(' ') + chosen@,
            None => outcome is Keep,
        },
{
    match parsed {
        Some(value) => {
            let mut line = history_head(&registry.entries[entry]).clone();
            line.push(' ');
            line.append(chosen);
            let mut params: Vec<P> = Vec::new();
            params.push(value);
            assert(params@ =~= seq![value]);
            PaletteOutcome::Dispatch { entry, params, line }
        },
        None => PaletteOutcome::Keep,
    }
}

// ---------------------------------------------------------------------------
// Laws
// ---------------------------------------------------------------------------

/// An action is there where what it acts on is: the rebase plan, a rebase under
/// way, its reword or its conflict, the review, the list of commits, or the run
/// that has the focus. The others are always there.
pub proof fn an_action_is_there_where_it_acts(kind: ActionKind, ctx: Availability)
    ensures
        (kind is AbortRebase
            || kind is ExecuteRebase
            || kind is RebaseNext
            || kind is RebasePrev
            || kind is RebaseMoveUp
            || kind is RebaseMoveDown
            || kind is SetRebaseOpPick
            || kind is SetRebaseOpSquash
            || kind is SetRebaseOpFixup
            || kind is SetRebaseOpDrop
            || kind is SetRebaseOpReword
            || kind is SetRebaseOpEdit) ==> is_met(needs(kind), ctx) == ctx.in_rebase_plan,
        (kind is RebaseContinue) ==> is_met(needs(kind), ctx) == ctx.in_rebase_exec,
        (kind is RewordConfirm
            || kind is RewordAbort) ==> is_met(needs(kind), ctx) == ctx.in_rebase_reword,
        (kind is RebaseConflictTakeOurs
            || kind is RebaseConflictTakeTheirs
            || kind is RebaseConflictSkipEntry
            || kind is RebaseConflictNextFile
            || kind is RebaseConflictPrevFile
            || kind is RebaseConflictApply
            || kind is RebaseConflictAbort) ==> is_met(needs(kind), ctx) == ctx.in_conflict,
        (kind is ReviewNextChunk
            || kind is ReviewPrevChunk
            || kind is ReviewStageChunk
            || kind is ReviewUnstageChunk
            || kind is ReviewToggleStage
            || kind is ReviewSkipChunk
            || kind is ReviewRefresh
            || kind is ReviewApplyStaged
            || kind is CloseReview
            || kind is ReviewRemoveSelected
            || kind is JumpToMoveSource
            || kind is JumpToMoveTarget
            || kind is JumpToNextMoveSource
            || kind is JumpToPrevMoveSource
            || kind is QueryMoveRelationships) ==> is_met(needs(kind), ctx) == ctx.review_open,
        (kind is EnterRebase
            || kind is CloseCommits
            || kind is CommitsNext
            || kind is CommitsPrev
            || kind is CommitsPageDown
            || kind is CommitsPageUp
            || kind is CommitsFirst
            || kind is CommitsLast
            || kind is CommitsRefresh
            || kind is CommitsOpenReview) ==> is_met(needs(kind), ctx) == ctx.commits_open,
        (kind is RunSubmit
            || kind is RunInterrupt
            || kind is RunHistoryPrev
            || kind is RunHistoryNext) ==> is_met(needs(kind), ctx) == ctx.run_focused,
        kind is Global ==> is_met(needs(kind), ctx),
{
}

proof fn lemma_first_space(s: Seq<char>, i: int)
    requires
        0 <= i <= s.len(),
    ensures
        i <= space_from(s, i) <= s.len(),
        forall|k: int| i <= k < space_from(s, i) ==> #[trigger] s[k] != ' ',
        space_from(s, i) < s.len() ==> s[space_from(s, i)] == ' ',
    decreases s.len() - i,
{
    if i < s.len() && s[i] != ' ' {
        lemma_first_space(s, i + 1);
    }
}

/// The first space ends the command, and all behind it is the argument; without
/// a space there is none.
pub proof fn the_first_space_ends_the_command(s: Seq<char>)
    ensures
        match split_at_space(s) {
            Some((head, tail)) => s == head + seq![' '] + tail && !head.contains(' '),
            None => !s.contains(' '),
        },
{
    lemma_first_space(s, 0);
    let at = space_from(s, 0);
    match split_at_space(s) {
        Some((head, tail)) => {
            assert(s =~= head + seq![' '] + tail);
            if head.contains(' ') {
                let k = choose|k: int| 0 <= k < head.len() && head[k] == ' ';
                assert(s[k] == ' ');
            }
        },
        None => {
            if s.contains(' ') {
                let k = choose|k: int| 0 <= k < s.len() && s[k] == ' ';
                assert(s[k] != ' ');
            }
        },
    }
}

/// A line is a command with its argument exactly where a space stands in it, a
/// known name or alias stands before the first one, and the command takes an
/// argument.
pub proof fn a_line_is_a_command_with_its_argument(
    head: Seq<char>,
    arg: Seq<char>,
    registry: Registry,
)
    requires
        !head.contains(' '),
    ensures
        ({
            let found = command_in(head + seq![' '] + arg, registry);
            if registry.tokens@.contains_key(head) {
                let entry = registry.tokens@[head];
                if registry.entries@[entry as int].params@.len() > 0 {
                    found == Some((entry, arg))
                } else {
                    found is None
                }
            } else {
                found is None
            }
        }),
        command_in(head, registry) is None,
{
    let s = head + seq![' '] + arg;
    the_first_space_ends_the_command(s);
    the_first_space_ends_the_command(head);
    assert(s[head.len() as int] == ' ');
    match split_at_space(s) {
        Some((h, t)) => {
            if h.len() < head.len() {
                assert((h + seq![' '] + t)[h.len() as int] == ' ');
                assert(s[h.len() as int] == head[h.len() as int]);
                assert(head.contains(' '));
            } else if head.len() < h.len() {
                assert((h + seq![' '] + t)[head.len() as int] == h[head.len() as int]);
                assert(h.contains(' '));
            }
            assert(h.len() == head.len());
            assert(s.take(h.len() as int) =~= h);
            assert(s.take(h.len() as int) =~= head);
            assert(s.skip(h.len() as int + 1) =~= t);
            assert(s.skip(h.len() as int + 1) =~= arg);
        },
        None => {},
    }
    match split_at_space(head) {
        Some((h, t)) => {
            assert(head[h.len() as int] == ' ');
        },
        None => {},
    }
}

proof fn lemma_listable(
    entries: Seq<RegistryEntry>,
    scope: PaletteScope,
    availability: Availability,
    n: nat,
)
    requires
        n <= entries.len() <= usize::MAX,
    ensures
        forall|k: int|
            0 <= k < n && passes(#[trigger] entries[k], scope, availability) ==> listable(
                entries,
                scope,
                availability,
                n,
            ).contains(k as usize),
        forall|i: int|
            0 <= i < listable(entries, scope, availability, n).len() ==> (#[trigger] listable(
                entries,
                scope,
                availability,
                n,
            )[i]) < n && passes(
                entries[listable(entries, scope, availability, n)[i] as int],
                scope,
                availability,
            ),
        listable(entries, scope, availability, n).no_duplicates(),
        listable(entries, scope, availability, n).len() <= n,
    decreases n,
{
    if n > 0 {
        let p = (n - 1) as nat;
        lemma_listable(entries, scope, availability, p);
        let before = listable(entries, scope, availability, p);
        let all = listable(entries, scope, availability, n);
        assert forall|k: int|
            0 <= k < n && passes(#[trigger] entries[k], scope, availability) implies all.contains(
            k as usize,
        ) by {
            if k < p {
                assert(before.contains(k as usize));
                let i = choose|i: int| 0 <= i < before.len() && before[i] == k as usize;
                assert(all[i] == k as usize);
            } else {
                assert(all.last() == k as usize);
            }
        }
        assert forall|i: int| 0 <= i < all.len() implies (#[trigger] all[i]) < n && passes(
            entries[all[i] as int],
            scope,
            availability,
        ) by {
            if i < before.len() {
                assert(all[i] == before[i]);
            }
        }
    }
}

/// A blank input lists every action that is to be shown, each once: in the wide
/// scope those that are visible, in the narrow one those of them that are there.
/// They come by priority and then by name, with nothing highlighted.
pub proof fn a_blank_input_lists_every_action(
    input: Seq<char>,
    registry: Registry,
    scope: PaletteScope,
    availability: Availability,
    matches: Seq<FuzzyMatch>,
    list: Listing,
)
    requires
        is_blank(input),
        registry.entries@.len() <= usize::MAX,
        list == listed(input, registry, scope, availability, matches),
    ensures
        forall|k: int|
            0 <= k < registry.entries@.len() && (#[trigger] registry.entries@[k]).palette_visible
                && (scope is All || is_met(needs(registry.entries@[k].kind), availability))
                ==> list.rows.contains(k as usize),
        forall|i: int|
            0 <= i < list.rows.len() ==> (#[trigger] list.rows[i]) < registry.entries@.len()
                && registry.entries@[list.rows[i] as int].palette_visible && (scope is All
                || is_met(needs(registry.entries@[list.rows[i] as int].kind), availability)),
        forall|i: int, j: int|
            0 <= i < j < list.rows.len() ==> {
                let a = registry.entries@[#[trigger] list.rows[i] as int];
                let b = registry.entries@[#[trigger] list.rows[j] as int];
                a.priority < b.priority || a.priority == b.priority && !lex_before(
                    b.command_name@,
                    a.command_name@,
                )
            },
        list.indices.len() == list.rows.len(),
        forall|i: int| 0 <= i < list.indices.len() ==> (#[trigger] list.indices[i]).len() == 0,
{
    let entries = registry.entries@;
    let all = listable(entries, scope, availability, entries.len());
    let keys = priority_keys(entries, all);
    lemma_listable(entries, scope, availability, entries.len());
    arranging_keeps_every_entry(keys, all);
    every_list_has_an_order(keys);
    let order = the_order(keys);
    assert forall|k: int|
        0 <= k < entries.len() && (#[trigger] entries[k]).palette_visible && (scope is All || is_met(
            needs(entries[k].kind),
            availability,
        )) implies list.rows.contains(k as usize) by {
        assert(passes(entries[k], scope, availability));
        assert(all.contains(k as usize));
    }
    assert forall|i: int| 0 <= i < list.rows.len() implies (#[trigger] list.rows[i]) < entries.len()
        && entries[list.rows[i] as int].palette_visible && (scope is All || is_met(
        needs(entries[list.rows[i] as int].kind),
        availability,
    )) by {
        assert(list.rows.contains(list.rows[i]));
        let k = choose|k: int| 0 <= k < all.len() && all[k] == list.rows[i];
        assert(passes(entries[all[k] as int], scope, availability));
    }
    assert forall|i: int, j: int| 0 <= i < j < list.rows.len() implies {
        let a = entries[#[trigger] list.rows[i] as int];
        let b = entries[#[trigger] list.rows[j] as int];
        a.priority < b.priority || a.priority == b.priority && !lex_before(
            b.command_name@,
            a.command_name@,
        )
    } by {
        assert(!keys[order[j] as int].ranks_before(keys[order[i] as int]));
        assert(list.rows[i] == all[order[i] as int] && list.rows[j] == all[order[j] as int]);
    }
}

/// What matched the input is listed, each match with its highlighted characters,
/// the best score first, then by priority and name.
pub proof fn the_best_score_comes_first(
    entries: Seq<RegistryEntry>,
    matches: Seq<FuzzyMatch>,
    list: Listing,
    k: int,
)
    requires
        matches.len() <= usize::MAX,
        list == ranked(entries, matches),
        0 <= k < matches.len(),
    ensures
        list.rows.len() == matches.len(),
        list.indices.len() == matches.len(),
        exists|i: int|
            0 <= i < list.rows.len() && #[trigger] list.rows[i] == matches[k].entry && list.indices[i]
                == matches[k].matched_indices@,
        forall|i: int, j: int|
            0 <= i < j < list.rows.len() ==> comes_first(
                entries,
                matches,
                #[trigger] list.rows[i],
                #[trigger] list.rows[j],
            ),
{
    let keys = score_keys(entries, matches);
    let sorted = arranged(keys, matches);
    arranging_keeps_every_entry(keys, matches);
    every_list_has_an_order(keys);
    let order = the_order(keys);
    assert(matches.contains(matches[k]));
    assert(sorted.contains(matches[k]));
    let i = choose|i: int| 0 <= i < sorted.len() && sorted[i] == matches[k];
    assert(list.rows[i] == matches[k].entry);
    assert forall|i: int, j: int| 0 <= i < j < list.rows.len() implies comes_first(
        entries,
        matches,
        #[trigger] list.rows[i],
        #[trigger] list.rows[j],
    ) by {
        assert(!keys[order[j] as int].ranks_before(keys[order[i] as int]));
        assert(in_turn(entries, matches, list.rows[i], list.rows[j], order[i] as int, order[j] as int));
    }
}

/// Match number `m` is of the entry `a` and match number `n` of the entry `b`,
/// and the first is not worse: it scores higher, or as high with a priority
/// that comes first, or with the same and a name that does not come after.
pub open spec fn in_turn(
    entries: Seq<RegistryEntry>,
    matches: Seq<FuzzyMatch>,
    a: usize,
    b: usize,
    m: int,
    n: int,
) -> bool {
    &&& 0 <= m < matches.len()
    &&& 0 <= n < matches.len()
    &&& matches[m].entry == a
    &&& matches[n].entry == b
    &&& matches[m].score > matches[n].score || matches[m].score == matches[n].score && (
    entries[a as int].priority < entries[b as int].priority || entries[a as int].priority
        == entries[b as int].priority && !lex_before(
        entries[b as int].command_name@,
        entries[a as int].command_name@,
    ))
}

/// Some match of the entry `a` is not worse than some match of the entry `b`.
pub open spec fn comes_first(
    entries: Seq<RegistryEntry>,
    matches: Seq<FuzzyMatch>,
    a: usize,
    b: usize,
) -> bool {
    exists|m: int, n: int| #[trigger] in_turn(entries, matches, a, b, m, n)
}

proof fn lemma_first_named(entries: Seq<RegistryEntry>, rows: Seq<usize>, name: Seq<char>, i: int)
    requires
        0 <= i <= rows.len(),
    ensures
        i <= row_named(entries, rows, name, i) <= rows.len(),
        row_named(entries, rows, name, i) < rows.len()
            ==> entries[rows[row_named(entries, rows, name, i)] as int].name@ == name,
        forall|k: int|
            i <= k < row_named(entries, rows, name, i) ==> entries[#[trigger] rows[k] as int].name@
                != name,
    decreases rows.len() - i,
{
    if i < rows.len() && entries[rows[i] as int].name@ != name {
        lemma_first_named(entries, rows, name, i + 1);
    }
}

/// Bringing an action to the top leaves all other rows in their order.
pub proof fn pinning_moves_nothing_else(
    before: Listing,
    entries: Seq<RegistryEntry>,
    pinned: usize,
    needle: Seq<char>,
    after: Listing,
)
    requires
        before.rows.len() == before.indices.len(),
        after == with_pinned(before, entries, pinned, needle),
    ensures
        after.rows.len() == after.indices.len(),
        after.rows.len() > 0,
        after.rows[0] == pinned,
        (forall|i: int|
            0 <= i < before.rows.len() ==> entries[#[trigger] before.rows[i] as int].name@
                != entries[pinned as int].name@) ==> after.rows.skip(1) == before.rows
            && after.indices.skip(1) == before.indices,
        forall|at: int|
            0 <= at < before.rows.len() && entries[#[trigger] before.rows[at] as int].name@
                == entries[pinned as int].name@ && (forall|k: int|
                0 <= k < at ==> entries[#[trigger] before.rows[k] as int].name@
                    != entries[pinned as int].name@) ==> after.rows.skip(1) == before.rows.remove(at)
                && after.indices.skip(1) == before.indices.remove(at) && after.indices[0]
                == before.indices[at],
{
    let name = entries[pinned as int].name@;
    let at = row_named(entries, before.rows, name, 0);
    lemma_first_named(entries, before.rows, name, 0);
    if at < before.rows.len() {
        assert(after.rows.skip(1) =~= before.rows.remove(at));
        assert(after.indices.skip(1) =~= before.indices.remove(at));
    } else {
        assert(after.rows.skip(1) =~= before.rows);
        assert(after.indices.skip(1) =~= before.indices);
    }
    assert forall|j: int|
        0 <= j < before.rows.len() && entries[#[trigger] before.rows[j] as int].name@ == name && (
        forall|k: int| 0 <= k < j ==> entries[#[trigger] before.rows[k] as int].name@ != name) implies j
        == at by {
        if j < at {
            assert(entries[before.rows[j] as int].name@ != name);
        } else if at < j {
            assert(entries[before.rows[at] as int].name@ != name);
        }
    }
}

/// Which action a submit takes: the one whose name or alias was typed, while the
/// selection is at the top, else the selected one.
pub proof fn a_submit_takes_the_typed_or_the_selected(palette: CommandPalette, registry: Registry)
    ensures
        palette.selected == 0 && registry.tokens@.contains_key(trimmed(palette.input@)) ==> picked(
            palette,
            registry,
        ) == Some(registry.tokens@[trimmed(palette.input@)]),
        palette.selected > 0 || !registry.tokens@.contains_key(trimmed(palette.input@)) ==> (
        if palette.selected < palette.filtered@.len() {
            picked(palette, registry) == Some(palette.filtered@[palette.selected as int])
        } else {
            picked(palette, registry) is None
        }),
{
}

/// An action runs without an argument where it takes none or can do without the
/// first. It is recorded under its first alias, or its name where it has none.
pub proof fn what_runs_without_an_argument(entry: RegistryEntry)
    ensures
        runs_bare(entry) <==> entry.params@.len() == 0 || !entry.params@[0].required,
        entry.aliases@.len() > 0 ==> head_of(entry) == entry.aliases@[0]@,
        entry.aliases@.len() == 0 ==> head_of(entry) == entry.name@,
{
}

/// What an argument comes to: the row selected in the list for it, where there
/// is one, else what was typed. A path that is spelled out from the root or the
/// home is completed from the directory that it names alone.
pub proof fn an_argument_is_the_selected_row(picker: ArgPicker, source: ValueSource, arg: Seq<char>)
    ensures
        picker.source != source ==> taken(Some(picker), source, arg) == arg,
        taken(None, source, arg) == arg,
        picker.source == source ==> ({
            let spelled_out = trimmed(arg).len() > 0 && (trimmed(arg)[0] == '/' || trimmed(arg)[0]
                == '~');
            let list = match picker.browse {
                Some(browse) => browse.picker,
                None => picker.core,
            };
            if picker.browse is None && spelled_out || list.selected >= list.filtered@.len() {
                taken(Some(picker), source, arg) == arg
            } else {
                taken(Some(picker), source, arg)
                    == list.all_paths@[list.filtered@[list.selected as int] as int]@
            }
        }),
{
}

/// The list for an argument is matched against the argument, and while a
/// directory is browsed against the name begun in it. Paths that arrive join
/// those that are there, behind them.
pub proof fn arriving_paths_join_the_list(
    before: ArgPicker,
    after: ArgPicker,
    arrived: Seq<String>,
    cap: usize,
    query: Seq<char>,
)
    requires
        took_in(before, after, arrived, cap),
    ensures
        before.browse is None ==> after.browse is None && after.core.all_paths@
            == before.core.all_paths@ + arrived,
        before.browse is Some ==> after.browse is Some && after.core == before.core && ({
            let all = before.browse->0.picker.all_paths@ + arrived;
            let now = after.browse->0.picker.all_paths@;
            &&& all.len() < cap ==> now == all
            &&& all.len() >= cap ==> now == all.take(cap as int) && !after.browse->0.picker.walking
        }),
        before.browse is None ==> query_of(before, query) == query,
        before.browse is Some ==> query_of(before, query) == before.browse->0.partial@,
{
}

/// What is previewed: an open buffer as it stands, a file as it is on disk, and
/// of directories and themes nothing.
pub proof fn what_is_previewed()
    ensures
        policy_of(ValueSource::Buffers) == PreviewPolicy::LiveBufferThenFile,
        policy_of(ValueSource::Files) == PreviewPolicy::File,
        policy_of(ValueSource::Directories) == PreviewPolicy::NoPreview,
        policy_of(ValueSource::Themes) == PreviewPolicy::NoPreview,
{
}

/// Which command takes its argument from a list: one whose first parameter has
/// values that are not typed freely.
pub proof fn which_argument_has_a_list(command: usize, registry: Registry)
    ensures
        ({
            let params = registry.entries@[command as int].params@;
            &&& params.len() > 0 && params[0].value_source != ValueSource::Typed ==> picker_source(
                Some(command),
                registry,
            ) == Some(params[0].value_source)
            &&& params.len() == 0 || params[0].value_source == ValueSource::Typed ==> picker_source(
                Some(command),
                registry,
            ) is None
            &&& picker_source(None, registry) is None
        }),
{
}

/// What has the focus: the split pane with what it shows, or the dock with what
/// that shows; a dock that is not there shows nothing.
pub proof fn the_focus_says_which_view_is_meant(ws: WorkspaceState)
    ensures
        ws.focus is SplitPane ==> focused_view(ws) == Some(ws.pane_view),
        ws.focus matches FocusTarget::Dock(dock) ==> (if dock < ws.docks@.len() {
            focused_view(ws) == Some(ws.docks@[dock as int])
        } else {
            focused_view(ws) is None
        }),
{
}

/// An action that is brought to the top without having matched is highlighted
/// whole where its command name was typed, upper and lower case apart, else not
/// at all.
pub proof fn a_typed_name_is_highlighted_whole(entry: RegistryEntry, needle: Seq<char>)
    requires
        entry.command_name@.len() <= u32::MAX,
    ensures
        same_but_for_case(entry.command_name@, needle) ==> pinned_indices(entry, needle).len()
            == entry.command_name@.len() && forall|i: int|
            0 <= i < entry.command_name@.len() ==> #[trigger] pinned_indices(entry, needle)[i] == i,
        !same_but_for_case(entry.command_name@, needle) ==> pinned_indices(entry, needle).len() == 0,
{
}

/// Reading the input anew: a command with its argument is kept to collect the
/// argument for, and the actions are not listed; any other input lists the
/// actions for it. The input, the scope and the picker stay as they are.
pub proof fn the_input_says_what_is_listed(
    after: CommandPalette,
    before: CommandPalette,
    registry: Registry,
    matches: Seq<FuzzyMatch>,
    stamp: u64,
)
    requires
        after.reread_from(before, registry, matches, stamp),
    ensures
        after.input == before.input,
        after.scope == before.scope,
        after.availability == before.availability,
        after.arg_picker == before.arg_picker,
        after.generation == stamp,
        command_in(before.input@, registry) matches Some((entry, _)) ==> after.command == Some(entry)
            && after.filtered@.len() == 0,
        command_in(before.input@, registry) is None ==> after.command is None && after.filtered@
            == listed(before.input@, registry, before.scope, before.availability, matches).rows,
{
}

/// A picker for an argument shows the paths that ranking gives for the name
/// begun, of the list it is at: the paths of the directory browsed, else its
/// own. The other list stays.
pub proof fn the_ranking_says_which_paths_are_shown(
    before: ArgPicker,
    after: ArgPicker,
    order: Vec<usize>,
)
    requires
        shows_order(before, after, order),
    ensures
        before.browse is None ==> after.browse is None && after.core.filtered == order
            && after.core.all_paths == before.core.all_paths,
        before.browse is Some ==> after.browse is Some && after.browse->0.picker.filtered == order
            && after.browse->0.picker.all_paths == before.browse->0.picker.all_paths && after.core
            == before.core,
        after.source == before.source,
{
}

/// The scope is toggled between what is there and all that is visible.
pub proof fn there_are_two_scopes()
    ensures
        other_scope(PaletteScope::Active) == PaletteScope::All,
        other_scope(PaletteScope::All) == PaletteScope::Active,
{
}

/// Any other input lists what matched it, and where it is an action's name or
/// alias that may be listed, that action at the top.
pub proof fn an_input_lists_what_matched(
    input: Seq<char>,
    registry: Registry,
    scope: PaletteScope,
    availability: Availability,
    matches: Seq<FuzzyMatch>,
    list: Listing,
)
    requires
        !is_blank(input),
        list == listed(input, registry, scope, availability, matches),
    ensures
        !registry.tokens@.contains_key(trimmed(input)) ==> list == ranked(registry.entries@, matches),
        registry.tokens@.contains_key(trimmed(input)) ==> ({
            let pinned = registry.tokens@[trimmed(input)];
            let entry = registry.entries@[pinned as int];
            let may = entry.palette_visible && (scope is All || is_met(
                needs(entry.kind),
                availability,
            ));
            &&& !may ==> list == ranked(registry.entries@, matches)
            &&& may ==> list == with_pinned(
                ranked(registry.entries@, matches),
                registry.entries@,
                pinned,
                trimmed(input),
            )
        }),
{
}

/// The actions that are ranked come in the order of the registry.
pub proof fn actions_are_ranked_from_the_registry(
    entries: Seq<RegistryEntry>,
    scope: PaletteScope,
    availability: Availability,
    n: nat,
    i: int,
    j: int,
)
    requires
        n <= entries.len() <= usize::MAX,
        0 <= i < j < listable(entries, scope, availability, n).len(),
    ensures
        listable(entries, scope, availability, n)[i] < listable(entries, scope, availability, n)[j],
    decreases n,
{
    if n > 0 {
        let before = listable(entries, scope, availability, (n - 1) as nat);
        lemma_listable(entries, scope, availability, (n - 1) as nat);
        if j < before.len() {
            actions_are_ranked_from_the_registry(
                entries,
                scope,
                availability,
                (n - 1) as nat,
                i,
                j,
            );
        }
    }
}

} // verus!
