//! The commit picker: a ref's history as a table, filtered by a query, with a
//! lane graph beside it and scopes that a merge can be drilled into.

use crate::commit_graph::{assign_lanes, is_row, widest, GraphRow};
use crate::commit_list::PreviewCache;
use crate::host::CommitInfo;
use crate::lists::copied;
use crate::picker::{clamped, nav_clamp, nav_move, nav_page_step, page_step, Ranking};
use crate::strmap::StrMap;
use crate::text::{blank, chars_of, decimal, decimal_digits, is_blank, join, same, separated, texts};
use vstd::prelude::*;
use vstd::string::StringExecFns;

verus! {

/// What selecting a row in a [`CommitPicker`] does.
#[derive(Debug, Clone, Copy, PartialEq, Eq, Structural)]
pub enum CommitPickerRole {
    /// Choose the commit a review walk starts from.
    PickBase,
    /// Read-only listing. Selecting a row dismisses the picker without
    /// touching the working tree.
    Browse,
}

/// Columns of the commit table, in display order.
///
/// The order is also the order they are joined into a row's haystack, so a
/// query reads left to right the way the table does.
#[derive(Clone, Copy, Debug, PartialEq, Eq, Structural)]
pub enum CommitColumn {
    Commit,
    Branch,
    Title,
    Author,
    Date,
}

/// How many columns [`CommitRow`] carries.
pub const COMMIT_COLUMNS: usize = 5;

impl CommitColumn {
    /// The place of the column in the table.
    pub open spec fn place(self) -> int {
        match self {
            CommitColumn::Commit => 0,
            CommitColumn::Branch => 1,
            CommitColumn::Title => 2,
            CommitColumn::Author => 3,
            CommitColumn::Date => 4,
        }
    }

    /// The place of the column in the table.
    pub fn index(self) -> (i: usize)
        ensures
            i == self.place(),
            i < COMMIT_COLUMNS,
    {
        match self {
            CommitColumn::Commit => 0,
            CommitColumn::Branch => 1,
            CommitColumn::Title => 2,
            CommitColumn::Author => 3,
            CommitColumn::Date => 4,
        }
    }

    /// The column that scoping moves on to: every one in turn, and then none.
    pub open spec fn after(column: Option<CommitColumn>) -> Option<CommitColumn> {
        match column {
            None => Some(CommitColumn::Commit),
            Some(CommitColumn::Commit) => Some(CommitColumn::Branch),
            Some(CommitColumn::Branch) => Some(CommitColumn::Title),
            Some(CommitColumn::Title) => Some(CommitColumn::Author),
            Some(CommitColumn::Author) => Some(CommitColumn::Date),
            Some(CommitColumn::Date) => None,
        }
    }
}

/// Scoping walks through every column once and comes back to where it began.
pub proof fn scoping_comes_round(column: Option<CommitColumn>)
    ensures
        ({
            let a = CommitColumn::after(column);
            let b = CommitColumn::after(a);
            let c = CommitColumn::after(b);
            let d = CommitColumn::after(c);
            let e = CommitColumn::after(d);
            CommitColumn::after(e) == column && seq![column, a, b, c, d, e].no_duplicates()
        }),
{
    let a = CommitColumn::after(column);
    let b = CommitColumn::after(a);
    let c = CommitColumn::after(b);
    let d = CommitColumn::after(c);
    let e = CommitColumn::after(d);
    let s = seq![column, a, b, c, d, e];
    assert(s[0] == column && s[1] == a && s[2] == b && s[3] == c && s[4] == d && s[5] == e);
}

/// One cell of a [`CommitRow`], and where it sits in the row's haystack.
#[derive(Debug, PartialEq, Eq)]
pub struct CommitCell {
    pub text: String,
    /// Character offset of this cell's first character within
    /// [`CommitRow::text`], so a match offset resolves to a cell and a
    /// position inside it.
    pub start: usize,
}

/// One picker row, holding both its cells and the joined text they came from.
///
/// The join is the haystack, so a query matches across the whole row and a
/// match offset is an offset into [`Self::text`].
#[derive(Debug, PartialEq, Eq)]
pub struct CommitRow {
    pub text: String,
    pub cells: [CommitCell; 5],
}

impl Clone for CommitCell {
    fn clone(&self) -> (c: Self)
        ensures
            c == *self,
    {
        CommitCell { text: self.text.clone(), start: self.start }
    }
}

impl Clone for CommitRow {
    fn clone(&self) -> (r: Self)
        ensures
            r.text == self.text,
            r.cells@ == self.cells@,
    {
        let cells = [
            self.cells[0].clone(),
            self.cells[1].clone(),
            self.cells[2].clone(),
            self.cells[3].clone(),
            self.cells[4].clone(),
        ];
        assert(cells@ =~= self.cells@);
        CommitRow { text: self.text.clone(), cells }
    }
}

// ---------------------------------------------------------------------------
// Ages
// ---------------------------------------------------------------------------

/// The seconds between two times, held to the range of `i64`.
pub open spec fn seconds_between(now: i64, then: i64) -> int {
    if now - then > i64::MAX {
        i64::MAX as int
    } else if now - then < i64::MIN {
        i64::MIN as int
    } else {
        now - then
    }
}

/// An age in the coarsest unit that it fills: years, months of thirty days,
/// days, hours or minutes. Under a minute it is `now`.
pub open spec fn age_text(age: int) -> Seq<char> {
    if age >= 31_536_000 {
        decimal_digits((age / 31_536_000) as nat) + seq!['y']
    } else if age >= 2_592_000 {
        decimal_digits((age / 2_592_000) as nat) + seq!['m', 'o']
    } else if age >= 86_400 {
        decimal_digits((age / 86_400) as nat) + seq!['d']
    } else if age >= 3_600 {
        decimal_digits((age / 3_600) as nat) + seq!['h']
    } else if age >= 60 {
        decimal_digits((age / 60) as nat) + seq!['m']
    } else {
        seq!['n', 'o', 'w']
    }
}

/// A commit's age at `now`, as a short relative label like `3d` or `2mo`.
///
/// Anything under a minute, and anything dated in the future (a skewed clock,
/// a rewritten author date), reads as `now` rather than a negative age.
pub fn age_label(now_epoch: i64, commit_time: i64) -> (label: String)
    ensures
        label@ == age_text(seconds_between(now_epoch, commit_time)),
{
    proof {
        reveal_strlit("y");
        reveal_strlit("mo");
        reveal_strlit("d");
        reveal_strlit("h");
        reveal_strlit("m");
        reveal_strlit("now");
    }
    let age: i64 = match now_epoch.checked_sub(commit_time) {
        Some(age) => age,
        None => if commit_time < 0 {
            i64::MAX
        } else {
            i64::MIN
        },
    };
    if age < 60 {
        let label = "now".to_string();
        assert(label@ =~= seq!['n', 'o', 'w']);
        return label;
    }
    let age: u64 = age as u64;
    let (count, unit): (u64, &str) = if age >= 31_536_000 {
        (age / 31_536_000, "y")
    } else if age >= 2_592_000 {
        (age / 2_592_000, "mo")
    } else if age >= 86_400 {
        (age / 86_400, "d")
    } else if age >= 3_600 {
        (age / 3_600, "h")
    } else {
        (age / 60, "m")
    };
    let mut label = decimal(count);
    label.append(unit);
    assert(label@ =~= age_text(age as int));
    label
}

// ---------------------------------------------------------------------------
// Rows
// ---------------------------------------------------------------------------

/// The names of the branches whose tip is `sha`, with spaces between; empty
/// where there is none.
pub open spec fn branch_text(tips: Map<Seq<char>, Vec<String>>, sha: Seq<char>) -> Seq<char> {
    if tips.contains_key(sha) {
        separated(texts(tips[sha]@), seq![' '])
    } else {
        Seq::empty()
    }
}

/// The texts of a commit's cells, in column order.
pub open spec fn cell_texts(
    tips: Map<Seq<char>, Vec<String>>,
    now: i64,
    commit: CommitInfo,
) -> Seq<Seq<char>> {
    seq![
        commit.short_sha@,
        branch_text(tips, commit.sha@),
        commit.summary@,
        commit.author_name@,
        age_text(seconds_between(now, commit.time)),
    ]
}

/// The first `n` cells joined, with single spaces between, also where a cell is
/// empty.
pub open spec fn joined(cells: Seq<Seq<char>>, n: nat) -> Seq<char>
    decreases n, 0nat,
{
    if n == 0 {
        Seq::empty()
    } else {
        before_cell(cells, (n - 1) as nat) + cells[n - 1]
    }
}

/// What stands before cell `n` in the join.
pub open spec fn before_cell(cells: Seq<Seq<char>>, n: nat) -> Seq<char>
    decreases n, 1nat,
{
    if n == 0 {
        Seq::empty()
    } else {
        joined(cells, n).push(' ')
    }
}

/// `row` shows the cells `cells`.
pub open spec fn shows(row: CommitRow, cells: Seq<Seq<char>>) -> bool {
    &&& row.text@ == joined(cells, 5)
    &&& forall|i: int|
        0 <= i < 5 ==> (#[trigger] row.cells@[i]).text@ == cells[i] && row.cells@[i].start
            == before_cell(cells, i as nat).len()
}

/// Each row shows the commit at its place.
pub open spec fn rows_show(
    rows: Seq<CommitRow>,
    tips: Map<Seq<char>, Vec<String>>,
    now: i64,
    commits: Seq<CommitInfo>,
) -> bool {
    &&& rows.len() == commits.len()
    &&& forall|i: int|
        0 <= i < rows.len() ==> shows(#[trigger] rows[i], cell_texts(tips, now, commits[i]))
}

/// A cell's text can be found in the join: it stands there from the cell's
/// start on.
pub proof fn cell_stands_at_its_start(row: CommitRow, cells: Seq<Seq<char>>, i: int)
    requires
        cells.len() == 5,
        shows(row, cells),
        0 <= i < 5,
    ensures
        row.cells@[i].start + row.cells@[i].text@.len() <= row.text@.len(),
        row.text@.subrange(
            row.cells@[i].start as int,
            row.cells@[i].start + row.cells@[i].text@.len(),
        ) == row.cells@[i].text@,
{
    lemma_joined_prefix(cells, (i + 1) as nat, 5);
    let upto = joined(cells, (i + 1) as nat);
    let start = before_cell(cells, i as nat).len() as int;
    assert(upto == before_cell(cells, i as nat) + cells[i]);
    assert(row.text@.take(upto.len() as int) == upto);
    assert(row.text@.subrange(start, upto.len() as int) =~= upto.subrange(
        start,
        upto.len() as int,
    ));
    assert(upto.subrange(start, upto.len() as int) =~= cells[i]);
}

proof fn lemma_joined_prefix(cells: Seq<Seq<char>>, n: nat, m: nat)
    requires
        n <= m,
    ensures
        joined(cells, n).len() <= joined(cells, m).len(),
        joined(cells, m).take(joined(cells, n).len() as int) == joined(cells, n),
    decreases m,
{
    if n < m {
        let p = (m - 1) as nat;
        lemma_joined_prefix(cells, n, p);
        assert(joined(cells, m).take(joined(cells, p).len() as int) =~= joined(cells, p));
        assert(joined(cells, m).take(joined(cells, n).len() as int) =~= joined(cells, p).take(
            joined(cells, n).len() as int,
        ));
    } else {
        assert(joined(cells, m).take(joined(cells, n).len() as int) =~= joined(cells, n));
    }
}

/// Adds `cell` to the join `text`, where it is the `first` or follows another,
/// and gives the cell with its place in it.
fn add_cell(text: &mut String, cell: String, first: bool, Ghost(cells): Ghost<Seq<Seq<char>>>, Ghost(n): Ghost<nat>) -> (c: CommitCell)
    requires
        old(text)@ == joined(cells, n),
        n < cells.len(),
        cell@ == cells[n as int],
        first == (n == 0),
    ensures
        final(text)@ == joined(cells, n + 1),
        c.text@ == cells[n as int],
        c.start == before_cell(cells, n).len(),
{
    if !first {
        text.push(' ');
    }
    let start: usize = chars_of(text.as_str()).len();
    text.append(cell.as_str());
    CommitCell { text: cell, start }
}

/// The row of one commit.
pub fn build_row(tips: &StrMap<Vec<String>>, now_epoch: i64, commit: &CommitInfo) -> (row: CommitRow)
    ensures
        shows(row, cell_texts(tips@, now_epoch, *commit)),
{
    let ghost cells = cell_texts(tips@, now_epoch, *commit);
    let branches: String = match tips.get(commit.sha.as_str()) {
        Some(names) => {
            proof {
                reveal_strlit(" ");
            }
            assert(" "@ =~= seq![' ']);
            join(names, " ")
        },
        None => String::new(),
    };
    let mut text = String::new();
    let sha = add_cell(&mut text, commit.short_sha.clone(), true, Ghost(cells), Ghost(0));
    let branch = add_cell(&mut text, branches, false, Ghost(cells), Ghost(1));
    let title = add_cell(&mut text, commit.summary.clone(), false, Ghost(cells), Ghost(2));
    let author = add_cell(&mut text, commit.author_name.clone(), false, Ghost(cells), Ghost(3));
    let date = add_cell(&mut text, age_label(now_epoch, commit.time), false, Ghost(cells), Ghost(4));
    CommitRow { text, cells: [sha, branch, title, author, date] }
}

fn build_rows(tips: &StrMap<Vec<String>>, now_epoch: i64, commits: &Vec<CommitInfo>) -> (rows: Vec<
    CommitRow,
>)
    ensures
        rows_show(rows@, tips@, now_epoch, commits@),
{
    let mut rows: Vec<CommitRow> = Vec::new();
    for i in 0..commits.len()
        invariant
            rows.len() == i,
            forall|k: int|
                0 <= k < rows.len() ==> shows(
                    #[trigger] rows[k],
                    cell_texts(tips@, now_epoch, commits@[k]),
                ),
    {
        rows.push(build_row(tips, now_epoch, &commits[i]));
    }
    rows
}

/// The longest text in `column` among the rows that the first `n` entries of
/// `filtered` name, in characters.
pub open spec fn widest_cell(
    rows: Seq<CommitRow>,
    filtered: Seq<usize>,
    column: int,
    n: nat,
) -> u16
    decreases n,
{
    if n == 0 {
        0
    } else {
        let before = widest_cell(rows, filtered, column, (n - 1) as nat);
        let idx = filtered[n - 1];
        if idx < rows.len() {
            let here = rows[idx as int].cells@[column].text@.len() as u16;
            if here > before { here } else { before }
        } else {
            before
        }
    }
}

/// Longest text in each column across the rows `filtered` names, in
/// characters.
pub fn measure_columns(rows: &Vec<CommitRow>, filtered: &Vec<usize>) -> (widest: [u16; 5])
    ensures
        forall|c: int|
            0 <= c < 5 ==> #[trigger] widest@[c] == widest_cell(
                rows@,
                filtered@,
                c,
                filtered@.len(),
            ),
{
    let mut widest: [u16; 5] = [0, 0, 0, 0, 0];
    for n in 0..filtered.len()
        invariant
            forall|c: int|
                0 <= c < 5 ==> #[trigger] widest@[c] == widest_cell(
                    rows@,
                    filtered@,
                    c,
                    n as nat,
                ),
    {
        let idx: usize = filtered[n];
        if idx < rows.len() {
            let row = &rows[idx];
            for c in 0..5usize
                invariant
                    n < filtered.len(),
                    idx == filtered@[n as int],
                    idx < rows.len(),
                    *row == rows@[idx as int],
                    forall|k: int|
                        0 <= k < c ==> #[trigger] widest@[k] == widest_cell(
                            rows@,
                            filtered@,
                            k,
                            (n + 1) as nat,
                        ),
                    forall|k: int|
                        c <= k < 5 ==> #[trigger] widest@[k] == widest_cell(
                            rows@,
                            filtered@,
                            k,
                            n as nat,
                        ),
            {
                let count: usize = chars_of(row.cells[c].text.as_str()).len();
                let here: u16 = #[verifier::truncate] (count as u16);
                if here > widest[c] {
                    widest[c] = here;
                }
            }
        }
    }
    widest
}

// ---------------------------------------------------------------------------
// The picker
// ---------------------------------------------------------------------------

/// A picker scope a drill-in displaced, kept so popping back restores exactly
/// what the user was looking at.
pub struct CommitScope {
    /// The displaced scope's own label, `None` when it was the root scope.
    pub label: Option<String>,
    pub ref_sha: String,
    pub commits: Vec<CommitInfo>,
    pub selected: usize,
    pub query: String,
    pub filter_column: Option<CommitColumn>,
}

/// A finished history walk, and which list it is.
pub enum LoadedCommits {
    /// The list the picker opened over, with the branch names to label its
    /// tips.
    Root { commits: Vec<CommitInfo>, branch_tips: StrMap<Vec<String>> },
    /// A merge drilled into, carrying what [`CommitPicker::push_scope`] needs
    /// to park the scope being left.
    Scope { label: String, ref_sha: String, commits: Vec<CommitInfo>, query_before: String },
}

/// What the last filter ran against.
pub struct FilterKey {
    pub query: String,
    pub column: Option<CommitColumn>,
    pub generation: u64,
}

/// Modal listing a ref's first-parent history, filtered, with the selected
/// commit's diff previewed beside it.
///
/// Rows are newest-first as the walk produced them, and an empty query keeps
/// that order rather than sorting.
pub struct CommitPicker<S> {
    pub role: CommitPickerRole,
    pub workdir: String,
    /// Full sha of the ref the picker was opened over.
    pub ref_sha: String,
    /// Walked history, newest first.
    pub commits: Vec<CommitInfo>,
    /// Full sha to the local branch names pointing at it.
    pub branch_tips: StrMap<Vec<String>>,
    /// Indices into `commits`, in display order.
    pub filtered: Vec<usize>,
    /// Matched character offsets for the topmost filtered rows.
    pub match_indices: Vec<Vec<u32>>,
    /// Whether the current list was ranked against a query.
    pub ranked: bool,
    pub selected: usize,
    /// Rendered list height, `None` before the first render.
    pub viewport_rows: Option<usize>,
    pub preview_sessions: PreviewCache<S>,
    /// The sha whose preview is being built.
    pub pending_preview: Option<String>,
    /// Sha the most recent preview was requested for.
    pub requested_preview: Option<String>,
    /// Rows the diff preview is scrolled down by, for the selected commit.
    pub preview_scroll: usize,
    /// Column the query is scoped to, or `None` to match the whole row.
    pub filter_column: Option<CommitColumn>,
    /// The time that every row's age is measured against.
    pub now_epoch: i64,
    /// Scopes drilled through to reach the current list, oldest first.
    pub scope_stack: Vec<CommitScope>,
    /// What the current scope is called, or `None` at the root scope.
    pub scope_label: Option<String>,
    /// Lane layout over [`Self::commits`], with the lane count the widest row
    /// needs.
    pub graph: (Vec<GraphRow>, u16),
    /// Lanes the graph column should draw, or `None` while it hides. It hides
    /// whenever the list is not the whole history in its own order, since
    /// edges across other rows would claim an adjacency that is not there.
    pub graph_lanes: Option<u16>,
    /// Longest text in each column across every filtered row, in characters.
    pub col_widest: [u16; 5],
    /// Bumped by every filter run that changed something.
    pub filter_generation: u64,
    /// One row per entry in [`Self::commits`], in the same order.
    pub rows: Vec<CommitRow>,
    /// Bumped whenever [`Self::commits`] is replaced.
    pub commits_generation: u64,
    pub last_filter_key: Option<FilterKey>,
}

/// Where a match offset of the column starts in the join of a commit's row.
pub open spec fn shift_in(
    tips: Map<Seq<char>, Vec<String>>,
    now: i64,
    commit: CommitInfo,
    column: Option<CommitColumn>,
) -> u32 {
    match column {
        Some(c) => before_cell(cell_texts(tips, now, commit), c.place() as nat).len() as u32,
        None => 0,
    }
}

/// A ranking names rows of the list, and its offsets stay in range when they
/// are put in the space of the joined row.
pub open spec fn ranking_fits(
    ranking: Ranking,
    tips: Map<Seq<char>, Vec<String>>,
    now: i64,
    commits: Seq<CommitInfo>,
    column: Option<CommitColumn>,
) -> bool {
    &&& forall|i: int|
        0 <= i < ranking.order@.len() ==> (#[trigger] ranking.order@[i]) < commits.len()
    &&& ranking.matches@.len() <= ranking.order@.len()
    &&& forall|i: int, j: int|
        0 <= i < ranking.matches@.len() && 0 <= j < ranking.matches@[i]@.len()
            ==> #[trigger] ranking.matches@[i]@[j] + shift_in(
            tips,
            now,
            commits[ranking.order@[i] as int],
            column,
        ) <= u32::MAX
}

/// `offsets`, each moved on by `by`.
pub open spec fn shifted(offsets: Seq<u32>, by: u32) -> Seq<u32> {
    Seq::new(offsets.len(), |j: int| (offsets[j] + by) as u32)
}

/// The rows that a query shows: all of them for a blank one, else those that
/// matched, in the order of the ranking.
pub open spec fn shown_order(query: Seq<char>, ranking: Ranking, n: nat) -> Seq<usize> {
    if is_blank(query) {
        Seq::new(n, |i: int| i as usize)
    } else {
        ranking.order@
    }
}

pub open spec fn offset_lists(lists: Seq<Vec<u32>>) -> Seq<Seq<u32>> {
    Seq::new(lists.len(), |i: int| lists[i]@)
}

/// The matched offsets of the rows that a query shows, in the space of the
/// joined row.
pub open spec fn shown_matches(
    query: Seq<char>,
    ranking: Ranking,
    tips: Map<Seq<char>, Vec<String>>,
    now: i64,
    commits: Seq<CommitInfo>,
    column: Option<CommitColumn>,
) -> Seq<Seq<u32>> {
    if is_blank(query) {
        Seq::new(commits.len(), |i: int| Seq::empty())
    } else {
        Seq::new(
            ranking.matches@.len(),
            |i: int|
                shifted(
                    ranking.matches@[i]@,
                    shift_in(tips, now, commits[ranking.order@[i] as int], column),
                ),
        )
    }
}

/// `graph` is the lane layout of `commits`.
pub open spec fn graph_shows(graph: (Vec<GraphRow>, u16), commits: Seq<CommitInfo>) -> bool {
    &&& graph.0@.len() == commits.len()
    &&& forall|n: int| 0 <= n < commits.len() ==> is_row(#[trigger] graph.0@[n], commits, n as nat)
    &&& graph.1 == widest(commits, commits.len()) as u16
}

/// The whole list of `n` rows, in its own order.
pub open spec fn is_whole(filtered: Seq<usize>, n: nat) -> bool {
    &&& filtered.len() == n
    &&& forall|i: int| 0 <= i < n ==> #[trigger] filtered[i] == i
}

/// The first row at or after `from` whose commit is the tip of a branch.
pub open spec fn tip_below(
    filtered: Seq<usize>,
    commits: Seq<CommitInfo>,
    tips: Map<Seq<char>, Vec<String>>,
    from: int,
) -> Option<int>
    decreases filtered.len() - from,
{
    if from >= filtered.len() {
        None
    } else if tips.contains_key(commits[filtered[from] as int].sha@) {
        Some(from)
    } else {
        tip_below(filtered, commits, tips, from + 1)
    }
}

/// The last row before `upto` whose commit is the tip of a branch.
pub open spec fn tip_above(
    filtered: Seq<usize>,
    commits: Seq<CommitInfo>,
    tips: Map<Seq<char>, Vec<String>>,
    upto: int,
) -> Option<int>
    decreases upto,
{
    if upto <= 0 {
        None
    } else if tips.contains_key(commits[filtered[upto - 1] as int].sha@) {
        Some(upto - 1)
    } else {
        tip_above(filtered, commits, tips, upto - 1)
    }
}

/// The first row at or after `from` whose commit is the tip of a branch, and
/// is not `ref_sha`.
pub open spec fn other_tip(
    filtered: Seq<usize>,
    commits: Seq<CommitInfo>,
    tips: Map<Seq<char>, Vec<String>>,
    ref_sha: Seq<char>,
    from: int,
) -> Option<int>
    decreases filtered.len() - from,
{
    if from >= filtered.len() {
        None
    } else {
        let sha = commits[filtered[from] as int].sha@;
        if sha != ref_sha && tips.contains_key(sha) {
            Some(from)
        } else {
            other_tip(filtered, commits, tips, ref_sha, from + 1)
        }
    }
}

/// A list of commits as it is shown, with what it is made from.
pub struct Shown {
    pub filtered: Seq<usize>,
    pub matches: Seq<Vec<u32>>,
    pub ranked: bool,
    pub col_widest: Seq<u16>,
    pub graph_lanes: Option<u16>,
    pub rows: Seq<CommitRow>,
    pub lanes: u16,
    pub tips: Map<Seq<char>, Vec<String>>,
    pub now: i64,
    pub commits: Seq<CommitInfo>,
}

/// The list is what `query` gives in `column` with `ranking`.
pub open spec fn shows_ranked(
    list: Shown,
    query: Seq<char>,
    column: Option<CommitColumn>,
    ranking: Ranking,
) -> bool {
    &&& list.filtered == shown_order(query, ranking, list.commits.len())
    &&& offset_lists(list.matches) == shown_matches(
        query,
        ranking,
        list.tips,
        list.now,
        list.commits,
        column,
    )
    &&& list.ranked == !is_blank(query)
    &&& forall|c: int|
        0 <= c < 5 ==> #[trigger] list.col_widest[c] == widest_cell(
            list.rows,
            list.filtered,
            c,
            list.filtered.len(),
        )
    &&& list.graph_lanes == (if is_whole(list.filtered, list.commits.len()) {
        Some(list.lanes)
    } else {
        None
    })
}

/// The list is what `query` gives in `column`.
pub open spec fn shows_query(list: Shown, query: Seq<char>, column: Option<CommitColumn>) -> bool {
    exists|ranking: Ranking| shows_ranked(list, query, column, ranking)
}

impl<S> CommitPicker<S> {
    /// The rows and the graph show the commits, the list and its selection are
    /// places in them, and the list is that of the query last filtered by.
    pub open spec fn wf(&self) -> bool {
        &&& rows_show(self.rows@, self.branch_tips@, self.now_epoch, self.commits@)
        &&& graph_shows(self.graph, self.commits@)
        &&& forall|i: int|
            0 <= i < self.filtered@.len() ==> (#[trigger] self.filtered@[i]) < self.commits@.len()
        &&& self.match_indices@.len() <= self.filtered@.len()
        &&& self.selected == clamped(self.filtered@.len() as int, self.selected as int)
        &&& self.last_filter_key matches Some(key) ==> key.generation == self.commits_generation
            && shows_query(self.shown(), key.query@, key.column)
    }

    /// The list as it is shown, with what it is made from.
    pub open spec fn shown(&self) -> Shown {
        Shown {
            filtered: self.filtered@,
            matches: self.match_indices@,
            ranked: self.ranked,
            col_widest: self.col_widest@,
            graph_lanes: self.graph_lanes,
            rows: self.rows@,
            lanes: self.graph.1,
            tips: self.branch_tips@,
            now: self.now_epoch,
            commits: self.commits@,
        }
    }

    /// The last filter ran against this query, column and list.
    pub open spec fn filtered_by(&self, query: Seq<char>) -> bool {
        self.last_filter_key matches Some(key) && key.query@ == query && key.column
            == self.filter_column && key.generation == self.commits_generation
    }

    /// The list shows what `query` gives with `ranking`.
    pub open spec fn lists(&self, query: Seq<char>, ranking: Ranking) -> bool {
        &&& self.filtered_by(query)
        &&& shows_ranked(self.shown(), query, self.filter_column, ranking)
    }

    /// The list, its lanes and its widths are those of `query`.
    pub open spec fn lists_query(&self, query: Seq<char>) -> bool {
        &&& self.filtered_by(query)
        &&& shows_query(self.shown(), query, self.filter_column)
    }

    /// `before` with another list of rows: what does not belong to the filter
    /// stays.
    pub open spec fn refiltered_from(&self, before: Self) -> bool {
        *self == (CommitPicker {
            filtered: self.filtered,
            match_indices: self.match_indices,
            ranked: self.ranked,
            selected: self.selected,
            preview_scroll: self.preview_scroll,
            graph_lanes: self.graph_lanes,
            col_widest: self.col_widest,
            filter_generation: self.filter_generation,
            last_filter_key: self.last_filter_key,
            ..before
        })
    }

    /// `before` with another list of commits: what belongs to neither the list
    /// nor the scope stays.
    pub open spec fn relisted_from(&self, before: Self) -> bool {
        *self == (CommitPicker {
            ref_sha: self.ref_sha,
            commits: self.commits,
            branch_tips: self.branch_tips,
            filtered: self.filtered,
            match_indices: self.match_indices,
            ranked: self.ranked,
            selected: self.selected,
            preview_scroll: self.preview_scroll,
            filter_column: self.filter_column,
            scope_stack: self.scope_stack,
            scope_label: self.scope_label,
            graph: self.graph,
            graph_lanes: self.graph_lanes,
            col_widest: self.col_widest,
            filter_generation: self.filter_generation,
            rows: self.rows,
            commits_generation: self.commits_generation,
            last_filter_key: self.last_filter_key,
            ..before
        })
    }

    /// Build a picker holding no history yet.
    ///
    /// The walk that fills it arrives through [`Self::set_commits`].
    pub fn new(role: CommitPickerRole, workdir: String, ref_sha: String, now_epoch: i64) -> (picker: Self)
        ensures
            picker.wf(),
            picker.role == role,
            picker.workdir == workdir,
            picker.ref_sha == ref_sha,
            picker.now_epoch == now_epoch,
            picker.commits@.len() == 0,
            picker.branch_tips@ == Map::<Seq<char>, Vec<String>>::empty(),
            picker.filtered@.len() == 0,
            picker.match_indices@.len() == 0,
            !picker.ranked,
            picker.filtered_by(Seq::empty()),
            picker.selected == 0,
            picker.viewport_rows is None,
            picker.preview_sessions.wf(),
            picker.preview_sessions@.len() == 0,
            picker.pending_preview is None,
            picker.requested_preview is None,
            picker.preview_scroll == 0,
            picker.filter_column is None,
            picker.scope_stack@.len() == 0,
            picker.scope_label is None,
            picker.graph_lanes == Some(0u16),
            picker.filter_generation == 1,
            picker.commits_generation == 1,
    {
        let mut picker = CommitPicker {
            role,
            workdir,
            ref_sha,
            commits: Vec::new(),
            branch_tips: StrMap::new(),
            filtered: Vec::new(),
            match_indices: Vec::new(),
            ranked: false,
            selected: 0,
            viewport_rows: None,
            preview_sessions: PreviewCache::new(),
            pending_preview: None,
            requested_preview: None,
            preview_scroll: 0,
            filter_column: None,
            now_epoch,
            scope_stack: Vec::new(),
            scope_label: None,
            graph: (Vec::new(), 0),
            graph_lanes: None,
            col_widest: [0, 0, 0, 0, 0],
            filter_generation: 0,
            rows: Vec::new(),
            commits_generation: 0,
            last_filter_key: None,
        };
        proof {
            reveal_strlit("");
        }
        picker.reload("", Ranking { order: Vec::new(), matches: Vec::new() });
        assert(""@ =~= Seq::<char>::empty());
        picker.selected = picker.default_selection();
        picker
    }

    /// Rebuild what is derived from the commits, and filter them by `query`.
    fn reload(&mut self, query: &str, ranking: Ranking)
        requires
            old(self).last_filter_key matches Some(key) ==> key.generation
                == old(self).commits_generation,
            !is_blank(query@) ==> ranking_fits(
                ranking,
                old(self).branch_tips@,
                old(self).now_epoch,
                old(self).commits@,
                old(self).filter_column,
            ),
        ensures
            final(self).wf(),
            final(self).lists(query@, ranking),
            final(self).commits_generation == old(self).commits_generation.wrapping_add(1),
            final(self).filter_generation == old(self).filter_generation.wrapping_add(1),
            final(self).selected == clamped(
                final(self).filtered@.len() as int,
                old(self).selected as int,
            ),
            final(self).preview_scroll == (if final(self).selected == old(self).selected {
                old(self).preview_scroll
            } else {
                0
            }),
            final(self).refiltered_from(
                CommitPicker {
                    rows: final(self).rows,
                    graph: final(self).graph,
                    commits_generation: final(self).commits_generation,
                    ..*old(self)
                },
            ),
    {
        self.rows = build_rows(&self.branch_tips, self.now_epoch, &self.commits);
        self.commits_generation = self.commits_generation.wrapping_add(1);
        self.graph = assign_lanes(self.commits.as_slice());
        self.install(query, ranking);
    }

    /// Install the walk the picker opened over, filtered by whatever `query`
    /// has been typed while it ran.
    pub fn set_commits(
        &mut self,
        commits: Vec<CommitInfo>,
        branch_tips: StrMap<Vec<String>>,
        query: &str,
        ranking: Ranking,
    )
        requires
            old(self).wf(),
            !is_blank(query@) ==> ranking_fits(
                ranking,
                branch_tips@,
                old(self).now_epoch,
                commits@,
                old(self).filter_column,
            ),
        ensures
            final(self).wf(),
            final(self).commits == commits,
            final(self).branch_tips == branch_tips,
            final(self).lists(query@, ranking),
            final(self).selected == final(self).first_choice(),
            final(self).preview_scroll == (if final(self).selected == old(self).selected {
                old(self).preview_scroll
            } else {
                0
            }),
            final(self).commits_generation == old(self).commits_generation.wrapping_add(1),
            final(self).filter_generation == old(self).filter_generation.wrapping_add(1),
            final(self).ref_sha == old(self).ref_sha,
            final(self).filter_column == old(self).filter_column,
            final(self).scope_stack == old(self).scope_stack,
            final(self).scope_label == old(self).scope_label,
            final(self).relisted_from(*old(self)),
    {
        self.commits = commits;
        self.branch_tips = branch_tips;
        self.reload(query, ranking);
        let first: usize = self.default_selection();
        self.set_selected(first);
    }

    /// What drilling into a scope does: `self` is the picker after it.
    pub open spec fn drilled(
        &self,
        before: Self,
        label: Seq<char>,
        ref_sha: Seq<char>,
        commits: Vec<CommitInfo>,
        query_before: Seq<char>,
    ) -> bool {
        let parked = self.scope_stack@.last();
        &&& self.scope_stack@.len() == before.scope_stack@.len() + 1
        &&& self.scope_stack@.drop_last() == before.scope_stack@
        &&& parked.label == before.scope_label
        &&& parked.ref_sha == before.ref_sha
        &&& parked.commits == before.commits
        &&& parked.selected == before.selected
        &&& parked.query@ == query_before
        &&& parked.filter_column == before.filter_column
        &&& self.scope_label matches Some(l) && l@ == label
        &&& self.ref_sha@ == ref_sha
        &&& self.commits == commits
        &&& self.filter_column is None
        &&& is_whole(self.filtered@, commits@.len())
        &&& self.selected == 0
        &&& self.preview_scroll == 0
        &&& self.branch_tips == before.branch_tips
        &&& self.relisted_from(before)
    }

    /// Drill into a new scope, parking the current one for
    /// [`Self::pop_scope`].
    ///
    /// `query_before` is the text in the input at the moment of the drill. The
    /// caller clears the input, because the new list arrives unfiltered.
    pub fn push_scope(
        &mut self,
        label: String,
        ref_sha: String,
        commits: Vec<CommitInfo>,
        query_before: String,
    )
        requires
            old(self).wf(),
        ensures
            final(self).wf(),
            final(self).drilled(*old(self), label@, ref_sha@, commits, query_before@),
            final(self).filtered_by(Seq::empty()),
            final(self).commits_generation == old(self).commits_generation.wrapping_add(1),
            final(self).filter_generation == old(self).filter_generation.wrapping_add(1),
    {
        let mut displaced_label: Option<String> = Some(label);
        std::mem::swap(&mut displaced_label, &mut self.scope_label);
        let mut displaced_sha: String = ref_sha;
        std::mem::swap(&mut displaced_sha, &mut self.ref_sha);
        let mut displaced_commits: Vec<CommitInfo> = commits;
        std::mem::swap(&mut displaced_commits, &mut self.commits);
        let displaced_column: Option<CommitColumn> = self.filter_column.take();
        self.scope_stack.push(
            CommitScope {
                label: displaced_label,
                ref_sha: displaced_sha,
                commits: displaced_commits,
                selected: self.selected,
                query: query_before,
                filter_column: displaced_column,
            },
        );
        assert(self.scope_stack@.drop_last() =~= old(self).scope_stack@);
        self.selected = 0;
        proof {
            reveal_strlit("");
        }
        self.reload("", Ranking { order: Vec::new(), matches: Vec::new() });
        assert(""@ =~= Seq::<char>::empty());
        assert(self.commits@.len() == self.commits.len());
        self.preview_scroll = 0;
    }

    /// What popping back to a scope does: `self` is the picker after it.
    pub open spec fn undrilled(&self, before: Self, ranking: Ranking) -> bool {
        let parked = before.scope_stack@.last();
        &&& self.scope_stack@ == before.scope_stack@.drop_last()
        &&& self.scope_label == parked.label
        &&& self.ref_sha == parked.ref_sha
        &&& self.commits == parked.commits
        &&& self.filter_column == parked.filter_column
        &&& self.branch_tips == before.branch_tips
        &&& self.lists(parked.query@, ranking)
        &&& self.selected == clamped(self.filtered@.len() as int, parked.selected as int)
        &&& self.preview_scroll == 0
        &&& self.relisted_from(before)
    }

    /// Pop back to the scope the last drill displaced, returning the query
    /// that was typed in it so the caller can restore the input. `ranking` is
    /// what that query gives on the displaced list.
    ///
    /// `None` at the root scope, where there is nothing to pop back to.
    pub fn pop_scope(&mut self, ranking: Ranking) -> (query: Option<String>)
        requires
            old(self).wf(),
            old(self).scope_stack@.len() > 0 && !is_blank(old(self).scope_stack@.last().query@)
                ==> ranking_fits(
                ranking,
                old(self).branch_tips@,
                old(self).now_epoch,
                old(self).scope_stack@.last().commits@,
                old(self).scope_stack@.last().filter_column,
            ),
        ensures
            final(self).wf(),
            match query {
                Some(q) => old(self).scope_stack@.len() > 0 && q
                    == old(self).scope_stack@.last().query && final(self).undrilled(
                    *old(self),
                    ranking,
                ) && final(self).commits_generation == old(self).commits_generation.wrapping_add(1)
                    && final(self).filter_generation == old(self).filter_generation.wrapping_add(1),
                None => old(self).scope_stack@.len() == 0 && *final(self) == *old(self),
            },
    {
        if self.scope_stack.len() == 0 {
            return None;
        }
        match self.scope_stack.pop() {
            Some(scope) => {
                assert(self.scope_stack@ =~= old(self).scope_stack@.drop_last());
                self.scope_label = scope.label;
                self.ref_sha = scope.ref_sha;
                self.commits = scope.commits;
                self.filter_column = scope.filter_column;
                self.selected = scope.selected;
                self.reload(scope.query.as_str(), ranking);
                self.preview_scroll = 0;
                Some(scope.query)
            },
            None => None,
        }
    }

    /// The texts that a query is matched against: one column of each row, or
    /// the whole row.
    pub fn haystacks(&self) -> (texts: Vec<String>)
        requires
            self.wf(),
        ensures
            texts@.len() == self.commits@.len(),
            forall|i: int|
                0 <= i < texts@.len() ==> (#[trigger] texts@[i])@ == haystack_of(
                    self.branch_tips@,
                    self.now_epoch,
                    self.commits@[i],
                    self.filter_column,
                ),
    {
        haystacks_in(&self.rows, self.filter_column, Ghost(self.branch_tips@), Ghost(self.now_epoch), Ghost(self.commits@))
    }

    /// The query of the scope that [`Self::pop_scope`] would restore, and the
    /// texts it is matched against there.
    pub fn parked_haystacks(&self) -> (parked: Option<(String, Vec<String>)>)
        ensures
            match parked {
                Some((query, texts)) => self.scope_stack@.len() > 0 && ({
                    let scope = self.scope_stack@.last();
                    query@ == scope.query@ && texts@.len() == scope.commits@.len() && forall|i: int|
                        0 <= i < texts@.len() ==> (#[trigger] texts@[i])@ == haystack_of(
                            self.branch_tips@,
                            self.now_epoch,
                            scope.commits@[i],
                            scope.filter_column,
                        )
                }),
                None => self.scope_stack@.len() == 0,
            },
    {
        let depth: usize = self.scope_stack.len();
        if depth == 0 {
            return None;
        }
        let scope = &self.scope_stack[depth - 1];
        let rows = build_rows(&self.branch_tips, self.now_epoch, &scope.commits);
        let texts = haystacks_in(
            &rows,
            scope.filter_column,
            Ghost(self.branch_tips@),
            Ghost(self.now_epoch),
            Ghost(scope.commits@),
        );
        Some((scope.query.clone(), texts))
    }

    /// The row of commit `idx`, or an empty one past the end of the list.
    pub fn row(&self, idx: usize) -> (row: CommitRow)
        ensures
            idx < self.rows@.len() ==> row.text == self.rows@[idx as int].text && row.cells@
                == self.rows@[idx as int].cells@,
            idx >= self.rows@.len() ==> row.text@.len() == 0 && forall|c: int|
                0 <= c < 5 ==> (#[trigger] row.cells@[c]).text@.len() == 0 && row.cells@[c].start
                    == 0,
    {
        if idx < self.rows.len() {
            self.rows[idx].clone()
        } else {
            CommitRow {
                text: String::new(),
                cells: [
                    CommitCell { text: String::new(), start: 0 },
                    CommitCell { text: String::new(), start: 0 },
                    CommitCell { text: String::new(), start: 0 },
                    CommitCell { text: String::new(), start: 0 },
                    CommitCell { text: String::new(), start: 0 },
                ],
            }
        }
    }

    /// Whether filtering by `query` again would change nothing, so that no
    /// ranking is needed.
    pub fn filter_is_current(&self, query: &str) -> (current: bool)
        ensures
            current == self.filtered_by(query@),
    {
        match &self.last_filter_key {
            Some(key) => same(key.query.as_str(), query) && key.column == self.filter_column
                && key.generation == self.commits_generation,
            None => false,
        }
    }

    /// List the rows for `query`: every commit newest-first with no highlights
    /// for a blank one, else those that `ranking` names, in its order. Running
    /// again on the same query, column and list changes nothing.
    pub fn refilter(&mut self, query: &str, ranking: Ranking)
        requires
            old(self).wf(),
            !is_blank(query@) ==> ranking_fits(
                ranking,
                old(self).branch_tips@,
                old(self).now_epoch,
                old(self).commits@,
                old(self).filter_column,
            ),
        ensures
            final(self).wf(),
            final(self).lists_query(query@),
            old(self).filtered_by(query@) ==> *final(self) == *old(self),
            !old(self).filtered_by(query@) ==> final(self).lists(query@, ranking)
                && final(self).filter_generation == old(self).filter_generation.wrapping_add(1)
                && final(self).selected == clamped(
                final(self).filtered@.len() as int,
                old(self).selected as int,
            ) && final(self).preview_scroll == (if final(self).selected == old(self).selected {
                old(self).preview_scroll
            } else {
                0
            }) && final(self).refiltered_from(*old(self)),
    {
        if self.filter_is_current(query) {
            return ;
        }
        self.install(query, ranking);
    }

    /// List the rows for `query`, whatever was listed before.
    fn install(&mut self, query: &str, ranking: Ranking)
        requires
            rows_show(
                old(self).rows@,
                old(self).branch_tips@,
                old(self).now_epoch,
                old(self).commits@,
            ),
            graph_shows(old(self).graph, old(self).commits@),
            !is_blank(query@) ==> ranking_fits(
                ranking,
                old(self).branch_tips@,
                old(self).now_epoch,
                old(self).commits@,
                old(self).filter_column,
            ),
        ensures
            final(self).wf(),
            final(self).lists(query@, ranking),
            final(self).filter_generation == old(self).filter_generation.wrapping_add(1),
            final(self).selected == clamped(
                final(self).filtered@.len() as int,
                old(self).selected as int,
            ),
            final(self).preview_scroll == (if final(self).selected == old(self).selected {
                old(self).preview_scroll
            } else {
                0
            }),
            final(self).refiltered_from(*old(self)),
    {
        self.last_filter_key = Some(
            FilterKey {
                query: query.to_owned(),
                column: self.filter_column,
                generation: self.commits_generation,
            },
        );
        if blank(query) {
            let (filtered, matches) = whole_list(self.commits.len());
            self.filtered = filtered;
            self.match_indices = matches;
            self.ranked = false;
            assert(offset_lists(self.match_indices@) =~= shown_matches(
                query@,
                ranking,
                self.branch_tips@,
                self.now_epoch,
                self.commits@,
                self.filter_column,
            ));
            assert(self.filtered@ =~= shown_order(query@, ranking, self.commits@.len()));
        } else {
            let matches = joined_offsets(
                &self.rows,
                &ranking,
                self.filter_column,
                Ghost(self.branch_tips@),
                Ghost(self.now_epoch),
                Ghost(self.commits@),
            );
            self.match_indices = matches;
            self.filtered = ranking.order;
            self.ranked = true;
            assert(offset_lists(self.match_indices@) =~= shown_matches(
                query@,
                ranking,
                self.branch_tips@,
                self.now_epoch,
                self.commits@,
                self.filter_column,
            ));
        }
        assert(self.match_indices@.len() == offset_lists(self.match_indices@).len());
        self.col_widest = measure_columns(&self.rows, &self.filtered);
        self.filter_generation = self.filter_generation.wrapping_add(1);
        self.graph_lanes = if whole(&self.filtered, self.commits.len()) {
            Some(self.graph.1)
        } else {
            None
        };
        self.set_selected(nav_clamp(self.filtered.len(), self.selected));
        assert(shows_ranked(self.shown(), query@, self.filter_column, ranking));
    }

    /// Advance which column the query searches, wrapping through every column
    /// and back to searching the whole row, and list the rows anew.
    pub fn cycle_filter_column(&mut self, query: &str, ranking: Ranking)
        requires
            old(self).wf(),
            !is_blank(query@) ==> ranking_fits(
                ranking,
                old(self).branch_tips@,
                old(self).now_epoch,
                old(self).commits@,
                CommitColumn::after(old(self).filter_column),
            ),
        ensures
            final(self).wf(),
            final(self).filter_column == CommitColumn::after(old(self).filter_column),
            final(self).lists_query(query@),
            ({
                let moved = CommitPicker {
                    filter_column: CommitColumn::after(old(self).filter_column),
                    ..*old(self)
                };
                &&& moved.filtered_by(query@) ==> *final(self) == moved
                &&& !moved.filtered_by(query@) ==> final(self).lists(query@, ranking)
                    && final(self).filter_generation == old(self).filter_generation.wrapping_add(1)
                    && final(self).selected == clamped(
                    final(self).filtered@.len() as int,
                    old(self).selected as int,
                ) && final(self).preview_scroll == (if final(self).selected == old(self).selected {
                    old(self).preview_scroll
                } else {
                    0
                }) && final(self).refiltered_from(moved)
            }),
    {
        self.filter_column = match self.filter_column {
            None => Some(CommitColumn::Commit),
            Some(CommitColumn::Commit) => Some(CommitColumn::Branch),
            Some(CommitColumn::Branch) => Some(CommitColumn::Title),
            Some(CommitColumn::Title) => Some(CommitColumn::Author),
            Some(CommitColumn::Author) => Some(CommitColumn::Date),
            Some(CommitColumn::Date) => None,
        };
        self.refilter(query, ranking);
    }

    /// `before` with the selection at `at`: the preview scroll drops when the
    /// row it belongs to changes, and nothing else moves.
    pub open spec fn selected_at(&self, before: Self, at: int) -> bool {
        &&& self.selected == at
        &&& *self == (CommitPicker {
            selected: self.selected,
            preview_scroll: if at == before.selected { before.preview_scroll } else { 0 },
            ..before
        })
    }

    /// Adjust the selection cursor by `delta`, stopping at the ends of the
    /// list.
    pub fn move_selection(&mut self, delta: i32)
        requires
            old(self).wf(),
        ensures
            final(self).wf(),
            final(self).selected_at(
                *old(self),
                clamped(old(self).filtered@.len() as int, old(self).selected + delta),
            ),
    {
        let next: usize = nav_move(self.filtered.len(), self.selected, delta);
        self.set_selected(next);
    }

    /// Move the cursor to `index`, dropping the preview scroll when the row it
    /// belongs to actually changes.
    fn set_selected(&mut self, index: usize)
        ensures
            final(self).selected_at(*old(self), index as int),
    {
        if self.selected != index {
            self.selected = index;
            self.preview_scroll = 0;
        }
    }

    /// Page the selection by half the rendered list height in `dir` (negative
    /// up, positive down); by a single row before the first render.
    pub fn page(&mut self, dir: i32)
        requires
            old(self).wf(),
            i32::MIN <= dir * page_step(old(self).viewport_rows) <= i32::MAX,
        ensures
            final(self).wf(),
            final(self).selected_at(
                *old(self),
                clamped(
                    old(self).filtered@.len() as int,
                    old(self).selected + dir * page_step(old(self).viewport_rows),
                ),
            ),
    {
        let step: i32 = nav_page_step(self.viewport_rows);
        self.move_selection(dir * step);
    }

    /// Jump the selection to the nearest branch tip in `dir` (negative up the
    /// list toward newer commits, positive down toward older ones).
    ///
    /// The scan runs over the visible rows. It does not wrap, and a direction
    /// with no tip left in it leaves the selection alone.
    pub fn select_branch(&mut self, dir: i32)
        requires
            old(self).wf(),
        ensures
            final(self).wf(),
            final(self).selected_at(
                *old(self),
                match (if dir >= 0 {
                    tip_below(
                        old(self).filtered@,
                        old(self).commits@,
                        old(self).branch_tips@,
                        old(self).selected + 1,
                    )
                } else {
                    tip_above(
                        old(self).filtered@,
                        old(self).commits@,
                        old(self).branch_tips@,
                        old(self).selected as int,
                    )
                }) {
                    Some(row) => row,
                    None => old(self).selected as int,
                },
            ),
    {
        if self.filtered.len() == 0 {
            return ;
        }
        if dir >= 0 {
            let mut row: usize = self.selected + 1;
            while row < self.filtered.len()
                invariant
                    self.wf(),
                    *self == *old(self),
                    dir >= 0,
                    self.selected < row <= self.filtered.len(),
                    tip_below(
                        self.filtered@,
                        self.commits@,
                        self.branch_tips@,
                        self.selected + 1,
                    ) == tip_below(
                        self.filtered@,
                        self.commits@,
                        self.branch_tips@,
                        row as int,
                    ),
                decreases self.filtered.len() - row,
            {
                if self.branch_tips.contains_key(self.commits[self.filtered[row]].sha.as_str()) {
                    self.set_selected(row);
                    return ;
                }
                row = row + 1;
            }
        } else {
            let mut row: usize = self.selected;
            while row > 0
                invariant
                    self.wf(),
                    *self == *old(self),
                    self.filtered.len() > 0,
                    dir < 0,
                    row <= self.selected,
                    tip_above(
                        self.filtered@,
                        self.commits@,
                        self.branch_tips@,
                        self.selected as int,
                    ) == tip_above(
                        self.filtered@,
                        self.commits@,
                        self.branch_tips@,
                        row as int,
                    ),
                decreases row,
            {
                row = row - 1;
                if self.branch_tips.contains_key(self.commits[self.filtered[row]].sha.as_str()) {
                    self.set_selected(row);
                    return ;
                }
            }
        }
    }

    /// Matched offsets to highlight in filtered `row`, in the joined row's
    /// offset space. `derived` are the offsets that the current query matches
    /// in the row's haystack; they serve for a row past those whose offsets
    /// are stored.
    pub fn row_indices(&self, row: usize, derived: Vec<u32>) -> (indices: Vec<u32>)
        requires
            self.wf(),
            self.match_indices@.len() <= row < self.filtered@.len() && self.ranked ==> forall|j: int|
                0 <= j < derived@.len() ==> (#[trigger] derived@[j]) + shift_in(
                    self.branch_tips@,
                    self.now_epoch,
                    self.commits@[self.filtered@[row as int] as int],
                    self.filter_column,
                ) <= u32::MAX,
        ensures
            indices@ == (if row < self.match_indices@.len() {
                self.match_indices@[row as int]@
            } else if row < self.filtered@.len() && self.ranked {
                shifted(
                    derived@,
                    shift_in(
                        self.branch_tips@,
                        self.now_epoch,
                        self.commits@[self.filtered@[row as int] as int],
                        self.filter_column,
                    ),
                )
            } else {
                Seq::empty()
            }),
    {
        if row < self.match_indices.len() {
            return copied(&self.match_indices[row]);
        }
        if row >= self.filtered.len() || !self.ranked {
            return Vec::new();
        }
        let idx: usize = self.filtered[row];
        let by: u32 = shift_of(&self.rows[idx], self.filter_column);
        moved_on(&derived, by)
    }

    /// The commit under the selection cursor, or `None` for an empty list.
    pub fn selected_commit(&self) -> (commit: Option<&CommitInfo>)
        requires
            self.wf(),
        ensures
            match commit {
                Some(c) => self.filtered@.len() > 0 && *c
                    == self.commits@[self.filtered@[self.selected as int] as int],
                None => self.filtered@.len() == 0,
            },
    {
        if self.selected < self.filtered.len() {
            let idx: usize = self.filtered[self.selected];
            Some(&self.commits[idx])
        } else {
            None
        }
    }

    /// The row to start on: the newest when browsing, else the newest that is
    /// another branch's tip, or the newest where there is none.
    pub open spec fn first_choice(&self) -> int {
        match self.role {
            CommitPickerRole::Browse => 0,
            CommitPickerRole::PickBase => match other_tip(
                self.filtered@,
                self.commits@,
                self.branch_tips@,
                self.ref_sha@,
                0,
            ) {
                Some(row) => row,
                None => 0,
            },
        }
    }

    /// The filtered row to start on.
    ///
    /// Under [`CommitPickerRole::PickBase`] this is the newest commit carrying
    /// a local branch other than the ref the picker was opened over, falling
    /// back to the newest row. A browser starts at the newest row instead.
    pub fn default_selection(&self) -> (row: usize)
        requires
            self.wf(),
        ensures
            row == self.first_choice(),
            row == clamped(self.filtered@.len() as int, row as int),
    {
        if self.role == CommitPickerRole::Browse {
            return 0;
        }
        let mut row: usize = 0;
        while row < self.filtered.len()
            invariant
                self.wf(),
                row <= self.filtered.len(),
                self.role == CommitPickerRole::PickBase,
                other_tip(
                    self.filtered@,
                    self.commits@,
                    self.branch_tips@,
                    self.ref_sha@,
                    0,
                ) == other_tip(
                    self.filtered@,
                    self.commits@,
                    self.branch_tips@,
                    self.ref_sha@,
                    row as int,
                ),
            decreases self.filtered.len() - row,
        {
            let sha = &self.commits[self.filtered[row]].sha;
            if !same(sha.as_str(), self.ref_sha.as_str()) && self.branch_tips.contains_key(
                sha.as_str(),
            ) {
                return row;
            }
            row = row + 1;
        }
        0
    }

    /// The rows the table would paint starting at `start_row`, at most `rows`
    /// of them.
    pub fn window(&self, start_row: usize, rows: usize) -> (shown: Vec<CommitRow>)
        requires
            self.wf(),
        ensures
            shown@.len() == (if start_row >= self.filtered@.len() {
                0
            } else if self.filtered@.len() - start_row < rows {
                self.filtered@.len() - start_row
            } else {
                rows as int
            }),
            forall|i: int|
                0 <= i < shown@.len() ==> ({
                    let row = self.rows@[self.filtered@[start_row + i] as int];
                    (#[trigger] shown@[i]).text == row.text && shown@[i].cells@ == row.cells@
                }),
    {
        let mut shown: Vec<CommitRow> = Vec::new();
        if start_row >= self.filtered.len() {
            return shown;
        }
        while shown.len() < rows && shown.len() < self.filtered.len() - start_row
            invariant
                self.wf(),
                start_row < self.filtered.len(),
                shown.len() <= rows,
                shown.len() <= self.filtered.len() - start_row,
                forall|i: int|
                    0 <= i < shown@.len() ==> ({
                        let row = self.rows@[self.filtered@[start_row + i] as int];
                        (#[trigger] shown@[i]).text == row.text && shown@[i].cells@ == row.cells@
                    }),
            decreases rows - shown.len(),
        {
            let idx: usize = self.filtered[start_row + shown.len()];
            shown.push(self.row(idx));
        }
        shown
    }
}

/// The text of a commit's row that a query scoped to `column` is matched
/// against.
pub open spec fn haystack_of(
    tips: Map<Seq<char>, Vec<String>>,
    now: i64,
    commit: CommitInfo,
    column: Option<CommitColumn>,
) -> Seq<char> {
    let cells = cell_texts(tips, now, commit);
    match column {
        Some(c) => cells[c.place()],
        None => joined(cells, 5),
    }
}

fn haystacks_in(
    rows: &Vec<CommitRow>,
    column: Option<CommitColumn>,
    Ghost(tips): Ghost<Map<Seq<char>, Vec<String>>>,
    Ghost(now): Ghost<i64>,
    Ghost(commits): Ghost<Seq<CommitInfo>>,
) -> (texts: Vec<String>)
    requires
        rows_show(rows@, tips, now, commits),
    ensures
        texts@.len() == commits.len(),
        forall|i: int|
            0 <= i < texts@.len() ==> (#[trigger] texts@[i])@ == haystack_of(
                tips,
                now,
                commits[i],
                column,
            ),
{
    let mut texts: Vec<String> = Vec::new();
    for i in 0..rows.len()
        invariant
            rows_show(rows@, tips, now, commits),
            texts.len() == i,
            forall|k: int|
                0 <= k < texts@.len() ==> (#[trigger] texts@[k])@ == haystack_of(
                    tips,
                    now,
                    commits[k],
                    column,
                ),
    {
        let row = &rows[i];
        assert(shows(*row, cell_texts(tips, now, commits[i as int])));
        let text: String = match column {
            Some(c) => row.cells[c.index()].text.clone(),
            None => row.text.clone(),
        };
        texts.push(text);
    }
    texts
}

/// Every row of a list of `n`, with nothing matched in any.
fn whole_list(n: usize) -> (r: (Vec<usize>, Vec<Vec<u32>>))
    ensures
        r.0@ == Seq::new(n as nat, |i: int| i as usize),
        r.1@.len() == n,
        forall|i: int| 0 <= i < n ==> (#[trigger] r.1@[i])@ == Seq::<u32>::empty(),
{
    let mut filtered: Vec<usize> = Vec::new();
    let mut matches: Vec<Vec<u32>> = Vec::new();
    for i in 0..n
        invariant
            filtered@ == Seq::new(i as nat, |k: int| k as usize),
            matches@.len() == i,
            forall|k: int| 0 <= k < i ==> (#[trigger] matches@[k])@ == Seq::<u32>::empty(),
    {
        filtered.push(i);
        matches.push(Vec::new());
        assert(filtered@ =~= Seq::new((i + 1) as nat, |k: int| k as usize));
    }
    (filtered, matches)
}

/// Whether `filtered` is the whole list of `n` rows in its own order.
fn whole(filtered: &Vec<usize>, n: usize) -> (r: bool)
    ensures
        r == is_whole(filtered@, n as nat),
{
    if filtered.len() != n {
        return false;
    }
    let mut i: usize = 0;
    while i < n
        invariant
            i <= n,
            filtered.len() == n,
            forall|k: int| 0 <= k < i ==> #[trigger] filtered@[k] == k,
        decreases n - i,
    {
        if filtered[i] != i {
            return false;
        }
        i = i + 1;
    }
    true
}

/// Where the column starts in the row's join.
fn shift_of(row: &CommitRow, column: Option<CommitColumn>) -> (by: u32)
    ensures
        by == (match column {
            Some(c) => row.cells@[c.place()].start as u32,
            None => 0,
        }),
{
    match column {
        Some(c) => {
            let start: usize = row.cells[c.index()].start;
            #[verifier::truncate]
            (start as u32)
        },
        None => 0,
    }
}

fn moved_on(offsets: &Vec<u32>, by: u32) -> (moved: Vec<u32>)
    requires
        forall|j: int| 0 <= j < offsets@.len() ==> (#[trigger] offsets@[j]) + by <= u32::MAX,
    ensures
        moved@ == shifted(offsets@, by),
{
    let mut moved: Vec<u32> = Vec::new();
    for j in 0..offsets.len()
        invariant
            forall|j: int| 0 <= j < offsets@.len() ==> (#[trigger] offsets@[j]) + by <= u32::MAX,
            moved@ == shifted(offsets@, by).take(j as int),
    {
        moved.push(offsets[j] + by);
        assert(moved@ =~= shifted(offsets@, by).take(j + 1));
    }
    assert(shifted(offsets@, by).take(offsets.len() as int) =~= shifted(offsets@, by));
    moved
}

/// The offsets of a ranking, in the space of the joined rows.
fn joined_offsets(
    rows: &Vec<CommitRow>,
    ranking: &Ranking,
    column: Option<CommitColumn>,
    Ghost(tips): Ghost<Map<Seq<char>, Vec<String>>>,
    Ghost(now): Ghost<i64>,
    Ghost(commits): Ghost<Seq<CommitInfo>>,
) -> (matches: Vec<Vec<u32>>)
    requires
        rows_show(rows@, tips, now, commits),
        ranking_fits(*ranking, tips, now, commits, column),
    ensures
        matches@.len() == ranking.matches@.len(),
        forall|i: int|
            0 <= i < matches@.len() ==> (#[trigger] matches@[i])@ == shifted(
                ranking.matches@[i]@,
                shift_in(tips, now, commits[ranking.order@[i] as int], column),
            ),
{
    let mut matches: Vec<Vec<u32>> = Vec::new();
    for i in 0..ranking.matches.len()
        invariant
            rows_show(rows@, tips, now, commits),
            ranking_fits(*ranking, tips, now, commits, column),
            matches.len() == i,
            forall|k: int|
                0 <= k < matches@.len() ==> (#[trigger] matches@[k])@ == shifted(
                    ranking.matches@[k]@,
                    shift_in(tips, now, commits[ranking.order@[k] as int], column),
                ),
    {
        let row: usize = ranking.order[i];
        assert(shows(rows@[row as int], cell_texts(tips, now, commits[row as int])));
        let by: u32 = shift_of(&rows[row], column);
        assert(by == shift_in(tips, now, commits[row as int], column));
        assert forall|j: int| 0 <= j < ranking.matches@[i as int]@.len() implies (
        #[trigger] ranking.matches@[i as int]@[j]) + by <= u32::MAX by {}
        matches.push(moved_on(&ranking.matches[i], by));
    }
    matches
}

/// Popping a scope undoes the drill that made it: the list, the label, the
/// column and the scopes further out are those of before, and so is the
/// selection when the list was filtered by the query that is restored.
pub proof fn pop_undoes_push<S>(
    before: CommitPicker<S>,
    inside: CommitPicker<S>,
    after: CommitPicker<S>,
    label: Seq<char>,
    ref_sha: Seq<char>,
    commits: Vec<CommitInfo>,
    query: Seq<char>,
    ranking: Ranking,
)
    requires
        before.wf(),
        inside.drilled(before, label, ref_sha, commits, query),
        after.undrilled(inside, ranking),
    ensures
        after.scope_stack@ == before.scope_stack@,
        after.scope_label == before.scope_label,
        after.ref_sha == before.ref_sha,
        after.commits == before.commits,
        after.filter_column == before.filter_column,
        after.branch_tips == before.branch_tips,
        after.lists(query, ranking),
        before.lists(query, ranking) ==> after.filtered@ == before.filtered@ && after.selected
            == before.selected,
{
}

// ---------------------------------------------------------------------------
// Laws
// ---------------------------------------------------------------------------

/// An age is told in the largest unit of which there is one: years of 365 days,
/// months of 30, days, hours or minutes, rounded down; less than a minute, or
/// none at all, is now.
pub proof fn an_age_is_told_in_its_largest_unit(age: int)
    ensures
        age < 60 ==> age_text(age) == seq!['n', 'o', 'w'],
        60 <= age < 60 * 60 ==> age_text(age) == decimal_digits((age / 60) as nat) + seq!['m'],
        60 * 60 <= age < 24 * 60 * 60 ==> age_text(age) == decimal_digits(
            (age / (60int * 60)) as nat,
        ) + seq!['h'],
        24 * 60 * 60 <= age < 30 * 24 * 60 * 60 ==> age_text(age) == decimal_digits(
            (age / (24int * 60 * 60)) as nat,
        ) + seq!['d'],
        30 * 24 * 60 * 60 <= age < 365 * 24 * 60 * 60 ==> age_text(age) == decimal_digits(
            (age / (30int * 24 * 60 * 60)) as nat,
        ) + seq!['m', 'o'],
        365 * 24 * 60 * 60 <= age ==> age_text(age) == decimal_digits(
            (age / (365int * 24 * 60 * 60)) as nat,
        ) + seq!['y'],
{
}

/// The age of a commit is the time since it was made, held to what a number of
/// seconds can say.
pub proof fn an_age_is_the_time_since(now: i64, then: i64)
    ensures
        i64::MIN <= now - then <= i64::MAX ==> seconds_between(now, then) == now - then,
        now - then > i64::MAX ==> seconds_between(now, then) == i64::MAX,
        now - then < i64::MIN ==> seconds_between(now, then) == i64::MIN,
{
}

/// A row shows the commit's short sha, the branches whose tip it is, its
/// summary, its author and its age, one behind the other with a space between
/// each two.
pub proof fn a_row_shows_its_commit(
    row: CommitRow,
    tips: Map<Seq<char>, Vec<String>>,
    now: i64,
    commit: CommitInfo,
)
    requires
        shows(row, cell_texts(tips, now, commit)),
    ensures
        row.cells@[0].text@ == commit.short_sha@,
        tips.contains_key(commit.sha@) ==> row.cells@[1].text@ == separated(
            texts(tips[commit.sha@]@),
            seq![' '],
        ),
        !tips.contains_key(commit.sha@) ==> row.cells@[1].text@.len() == 0,
        row.cells@[2].text@ == commit.summary@,
        row.cells@[3].text@ == commit.author_name@,
        row.cells@[4].text@ == age_text(seconds_between(now, commit.time)),
        row.text@ == row.cells@[0].text@ + seq![' '] + row.cells@[1].text@ + seq![' ']
            + row.cells@[2].text@ + seq![' '] + row.cells@[3].text@ + seq![' ']
            + row.cells@[4].text@,
        row.cells@[0].start == 0,
        row.cells@[1].start == row.cells@[0].text@.len() + 1,
        row.cells@[2].start == row.cells@[1].start + row.cells@[1].text@.len() + 1,
        row.cells@[3].start == row.cells@[2].start + row.cells@[2].text@.len() + 1,
        row.cells@[4].start == row.cells@[3].start + row.cells@[3].text@.len() + 1,
{
    let cells = cell_texts(tips, now, commit);
    reveal_with_fuel(joined, 6);
    reveal_with_fuel(before_cell, 6);
    assert(row.cells@[0].text@ == cells[0] && row.cells@[1].text@ == cells[1]);
    assert(row.cells@[2].text@ == cells[2] && row.cells@[3].text@ == cells[3]);
    assert(row.cells@[4].text@ == cells[4]);
    assert(joined(cells, 1) =~= cells[0]);
    assert(joined(cells, 2) =~= cells[0] + seq![' '] + cells[1]);
    assert(joined(cells, 3) =~= cells[0] + seq![' '] + cells[1] + seq![' '] + cells[2]);
    assert(joined(cells, 4) =~= cells[0] + seq![' '] + cells[1] + seq![' '] + cells[2] + seq![' ']
        + cells[3]);
    assert(joined(cells, 5) =~= cells[0] + seq![' '] + cells[1] + seq![' '] + cells[2] + seq![' ']
        + cells[3] + seq![' '] + cells[4]);
}

/// A query is matched against the whole row, or against the one cell that it is
/// scoped to.
pub proof fn a_query_is_matched_in_its_column(
    row: CommitRow,
    tips: Map<Seq<char>, Vec<String>>,
    now: i64,
    commit: CommitInfo,
)
    requires
        shows(row, cell_texts(tips, now, commit)),
    ensures
        haystack_of(tips, now, commit, None) == row.text@,
        haystack_of(tips, now, commit, Some(CommitColumn::Commit)) == row.cells@[0].text@,
        haystack_of(tips, now, commit, Some(CommitColumn::Branch)) == row.cells@[1].text@,
        haystack_of(tips, now, commit, Some(CommitColumn::Title)) == row.cells@[2].text@,
        haystack_of(tips, now, commit, Some(CommitColumn::Author)) == row.cells@[3].text@,
        haystack_of(tips, now, commit, Some(CommitColumn::Date)) == row.cells@[4].text@,
{
    let cells = cell_texts(tips, now, commit);
    assert(row.cells@[0].text@ == cells[0] && row.cells@[1].text@ == cells[1]);
    assert(row.cells@[2].text@ == cells[2] && row.cells@[3].text@ == cells[3]);
    assert(row.cells@[4].text@ == cells[4]);
}

/// A blank query lists every commit in its place, with nothing highlighted. Any
/// other lists what ranking gave, in its order, and highlights the characters
/// that matched where they stand in the row.
pub proof fn a_query_lists_the_ranking(
    list: Shown,
    query: Seq<char>,
    column: Option<CommitColumn>,
    ranking: Ranking,
)
    requires
        shows_ranked(list, query, column, ranking),
        list.commits.len() <= usize::MAX,
    ensures
        is_blank(query) ==> list.filtered.len() == list.commits.len() && !list.ranked && forall|
            i: int,
        |
            0 <= i < list.filtered.len() ==> #[trigger] list.filtered[i] == i,
        is_blank(query) ==> list.matches.len() == list.commits.len() && forall|i: int|
            0 <= i < list.matches.len() ==> (#[trigger] list.matches[i])@.len() == 0,
        !is_blank(query) ==> list.filtered == ranking.order@ && list.ranked,
        !is_blank(query) ==> list.matches.len() == ranking.matches@.len(),
        !is_blank(query) && column is None ==> forall|i: int, j: int|
            0 <= i < list.matches.len() && 0 <= j < list.matches[i]@.len()
                ==> #[trigger] list.matches[i]@[j] == ranking.matches@[i]@[j],
        !is_blank(query) ==> forall|i: int|
            0 <= i < list.matches.len() ==> (#[trigger] list.matches[i])@.len()
                == ranking.matches@[i]@.len(),
        list.graph_lanes is Some <==> list.filtered.len() == list.commits.len() && forall|i: int|
            0 <= i < list.filtered.len() ==> #[trigger] list.filtered[i] == i,
{
    let lists = offset_lists(list.matches);
    let shown = shown_matches(query, ranking, list.tips, list.now, list.commits, column);
    assert(lists.len() == list.matches.len());
    assert forall|i: int| 0 <= i < list.matches.len() implies (#[trigger] list.matches[i])@
        == shown[i] by {
        assert(lists[i] == list.matches[i]@);
    }
}

/// In a column the highlighted characters are as far into the row as the column
/// is: by where its cell starts.
pub proof fn matches_are_highlighted_in_their_column(
    row: CommitRow,
    tips: Map<Seq<char>, Vec<String>>,
    now: i64,
    commit: CommitInfo,
    column: CommitColumn,
    place: int,
)
    requires
        shows(row, cell_texts(tips, now, commit)),
        place == (match column {
            CommitColumn::Commit => 0int,
            CommitColumn::Branch => 1,
            CommitColumn::Title => 2,
            CommitColumn::Author => 3,
            CommitColumn::Date => 4,
        }),
        row.text@.len() <= u32::MAX,
    ensures
        shift_in(tips, now, commit, Some(column)) == row.cells@[place].start,
        shift_in(tips, now, commit, None) == 0,
{
    let cells = cell_texts(tips, now, commit);
    cell_stands_at_its_start(row, cells, place);
    assert(row.cells@[place].start == before_cell(cells, place as nat).len());
}

proof fn lemma_widest_cell(rows: Seq<CommitRow>, filtered: Seq<usize>, column: int, n: nat)
    requires
        n <= filtered.len(),
        forall|i: int| 0 <= i < filtered.len() ==> #[trigger] filtered[i] < rows.len(),
        forall|i: int|
            0 <= i < rows.len() ==> (#[trigger] rows[i]).cells@[column].text@.len() <= u16::MAX,
    ensures
        forall|i: int|
            0 <= i < n ==> rows[#[trigger] filtered[i] as int].cells@[column].text@.len()
                <= widest_cell(rows, filtered, column, n),
        widest_cell(rows, filtered, column, n) > 0 ==> exists|i: int|
            0 <= i < n && rows[#[trigger] filtered[i] as int].cells@[column].text@.len()
                == widest_cell(rows, filtered, column, n),
    decreases n,
{
    if n > 0 {
        let p = (n - 1) as nat;
        lemma_widest_cell(rows, filtered, column, p);
        let before = widest_cell(rows, filtered, column, p);
        let here = rows[filtered[n - 1] as int].cells@[column].text@.len();
        assert(rows[filtered[n - 1] as int].cells@[column].text@.len() <= u16::MAX);
        if here <= before && before > 0 {
            let i = choose|i: int|
                0 <= i < p && rows[#[trigger] filtered[i] as int].cells@[column].text@.len()
                    == before;
            assert(rows[filtered[i] as int].cells@[column].text@.len() == before);
        }
    }
}

/// A column is as wide as the longest text in it among the rows listed.
pub proof fn a_column_is_as_wide_as_its_longest_text(
    rows: Seq<CommitRow>,
    filtered: Seq<usize>,
    column: int,
    width: u16,
)
    requires
        forall|i: int| 0 <= i < filtered.len() ==> #[trigger] filtered[i] < rows.len(),
        forall|i: int|
            0 <= i < rows.len() ==> (#[trigger] rows[i]).cells@[column].text@.len() <= u16::MAX,
        width == widest_cell(rows, filtered, column, filtered.len()),
    ensures
        forall|i: int|
            0 <= i < filtered.len() ==> rows[#[trigger] filtered[i] as int].cells@[column].text@.len()
                <= width,
        width > 0 ==> exists|i: int|
            0 <= i < filtered.len()
                && rows[#[trigger] filtered[i] as int].cells@[column].text@.len() == width,
{
    lemma_widest_cell(rows, filtered, column, filtered.len());
}

/// Stepping from branch to branch stops at the nearest row, below or above,
/// whose commit is the tip of a branch; nowhere where there is none.
pub proof fn the_nearest_branch_is_found(
    filtered: Seq<usize>,
    commits: Seq<CommitInfo>,
    tips: Map<Seq<char>, Vec<String>>,
    at: int,
)
    requires
        0 <= at <= filtered.len(),
    ensures
        match tip_below(filtered, commits, tips, at) {
            Some(row) => at <= row < filtered.len() && tips.contains_key(
                commits[filtered[row] as int].sha@,
            ) && forall|i: int|
                at <= i < row ==> !tips.contains_key(commits[#[trigger] filtered[i] as int].sha@),
            None => forall|i: int|
                at <= i < filtered.len() ==> !tips.contains_key(
                    commits[#[trigger] filtered[i] as int].sha@,
                ),
        },
        match tip_above(filtered, commits, tips, at) {
            Some(row) => 0 <= row < at && tips.contains_key(commits[filtered[row] as int].sha@)
                && forall|i: int|
                row < i < at ==> !tips.contains_key(commits[#[trigger] filtered[i] as int].sha@),
            None => forall|i: int|
                0 <= i < at ==> !tips.contains_key(commits[#[trigger] filtered[i] as int].sha@),
        },
{
    lemma_tip_below(filtered, commits, tips, at);
    lemma_tip_above(filtered, commits, tips, at);
}

proof fn lemma_tip_below(
    filtered: Seq<usize>,
    commits: Seq<CommitInfo>,
    tips: Map<Seq<char>, Vec<String>>,
    at: int,
)
    requires
        0 <= at <= filtered.len(),
    ensures
        match tip_below(filtered, commits, tips, at) {
            Some(row) => at <= row < filtered.len() && tips.contains_key(
                commits[filtered[row] as int].sha@,
            ) && forall|i: int|
                at <= i < row ==> !tips.contains_key(commits[#[trigger] filtered[i] as int].sha@),
            None => forall|i: int|
                at <= i < filtered.len() ==> !tips.contains_key(
                    commits[#[trigger] filtered[i] as int].sha@,
                ),
        },
    decreases filtered.len() - at,
{
    if at < filtered.len() && !tips.contains_key(commits[filtered[at] as int].sha@) {
        lemma_tip_below(filtered, commits, tips, at + 1);
    }
}

proof fn lemma_tip_above(
    filtered: Seq<usize>,
    commits: Seq<CommitInfo>,
    tips: Map<Seq<char>, Vec<String>>,
    at: int,
)
    requires
        0 <= at <= filtered.len(),
    ensures
        match tip_above(filtered, commits, tips, at) {
            Some(row) => 0 <= row < at && tips.contains_key(commits[filtered[row] as int].sha@)
                && forall|i: int|
                row < i < at ==> !tips.contains_key(commits[#[trigger] filtered[i] as int].sha@),
            None => forall|i: int|
                0 <= i < at ==> !tips.contains_key(commits[#[trigger] filtered[i] as int].sha@),
        },
    decreases at,
{
    if at > 0 && !tips.contains_key(commits[filtered[at - 1] as int].sha@) {
        lemma_tip_above(filtered, commits, tips, at - 1);
    }
}

/// The row that a picker for a base starts on: the first whose commit is the tip
/// of a branch without being the commit that the picker is for.
pub proof fn another_branch_is_offered_first(
    filtered: Seq<usize>,
    commits: Seq<CommitInfo>,
    tips: Map<Seq<char>, Vec<String>>,
    ref_sha: Seq<char>,
    from: int,
)
    requires
        0 <= from <= filtered.len(),
    ensures
        match other_tip(filtered, commits, tips, ref_sha, from) {
            Some(row) => from <= row < filtered.len() && tips.contains_key(
                commits[filtered[row] as int].sha@,
            ) && commits[filtered[row] as int].sha@ != ref_sha && forall|i: int|
                from <= i < row ==> !tips.contains_key(commits[#[trigger] filtered[i] as int].sha@)
                    || commits[filtered[i] as int].sha@ == ref_sha,
            None => forall|i: int|
                from <= i < filtered.len() ==> !tips.contains_key(
                    commits[#[trigger] filtered[i] as int].sha@,
                ) || commits[filtered[i] as int].sha@ == ref_sha,
        },
    decreases filtered.len() - from,
{
    if from < filtered.len() {
        let sha = commits[filtered[from] as int].sha@;
        if !(sha != ref_sha && tips.contains_key(sha)) {
            another_branch_is_offered_first(filtered, commits, tips, ref_sha, from + 1);
        }
    }
}

/// The row that a picker starts on: the newest for one that only browses; for
/// one that picks a base the first tip of another branch, or the newest where
/// there is none.
pub proof fn the_role_says_where_to_start<S>(picker: CommitPicker<S>)
    ensures
        picker.role is Browse ==> picker.first_choice() == 0,
        picker.role is PickBase ==> picker.first_choice() == (match other_tip(
            picker.filtered@,
            picker.commits@,
            picker.branch_tips@,
            picker.ref_sha@,
            0,
        ) {
            Some(row) => row,
            None => 0,
        }),
{
}

/// Scoping a query goes from the whole row through the columns, from the left to
/// the right, and back.
pub proof fn scoping_goes_from_left_to_right()
    ensures
        CommitColumn::after(None) == Some(CommitColumn::Commit),
        CommitColumn::after(Some(CommitColumn::Commit)) == Some(CommitColumn::Branch),
        CommitColumn::after(Some(CommitColumn::Branch)) == Some(CommitColumn::Title),
        CommitColumn::after(Some(CommitColumn::Title)) == Some(CommitColumn::Author),
        CommitColumn::after(Some(CommitColumn::Author)) == Some(CommitColumn::Date),
        CommitColumn::after(Some(CommitColumn::Date)) is None,
{
}

/// In a column the offsets that ranking gave move on by where the column's cell
/// starts in the row.
pub proof fn offsets_move_on_to_the_column(
    list: Shown,
    query: Seq<char>,
    column: Option<CommitColumn>,
    ranking: Ranking,
    i: int,
    j: int,
)
    requires
        shows_ranked(list, query, column, ranking),
        ranking_fits(ranking, list.tips, list.now, list.commits, column),
        !is_blank(query),
        0 <= i < ranking.matches@.len(),
        0 <= j < ranking.matches@[i]@.len(),
    ensures
        list.matches.len() == ranking.matches@.len(),
        list.matches[i]@.len() == ranking.matches@[i]@.len(),
        list.matches[i]@[j] == ranking.matches@[i]@[j] + shift_in(
            list.tips,
            list.now,
            list.commits[ranking.order@[i] as int],
            column,
        ),
{
    let lists = offset_lists(list.matches);
    let shown = shown_matches(query, ranking, list.tips, list.now, list.commits, column);
    assert(lists.len() == list.matches.len());
    assert(lists[i] == list.matches[i]@);
    assert(ranking.matches@[i]@[j] + shift_in(
        list.tips,
        list.now,
        list.commits[ranking.order@[i] as int],
        column,
    ) <= u32::MAX);
}

/// Drilling into a merge parks what is left and shows the merge's commits, all
/// of them, from the newest on.
pub proof fn drilling_shows_the_merges_commits<S>(
    inside: CommitPicker<S>,
    before: CommitPicker<S>,
    label: Seq<char>,
    ref_sha: Seq<char>,
    commits: Vec<CommitInfo>,
    query: Seq<char>,
)
    requires
        inside.drilled(before, label, ref_sha, commits, query),
    ensures
        inside.commits == commits,
        inside.ref_sha@ == ref_sha,
        inside.scope_label is Some && inside.scope_label->0@ == label,
        inside.filtered@.len() == commits@.len(),
        forall|i: int| 0 <= i < inside.filtered@.len() ==> #[trigger] inside.filtered@[i] == i,
        inside.selected == 0,
        inside.filter_column is None,
        inside.scope_stack@.len() == before.scope_stack@.len() + 1,
        inside.scope_stack@.last().commits == before.commits,
        inside.scope_stack@.last().query@ == query,
        inside.scope_stack@.last().selected == before.selected,
{
}

/// A changed selection starts its preview from the top; one that stays keeps
/// the place it was scrolled to.
pub proof fn a_new_selection_is_previewed_from_the_top<S>(
    after: CommitPicker<S>,
    before: CommitPicker<S>,
    at: int,
)
    requires
        after.selected_at(before, at),
    ensures
        after.selected == at,
        at != before.selected ==> after.preview_scroll == 0,
        at == before.selected ==> after.preview_scroll == before.preview_scroll,
        after.filtered == before.filtered,
        after.commits == before.commits,
{
}

} // verus!
