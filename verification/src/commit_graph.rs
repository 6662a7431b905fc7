//! Lane layout for the commit picker's node graph.
//!
//! Pure geometry over a parent DAG. Nothing here knows about cells, pixels, or
//! colors, so every renderer shares one layout.

use crate::host::CommitInfo;
use crate::text::same;
use vstd::prelude::*;
use vstd::seq_lib::group_to_multiset_ensures;

verus! {

/// One line segment running from this row to the next.
///
/// A vertical run has equal lanes. A differing pair is a branch leaving its
/// lane or a merge converging into one.
#[derive(Clone, Copy, Debug, PartialEq, Eq, PartialOrd, Ord, Structural)]
pub struct GraphEdge {
    pub from_lane: u16,
    pub to_lane: u16,
    /// Whether this edge runs to a merge's second or later parent.
    pub second_parent: bool,
}

/// Where one commit sits in the graph and what runs below it.
///
/// [`Self::edges`] covers the gap between this row and the next, so the last
/// row's edges describe lines leaving the bottom of the list.
#[derive(Clone, Debug, PartialEq, Eq)]
pub struct GraphRow {
    pub node_lane: u16,
    pub edges: Vec<GraphEdge>,
}

// ---------------------------------------------------------------------------
// The model: each lane holds the sha it waits for, or nothing.
// ---------------------------------------------------------------------------

/// The lanes of a layout, each with the sha it waits for.
pub type Lanes = Seq<Option<Seq<char>>>;

pub open spec fn awaited(lane: Option<String>) -> Option<Seq<char>> {
    match lane {
        Some(sha) => Some(sha@),
        None => None,
    }
}

pub open spec fn lanes_of(active: Seq<Option<String>>) -> Lanes {
    Seq::new(active.len(), |i: int| awaited(active[i]))
}

pub open spec fn shas(parents: Seq<String>) -> Seq<Seq<char>> {
    Seq::new(parents.len(), |i: int| parents[i]@)
}

/// The leftmost lane at or after `from` that holds `wanted`.
pub open spec fn leftmost(lanes: Lanes, wanted: Option<Seq<char>>, from: int) -> Option<int>
    decreases lanes.len() - from,
{
    if from >= lanes.len() {
        None
    } else if lanes[from] == wanted {
        Some(from)
    } else {
        leftmost(lanes, wanted, from + 1)
    }
}

/// The lane that a new line starting at or after `from` takes: the leftmost
/// empty one, or a fresh one to the right of all.
pub open spec fn opened(lanes: Lanes, from: int) -> int {
    match leftmost(lanes, None, from) {
        Some(lane) => lane,
        None => if from > lanes.len() { from } else { lanes.len() as int },
    }
}

/// `lanes`, with empty lanes added until `lane` is one of them.
pub open spec fn grown(lanes: Lanes, lane: int) -> Lanes {
    if lane < lanes.len() {
        lanes
    } else {
        lanes + Seq::new((lane + 1 - lanes.len()) as nat, |i: int| None)
    }
}

/// The lane of a commit's node: the one waiting for it, else a fresh one.
pub open spec fn node_lane(lanes: Lanes, sha: Seq<char>) -> int {
    match leftmost(lanes, Some(sha), 0) {
        Some(lane) => lane,
        None => opened(lanes, 0),
    }
}

/// The lanes once the node has taken its own, which waits for nothing now.
pub open spec fn arrived(lanes: Lanes, sha: Seq<char>) -> Lanes {
    let node = node_lane(lanes, sha);
    grown(lanes, node).update(node, None)
}

/// The lane that runs to the `nth` parent: the one already waiting for it,
/// else the node's own for a first parent and a fresh one further right for
/// any other.
pub open spec fn parent_lane(lanes: Lanes, node: int, parent: Seq<char>, nth: int) -> int {
    match leftmost(lanes, Some(parent), 0) {
        Some(lane) => lane,
        None => if nth == 0 { node } else { opened(lanes, node + 1) },
    }
}

/// The lanes with the first `n` parents seated.
pub open spec fn seated(lanes: Lanes, node: int, parents: Seq<Seq<char>>, n: nat) -> Lanes
    decreases n,
{
    if n == 0 {
        lanes
    } else {
        let above = seated(lanes, node, parents, (n - 1) as nat);
        let lane = parent_lane(above, node, parents[n - 1], n - 1);
        grown(above, lane).update(lane, Some(parents[n - 1]))
    }
}

pub open spec fn parent_edge(lanes: Lanes, node: int, parents: Seq<Seq<char>>, nth: int) -> GraphEdge {
    GraphEdge {
        from_lane: node as u16,
        to_lane: parent_lane(seated(lanes, node, parents, nth as nat), node, parents[nth], nth) as u16,
        second_parent: nth >= 1,
    }
}

/// The edges from a node to each of its parents.
pub open spec fn parent_edges(lanes: Lanes, node: int, parents: Seq<Seq<char>>, n: nat) -> Seq<GraphEdge> {
    Seq::new(n, |nth: int| parent_edge(lanes, node, parents, nth))
}

/// A lane runs straight past a row when it is not the node's, was occupied
/// above the row and still is below it.
pub open spec fn runs_past(before: Lanes, after: Lanes, node: int, lane: int) -> bool {
    lane != node && after[lane] is Some && lane < before.len() && before[lane] is Some
}

/// The straight edges of the first `n` lanes.
pub open spec fn straight_edges(before: Lanes, after: Lanes, node: int, n: nat) -> Seq<GraphEdge>
    decreases n,
{
    if n == 0 {
        Seq::empty()
    } else {
        let left = straight_edges(before, after, node, (n - 1) as nat);
        let lane = n - 1;
        if runs_past(before, after, node, lane) {
            left.push(GraphEdge { from_lane: lane as u16, to_lane: lane as u16, second_parent: false })
        } else {
            left
        }
    }
}

/// The lanes below a row, empty ones on the right still among them.
pub open spec fn lanes_below(before: Lanes, sha: Seq<char>, parents: Seq<Seq<char>>) -> Lanes {
    seated(arrived(before, sha), node_lane(before, sha), parents, parents.len())
}

/// `lanes` without the empty ones on the right.
pub open spec fn trimmed(lanes: Lanes) -> Lanes
    decreases lanes.len(),
{
    if lanes.len() > 0 && lanes.last() is None {
        trimmed(lanes.drop_last())
    } else {
        lanes
    }
}

/// All edges that leave a row.
pub open spec fn edges_below(before: Lanes, sha: Seq<char>, parents: Seq<Seq<char>>) -> Seq<GraphEdge> {
    let node = node_lane(before, sha);
    let after = lanes_below(before, sha, parents);
    parent_edges(arrived(before, sha), node, parents, parents.len())
        + straight_edges(before, after, node, after.len())
}

/// Edges are ordered by where they leave, then by where they arrive, then
/// with a first parent's ahead of the others'.
pub open spec fn edge_le(a: GraphEdge, b: GraphEdge) -> bool {
    ||| a.from_lane < b.from_lane
    ||| a.from_lane == b.from_lane && a.to_lane < b.to_lane
    ||| a.from_lane == b.from_lane && a.to_lane == b.to_lane && (a.second_parent
        ==> b.second_parent)
}

/// `sorted` holds the edges of `edges`, in order.
pub open spec fn is_sorted_form(sorted: Seq<GraphEdge>, edges: Seq<GraphEdge>) -> bool {
    &&& sorted.to_multiset() == edges.to_multiset()
    &&& forall|i: int, j: int|
        0 <= i < j < sorted.len() ==> edge_le(#[trigger] sorted[i], #[trigger] sorted[j])
}

/// The lanes above the row of commit `n`.
pub open spec fn lanes_above(commits: Seq<CommitInfo>, n: nat) -> Lanes
    decreases n,
{
    if n == 0 {
        Seq::empty()
    } else {
        let c = commits[n - 1];
        trimmed(lanes_below(lanes_above(commits, (n - 1) as nat), c.sha@, shas(c.parents@)))
    }
}

/// The number of lanes that the row of commit `n` takes.
pub open spec fn row_width(commits: Seq<CommitInfo>, n: nat) -> nat {
    let c = commits[n as int];
    lanes_below(lanes_above(commits, n), c.sha@, shas(c.parents@)).len()
}

/// The number of lanes that the widest of the first `n` rows takes.
pub open spec fn widest(commits: Seq<CommitInfo>, n: nat) -> nat
    decreases n,
{
    if n == 0 {
        0
    } else {
        let above = widest(commits, (n - 1) as nat);
        let here = row_width(commits, (n - 1) as nat);
        if here > above { here } else { above }
    }
}

/// `row` is the row of commit `n`.
pub open spec fn is_row(row: GraphRow, commits: Seq<CommitInfo>, n: nat) -> bool {
    let c = commits[n as int];
    let before = lanes_above(commits, n);
    &&& row.node_lane == node_lane(before, c.sha@) as u16
    &&& is_sorted_form(row.edges@, edges_below(before, c.sha@, shas(c.parents@)))
}

// ---------------------------------------------------------------------------
// Laws
// ---------------------------------------------------------------------------

/// No sha is awaited in two lanes.
pub open spec fn distinct(lanes: Lanes) -> bool {
    forall|i: int, j: int|
        0 <= i < j < lanes.len() && lanes[i] is Some ==> #[trigger] lanes[i] != #[trigger] lanes[j]
}

proof fn lemma_leftmost(lanes: Lanes, wanted: Option<Seq<char>>, from: int)
    requires
        0 <= from,
    ensures
        match leftmost(lanes, wanted, from) {
            Some(lane) => from <= lane < lanes.len() && lanes[lane] == wanted && forall|i: int|
                from <= i < lane ==> lanes[i] != wanted,
            None => forall|i: int| from <= i < lanes.len() ==> lanes[i] != wanted,
        },
    decreases lanes.len() - from,
{
    if from < lanes.len() && lanes[from] != wanted {
        lemma_leftmost(lanes, wanted, from + 1);
    }
}

proof fn lemma_node_lane(lanes: Lanes, sha: Seq<char>)
    ensures
        0 <= node_lane(lanes, sha) <= lanes.len(),
        node_lane(lanes, sha) < arrived(lanes, sha).len(),
        lanes.len() <= arrived(lanes, sha).len(),
        arrived(lanes, sha)[node_lane(lanes, sha)] is None,
        forall|i: int|
            0 <= i < lanes.len() && i != node_lane(lanes, sha) ==> arrived(lanes, sha)[i] == lanes[i],
        distinct(lanes) ==> distinct(arrived(lanes, sha)),
{
    lemma_leftmost(lanes, Some(sha), 0);
    lemma_leftmost(lanes, None, 0);
}

proof fn lemma_seated(lanes: Lanes, node: int, parents: Seq<Seq<char>>, n: nat)
    requires
        0 <= node < lanes.len(),
        lanes[node] is None,
        n <= parents.len(),
    ensures
        lanes.len() <= seated(lanes, node, parents, n).len(),
        n == 0 ==> seated(lanes, node, parents, n)[node] is None,
        forall|i: int|
            0 <= i < lanes.len() && lanes[i] is Some ==> seated(lanes, node, parents, n)[i]
                == lanes[i],
        distinct(lanes) ==> distinct(seated(lanes, node, parents, n)),
        n < parents.len() ==> 0 <= parent_lane(
            seated(lanes, node, parents, n),
            node,
            parents[n as int],
            n as int,
        ) <= seated(lanes, node, parents, n).len(),
        forall|k: int|
            0 <= k < n ==> #[trigger] parent_lane(
                seated(lanes, node, parents, k as nat),
                node,
                parents[k],
                k,
            ) < seated(lanes, node, parents, n).len(),
    decreases n,
{
    if n > 0 {
        let m = (n - 1) as nat;
        lemma_seated(lanes, node, parents, m);
        let above = seated(lanes, node, parents, m);
        let lane = parent_lane(above, node, parents[n - 1], n - 1);
        lemma_leftmost(above, Some(parents[n - 1]), 0);
        lemma_leftmost(above, None, node + 1);
        let here = seated(lanes, node, parents, n);
        assert(here == grown(above, lane).update(lane, Some(parents[n - 1])));
        assert forall|k: int| 0 <= k < n implies #[trigger] parent_lane(
            seated(lanes, node, parents, k as nat),
            node,
            parents[k],
            k,
        ) < here.len() by {
            if k < m {
                assert(parent_lane(seated(lanes, node, parents, k as nat), node, parents[k], k)
                    < above.len());
            }
        }
    }
    if n < parents.len() {
        let here = seated(lanes, node, parents, n);
        lemma_leftmost(here, Some(parents[n as int]), 0);
        lemma_leftmost(here, None, node + 1);
    }
}

proof fn lemma_trimmed(lanes: Lanes)
    ensures
        trimmed(lanes).len() <= lanes.len(),
        forall|i: int| 0 <= i < trimmed(lanes).len() ==> #[trigger] trimmed(lanes)[i] == lanes[i],
        forall|i: int| trimmed(lanes).len() <= i < lanes.len() ==> (#[trigger] lanes[i]) is None,
        trimmed(lanes).len() > 0 ==> trimmed(lanes).last() is Some,
    decreases lanes.len(),
{
    if lanes.len() > 0 && lanes.last() is None {
        let shorter = lanes.drop_last();
        lemma_trimmed(shorter);
        assert forall|i: int| trimmed(lanes).len() <= i < lanes.len() implies (
        #[trigger] lanes[i]) is None by {
            if i < shorter.len() {
                assert(shorter[i] == lanes[i]);
            }
        }
    }
}

/// Above every row each sha is awaited in one lane at most, which is what lets
/// a second child of a parent converge into the lane already expecting it.
pub proof fn no_sha_waits_in_two_lanes(commits: Seq<CommitInfo>, n: nat)
    requires
        n <= commits.len(),
    ensures
        distinct(lanes_above(commits, n)),
    decreases n,
{
    if n > 0 {
        no_sha_waits_in_two_lanes(commits, (n - 1) as nat);
        let above = lanes_above(commits, (n - 1) as nat);
        let c = commits[n - 1];
        lemma_node_lane(above, c.sha@);
        lemma_seated(
            arrived(above, c.sha@),
            node_lane(above, c.sha@),
            shas(c.parents@),
            c.parents@.len(),
        );
        lemma_trimmed(lanes_below(above, c.sha@, shas(c.parents@)));
    }
}

/// A parent that an earlier commit already has keeps its lane: another child
/// of it draws its edge into that lane.
pub proof fn second_child_converges(lanes: Lanes, node: int, parent: Seq<char>, nth: int, lane: int)
    requires
        distinct(lanes),
        0 <= lane < lanes.len(),
        lanes[lane] == Some(parent),
    ensures
        parent_lane(lanes, node, parent, nth) == lane,
{
    lemma_leftmost(lanes, Some(parent), 0);
}

/// A sha that is awaited in a lane is awaited there until its commit comes;
/// one that never comes keeps its lane to the bottom of the list.
pub proof fn awaited_sha_keeps_its_lane(
    commits: Seq<CommitInfo>,
    n: nat,
    m: nat,
    lane: int,
    sha: Seq<char>,
)
    requires
        n <= m <= commits.len(),
        0 <= lane < lanes_above(commits, n).len(),
        lanes_above(commits, n)[lane] == Some(sha),
        forall|k: int| n <= k < m ==> (#[trigger] commits[k]).sha@ != sha,
    ensures
        lane < lanes_above(commits, m).len(),
        lanes_above(commits, m)[lane] == Some(sha),
    decreases m,
{
    if n < m {
        let p = (m - 1) as nat;
        awaited_sha_keeps_its_lane(commits, n, p, lane, sha);
        let above = lanes_above(commits, p);
        let c = commits[p as int];
        lemma_leftmost(above, Some(c.sha@), 0);
        lemma_leftmost(above, None, 0);
        lemma_node_lane(above, c.sha@);
        let node = node_lane(above, c.sha@);
        assert(node != lane);
        lemma_seated(arrived(above, c.sha@), node, shas(c.parents@), c.parents@.len());
        lemma_trimmed(lanes_below(above, c.sha@, shas(c.parents@)));
    }
}

proof fn lemma_widest(commits: Seq<CommitInfo>, n: nat, k: nat)
    requires
        k < n,
    ensures
        row_width(commits, k) <= widest(commits, n),
    decreases n,
{
    if k < n - 1 {
        lemma_widest(commits, (n - 1) as nat, k);
    }
}

/// The lane count covers every row: the node's lane and the lanes that its
/// edges run to are all below it.
pub proof fn lane_count_covers_every_row(commits: Seq<CommitInfo>, n: nat, nth: int)
    requires
        n < commits.len(),
    ensures
        0 <= node_lane(lanes_above(commits, n), commits[n as int].sha@) < widest(
            commits,
            commits.len(),
        ),
        0 <= nth < commits[n as int].parents@.len() ==> ({
            let above = lanes_above(commits, n);
            let c = commits[n as int];
            let node = node_lane(above, c.sha@);
            let parents = shas(c.parents@);
            0 <= parent_lane(
                seated(arrived(above, c.sha@), node, parents, nth as nat),
                node,
                parents[nth],
                nth,
            ) < widest(commits, commits.len())
        }),
{
    let above = lanes_above(commits, n);
    let c = commits[n as int];
    let node = node_lane(above, c.sha@);
    let parents = shas(c.parents@);
    lemma_node_lane(above, c.sha@);
    lemma_seated(arrived(above, c.sha@), node, parents, parents.len());
    lemma_widest(commits, commits.len(), n);
    if 0 <= nth < parents.len() {
        lemma_seated(arrived(above, c.sha@), node, parents, nth as nat);
    }
}

/// The row of commit `n` has something in `lane`: its node, an edge to a
/// parent, or a line that runs straight past.
pub open spec fn uses(commits: Seq<CommitInfo>, n: nat, lane: int) -> bool {
    let above = lanes_above(commits, n);
    let c = commits[n as int];
    let parents = shas(c.parents@);
    let node = node_lane(above, c.sha@);
    ||| node == lane
    ||| exists|nth: int|
        0 <= nth < parents.len() && #[trigger] parent_lane(
            seated(arrived(above, c.sha@), node, parents, nth as nat),
            node,
            parents[nth],
            nth,
        ) == lane
    ||| runs_past(above, lanes_below(above, c.sha@, parents), node, lane)
}

/// Where seating the parents adds lanes, an edge runs to the last of them.
proof fn lemma_last_seat(lanes: Lanes, node: int, parents: Seq<Seq<char>>, n: nat) -> (nth: int)
    requires
        0 <= node < lanes.len(),
        lanes[node] is None,
        n <= parents.len(),
        lanes.len() < seated(lanes, node, parents, n).len(),
    ensures
        0 <= nth < n,
        parent_lane(seated(lanes, node, parents, nth as nat), node, parents[nth], nth) == seated(
            lanes,
            node,
            parents,
            n,
        ).len() - 1,
    decreases n,
{
    let p = (n - 1) as nat;
    lemma_seated(lanes, node, parents, p);
    let before = seated(lanes, node, parents, p);
    if seated(lanes, node, parents, n).len() == before.len() {
        lemma_last_seat(lanes, node, parents, p)
    } else {
        p as int
    }
}

proof fn lemma_widest_row(commits: Seq<CommitInfo>, n: nat) -> (k: nat)
    requires
        n > 0,
        widest(commits, n) > 0,
    ensures
        k < n,
        row_width(commits, k) == widest(commits, n),
    decreases n,
{
    if row_width(commits, (n - 1) as nat) == widest(commits, n) {
        (n - 1) as nat
    } else {
        lemma_widest_row(commits, (n - 1) as nat)
    }
}

/// No lane is counted in vain: some row uses the last one.
pub proof fn the_last_lane_is_used(commits: Seq<CommitInfo>)
    requires
        commits.len() > 0,
    ensures
        widest(commits, commits.len()) > 0,
        exists|n: nat|
            n < commits.len() && #[trigger] uses(commits, n, widest(commits, commits.len()) - 1),
{
    lane_count_covers_every_row(commits, 0, 0);
    let n = lemma_widest_row(commits, commits.len());
    let above = lanes_above(commits, n);
    let c = commits[n as int];
    let parents = shas(c.parents@);
    let node = node_lane(above, c.sha@);
    let seats = arrived(above, c.sha@);
    let last = widest(commits, commits.len()) - 1;
    lemma_node_lane(above, c.sha@);
    lemma_seated(seats, node, parents, parents.len());
    if seats.len() < lanes_below(above, c.sha@, parents).len() {
        let nth = lemma_last_seat(seats, node, parents, parents.len());
        assert(parent_lane(seated(seats, node, parents, nth as nat), node, parents[nth], nth)
            == last);
    } else if above.len() == seats.len() && node != last {
        if n > 0 {
            let p = (n - 1) as nat;
            lemma_trimmed(
                lanes_below(lanes_above(commits, p), commits[p as int].sha@, shas(commits[p as int].parents@)),
            );
        }
        assert(above.last() is Some);
        assert(runs_past(above, lanes_below(above, c.sha@, parents), node, last));
    }
    assert(uses(commits, n, last));
}

/// What a lane waits for stays as further parents are seated, and each lane
/// that comes to wait for something is one that an edge runs to.
proof fn lemma_seating(lanes: Lanes, node: int, parents: Seq<Seq<char>>, m: nat, n: nat)
    requires
        0 <= node < lanes.len(),
        lanes[node] is None,
        m <= n <= parents.len(),
    ensures
        lanes.len() <= seated(lanes, node, parents, m).len() <= seated(
            lanes,
            node,
            parents,
            n,
        ).len(),
        forall|l: int|
            0 <= l < seated(lanes, node, parents, m).len() && (#[trigger] seated(
                lanes,
                node,
                parents,
                m,
            )[l]) is Some ==> seated(lanes, node, parents, n)[l] is Some,
        forall|l: int|
            0 <= l < seated(lanes, node, parents, n).len() && (#[trigger] seated(
                lanes,
                node,
                parents,
                n,
            )[l]) is Some ==> l < seated(lanes, node, parents, m).len() && seated(
                lanes,
                node,
                parents,
                m,
            )[l] is Some || is_seat(lanes, node, parents, n, l),
    decreases n,
{
    if m < n {
        let p = (n - 1) as nat;
        lemma_seating(lanes, node, parents, m, p);
        lemma_seated(lanes, node, parents, p);
        let above = seated(lanes, node, parents, p);
        let here = seated(lanes, node, parents, n);
        let lane = parent_lane(above, node, parents[n - 1], n - 1);
        lemma_leftmost(above, Some(parents[n - 1]), 0);
        lemma_leftmost(above, None, node + 1);
        assert(here == grown(above, lane).update(lane, Some(parents[n - 1])));
        assert forall|l: int| 0 <= l < here.len() && (#[trigger] here[l]) is Some implies l
            < seated(lanes, node, parents, m).len() && seated(lanes, node, parents, m)[l] is Some
            || is_seat(lanes, node, parents, n, l) by {
            if l == lane {
                assert(seat(lanes, node, parents, n - 1) == l);
            } else {
                assert(l < above.len() && above[l] == here[l]);
                if is_seat(lanes, node, parents, p, l) {
                    let k = choose|k: int|
                        0 <= k < p && #[trigger] seat(lanes, node, parents, k) == l;
                    assert(seat(lanes, node, parents, k) == l);
                }
            }
        }
    } else {
        lemma_seated(lanes, node, parents, n);
    }
}

/// The lane that the `k`th parent is seated in.
spec fn seat(lanes: Lanes, node: int, parents: Seq<Seq<char>>, k: int) -> int {
    parent_lane(seated(lanes, node, parents, k as nat), node, parents[k], k)
}

/// One of the first `n` parents is seated in `lane`.
spec fn is_seat(lanes: Lanes, node: int, parents: Seq<Seq<char>>, n: nat, lane: int) -> bool {
    exists|k: int| 0 <= k < n && #[trigger] seat(lanes, node, parents, k) == lane
}

spec fn straight_edge(lane: int) -> GraphEdge {
    GraphEdge { from_lane: lane as u16, to_lane: lane as u16, second_parent: false }
}

proof fn lemma_straight_edges(before: Lanes, after: Lanes, node: int, n: nat)
    ensures
        forall|lane: int|
            0 <= lane < n && #[trigger] runs_past(before, after, node, lane) ==> straight_edges(
                before,
                after,
                node,
                n,
            ).contains(straight_edge(lane)),
        forall|e: GraphEdge| #[trigger]
            straight_edges(before, after, node, n).contains(e) ==> exists|lane: int|
                0 <= lane < n && #[trigger] runs_past(before, after, node, lane) && e
                    == straight_edge(lane),
    decreases n,
{
    if n > 0 {
        let left = straight_edges(before, after, node, (n - 1) as nat);
        let here = straight_edges(before, after, node, n);
        lemma_straight_edges(before, after, node, (n - 1) as nat);
        assert forall|lane: int|
            0 <= lane < n && #[trigger] runs_past(before, after, node, lane) implies here.contains(
            straight_edge(lane),
        ) by {
            if lane < n - 1 {
                let k = choose|k: int| 0 <= k < left.len() && left[k] == straight_edge(lane);
                assert(here[k] == straight_edge(lane));
            } else {
                assert(here[left.len() as int] == straight_edge(lane));
            }
        }
        assert forall|e: GraphEdge| #[trigger] here.contains(e) implies exists|lane: int|
            0 <= lane < n && #[trigger] runs_past(before, after, node, lane) && e == straight_edge(
                lane,
            ) by {
            let k = choose|k: int| 0 <= k < here.len() && here[k] == e;
            if k < left.len() {
                assert(left[k] == e);
                assert(left.contains(e));
            } else {
                assert(runs_past(before, after, node, n - 1));
            }
        }
    }
}

/// A row draws the edges below it, whatever their order.
proof fn lemma_row_edges(row: GraphRow, commits: Seq<CommitInfo>, n: nat, e: GraphEdge)
    requires
        is_row(row, commits, n),
    ensures
        row.edges@.contains(e) <==> edges_below(
            lanes_above(commits, n),
            commits[n as int].sha@,
            shas(commits[n as int].parents@),
        ).contains(e),
{
    broadcast use group_to_multiset_ensures;

    let edges = edges_below(
        lanes_above(commits, n),
        commits[n as int].sha@,
        shas(commits[n as int].parents@),
    );
    assert(row.edges@.to_multiset().count(e) == edges.to_multiset().count(e));
}

/// The edges of a row run to the lanes that wait for something below it, and
/// to each of them.
proof fn lemma_edges_reach(commits: Seq<CommitInfo>, n: nat)
    requires
        n < commits.len(),
        widest(commits, commits.len()) <= u16::MAX,
    ensures
        ({
            let c = commits[n as int];
            let before = lanes_above(commits, n);
            let after = lanes_below(before, c.sha@, shas(c.parents@));
            let edges = edges_below(before, c.sha@, shas(c.parents@));
            &&& after.len() <= u16::MAX
            &&& forall|e: GraphEdge| #[trigger]
                edges.contains(e) ==> e.to_lane < after.len() && after[e.to_lane as int] is Some
            &&& forall|l: int|
                0 <= l < after.len() && (#[trigger] after[l]) is Some ==> runs_to(edges, l)
        }),
{
    let c = commits[n as int];
    let parents = shas(c.parents@);
    let before = lanes_above(commits, n);
    let node = node_lane(before, c.sha@);
    let start = arrived(before, c.sha@);
    let after = lanes_below(before, c.sha@, parents);
    let edges = edges_below(before, c.sha@, parents);
    let to_parents = parent_edges(start, node, parents, parents.len());
    let straight = straight_edges(before, after, node, after.len());
    lemma_widest(commits, commits.len(), n);
    lemma_node_lane(before, c.sha@);
    lemma_seated(start, node, parents, parents.len());
    lemma_seating(start, node, parents, 0, parents.len());
    lemma_straight_edges(before, after, node, after.len());
    assert forall|e: GraphEdge| #[trigger] edges.contains(e) implies e.to_lane < after.len()
        && after[e.to_lane as int] is Some by {
        let k = choose|k: int| 0 <= k < edges.len() && edges[k] == e;
        if k < to_parents.len() {
            let above = seated(start, node, parents, k as nat);
            let lane = parent_lane(above, node, parents[k], k);
            lemma_seated(start, node, parents, k as nat);
            lemma_seating(start, node, parents, (k + 1) as nat, parents.len());
            lemma_leftmost(above, Some(parents[k]), 0);
            lemma_leftmost(above, None, node + 1);
            let next = seated(start, node, parents, (k + 1) as nat);
            assert(next == grown(above, lane).update(lane, Some(parents[k])));
            assert(next[lane] is Some);
            assert(e == to_parents[k]);
        } else {
            assert(straight[k - to_parents.len()] == e);
            assert(straight.contains(e));
        }
    }
    assert forall|l: int| 0 <= l < after.len() && (#[trigger] after[l]) is Some implies runs_to(
        edges,
        l,
    ) by {
        if is_seat(start, node, parents, parents.len(), l) {
            let k = choose|k: int|
                0 <= k < parents.len() && #[trigger] seat(start, node, parents, k) == l;
            assert(edges[k] == parent_edge(start, node, parents, k));
            assert(edges[k].to_lane == l);
        } else {
            assert(start[l] is Some);
            assert(runs_past(before, after, node, l));
            let k = choose|k: int| 0 <= k < straight.len() && straight[k] == straight_edge(l);
            assert(edges[to_parents.len() + k] == straight_edge(l));
        }
    }
}

/// One of the edges runs to `lane`.
pub open spec fn runs_to(edges: Seq<GraphEdge>, lane: int) -> bool {
    exists|k: int| 0 <= k < edges.len() && (#[trigger] edges[k]).to_lane == lane
}

/// Lines run on from row to row: where an edge arrives, the row below has its
/// node or lets the line pass, and a line that passes a row came from an edge
/// of the row above.
pub proof fn lines_run_on(rows: Seq<GraphRow>, commits: Seq<CommitInfo>, i: int)
    requires
        rows.len() == commits.len(),
        forall|n: int| 0 <= n < rows.len() ==> is_row(#[trigger] rows[n], commits, n as nat),
        widest(commits, commits.len()) <= u16::MAX,
        0 <= i,
        i + 1 < commits.len(),
    ensures
        forall|e: GraphEdge| #[trigger]
            rows[i].edges@.contains(e) ==> rows[i + 1].node_lane == e.to_lane || rows[i
                + 1].edges@.contains(
                (GraphEdge { from_lane: e.to_lane, to_lane: e.to_lane, second_parent: false }),
            ),
        forall|e: GraphEdge| #[trigger]
            rows[i + 1].edges@.contains(e) && e.from_lane == e.to_lane && !e.second_parent
                && e.to_lane != rows[i + 1].node_lane ==> runs_to(
                rows[i].edges@,
                e.to_lane as int,
            ),
{
    let m = (i + 1) as nat;
    let c = commits[i];
    let d = commits[i + 1];
    let above = lanes_above(commits, i as nat);
    let after = lanes_below(above, c.sha@, shas(c.parents@));
    let edges = edges_below(above, c.sha@, shas(c.parents@));
    let before = lanes_above(commits, m);
    assert(before == trimmed(after));
    let parents = shas(d.parents@);
    let node = node_lane(before, d.sha@);
    let start = arrived(before, d.sha@);
    let below = lanes_below(before, d.sha@, parents);
    let to_parents = parent_edges(start, node, parents, parents.len());
    let straight = straight_edges(before, below, node, below.len());
    let next = edges_below(before, d.sha@, parents);
    lemma_trimmed(after);
    lemma_edges_reach(commits, i as nat);
    lemma_edges_reach(commits, m);
    lemma_node_lane(before, d.sha@);
    lemma_seated(start, node, parents, parents.len());
    lemma_straight_edges(before, below, node, below.len());
    assert(is_row(rows[i], commits, i as nat));
    assert(is_row(rows[i + 1], commits, m));
    assert forall|e: GraphEdge| #[trigger] rows[i].edges@.contains(e) implies rows[i + 1].node_lane
        == e.to_lane || rows[i + 1].edges@.contains(
        (GraphEdge { from_lane: e.to_lane, to_lane: e.to_lane, second_parent: false }),
    ) by {
        lemma_row_edges(rows[i], commits, i as nat, e);
        let t = e.to_lane as int;
        assert(edges.contains(e));
        assert(after[t] is Some);
        assert(t < before.len() && before[t] is Some);
        if t != node {
            assert(start[t] is Some);
            assert(runs_past(before, below, node, t));
            let k = choose|k: int| 0 <= k < straight.len() && straight[k] == straight_edge(t);
            assert(next[to_parents.len() + k] == straight_edge(t));
            lemma_row_edges(rows[i + 1], commits, m, straight_edge(t));
        }
    }
    assert forall|e: GraphEdge| #[trigger]
        rows[i + 1].edges@.contains(e) && e.from_lane == e.to_lane && !e.second_parent && e.to_lane
            != rows[i + 1].node_lane implies runs_to(rows[i].edges@, e.to_lane as int) by {
        lemma_row_edges(rows[i + 1], commits, m, e);
        let k = choose|k: int| 0 <= k < next.len() && next[k] == e;
        if k < to_parents.len() {
            assert(e == to_parents[k]);
        } else {
            assert(straight[k - to_parents.len()] == e);
            assert(straight.contains(e));
            let lane = choose|lane: int|
                0 <= lane < below.len() && #[trigger] runs_past(before, below, node, lane) && e
                    == straight_edge(lane);
            assert(runs_past(before, below, node, lane));
            assert(after[lane] is Some);
            assert(runs_to(edges, lane));
            let j = choose|j: int| 0 <= j < edges.len() && (#[trigger] edges[j]).to_lane == lane;
            assert(edges.contains(edges[j]));
            lemma_row_edges(rows[i], commits, i as nat, edges[j]);
            let q = choose|q: int|
                0 <= q < rows[i].edges@.len() && rows[i].edges@[q] == edges[j];
            assert(rows[i].edges@[q].to_lane == lane);
        }
    }
}

// ---------------------------------------------------------------------------
// What a reader of the graph can rely on
// ---------------------------------------------------------------------------

/// `rows` is the layout of `commits`, and all lanes can be told apart.
pub open spec fn is_layout(rows: Seq<GraphRow>, commits: Seq<CommitInfo>) -> bool {
    &&& rows.len() == commits.len()
    &&& forall|n: int| 0 <= n < rows.len() ==> is_row(#[trigger] rows[n], commits, n as nat)
    &&& widest(commits, commits.len()) <= u16::MAX
}

proof fn lemma_filter_multiset(s: Seq<GraphEdge>, f: spec_fn(GraphEdge) -> bool)
    ensures
        s.filter(f).to_multiset() == s.to_multiset().filter(f),
    decreases s.len(),
{
    broadcast use group_to_multiset_ensures;

    reveal(Seq::filter);
    if s.len() == 0 {
        assert(s.filter(f).to_multiset() =~= s.to_multiset().filter(f));
    } else {
        let t = s.drop_last();
        lemma_filter_multiset(t, f);
        assert(s =~= t.push(s.last()));
        assert(s.to_multiset() == t.to_multiset().insert(s.last()));
        if f(s.last()) {
            assert(s.filter(f) == t.filter(f).push(s.last()));
            assert(s.filter(f).to_multiset() == t.filter(f).to_multiset().insert(s.last()));
        }
        assert(s.filter(f).to_multiset() =~= s.to_multiset().filter(f));
    }
}

proof fn lemma_same_count(a: Seq<GraphEdge>, b: Seq<GraphEdge>, f: spec_fn(GraphEdge) -> bool)
    requires
        a.to_multiset() == b.to_multiset(),
    ensures
        a.filter(f).len() == b.filter(f).len(),
{
    broadcast use group_to_multiset_ensures;

    lemma_filter_multiset(a, f);
    lemma_filter_multiset(b, f);
    assert(a.filter(f).to_multiset().len() == a.filter(f).len());
    assert(b.filter(f).to_multiset().len() == b.filter(f).len());
}

proof fn lemma_filter_all(s: Seq<GraphEdge>, f: spec_fn(GraphEdge) -> bool, keep: bool)
    requires
        forall|i: int| 0 <= i < s.len() ==> f(#[trigger] s[i]) == keep,
    ensures
        s.filter(f).len() == if keep {
            s.len()
        } else {
            0
        },
    decreases s.len(),
{
    reveal(Seq::filter);
    if s.len() > 0 {
        lemma_filter_all(s.drop_last(), f, keep);
        assert(f(s[s.len() - 1]) == keep);
    }
}

/// A merge shows: a commit with `p` parents has `p` edges leaving its node, all
/// but the first parent's marked as running to a second or later parent,
/// whichever lanes they run to. Every other edge is an unmarked line that runs
/// straight down. The edges come ordered by where they leave, where they
/// arrive, and the unmarked first.
pub proof fn merges_are_marked(rows: Seq<GraphRow>, commits: Seq<CommitInfo>, n: int)
    requires
        is_layout(rows, commits),
        0 <= n < commits.len(),
    ensures
        rows[n].edges@.filter(|e: GraphEdge| e.from_lane == rows[n].node_lane).len()
            == commits[n].parents@.len(),
        rows[n].edges@.filter(|e: GraphEdge| e.second_parent).len() == if commits[n].parents@.len()
            >= 2 {
            commits[n].parents@.len() - 1
        } else {
            0
        },
        forall|i: int|
            0 <= i < rows[n].edges@.len() && (#[trigger] rows[n].edges@[i]).second_parent
                ==> rows[n].edges@[i].from_lane == rows[n].node_lane,
        forall|i: int|
            0 <= i < rows[n].edges@.len() && (#[trigger] rows[n].edges@[i]).from_lane
                != rows[n].node_lane ==> rows[n].edges@[i].to_lane == rows[n].edges@[i].from_lane,
        forall|i: int, j: int|
            0 <= i < j < rows[n].edges@.len() ==> {
                let a = #[trigger] rows[n].edges@[i];
                let b = #[trigger] rows[n].edges@[j];
                a.from_lane < b.from_lane || a.from_lane == b.from_lane && (a.to_lane < b.to_lane
                    || a.to_lane == b.to_lane && (a.second_parent ==> b.second_parent))
            },
{
    let row = rows[n];
    let c = commits[n];
    let parents = shas(c.parents@);
    let before = lanes_above(commits, n as nat);
    let node = node_lane(before, c.sha@);
    let start = arrived(before, c.sha@);
    let after = lanes_below(before, c.sha@, parents);
    let to_parents = parent_edges(start, node, parents, parents.len());
    let straight = straight_edges(before, after, node, after.len());
    let edges = edges_below(before, c.sha@, parents);
    assert(is_row(row, commits, n as nat));
    lane_count_covers_every_row(commits, n as nat, 0);
    lemma_edges_reach(commits, n as nat);
    lemma_straight_edges(before, after, node, after.len());
    assert(row.node_lane == node);
    let leaves = |e: GraphEdge| e.from_lane == row.node_lane;
    let marked = |e: GraphEdge| e.second_parent;
    lemma_same_count(row.edges@, edges, leaves);
    lemma_same_count(row.edges@, edges, marked);
    Seq::filter_distributes_over_add(to_parents, straight, leaves);
    Seq::filter_distributes_over_add(to_parents, straight, marked);
    assert forall|i: int| 0 <= i < straight.len() implies !leaves(#[trigger] straight[i]) && !marked(
        straight[i],
    ) && straight[i].to_lane == straight[i].from_lane by {
        assert(straight.contains(straight[i]));
        let lane = choose|lane: int|
            0 <= lane < after.len() && #[trigger] runs_past(before, after, node, lane)
                && straight[i] == straight_edge(lane);
        assert(runs_past(before, after, node, lane));
    }
    lemma_filter_all(straight, leaves, false);
    lemma_filter_all(straight, marked, false);
    lemma_filter_all(to_parents, leaves, true);
    if parents.len() > 0 {
        let first = to_parents.take(1);
        let rest = to_parents.skip(1);
        assert(to_parents =~= first + rest);
        Seq::filter_distributes_over_add(first, rest, marked);
        lemma_filter_all(first, marked, false);
        lemma_filter_all(rest, marked, true);
    } else {
        lemma_filter_all(to_parents, marked, false);
    }
    assert forall|i: int| 0 <= i < row.edges@.len() implies ((#[trigger] row.edges@[i]).second_parent
        ==> row.edges@[i].from_lane == row.node_lane) && (row.edges@[i].from_lane != row.node_lane
        ==> row.edges@[i].to_lane == row.edges@[i].from_lane) by {
        let e = row.edges@[i];
        assert(row.edges@.contains(e));
        lemma_row_edges(row, commits, n as nat, e);
        let k = choose|k: int| 0 <= k < edges.len() && edges[k] == e;
        if k < to_parents.len() {
            assert(e == to_parents[k]);
        } else {
            assert(e == straight[k - to_parents.len()]);
        }
    }
    assert forall|i: int, j: int| 0 <= i < j < row.edges@.len() implies {
        let a = #[trigger] row.edges@[i];
        let b = #[trigger] row.edges@[j];
        a.from_lane < b.from_lane || a.from_lane == b.from_lane && (a.to_lane < b.to_lane
            || a.to_lane == b.to_lane && (a.second_parent ==> b.second_parent))
    } by {
        assert(edge_le(row.edges@[i], row.edges@[j]));
    }
}

/// What a lane waits for stays as further parents are seated.
proof fn lemma_seats_keep(lanes: Lanes, node: int, parents: Seq<Seq<char>>, m: nat, n: nat, l: int)
    requires
        0 <= node < lanes.len(),
        lanes[node] is None,
        m <= n <= parents.len(),
        0 <= l < seated(lanes, node, parents, m).len(),
        seated(lanes, node, parents, m)[l] is Some,
    ensures
        l < seated(lanes, node, parents, n).len(),
        seated(lanes, node, parents, n)[l] == seated(lanes, node, parents, m)[l],
    decreases n,
{
    if m < n {
        let p = (n - 1) as nat;
        lemma_seats_keep(lanes, node, parents, m, p, l);
        lemma_seated(lanes, node, parents, p);
        let above = seated(lanes, node, parents, p);
        lemma_leftmost(above, Some(parents[n - 1]), 0);
        lemma_leftmost(above, None, node + 1);
    }
}

/// The edge from commit `n` to its parent number `k` runs down `lane` to commit
/// `m`: it leaves the node of `n`, marked unless the parent is the first, passes every row between, where no node is in its way, and
/// arrives at the node of `m`; or runs out of the bottom of the list, where
/// there is no commit `m`.
pub open spec fn leads(rows: Seq<GraphRow>, n: int, m: int, k: int, lane: u16) -> bool {
    &&& rows[n].edges@.contains(
        (GraphEdge { from_lane: rows[n].node_lane, to_lane: lane, second_parent: k >= 1 }),
    )
    &&& forall|j: int|
        n < j < m ==> (#[trigger] rows[j]).node_lane != lane && rows[j].edges@.contains(
            (GraphEdge { from_lane: lane, to_lane: lane, second_parent: false }),
        )
    &&& m < rows.len() ==> rows[m].node_lane == lane
}

/// A lane that waits for something and is not the node's runs past a row.
proof fn lemma_passes(rows: Seq<GraphRow>, commits: Seq<CommitInfo>, j: int, lane: int)
    requires
        is_layout(rows, commits),
        0 <= j < commits.len(),
        0 <= lane < lanes_above(commits, j as nat).len(),
        lanes_above(commits, j as nat)[lane] is Some,
        node_lane(lanes_above(commits, j as nat), commits[j].sha@) != lane,
    ensures
        lane <= u16::MAX,
        rows[j].node_lane != lane,
        rows[j].edges@.contains(
            (GraphEdge { from_lane: lane as u16, to_lane: lane as u16, second_parent: false }),
        ),
{
    let d = commits[j];
    let parents = shas(d.parents@);
    let before = lanes_above(commits, j as nat);
    let node = node_lane(before, d.sha@);
    let start = arrived(before, d.sha@);
    let below = lanes_below(before, d.sha@, parents);
    let to_parents = parent_edges(start, node, parents, parents.len());
    let straight = straight_edges(before, below, node, below.len());
    let next = edges_below(before, d.sha@, parents);
    lane_count_covers_every_row(commits, j as nat, 0);
    lemma_edges_reach(commits, j as nat);
    lemma_node_lane(before, d.sha@);
    lemma_seated(start, node, parents, parents.len());
    lemma_straight_edges(before, below, node, below.len());
    assert(start[lane] is Some);
    assert(runs_past(before, below, node, lane));
    let k = choose|k: int| 0 <= k < straight.len() && straight[k] == straight_edge(lane);
    assert(next[to_parents.len() + k] == straight_edge(lane));
    assert(is_row(rows[j], commits, j as nat));
    lemma_row_edges(rows[j], commits, j as nat, straight_edge(lane));
}

/// The edge to a parent is drawn in the lane where it is seated, which waits
/// for that parent below the row.
proof fn lemma_parent_edge(rows: Seq<GraphRow>, commits: Seq<CommitInfo>, n: int, k: int) -> (lane:
    int)
    requires
        is_layout(rows, commits),
        0 <= n < commits.len(),
        0 <= k < commits[n].parents@.len(),
    ensures
        0 <= lane <= u16::MAX,
        lane == seat(
            arrived(lanes_above(commits, n as nat), commits[n].sha@),
            node_lane(lanes_above(commits, n as nat), commits[n].sha@),
            shas(commits[n].parents@),
            k,
        ),
        rows[n].node_lane == node_lane(lanes_above(commits, n as nat), commits[n].sha@),
        rows[n].edges@.contains(
            (GraphEdge {
                from_lane: rows[n].node_lane,
                to_lane: lane as u16,
                second_parent: k >= 1,
            }),
        ),
        lane < lanes_above(commits, (n + 1) as nat).len(),
        lanes_above(commits, (n + 1) as nat)[lane] == Some(commits[n].parents@[k]@),
{
    let c = commits[n];
    let parents = shas(c.parents@);
    let before = lanes_above(commits, n as nat);
    let node = node_lane(before, c.sha@);
    let start = arrived(before, c.sha@);
    let after = lanes_below(before, c.sha@, parents);
    let edges = edges_below(before, c.sha@, parents);
    let to_parents = parent_edges(start, node, parents, parents.len());
    let above = seated(start, node, parents, k as nat);
    let lane = seat(start, node, parents, k);
    lane_count_covers_every_row(commits, n as nat, k);
    lemma_node_lane(before, c.sha@);
    lemma_seated(start, node, parents, k as nat);
    let next = seated(start, node, parents, (k + 1) as nat);
    assert(next == grown(above, lane).update(lane, Some(parents[k])));
    assert(next[lane] == Some(parents[k]));
    lemma_seats_keep(start, node, parents, (k + 1) as nat, parents.len(), lane);
    lemma_trimmed(after);
    assert(lanes_above(commits, (n + 1) as nat) == trimmed(after));
    assert(after[lane] == Some(parents[k]));
    let e = GraphEdge { from_lane: node as u16, to_lane: lane as u16, second_parent: k >= 1 };
    assert(edges[k] == e);
    assert(edges.contains(e));
    assert(is_row(rows[n], commits, n as nat));
    lemma_row_edges(rows[n], commits, n as nat, e);
    lane
}

/// Every parent is reached: the edge that a commit has for its parent number
/// `k`, marked where that is not the first, runs down to the row of the parent
/// and arrives at its node, or leaves the list at the bottom where the parent
/// does not come.
pub proof fn every_parent_is_reached(
    rows: Seq<GraphRow>,
    commits: Seq<CommitInfo>,
    n: int,
    k: int,
    m: int,
)
    requires
        is_layout(rows, commits),
        0 <= n < m <= commits.len(),
        0 <= k < commits[n].parents@.len(),
        forall|j: int| n < j < m ==> (#[trigger] commits[j]).sha@ != commits[n].parents@[k]@,
        m < commits.len() ==> commits[m].sha@ == commits[n].parents@[k]@,
    ensures
        exists|lane: u16| #[trigger] leads(rows, n, m, k, lane),
{
    let sha = commits[n].parents@[k]@;
    let lane = lemma_parent_edge(rows, commits, n, k);
    assert forall|j: int| n < j < m implies (#[trigger] rows[j]).node_lane != lane
        && rows[j].edges@.contains(
        (GraphEdge { from_lane: lane as u16, to_lane: lane as u16, second_parent: false }),
    ) by {
        awaited_sha_keeps_its_lane(commits, (n + 1) as nat, j as nat, lane, sha);
        let before = lanes_above(commits, j as nat);
        lemma_leftmost(before, Some(commits[j].sha@), 0);
        lemma_leftmost(before, None, 0);
        assert(commits[j].sha@ != sha);
        lemma_passes(rows, commits, j, lane);
    }
    if m < commits.len() {
        awaited_sha_keeps_its_lane(commits, (n + 1) as nat, m as nat, lane, sha);
        no_sha_waits_in_two_lanes(commits, m as nat);
        let before = lanes_above(commits, m as nat);
        lemma_leftmost(before, Some(sha), 0);
        lane_count_covers_every_row(commits, m as nat, 0);
        assert(is_row(rows[m], commits, m as nat));
    }
    assert(leads(rows, n, m, k, lane as u16));
}

/// Some commit before `n` has `sha` for a parent.
pub open spec fn has_child_above(commits: Seq<CommitInfo>, n: int, sha: Seq<char>) -> bool {
    exists|j: int, k: int|
        0 <= j < n && 0 <= k < commits[j].parents@.len() && (#[trigger] commits[j].parents@[k])@
            == sha
}

/// What a lane waits for is a parent of a commit above.
proof fn lemma_awaited_has_a_child(commits: Seq<CommitInfo>, n: nat, lane: int)
    requires
        n <= commits.len(),
        0 <= lane < lanes_above(commits, n).len(),
        lanes_above(commits, n)[lane] is Some,
    ensures
        has_child_above(commits, n as int, lanes_above(commits, n)[lane]->0),
    decreases n,
{
    if n > 0 {
        let p = (n - 1) as nat;
        let c = commits[p as int];
        let before = lanes_above(commits, p);
        let parents = shas(c.parents@);
        let node = node_lane(before, c.sha@);
        let start = arrived(before, c.sha@);
        let after = lanes_below(before, c.sha@, parents);
        lemma_trimmed(after);
        lemma_node_lane(before, c.sha@);
        let sha = lanes_above(commits, n)[lane]->0;
        assert(after[lane] == Some(sha));
        lemma_seated_from(start, node, parents, parents.len(), lane);
        if lane < start.len() && start[lane] == Some(sha) {
            assert(lane < before.len()) by {
                if lane >= before.len() {
                    lemma_leftmost(before, Some(c.sha@), 0);
                    lemma_leftmost(before, None, 0);
                }
            }
            lemma_awaited_has_a_child(commits, p, lane);
            let (j, k) = choose|j: int, k: int|
                0 <= j < p && 0 <= k < commits[j].parents@.len() && (
                #[trigger] commits[j].parents@[k])@ == sha;
            assert(commits[j].parents@[k]@ == sha);
        } else {
            let k = choose|k: int| 0 <= k < parents.len() && parents[k] == sha;
            assert(commits[p as int].parents@[k]@ == sha);
        }
    }
}

proof fn lemma_seated_from(lanes: Lanes, node: int, parents: Seq<Seq<char>>, n: nat, l: int)
    requires
        0 <= node < lanes.len(),
        lanes[node] is None,
        n <= parents.len(),
        0 <= l < seated(lanes, node, parents, n).len(),
        seated(lanes, node, parents, n)[l] is Some,
    ensures
        l < lanes.len() && lanes[l] == seated(lanes, node, parents, n)[l] || exists|k: int|
            0 <= k < n && #[trigger] parents[k] == seated(lanes, node, parents, n)[l]->0,
    decreases n,
{
    if n > 0 {
        let p = (n - 1) as nat;
        lemma_seated(lanes, node, parents, p);
        let above = seated(lanes, node, parents, p);
        let here = seated(lanes, node, parents, n);
        let lane = parent_lane(above, node, parents[n - 1], n - 1);
        lemma_leftmost(above, Some(parents[n - 1]), 0);
        lemma_leftmost(above, None, node + 1);
        if l == lane {
            assert(parents[n - 1] == here[l]->0);
        } else {
            assert(l < above.len() && here[l] == above[l]);
            lemma_seated_from(lanes, node, parents, p, l);
        }
    }
}

/// A commit that nothing above leads to starts a line of its own, as far left
/// as there is room: every lane left of its node is taken by a line that runs
/// past, and no edge of the row above runs to its node.
pub proof fn a_tip_takes_the_leftmost_gap(rows: Seq<GraphRow>, commits: Seq<CommitInfo>, n: int)
    requires
        is_layout(rows, commits),
        0 <= n < commits.len(),
        !has_child_above(commits, n, commits[n].sha@),
    ensures
        forall|lane: u16|
            lane < rows[n].node_lane ==> #[trigger] rows[n].edges@.contains(
                (GraphEdge { from_lane: lane, to_lane: lane, second_parent: false }),
            ),
        n > 0 ==> forall|i: int|
            0 <= i < rows[n - 1].edges@.len() ==> (#[trigger] rows[n - 1].edges@[i]).to_lane
                != rows[n].node_lane,
{
    let c = commits[n];
    let before = lanes_above(commits, n as nat);
    let node = node_lane(before, c.sha@);
    lemma_leftmost(before, Some(c.sha@), 0);
    lemma_leftmost(before, None, 0);
    match leftmost(before, Some(c.sha@), 0) {
        Some(lane) => {
            lemma_awaited_has_a_child(commits, n as nat, lane);
        },
        None => {},
    }
    lane_count_covers_every_row(commits, n as nat, 0);
    assert(is_row(rows[n], commits, n as nat));
    assert forall|lane: u16| lane < rows[n].node_lane implies #[trigger] rows[n].edges@.contains(
        (GraphEdge { from_lane: lane, to_lane: lane, second_parent: false }),
    ) by {
        assert(before[lane as int] is Some);
        lemma_passes(rows, commits, n, lane as int);
    }
    if n > 0 {
        let p = (n - 1) as nat;
        let above = lanes_above(commits, p);
        let d = commits[n - 1];
        let after = lanes_below(above, d.sha@, shas(d.parents@));
        lemma_edges_reach(commits, p);
        lemma_trimmed(after);
        assert(before == trimmed(after));
        assert forall|i: int| 0 <= i < rows[n - 1].edges@.len() implies (#[trigger] rows[n
            - 1].edges@[i]).to_lane != rows[n].node_lane by {
            let e = rows[n - 1].edges@[i];
            assert(rows[n - 1].edges@.contains(e));
            assert(is_row(rows[n - 1], commits, p));
            lemma_row_edges(rows[n - 1], commits, p, e);
            assert(after[e.to_lane as int] is Some);
        }
    }
}

/// A line goes straight on to the first parent, in the node's own lane, unless
/// another line already leads to that parent. Any other parent that nothing
/// leads to yet gets the nearest free lane to the right of the node: every lane
/// between is one that an edge of the row runs to.
pub proof fn new_lines_stay_close(
    rows: Seq<GraphRow>,
    commits: Seq<CommitInfo>,
    n: int,
    k: int,
)
    requires
        is_layout(rows, commits),
        0 <= n < commits.len(),
        0 <= k < commits[n].parents@.len(),
        !has_child_above(commits, n, commits[n].parents@[k]@),
        forall|j: int| 0 <= j < k ==> (#[trigger] commits[n].parents@[j])@ != commits[n].parents@[k]@,
    ensures
        exists|lane: u16| #[trigger] opens(rows[n], lane, k),
{
    let c = commits[n];
    let parents = shas(c.parents@);
    let sha = parents[k];
    let before = lanes_above(commits, n as nat);
    let node = node_lane(before, c.sha@);
    let start = arrived(before, c.sha@);
    let above = seated(start, node, parents, k as nat);
    let after = lanes_below(before, c.sha@, parents);
    let edges = edges_below(before, c.sha@, parents);
    let lane = lemma_parent_edge(rows, commits, n, k);
    lemma_node_lane(before, c.sha@);
    lemma_seated(start, node, parents, k as nat);
    lemma_leftmost(above, Some(sha), 0);
    lemma_leftmost(above, None, node + 1);
    match leftmost(above, Some(sha), 0) {
        Some(l) => {
            lemma_seated_from(start, node, parents, k as nat, l);
            if l < start.len() && start[l] == Some(sha) {
                assert(l < before.len()) by {
                    if l >= before.len() {
                        lemma_leftmost(before, Some(c.sha@), 0);
                        lemma_leftmost(before, None, 0);
                    }
                }
                lemma_awaited_has_a_child(commits, n as nat, l);
            } else {
                let j = choose|j: int| 0 <= j < k && #[trigger] parents[j] == sha;
                assert(c.parents@[j]@ == sha);
            }
        },
        None => {},
    }
    lemma_edges_reach(commits, n as nat);
    assert(is_row(rows[n], commits, n as nat));
    assert forall|l: int| rows[n].node_lane < l < lane implies #[trigger] runs_to(
        rows[n].edges@,
        l,
    ) by {
        assert(above[l] is Some);
        lemma_seats_keep(start, node, parents, k as nat, parents.len(), l);
        assert(after[l] is Some);
        assert(runs_to(edges, l));
        let q = choose|q: int| 0 <= q < edges.len() && (#[trigger] edges[q]).to_lane == l;
        assert(edges.contains(edges[q]));
        lemma_row_edges(rows[n], commits, n as nat, edges[q]);
        let i = choose|i: int| 0 <= i < rows[n].edges@.len() && rows[n].edges@[i] == edges[q];
        assert(rows[n].edges@[i].to_lane == l);
    }
    assert(opens(rows[n], lane as u16, k));
}

/// The row has an edge from its node to `lane`, for parent number `k`: straight down for a first
/// parent, else to the right, over no lane that no edge runs to.
pub open spec fn opens(row: GraphRow, lane: u16, k: int) -> bool {
    &&& row.edges@.contains(
        (GraphEdge { from_lane: row.node_lane, to_lane: lane, second_parent: k >= 1 }),
    )
    &&& k == 0 ==> lane == row.node_lane
    &&& k >= 1 ==> row.node_lane < lane
    &&& forall|l: int| row.node_lane < l < lane ==> #[trigger] runs_to(row.edges@, l)
}

/// The lane count is that of the lanes in use: every node and every edge lies
/// in a lane below it, and some row has its node or an edge in the last one.
pub proof fn the_lane_count_is_exact(rows: Seq<GraphRow>, commits: Seq<CommitInfo>, count: u16)
    requires
        is_layout(rows, commits),
        count == widest(commits, commits.len()) as u16,
    ensures
        commits.len() == 0 ==> count == 0,
        forall|n: int| 0 <= n < rows.len() ==> (#[trigger] rows[n]).node_lane < count,
        forall|n: int, i: int|
            0 <= n < rows.len() && 0 <= i < rows[n].edges@.len() ==> (
            #[trigger] rows[n].edges@[i]).from_lane < count && rows[n].edges@[i].to_lane < count,
        commits.len() > 0 ==> exists|n: int|
            0 <= n < rows.len() && ((#[trigger] rows[n]).node_lane + 1 == count || runs_to(
                rows[n].edges@,
                count - 1,
            )),
{
    assert forall|n: int| 0 <= n < rows.len() implies (#[trigger] rows[n]).node_lane < count by {
        lane_count_covers_every_row(commits, n as nat, 0);
        assert(is_row(rows[n], commits, n as nat));
    }
    assert forall|n: int, i: int| 0 <= n < rows.len() && 0 <= i < rows[n].edges@.len() implies (
    #[trigger] rows[n].edges@[i]).from_lane < count && rows[n].edges@[i].to_lane < count by {
        let e = rows[n].edges@[i];
        assert(rows[n].edges@.contains(e));
        assert(is_row(rows[n], commits, n as nat));
        lemma_row_edges(rows[n], commits, n as nat, e);
        lemma_edges_reach(commits, n as nat);
        lemma_widest(commits, commits.len(), n as nat);
        merges_are_marked(rows, commits, n);
        if e.from_lane == rows[n].node_lane {
            assert(rows[n].node_lane < count);
        }
    }
    if commits.len() > 0 {
        the_last_lane_is_used(commits);
        let last = count - 1;
        let n = choose|n: nat| n < commits.len() && #[trigger] uses(commits, n, last);
        let above = lanes_above(commits, n);
        let c = commits[n as int];
        let parents = shas(c.parents@);
        let node = node_lane(above, c.sha@);
        let start = arrived(above, c.sha@);
        assert(is_row(rows[n as int], commits, n));
        lane_count_covers_every_row(commits, n, 0);
        if node != last {
            if runs_past(above, lanes_below(above, c.sha@, parents), node, last) {
                lemma_passes(rows, commits, n as int, last);
                let e = GraphEdge {
                    from_lane: last as u16,
                    to_lane: last as u16,
                    second_parent: false,
                };
                let i = choose|i: int|
                    0 <= i < rows[n as int].edges@.len() && rows[n as int].edges@[i] == e;
                assert(rows[n as int].edges@[i].to_lane == last);
            } else {
                let k = choose|nth: int|
                    0 <= nth < parents.len() && #[trigger] parent_lane(
                        seated(start, node, parents, nth as nat),
                        node,
                        parents[nth],
                        nth,
                    ) == last;
                let lane = lemma_parent_edge(rows, commits, n as int, k);
                assert(lane == last);
                let e = GraphEdge {
                    from_lane: rows[n as int].node_lane,
                    to_lane: lane as u16,
                    second_parent: k >= 1,
                };
                let i = choose|i: int|
                    0 <= i < rows[n as int].edges@.len() && rows[n as int].edges@[i] == e;
                assert(rows[n as int].edges@[i].to_lane == last);
            }
        }
        assert(rows[n as int].node_lane + 1 == count || runs_to(rows[n as int].edges@, last));
    }
}

// ---------------------------------------------------------------------------
// The layout
// ---------------------------------------------------------------------------

/// The lane waiting for `sha`.
pub fn lane_of(active: &Vec<Option<String>>, sha: &str) -> (lane: Option<usize>)
    ensures
        match lane {
            Some(i) => leftmost(lanes_of(active@), Some(sha@), 0) == Some(i as int),
            None => leftmost(lanes_of(active@), Some(sha@), 0) is None,
        },
{
    let mut i: usize = 0;
    while i < active.len()
        invariant
            i <= active.len(),
            leftmost(lanes_of(active@), Some(sha@), 0) == leftmost(
                lanes_of(active@),
                Some(sha@),
                i as int,
            ),
        decreases active.len() - i,
    {
        let here = match &active[i] {
            Some(held) => same(held.as_str(), sha),
            None => false,
        };
        if here {
            return Some(i);
        }
        i = i + 1;
    }
    None
}

/// The leftmost empty lane at or after `from`, growing the layout when every
/// lane from there on is taken.
pub fn free_lane(active: &mut Vec<Option<String>>, from: usize) -> (lane: usize)
    ensures
        lane == opened(lanes_of(old(active)@), from as int),
        lanes_of(final(active)@) == grown(lanes_of(old(active)@), lane as int),
        lane < final(active).len(),
{
    let ghost before = lanes_of(active@);
    let mut i: usize = from;
    while i < active.len()
        invariant
            from <= i,
            before == lanes_of(active@),
            i <= active.len() || i == from,
            leftmost(before, None, from as int) == leftmost(before, None, i as int),
        decreases active.len() - i,
    {
        if active[i].is_none() {
            return i;
        }
        i = i + 1;
    }
    let lane: usize = if from > active.len() { from } else { active.len() };
    while active.len() <= lane
        invariant
            before.len() <= active.len() <= lane + 1,
            lanes_of(active@) == before + Seq::new(
                (active.len() - before.len()) as nat,
                |i: int| None,
            ),
        decreases lane + 1 - active.len(),
    {
        let ghost was = active@;
        active.push(None);
        assert(lanes_of(active@) =~= lanes_of(was).push(None));
    }
    lane
}

fn edge_is_le(a: GraphEdge, b: GraphEdge) -> (r: bool)
    ensures
        r == edge_le(a, b),
{
    if a.from_lane != b.from_lane {
        a.from_lane < b.from_lane
    } else if a.to_lane != b.to_lane {
        a.to_lane < b.to_lane
    } else {
        !a.second_parent || b.second_parent
    }
}

proof fn lemma_insert_multiset(s: Seq<GraphEdge>, i: int, e: GraphEdge)
    requires
        0 <= i <= s.len(),
    ensures
        s.insert(i, e).to_multiset() == s.to_multiset().insert(e),
{
    broadcast use group_to_multiset_ensures;

    let t = s.insert(i, e);
    assert(t.remove(i) =~= s);
    assert(t.remove(i).to_multiset() == t.to_multiset().remove(t[i]));
    assert(t.contains(e)) by {
        assert(t[i] == e);
    }
    assert(t.to_multiset().count(e) > 0);
    assert(t.to_multiset() =~= s.to_multiset().insert(e));
}

/// `edges` in order.
fn sorted_edges(edges: &Vec<GraphEdge>) -> (sorted: Vec<GraphEdge>)
    ensures
        is_sorted_form(sorted@, edges@),
{
    let mut sorted: Vec<GraphEdge> = Vec::new();
    let mut n: usize = 0;
    assert(edges@.take(0) =~= sorted@);
    while n < edges.len()
        invariant
            n <= edges.len(),
            is_sorted_form(sorted@, edges@.take(n as int)),
        decreases edges.len() - n,
    {
        let edge = edges[n];
        let mut at: usize = sorted.len();
        while at > 0 && !edge_is_le(sorted[at - 1], edge)
            invariant
                at <= sorted.len(),
                is_sorted_form(sorted@, edges@.take(n as int)),
                forall|k: int| at <= k < sorted.len() ==> edge_le(edge, #[trigger] sorted[k]),
            decreases at,
        {
            at = at - 1;
        }
        let ghost was = sorted@;
        sorted.insert(at, edge);
        proof {
            lemma_insert_multiset(was, at as int, edge);
            assert(edges@.take(n + 1) =~= edges@.take(n as int).push(edge));
            broadcast use group_to_multiset_ensures;

            assert(edges@.take(n as int).push(edge).to_multiset() == edges@.take(
                n as int,
            ).to_multiset().insert(edge));
            if at > 0 {
                assert(edge_le(was[at - 1], edge));
                assert forall|k: int| 0 <= k < at implies edge_le(#[trigger] was[k], edge) by {
                    if k < at - 1 {
                        assert(edge_le(was[k], was[at - 1]));
                    }
                }
            }
        }
        n = n + 1;
    }
    assert(edges@.take(edges.len() as int) =~= edges@);
    sorted
}

/// Lay `commits` out as lanes, returning one row per commit plus the number of
/// lanes the widest row needs.
///
/// `commits` are in display order, newest first, with each commit's parents
/// appearing later in the list or not at all. A parent that never appears
/// keeps its lane running to the bottom of the list.
pub fn assign_lanes(commits: &[CommitInfo]) -> (r: (Vec<GraphRow>, u16))
    ensures
        r.0.len() == commits.len(),
        forall|n: int| 0 <= n < commits.len() ==> is_row(#[trigger] r.0[n], commits@, n as nat),
        r.1 == widest(commits@, commits@.len()) as u16,
{
    let mut active: Vec<Option<String>> = Vec::new();
    let mut rows: Vec<GraphRow> = Vec::new();
    let mut lane_count: usize = 0;
    let mut n: usize = 0;
    assert(lanes_of(active@) =~= Seq::empty());
    while n < commits.len()
        invariant
            n <= commits.len(),
            rows.len() == n,
            lanes_of(active@) == lanes_above(commits@, n as nat),
            lane_count == widest(commits@, n as nat),
            forall|k: int| 0 <= k < n ==> is_row(#[trigger] rows[k], commits@, k as nat),
        decreases commits.len() - n,
    {
        let commit = &commits[n];
        let ghost before = lanes_of(active@);
        let ghost sha = commit.sha@;
        let ghost parents = shas(commit.parents@);
        let occupied: Vec<bool> = occupied_lanes(&active);

        let node: usize = match lane_of(&active, commit.sha.as_str()) {
            Some(lane) => lane,
            None => free_lane(&mut active, 0),
        };
        proof {
            lemma_leftmost(before, Some(sha), 0);
            lemma_node_lane(before, sha);
            assert(lanes_of(active@) == grown(before, node as int));
        }
        active.set(node, None);
        assert(lanes_of(active@) =~= arrived(before, sha));

        let mut edges: Vec<GraphEdge> = Vec::new();
        let mut nth: usize = 0;
        while nth < commit.parents.len()
            invariant
                nth <= commit.parents.len(),
                parents == shas(commit.parents@),
                node < arrived(before, sha).len() <= active.len(),
                arrived(before, sha)[node as int] is None,
                lanes_of(active@) == seated(arrived(before, sha), node as int, parents, nth as nat),
                edges@ == parent_edges(arrived(before, sha), node as int, parents, nth as nat),
            decreases commit.parents.len() - nth,
        {
            let ghost above = lanes_of(active@);
            proof {
                lemma_seated(arrived(before, sha), node as int, parents, nth as nat);
                lemma_leftmost(above, Some(parents[nth as int]), 0);
            }
            let parent = &commit.parents[nth];
            let to_lane: usize = match lane_of(&active, parent.as_str()) {
                Some(existing) => existing,
                None => {
                    let lane: usize = if nth == 0 {
                        node
                    } else {
                        free_lane(&mut active, node + 1)
                    };
                    active.set(lane, Some(parent.clone()));
                    lane
                },
            };
            assert(lanes_of(active@) =~= grown(above, to_lane as int).update(
                to_lane as int,
                Some(parents[nth as int]),
            ));
            edges.push(
                GraphEdge {
                    from_lane: #[verifier::truncate] (node as u16),
                    to_lane: #[verifier::truncate] (to_lane as u16),
                    second_parent: nth >= 1,
                },
            );
            nth = nth + 1;
            assert(edges@ =~= parent_edges(arrived(before, sha), node as int, parents, nth as nat));
        }
        let ghost after = lanes_of(active@);
        let ghost to_parents = edges@;
        assert(after == lanes_below(before, sha, parents));

        let mut lane: usize = 0;
        assert(edges@ =~= to_parents + straight_edges(before, after, node as int, 0));
        while lane < active.len()
            invariant
                lane <= active.len(),
                after == lanes_of(active@),
                occupied.len() == before.len(),
                forall|i: int| 0 <= i < occupied.len() ==> occupied[i] == (before[i] is Some),
                edges@ == to_parents + straight_edges(before, after, node as int, lane as nat),
            decreases active.len() - lane,
        {
            let carried_over: bool = lane < occupied.len() && occupied[lane];
            assert(after[lane as int] == awaited(active[lane as int]));
            if lane != node && active[lane].is_some() && carried_over {
                edges.push(
                    GraphEdge {
                        from_lane: #[verifier::truncate] (lane as u16),
                        to_lane: #[verifier::truncate] (lane as u16),
                        second_parent: false,
                    },
                );
            }
            lane = lane + 1;
            assert(edges@ =~= to_parents + straight_edges(
                before,
                after,
                node as int,
                lane as nat,
            ));
        }
        assert(edges@ == edges_below(before, sha, parents));
        let edges = sorted_edges(&edges);

        if active.len() > lane_count {
            lane_count = active.len();
        }
        trim(&mut active);
        rows.push(GraphRow { node_lane: #[verifier::truncate] (node as u16), edges });
        n = n + 1;
    }
    (rows, #[verifier::truncate] (lane_count as u16))
}

/// Which lanes wait for something.
fn occupied_lanes(active: &Vec<Option<String>>) -> (occupied: Vec<bool>)
    ensures
        occupied.len() == active.len(),
        forall|i: int|
            0 <= i < occupied.len() ==> #[trigger] occupied[i] == (lanes_of(active@)[i] is Some),
{
    let mut occupied: Vec<bool> = Vec::new();
    for i in 0..active.len()
        invariant
            occupied.len() == i,
            forall|k: int|
                0 <= k < occupied.len() ==> #[trigger] occupied[k] == (lanes_of(
                    active@,
                )[k] is Some),
    {
        occupied.push(active[i].is_some());
    }
    occupied
}

/// Drops the empty lanes on the right.
fn trim(active: &mut Vec<Option<String>>)
    ensures
        lanes_of(final(active)@) == trimmed(lanes_of(old(active)@)),
{
    while active.len() > 0 && active[active.len() - 1].is_none()
        invariant
            trimmed(lanes_of(active@)) == trimmed(lanes_of(old(active)@)),
        decreases active.len(),
    {
        let ghost was = lanes_of(active@);
        active.pop();
        assert(lanes_of(active@) =~= was.drop_last());
    }
}

} // verus!
