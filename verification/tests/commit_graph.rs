use stoat::commit_graph::{assign_lanes, free_lane, lane_of, GraphEdge, GraphRow};
use stoat::host::CommitInfo;

fn commit(sha: &str, parents: &[&str]) -> CommitInfo {
    CommitInfo {
        sha: sha.to_string(),
        short_sha: sha.to_string(),
        summary: String::new(),
        author_name: String::new(),
        author_email: String::new(),
        time: 0,
        parents: parents.iter().map(|p| (*p).to_string()).collect(),
    }
}

/// One row as `(node_lane, [(from, to, second_parent), ...])`, which reads
/// as a table where the struct form would not.
type FlatRow = (u16, Vec<(u16, u16, bool)>);

fn laid_out(commits: &[CommitInfo]) -> (Vec<FlatRow>, u16) {
    let (rows, lanes) = assign_lanes(commits);
    let flat = rows
        .into_iter()
        .map(|GraphRow { node_lane, edges }| {
            let edges = edges
                .into_iter()
                .map(
                    |GraphEdge {
                         from_lane,
                         to_lane,
                         second_parent,
                     }| (from_lane, to_lane, second_parent),
                )
                .collect();
            (node_lane, edges)
        })
        .collect();
    (flat, lanes)
}

#[test]
fn a_linear_chain_stays_in_one_lane() {
    let history = [
        commit("c3", &["c2"]),
        commit("c2", &["c1"]),
        commit("c1", &[]),
    ];

    assert_eq!(
        laid_out(&history),
        (
            vec![
                (0, vec![(0, 0, false)]),
                (0, vec![(0, 0, false)]),
                (0, vec![]),
            ],
            1
        )
    );
}

#[test]
fn two_children_of_one_commit_converge_into_its_lane() {
    let history = [
        commit("a", &["root"]),
        commit("b", &["root"]),
        commit("root", &[]),
    ];

    assert_eq!(
        laid_out(&history),
        (
            vec![
                (0, vec![(0, 0, false)]),
                // b opens lane 1, then merges straight back into root's lane.
                (1, vec![(0, 0, false), (1, 0, false)]),
                (0, vec![]),
            ],
            2
        )
    );
}

#[test]
fn a_merge_spawns_a_lane_and_the_branch_converges_back() {
    let history = [
        commit("m", &["a", "b"]),
        commit("a", &["root"]),
        commit("b", &["root"]),
        commit("root", &[]),
    ];

    assert_eq!(
        laid_out(&history),
        (
            vec![
                // m's second parent opens lane 1, and that edge is the
                // only one belonging to the branch rather than to m.
                (0, vec![(0, 0, false), (0, 1, true)]),
                (0, vec![(0, 0, false), (1, 1, false)]),
                (1, vec![(0, 0, false), (1, 0, false)]),
                (0, vec![]),
            ],
            2
        )
    );
}

#[test]
fn a_parent_that_never_appears_runs_its_lane_off_the_bottom() {
    let history = [commit("m", &["a", "offlist"]), commit("a", &[])];

    assert_eq!(
        laid_out(&history),
        (
            vec![
                (0, vec![(0, 0, false), (0, 1, true)]),
                // The last row still carries lane 1 downward, because the
                // commit it waits for is not in the list.
                (0, vec![(1, 1, false)]),
            ],
            2
        )
    );
}

#[test]
fn interleaved_branches_keep_the_lane_they_started_in() {
    let history = [
        commit("c1", &["b1"]),
        commit("c2", &["b2"]),
        commit("b1", &["root"]),
        commit("b2", &["root"]),
        commit("root", &[]),
    ];

    assert_eq!(
        laid_out(&history),
        (
            vec![
                (0, vec![(0, 0, false)]),
                (1, vec![(0, 0, false), (1, 1, false)]),
                (0, vec![(0, 0, false), (1, 1, false)]),
                (1, vec![(0, 0, false), (1, 0, false)]),
                (0, vec![]),
            ],
            2
        )
    );
}

#[test]
fn an_empty_history_lays_out_to_nothing() {
    assert_eq!(laid_out(&[]), (Vec::new(), 0));
}

#[test]
fn a_free_lane_is_the_leftmost_empty_one() {
    let mut active = vec![Some("a".to_string()), None, Some("b".to_string())];
    assert_eq!(free_lane(&mut active, 0), 1);
    assert_eq!(active.len(), 3);
    assert_eq!(free_lane(&mut active, 2), 3);
    assert_eq!(active.len(), 4);
    assert_eq!(free_lane(&mut active, 6), 6);
    assert_eq!(active.len(), 7);
    assert_eq!(lane_of(&active, "b"), Some(2));
    assert_eq!(lane_of(&active, "c"), None);
}

#[test]
fn lines_run_on_from_row_to_row() {
    let history = [
        commit("m", &["a", "b"]),
        commit("x", &["y"]),
        commit("b", &["root"]),
        commit("y", &["root", "a"]),
        commit("a", &["root"]),
        commit("root", &["gone"]),
        commit("z", &[]),
    ];
    let (rows, lanes) = laid_out(&history);
    assert!(lanes >= 3);
    assert!(
        rows.iter().any(|(node, edges)| *node + 1 == lanes
            || edges.iter().any(|&(_, to, _)| to + 1 == lanes)),
        "the last lane is used"
    );
    for pair in rows.windows(2) {
        let (_, above) = &pair[0];
        let (node, below) = &pair[1];
        for &(_, to, _) in above {
            assert!(to == *node || below.contains(&(to, to, false)), "{pair:?}");
        }
        for &(from, to, second) in below {
            if from == to && !second && to != *node {
                assert!(above.iter().any(|&(_, end, _)| end == to), "{pair:?}");
            }
        }
    }
}
