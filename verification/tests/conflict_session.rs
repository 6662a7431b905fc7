use std::collections::{HashMap, HashSet};
use stoat::conflict_session::{ConflictPick, ConflictSession, FileResolveState, PickOutcome};

fn file(path: &str, picked: &[u8]) -> FileResolveState<&'static str, u8> {
    FileResolveState {
        path: path.to_string(),
        doc: "doc",
        picks: vec![picked.to_vec()],
        chunk_anchors: Vec::new(),
        buffer_id: 1,
        editor_id: 1,
    }
}

fn session(count: usize) -> ConflictSession<&'static str, u8> {
    ConflictSession {
        workdir: "/ws".to_string(),
        files: (0..count).map(|i| format!("/ws/{i}.txt")).collect(),
        current: 0,
        file: file("/ws/0.txt", &[]),
        saved_editor: 9,
        pending_clobber: None,
        parked: HashMap::new(),
        applied: HashSet::new(),
    }
}

#[test]
fn pick_over_a_hand_edit_warns_then_overwrites_on_repeat() {
    let mut s = session(1);
    assert_eq!(s.guard_pick(0, ConflictPick::Ours, true), PickOutcome::Warn);
    assert_eq!(s.guard_pick(0, ConflictPick::Ours, true), PickOutcome::Overwrite);
    assert_eq!(s.pending_clobber, None);
    assert_eq!(s.guard_pick(0, ConflictPick::Ours, false), PickOutcome::Overwrite);
}

#[test]
fn an_intervening_action_disarms_the_clobber_guard() {
    let mut s = session(1);
    assert_eq!(s.guard_pick(0, ConflictPick::Ours, true), PickOutcome::Warn);
    s.disarm();
    assert_eq!(s.guard_pick(0, ConflictPick::Ours, true), PickOutcome::Warn);
    assert_eq!(
        s.guard_pick(0, ConflictPick::Theirs, true),
        PickOutcome::Warn,
        "a different pick re-arms for the new target"
    );
    assert_eq!(s.guard_pick(1, ConflictPick::Theirs, true), PickOutcome::Warn);
}

#[test]
fn stepping_between_files_parks_and_restores_picks() {
    let mut s = session(2);
    s.file = file("/ws/0.txt", &[1]);
    assert_eq!(s.neighbour(false), None, "P at the first file does not wrap");
    let next = s.neighbour(true).expect("N advances to the second file");
    assert!(!s.is_parked(next));
    s.step_to(next, Some(file("/ws/1.txt", &[])));
    assert_eq!(s.current, 1);
    assert!(s.file.picks[0].is_empty(), "the second file opens unresolved");
    s.file.picks[0].push(2);
    assert_eq!(s.neighbour(true), None, "N at the last file does not wrap");

    let back = s.neighbour(false).expect("P returns to the first file");
    assert!(s.is_parked(back));
    s.step_to(back, None);
    assert_eq!(s.current, 0);
    assert_eq!(s.file.picks, [vec![1]], "the first file's pick was parked");
    assert!(s.is_parked(1) && !s.is_parked(0));
}

#[test]
fn apply_advances_to_the_next_unresolved_file() {
    let mut s = session(2);
    assert_eq!(s.apply_current(), Some(1), "apply advances to the next file");
    s.step_to(1, Some(file("/ws/1.txt", &[])));
    assert_eq!(s.apply_current(), None, "view closes when every file is applied");
}

#[test]
fn applying_the_last_file_first_comes_round_to_the_others() {
    let mut s = session(3);
    s.step_to(2, Some(file("/ws/2.txt", &[])));
    assert_eq!(s.apply_current(), Some(0));
    assert_eq!(session(1).apply_current(), None);
}
