use go_scoring::grid::{Board, Color};
use go_scoring::groups::find_groups;
use go_scoring::scoring::{
    ActionChange, ActionError, ActionKind, ScoringState, Seat, SharedState,
};
use go_scoring::territory::score_board;

fn board_from(width: usize, height: usize, toroidal: bool, colors: Vec<u8>) -> Board {
    assert_eq!(colors.len(), width * height);
    Board {
        width,
        height,
        toroidal,
        points: colors.into_iter().map(Color).collect(),
    }
}

fn seat(player: Option<u64>) -> Seat {
    Seat {
        player,
        resigned: false,
    }
}

#[test]
fn board_primitives_read_and_write() {
    let mut b = Board::empty(2, 2, false);
    assert_eq!(b.get_point((1, 1)), Color(0));
    b.set_point((1, 1), Color(2));
    assert_eq!(b.get_point((1, 1)), Color(2));
    assert_eq!(b.get(3), Color(2));
    assert_eq!(b.get_point((0, 1)), Color(0));
}

#[test]
fn scorer_is_idempotent() {
    let board = board_from(3, 3, false, vec![1, 0, 2, 0, 0, 2, 1, 0, 0]);
    let groups = find_groups(&board);
    let first = score_board(&board, &groups);
    let second = score_board(&board, &groups);
    assert_eq!(first, second);
}

#[test]
fn wraparound_row_is_one_region() {
    // An empty 1-row toroidal board of width 4 with a single team-1 stone:
    // wraparound makes the whole row one region bordering only team 1.
    let board = board_from(4, 1, true, vec![1, 0, 0, 0]);
    let groups = find_groups(&board);
    let scored = score_board(&board, &groups);
    for x in 0..4 {
        assert_eq!(scored.points[x], Color(1));
    }
}

#[test]
fn wraparound_row_scores_whole_board() {
    let board = board_from(4, 1, true, vec![1, 0, 0, 0]);
    let state = ScoringState::new(&board, &[seat(Some(7))], &[0]);
    assert_eq!(state.scores, vec![0 + 2 * 4]);
}

#[test]
fn contested_point_stays_neutral() {
    // Team-1 stone at x=0, team-2 stone at x=2: the single empty point
    // borders both teams, so it stays neutral.
    let board = board_from(3, 1, false, vec![1, 0, 2]);
    let groups = find_groups(&board);
    let scored = score_board(&board, &groups);
    assert_eq!(scored.points, vec![Color(1), Color(0), Color(2)]);
    let state = ScoringState::new(&board, &[seat(Some(1)), seat(Some(2))], &[0, 0]);
    assert_eq!(state.scores, vec![2, 2]);
}

#[test]
fn empty_board_stays_empty() {
    let board = board_from(3, 2, false, vec![0, 0, 0, 0, 0, 0]);
    let groups = find_groups(&board);
    assert!(groups.is_empty());
    let scored = score_board(&board, &groups);
    assert_eq!(scored.points, vec![Color(0); 6]);
}

#[test]
fn single_color_border_claims_region() {
    // Team 1 surrounds the center of a 3x3 board with a diamond: the center
    // borders only team 1.
    let board = board_from(3, 3, false, vec![0, 1, 0, 1, 0, 1, 0, 1, 0]);
    let groups = find_groups(&board);
    let scored = score_board(&board, &groups);
    assert_eq!(scored.points[4], Color(1));
}

#[test]
fn repeated_contacts_count_as_one_color() {
    // The middle point touches team 1 through two separate stones: still a
    // single distinct bordering color, so it is claimed.
    let board = board_from(3, 1, false, vec![1, 0, 1]);
    let groups = find_groups(&board);
    let scored = score_board(&board, &groups);
    assert_eq!(scored.points, vec![Color(1), Color(1), Color(1)]);
}

#[test]
fn score_accounting_from_baseline() {
    // 2x2 board fully owned by team 1 after scoring; baselines carry over.
    let board = board_from(2, 2, false, vec![1, 0, 0, 0]);
    let state = ScoringState::new(&board, &[seat(Some(1)), seat(Some(2))], &[10, -3]);
    // all four points resolve to team 1: 10 + 2*4; team 2 keeps its baseline
    assert_eq!(state.scores, vec![18, -3]);
}

#[test]
fn dead_group_yields_territory() {
    // Killing the lone team-2 stone turns the whole 3x1 board into team-1
    // territory on rescore.
    let board = board_from(3, 1, false, vec![1, 0, 2]);
    let mut shared = SharedState {
        board: board.clone(),
        seats: vec![seat(Some(1)), seat(Some(2))],
        points: vec![0, 0],
    };
    let mut state = ScoringState::new(&board, &shared.seats.clone(), &[0, 0]);
    let r = state.make_action(&mut shared, 2, ActionKind::Place(2, 0));
    assert!(matches!(r, Ok(ActionChange::NoChange)));
    assert_eq!(state.points.points, vec![Color(1); 3]);
    assert_eq!(state.scores, vec![6, 0]);
}

#[test]
fn place_twice_restores_board_and_scores() {
    let board = board_from(3, 1, false, vec![1, 0, 2]);
    let mut shared = SharedState {
        board: board.clone(),
        seats: vec![seat(Some(1)), seat(Some(2))],
        points: vec![0, 0],
    };
    let mut state = ScoringState::new(&board, &shared.seats.clone(), &[0, 0]);
    let before_points = state.points.clone();
    let before_scores = state.scores.clone();
    state.make_action(&mut shared, 2, ActionKind::Place(2, 0)).unwrap();
    state.make_action(&mut shared, 2, ActionKind::Place(2, 0)).unwrap();
    assert_eq!(state.points, before_points);
    assert_eq!(state.scores, before_scores);
}

#[test]
fn place_on_empty_point_is_noop() {
    let board = board_from(3, 1, false, vec![1, 0, 2]);
    let mut shared = SharedState {
        board: board.clone(),
        seats: vec![seat(Some(1))],
        points: vec![0, 0],
    };
    let mut state = ScoringState::new(&board, &shared.seats.clone(), &[0, 0]);
    let before = state.clone();
    let r = state.make_action(&mut shared, 1, ActionKind::Place(1, 0));
    assert!(matches!(r, Ok(ActionChange::NoChange)));
    assert_eq!(state, before);
}

#[test]
fn place_out_of_range_is_error() {
    let board = board_from(3, 1, false, vec![1, 0, 2]);
    let mut shared = SharedState {
        board: board.clone(),
        seats: vec![seat(Some(1))],
        points: vec![0, 0],
    };
    let mut state = ScoringState::new(&board, &shared.seats.clone(), &[0, 0]);
    let before = state.clone();
    let r = state.make_action(&mut shared, 1, ActionKind::Place(7, 0));
    assert_eq!(r, Err(ActionError::PointOutOfRange));
    assert_eq!(state, before);
}

#[test]
fn pass_marks_all_seats_of_player() {
    // A player holding seats 2 and 5 passes: exactly those two acceptances
    // are set.
    let board = board_from(2, 1, false, vec![1, 0]);
    let seats = vec![
        seat(Some(10)),
        seat(Some(11)),
        seat(Some(12)),
        seat(Some(11)),
        seat(Some(13)),
        seat(Some(12)),
    ];
    let mut shared = SharedState {
        board: board.clone(),
        seats: seats.clone(),
        points: vec![0],
    };
    let mut state = ScoringState::new(&board, &seats, &[0]);
    let r = state.make_action(&mut shared, 12, ActionKind::Pass);
    assert!(matches!(r, Ok(ActionChange::NoChange)));
    assert_eq!(
        state.players_accepted,
        vec![false, false, true, false, false, true]
    );
}

#[test]
fn two_seats_one_player_accept_in_one_call() {
    let board = board_from(2, 1, false, vec![1, 0]);
    let seats = vec![seat(Some(5)), seat(Some(5))];
    let mut shared = SharedState {
        board: board.clone(),
        seats: seats.clone(),
        points: vec![0],
    };
    let mut state = ScoringState::new(&board, &seats, &[0]);
    let r = state.make_action(&mut shared, 5, ActionKind::Pass);
    assert_eq!(state.players_accepted, vec![true, true]);
    // both seats accepted at once, so the phase ends immediately
    assert!(matches!(r, Ok(ActionChange::SwapState(_))));
}

#[test]
fn done_exactly_on_unanimity() {
    let board = board_from(2, 1, false, vec![1, 0]);
    let seats = vec![seat(Some(1)), seat(Some(2))];
    let mut shared = SharedState {
        board: board.clone(),
        seats: seats.clone(),
        points: vec![0],
    };
    let mut state = ScoringState::new(&board, &seats, &[0]);
    let r1 = state.make_action(&mut shared, 1, ActionKind::Pass);
    assert!(matches!(r1, Ok(ActionChange::NoChange)));
    let r2 = state.make_action(&mut shared, 2, ActionKind::Pass);
    match r2 {
        Ok(ActionChange::SwapState(snapshot)) => {
            assert_eq!(snapshot, state);
        }
        other => panic!("expected the terminal transition, got {:?}", other),
    }
}

#[test]
fn pass_from_unknown_player_changes_nothing() {
    let board = board_from(2, 1, false, vec![1, 0]);
    let seats = vec![seat(Some(1)), seat(Some(2))];
    let mut shared = SharedState {
        board: board.clone(),
        seats: seats.clone(),
        points: vec![0],
    };
    let mut state = ScoringState::new(&board, &seats, &[0]);
    let r = state.make_action(&mut shared, 99, ActionKind::Pass);
    assert!(matches!(r, Ok(ActionChange::NoChange)));
    assert_eq!(state.players_accepted, vec![false, false]);
}

#[test]
fn resign_sets_permanent_flag_and_accepts() {
    let board = board_from(2, 1, false, vec![1, 0]);
    let seats = vec![seat(Some(1)), seat(Some(2))];
    let mut shared = SharedState {
        board: board.clone(),
        seats: seats.clone(),
        points: vec![0],
    };
    let mut state = ScoringState::new(&board, &seats, &[0]);
    let r = state.make_action(&mut shared, 1, ActionKind::Resign);
    assert!(matches!(r, Ok(ActionChange::NoChange)));
    assert!(shared.seats[0].resigned);
    assert!(!shared.seats[1].resigned);
    assert_eq!(state.players_accepted, vec![true, false]);
    // a dispute resets acceptance to resignation status only: the resigned
    // seat stays accepted, the pass-style acceptance would be revoked
    state.make_action(&mut shared, 1, ActionKind::Place(0, 0)).unwrap();
    assert!(shared.seats[0].resigned);
    assert_eq!(state.players_accepted, vec![true, false]);
}

#[test]
fn dispute_revokes_pass_acceptance() {
    let board = board_from(2, 1, false, vec![1, 0]);
    let seats = vec![seat(Some(1)), seat(Some(2))];
    let mut shared = SharedState {
        board: board.clone(),
        seats: seats.clone(),
        points: vec![0],
    };
    let mut state = ScoringState::new(&board, &seats, &[0]);
    state.make_action(&mut shared, 1, ActionKind::Pass).unwrap();
    assert_eq!(state.players_accepted, vec![true, false]);
    state.make_action(&mut shared, 2, ActionKind::Place(0, 0)).unwrap();
    assert_eq!(state.players_accepted, vec![false, false]);
}

#[test]
fn cancel_pops_without_mutating() {
    let board = board_from(2, 1, false, vec![1, 0]);
    let seats = vec![seat(Some(1))];
    let mut shared = SharedState {
        board: board.clone(),
        seats: seats.clone(),
        points: vec![0],
    };
    let mut state = ScoringState::new(&board, &seats, &[0]);
    let before = state.clone();
    let r = state.make_action(&mut shared, 1, ActionKind::Cancel);
    assert!(matches!(r, Ok(ActionChange::PopState)));
    assert_eq!(state, before);
}

#[test]
fn resigned_seat_is_pre_accepted() {
    let board = board_from(2, 1, false, vec![1, 0]);
    let seats = vec![
        Seat {
            player: Some(1),
            resigned: true,
        },
        seat(Some(2)),
    ];
    let state = ScoringState::new(&board, &seats, &[0]);
    assert_eq!(state.players_accepted, vec![true, false]);
}

#[test]
fn dead_groups_leave_region_unclaimed() {
    // Killing the only group leaves the board with no living border at all:
    // everything stays neutral.
    let board = board_from(2, 1, false, vec![1, 0]);
    let mut shared = SharedState {
        board: board.clone(),
        seats: vec![seat(Some(1))],
        points: vec![0],
    };
    let mut state = ScoringState::new(&board, &shared.seats.clone(), &[0]);
    assert_eq!(state.scores, vec![4]);
    state.make_action(&mut shared, 1, ActionKind::Place(0, 0)).unwrap();
    assert_eq!(state.points.points, vec![Color(0), Color(0)]);
    assert_eq!(state.scores, vec![0]);
}

#[test]
fn groups_partition_the_stones() {
    let board = board_from(3, 2, false, vec![1, 1, 2, 0, 1, 2]);
    let mut groups = find_groups(&board);
    groups.sort_by_key(|g| g.points.len());
    // team 1's three stones connect through (1,0)-(1,1); team 2's column is
    // the other group
    assert_eq!(groups.len(), 2);
    assert_eq!(groups[0].team, Color(2));
    assert_eq!(groups[0].points.len(), 2);
    assert_eq!(groups[1].team, Color(1));
    assert_eq!(groups[1].points.len(), 3);
    let total: usize = groups.iter().map(|g| g.points.len()).sum();
    assert_eq!(total, 5);
    assert!(groups.iter().all(|g| g.alive));
}
