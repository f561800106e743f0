//! Tests of the pile/move model: applying and exactly undoing moves,
//! and the invariant-violation errors.

use solitaire::card::{encode, card_flipped};
use solitaire::names::card_name_to_solver;
use solitaire::solver::{
    Move, MoveInstruction, SolverError, create_move, perform_state_move, find_first,
};

fn sample_state() -> Vec<Vec<u8>> {
    // One pile of clubs: ace through 6 face up, then 7 and 8 face down;
    // and one empty pile.
    let mut stack_a = Vec::new();
    stack_a.push(card_name_to_solver("club_ace", false));
    for name in ["club_2", "club_3", "club_4", "club_5", "club_6"] {
        stack_a.push(card_name_to_solver(name, false));
    }
    stack_a.push(card_name_to_solver("club_7", true));
    stack_a.push(card_name_to_solver("club_8", true));
    vec![stack_a, Vec::new()]
}

#[test]
fn move_then_undo_restores_state_and_move() {
    let game_state = sample_state();
    let moves = vec![
        create_move(0, &card_name_to_solver("club_6", false), 1, MoveInstruction::Plain),
        create_move(0, &card_name_to_solver("club_ace", false), 1, MoveInstruction::Plain),
        create_move(0, &card_name_to_solver("club_6", false), 1, MoveInstruction::Flip),
        create_move(0, &card_name_to_solver("club_ace", false), 1, MoveInstruction::Flip),
    ];
    for mut mv in moves {
        let mv_copy = mv.clone();
        let mut copy = game_state.clone();
        perform_state_move(&mut mv, &mut copy, false).unwrap();
        perform_state_move(&mut mv, &mut copy, true).unwrap();
        assert_eq!(game_state, copy, "move/undo mismatch for {:?}", mv);
        assert_eq!(mv, mv_copy, "move/undo mismatch for {:?}", mv);
    }
}

#[test]
fn plain_move_relocates_the_run_in_order() {
    let mut state = sample_state();
    let mut mv = create_move(0, &card_name_to_solver("club_6", false), 1, MoveInstruction::Plain);
    perform_state_move(&mut mv, &mut state, false).unwrap();
    // club_6 and the two face-down cards above it moved, in order.
    assert_eq!(state[0].len(), 5);
    assert_eq!(
        state[1],
        vec![
            card_name_to_solver("club_6", false),
            card_name_to_solver("club_7", true),
            card_name_to_solver("club_8", true),
        ],
    );
}

#[test]
fn flip_move_reverses_and_flips_the_run() {
    let mut state = sample_state();
    let mut mv = create_move(0, &card_name_to_solver("club_6", false), 1, MoveInstruction::Flip);
    perform_state_move(&mut mv, &mut state, false).unwrap();
    assert_eq!(state[0].len(), 5);
    assert_eq!(
        state[1],
        vec![
            card_name_to_solver("club_8", false),
            card_name_to_solver("club_7", false),
            card_name_to_solver("club_6", true),
        ],
    );
    // The move now carries the flipped image of the old top card, so
    // that the undo direction can find it.
    assert_eq!(mv.card, card_flipped(&card_name_to_solver("club_8", true)));
}

#[test]
fn same_stack_is_refused() {
    let mut state = sample_state();
    let before = state.clone();
    let mut mv = create_move(0, &card_name_to_solver("club_6", false), 0, MoveInstruction::Plain);
    assert_eq!(perform_state_move(&mut mv, &mut state, false), Err(SolverError::SameStack));
    assert_eq!(state, before);
}

#[test]
fn out_of_range_stack_is_refused() {
    let mut state = sample_state();
    let before = state.clone();
    let mut mv = create_move(0, &card_name_to_solver("club_6", false), 7, MoveInstruction::Plain);
    assert_eq!(perform_state_move(&mut mv, &mut state, false), Err(SolverError::StackOutOfRange));
    assert_eq!(state, before);
}

#[test]
fn missing_card_is_refused() {
    let mut state = sample_state();
    let before = state.clone();
    let mut mv = create_move(0, &card_name_to_solver("heart_9", false), 1, MoveInstruction::Plain);
    assert_eq!(perform_state_move(&mut mv, &mut state, false), Err(SolverError::CardNotFound));
    assert_eq!(state, before);
}

#[test]
fn find_first_reports_the_first_position() {
    let pile = vec![7u8, 3, 7, 9];
    assert_eq!(find_first(&pile, 7), Some(0));
    assert_eq!(find_first(&pile, 9), Some(3));
    assert_eq!(find_first(&pile, 4), None);
}

#[test]
fn face_matters_when_locating_the_split_card() {
    // The face-down club_7 is a different byte from the face-up one.
    let mut state = sample_state();
    let mut mv = create_move(0, &card_name_to_solver("club_7", false), 1, MoveInstruction::Plain);
    assert_eq!(perform_state_move(&mut mv, &mut state, false), Err(SolverError::CardNotFound));
    let mut mv = create_move(0, &card_name_to_solver("club_7", true), 1, MoveInstruction::Plain);
    assert!(perform_state_move(&mut mv, &mut state, false).is_ok());
    assert_eq!(state[1], vec![encode(0, 6, true), encode(0, 7, true)]);
}
