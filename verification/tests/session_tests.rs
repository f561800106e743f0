//! Tests of the history layer: applying, undoing and redoing board
//! moves, hint consumption, and the re-solve staleness rules.

use std::sync::atomic::AtomicBool;
use solitaire::card::encode;
use solitaire::games::GameKind;
use solitaire::session::{
    GameSession, AfterMove, ResolveVerdict, create_move, move_from_strings, clone_move,
    moves_equal, solution_to_moves, re_solve,
};
use solitaire::solver::{MoveInstruction, SolverError};
use solitaire::session::SessionError;

fn one_pile_session() -> GameSession {
    let mut s = GameSession::new(GameKind::OneFoundation { play_piles: 1 });
    s.add_stack("play".to_string(), vec![encode(0, 0, false)]);
    s.add_stack("foundation".to_string(), Vec::new());
    s
}

fn klondike_session() -> GameSession {
    let mut s = GameSession::new(GameKind::Klondike);
    for t in 0..7 {
        s.add_stack(format!("tableau_{}", t), Vec::new());
    }
    for f in 0..4 {
        s.add_stack(format!("foundation_{}", f), Vec::new());
    }
    s.add_stack("waste".to_string(), Vec::new());
    s.add_stack("stock".to_string(), Vec::new());
    s
}

#[test]
fn perform_undo_redo_round_trip() {
    let mut s = one_pile_session();
    let mut m = create_move("play", "club_ace", "foundation", MoveInstruction::Plain);
    s.perform_move(&mut m).unwrap();
    assert_eq!(s.piles, vec![Vec::new(), vec![encode(0, 0, false)]]);
    let after = s.add_to_history(clone_move(&m));
    // The single play pile is empty, so the game is won.
    assert_eq!(after, AfterMove::Won);
    assert_eq!(s.history.len(), 1);

    let undone = s.undo_last_move().unwrap();
    assert!(undone.is_some());
    assert_eq!(s.piles, vec![vec![encode(0, 0, false)], Vec::new()]);
    assert_eq!(s.history.len(), 0);
    assert_eq!(s.undo_history.len(), 1);

    let redone = s.redo_first_move().unwrap();
    assert_eq!(redone, Some(AfterMove::ResolveNeeded));
    assert_eq!(s.piles, vec![Vec::new(), vec![encode(0, 0, false)]]);
    assert_eq!(s.history.len(), 1);
    assert_eq!(s.undo_history.len(), 0);
}

#[test]
fn klondike_reveal_is_recorded_and_reversed() {
    let mut s = klondike_session();
    // A face-down 7 of clubs buried under the 2 of clubs; the ace of
    // clubs already on a foundation.
    s.piles[0] = vec![encode(0, 6, true), encode(0, 1, false)];
    s.piles[7] = vec![encode(0, 0, false)];
    let before = s.piles.clone();
    let mut m = create_move("tableau_0", "club_2", "foundation_0", MoveInstruction::Plain);
    s.perform_move(&mut m).unwrap();
    // The move exposed the hidden card, which the hook turned face up
    // and recorded.
    assert_eq!(m.flip_index, Some(0));
    assert_eq!(s.piles[0], vec![encode(0, 6, false)]);
    assert_eq!(s.piles[7], vec![encode(0, 0, false), encode(0, 1, false)]);
    s.history.push(clone_move(&m));
    // Undoing re-hides the card and moves the 2 back.
    s.undo_last_move().unwrap().unwrap();
    assert_eq!(s.piles, before);
}

#[test]
fn unknown_names_leave_the_session_unchanged() {
    let mut s = one_pile_session();
    let before = s.piles.clone();
    let mut m = create_move("nowhere", "club_ace", "foundation", MoveInstruction::Plain);
    assert!(s.perform_move(&mut m).is_err());
    let mut m = create_move("play", "pelican_ace", "foundation", MoveInstruction::Plain);
    assert!(s.perform_move(&mut m).is_err());
    let mut m = create_move("play", "heart_9", "foundation", MoveInstruction::Plain);
    assert!(s.perform_move(&mut m).is_err());
    assert_eq!(s.piles, before);
}

#[test]
fn matching_hint_is_consumed_instead_of_resolving() {
    let mut s = klondike_session();
    s.piles[0] = vec![encode(0, 1, false)];
    s.piles[7] = vec![encode(0, 0, false)];
    let hint = create_move("tableau_0", "club_2", "foundation_0", MoveInstruction::Plain);
    let follow_up = create_move("stock", "club_9", "waste", MoveInstruction::Flip);
    s.set_solution(vec![clone_move(&hint), clone_move(&follow_up)]);

    let mut m = clone_move(&hint);
    s.perform_move(&mut m).unwrap();
    let after = s.add_to_history(m);
    assert_eq!(after, AfterMove::CoveredBySolution);
    assert_eq!(s.solution_moves.len(), 1);
    assert!(moves_equal(&s.solution_moves[0], &follow_up));

    // A move the solution does not cover asks for a re-solve.
    let stray = move_from_strings(
        "tableau_1".to_string(),
        "spade_4".to_string(),
        "tableau_2".to_string(),
        MoveInstruction::Plain,
    );
    let after = s.add_to_history(stray);
    assert_eq!(after, AfterMove::ResolveNeeded);
    assert_eq!(s.solution_moves.len(), 1);
}

#[test]
fn stale_resolve_results_are_discarded() {
    // Two rapid moves: only the re-solve result for the second move's
    // layout is ever applied; the late result for the first layout is
    // discarded.
    let mut s = one_pile_session();
    let m1 = create_move("play", "club_ace", "foundation", MoveInstruction::Plain);
    let m2 = create_move("foundation", "club_ace", "play", MoveInstruction::Plain);
    s.history.push(m1);
    s.history.push(m2);

    let late = vec![create_move("play", "club_ace", "foundation", MoveInstruction::Plain)];
    let verdict = s.resolve_completed(1, Some(late), false);
    assert_eq!(verdict, ResolveVerdict::Stale);
    assert_eq!(s.solution_moves.len(), 0);

    let fresh = vec![create_move("foundation", "club_ace", "play", MoveInstruction::Plain)];
    let verdict = s.resolve_completed(2, Some(fresh), false);
    assert_eq!(verdict, ResolveVerdict::Accepted);
    assert_eq!(s.solution_moves.len(), 1);
    assert_eq!(s.solution_moves[0].origin_stack, "foundation");
}

#[test]
fn unsolvable_prompts_once_then_respects_the_choice() {
    let mut s = one_pile_session();
    s.history.push(create_move("play", "club_ace", "foundation", MoveInstruction::Plain));
    // An earlier failure was recorded for move 0; now the re-solve for
    // the current layout (move 1) also fails.
    let verdict = s.resolve_completed(0, None, false);
    assert_eq!(verdict, ResolveVerdict::Noted);
    let verdict = s.resolve_completed(1, None, false);
    assert_eq!(verdict, ResolveVerdict::PromptUnsolvable { rollback_to: 0 });
    // The player declines; later failures stay quiet.
    s.keep_playing_unverified();
    let verdict = s.resolve_completed(1, None, false);
    assert_eq!(verdict, ResolveVerdict::KeepPlaying);
}

#[test]
fn cancelled_attempts_never_record_unsolvability() {
    let mut s = one_pile_session();
    s.history.push(create_move("play", "club_ace", "foundation", MoveInstruction::Plain));
    let verdict = s.resolve_completed(0, None, true);
    assert_eq!(verdict, ResolveVerdict::Noted);
    assert_eq!(s.first_unsolvable, None);
}

#[test]
fn rollback_restores_the_known_solvable_point() {
    let mut s = one_pile_session();
    let mut m = create_move("play", "club_ace", "foundation", MoveInstruction::Plain);
    s.perform_move(&mut m).unwrap();
    s.history.push(m);
    // The re-solve for this layout fails; the player accepts rollback.
    let verdict = s.resolve_completed(1, None, false);
    assert_eq!(verdict, ResolveVerdict::PromptUnsolvable { rollback_to: 0 });
    s.rollback_to_solvable(0).unwrap();
    assert_eq!(s.history.len(), 0);
    assert_eq!(s.piles, vec![vec![encode(0, 0, false)], Vec::new()]);
}

#[test]
fn hints_and_deal_counter() {
    let mut s = one_pile_session();
    assert!(s.get_hint().is_none());
    let m = create_move("play", "club_ace", "foundation", MoveInstruction::Plain);
    s.set_solution(vec![clone_move(&m)]);
    let hint = s.get_hint().unwrap();
    assert!(moves_equal(&hint, &m));
    assert_eq!(s.get_deals(), 0);
    s.update_deals(2);
    assert_eq!(s.get_deals(), 2);
    s.clear_history_and_moves();
    assert!(s.get_hint().is_none());
    let (names, piles) = s.get_solver_state();
    assert_eq!(names, vec!["play".to_string(), "foundation".to_string()]);
    assert_eq!(piles, s.piles);
    s.clear_state();
    assert_eq!(s.stack_names.len(), 0);
    assert_eq!(s.piles.len(), 0);
}

#[test]
fn solutions_render_under_board_names() {
    let names = vec!["play".to_string(), "foundation".to_string()];
    let sm = solitaire::solver::create_move(0, &encode(0, 0, false), 1, MoveInstruction::Plain);
    let rendered = solution_to_moves(&names, &vec![sm]).unwrap();
    assert_eq!(rendered.len(), 1);
    assert_eq!(rendered[0].origin_stack, "play");
    assert_eq!(rendered[0].card_name, "club_ace");
    assert_eq!(rendered[0].destination_stack, "foundation");
}

#[test]
fn re_solve_finds_the_trivial_win() {
    let names = vec!["play".to_string(), "foundation".to_string()];
    let piles = vec![vec![encode(0, 0, false)], Vec::new()];
    let flag = AtomicBool::new(false);
    let result = re_solve(GameKind::OneFoundation { play_piles: 1 }, &names, &piles, &flag);
    let moves = result.unwrap().unwrap();
    assert_eq!(moves.len(), 1);
    assert_eq!(moves[0].origin_stack, "play");
    assert_eq!(moves[0].card_name, "club_ace");
    assert_eq!(moves[0].destination_stack, "foundation");
}

#[test]
fn inapplicable_moves_are_reported_as_bad() {
    let mut s = one_pile_session();
    let before = s.piles.clone();
    // Origin and destination resolve to the same pile.
    let mut m = create_move("play", "club_ace", "play", MoveInstruction::Plain);
    assert_eq!(s.perform_move(&mut m), Err(SessionError::BadMove(SolverError::SameStack)));
    assert_eq!(s.piles, before);
}

#[test]
fn undo_many_leaves_the_cached_solution_alone() {
    let mut s = one_pile_session();
    let mut m = create_move("play", "club_ace", "foundation", MoveInstruction::Plain);
    s.perform_move(&mut m).unwrap();
    s.history.push(clone_move(&m));
    let follow_up = create_move("foundation", "club_ace", "play", MoveInstruction::Plain);
    s.set_solution(vec![clone_move(&follow_up)]);
    s.undo_many(0).unwrap();
    assert_eq!(s.history.len(), 0);
    assert_eq!(s.undo_history.len(), 1);
    // Unlike a single undo, the bulk rollback never touches the cache.
    assert_eq!(s.solution_moves.len(), 1);
    assert!(moves_equal(&s.solution_moves[0], &follow_up));
    // A single undo, by contrast, prepends the undone move.
    s.redo_first_move().unwrap();
    s.undo_last_move().unwrap();
    assert_eq!(s.solution_moves.len(), 2);
}
